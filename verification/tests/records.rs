use piper::pipeline::{output_line, RequestContext, RequestFactory, ResponseContext};
use piper::records::{Record, RecordSplitter};

fn record(bytes: &[u8], id: u64) -> Record {
    Record {
        bytes: bytes.to_vec(),
        id,
    }
}

fn records_of(chunks: &[&[u8]]) -> Vec<Record> {
    let mut splitter = RecordSplitter::new();
    let mut records = Vec::new();
    for chunk in chunks {
        records.extend(splitter.push_chunk(chunk));
    }
    records.extend(splitter.finish());
    records
}

#[test]
fn one_record_for_each_line_feed() {
    assert_eq!(
        records_of(&[b"a\nb\nc\n"]),
        vec![record(b"a", 1), record(b"b", 2), record(b"c", 3)]
    );
}

#[test]
fn last_record_may_lack_its_line_feed() {
    assert_eq!(
        records_of(&[b"1\n2\n3\n4\n5"]),
        vec![
            record(b"1", 1),
            record(b"2", 2),
            record(b"3", 3),
            record(b"4", 4),
            record(b"5", 5)
        ]
    );
    assert_eq!(records_of(&[b"only"]), vec![record(b"only", 1)]);
}

#[test]
fn empty_input_has_no_record() {
    assert_eq!(records_of(&[]), Vec::<Record>::new());
    assert_eq!(records_of(&[b""]), Vec::<Record>::new());
    assert_eq!(records_of(&[b"", b""]), Vec::<Record>::new());
}

#[test]
fn empty_lines_are_empty_records() {
    assert_eq!(records_of(&[b"\n"]), vec![record(b"", 1)]);
    assert_eq!(
        records_of(&[b"a\n\nb\n\n"]),
        vec![record(b"a", 1), record(b"", 2), record(b"b", 3), record(b"", 4)]
    );
}

#[test]
fn carriage_return_stays_in_the_record() {
    assert_eq!(
        records_of(&[b"a\r\nb\r\n\rc"]),
        vec![record(b"a\r", 1), record(b"b\r", 2), record(b"\rc", 3)]
    );
}

#[test]
fn records_do_not_depend_on_where_the_reads_end() {
    let whole: &[u8] = b"first second\nthird\n\nfourth fifth";
    let expected = records_of(&[whole]);
    assert_eq!(
        expected,
        vec![
            record(b"first second", 1),
            record(b"third", 2),
            record(b"", 3),
            record(b"fourth fifth", 4)
        ]
    );
    for cut in 0..=whole.len() {
        assert_eq!(records_of(&[&whole[..cut], &whole[cut..]]), expected);
    }
    let bytes: Vec<&[u8]> = whole.chunks(1).collect();
    assert_eq!(records_of(&bytes), expected);
}

#[test]
fn chunk_hands_out_only_the_records_it_ends() {
    let mut splitter = RecordSplitter::new();
    assert_eq!(splitter.yielded(), 0);
    assert_eq!(splitter.push_chunk(b"ab"), Vec::<Record>::new());
    assert_eq!(
        splitter.push_chunk(b"c\nde\nf"),
        vec![record(b"abc", 1), record(b"de", 2)]
    );
    assert_eq!(splitter.yielded(), 2);
    assert_eq!(splitter.push_chunk(b""), Vec::<Record>::new());
    assert_eq!(splitter.push_chunk(b"\n"), vec![record(b"f", 3)]);
    assert_eq!(splitter.yielded(), 3);
    assert_eq!(splitter.finish(), None);

    let mut open = RecordSplitter::new();
    assert_eq!(open.push_chunk(b"x\ny"), vec![record(b"x", 1)]);
    assert_eq!(open.finish(), Some(record(b"y", 2)));
}

#[test]
fn records_with_their_line_feeds_are_the_input() {
    let input: &[u8] = b"a b\n\nc\r\nd";
    let mut splitter = RecordSplitter::new();
    let terminated = splitter.push_chunk(input);
    let rest = splitter.finish();
    let mut joined = Vec::new();
    for record in &terminated {
        assert!(!record.bytes.contains(&b'\n'));
        joined.extend_from_slice(&record.bytes);
        joined.push(b'\n');
    }
    joined.extend(rest.unwrap().bytes);
    assert_eq!(joined, input);
}

#[test]
fn five_records_give_five_requests_and_five_lines() {
    let factory = RequestFactory::new("http://localhost:7878/ping?id={1}", "GET").unwrap();
    let mut lines = String::new();
    let mut count = 0;
    for record in records_of(&[b"1\n2\n3\n4\n5"]) {
        let request = factory.request_for(&record).unwrap();
        count += 1;
        assert_eq!(
            request,
            RequestContext {
                url: format!("http://localhost:7878/ping?id={}", count),
                method: "GET".to_string(),
                id: count,
            }
        );
        let response = ResponseContext {
            request_context: request,
            status: 200,
            text: "pong".to_string(),
            elapsed_millis: 1,
        };
        lines.push_str(&output_line(&response));
    }
    assert_eq!(count, 5);
    assert_eq!(lines, "pong\npong\npong\npong\npong\n");
}

#[test]
fn numbers_suffice_for_any_read() {
    let mut splitter = RecordSplitter::new();
    assert!(splitter.can_take(0));
    assert!(splitter.can_take(8192));
    splitter.push_chunk(b"a\nb\n");
    assert!(splitter.can_take(8192));
    assert_eq!(splitter.can_take(usize::MAX), (usize::MAX as u64) < u64::MAX - 2);
}
