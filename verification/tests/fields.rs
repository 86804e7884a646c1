use piper::context::{FieldValues, COMMA_BYTE, NEWLINE_BYTE, PIPE_BYTE, SPACE_BYTE};

#[test]
fn separator_constants_are_the_ascii_bytes() {
    assert_eq!(SPACE_BYTE, b' ');
    assert_eq!(COMMA_BYTE, b',');
    assert_eq!(NEWLINE_BYTE, b'\n');
    assert_eq!(PIPE_BYTE, b'|');
}

#[test]
fn field_start_and_end_follow_the_delimiters() {
    // offsets of the spaces: 3 and 7
    let fv = FieldValues::parse(b"one two three", SPACE_BYTE, 3);

    assert_eq!(fv.field_start(0), 0);
    assert_eq!(fv.field_start(1), 0);
    assert_eq!(fv.field_start(2), 4);
    assert_eq!(fv.field_start(3), 8);
    assert_eq!(fv.field_start(4), 13);
    assert_eq!(fv.field_start(usize::MAX), 13);

    assert_eq!(fv.field_end(1), 3);
    assert_eq!(fv.field_end(2), 7);
    assert_eq!(fv.field_end(3), 13);
    assert_eq!(fv.field_end(4), 13);
    assert_eq!(fv.field_end(usize::MAX), 13);
}

#[test]
fn field_past_the_last_is_empty() {
    let fv = FieldValues::parse(b"a b", SPACE_BYTE, 1);
    assert_eq!(fv.single(2), b"b");
    assert_eq!(fv.single(3), b"");
    assert_eq!(fv.single(4), b"");
    assert_eq!(fv.single(1000), b"");
    assert_eq!(fv.single(usize::MAX), b"");

    let none = FieldValues::parse(b"abc", SPACE_BYTE, 1);
    assert_eq!(none.single(1), b"abc");
    assert_eq!(none.single(2), b"");
}

#[test]
fn unbounded_from_the_first_field_is_the_record() {
    let records: [&[u8]; 6] = [b"", b" ", b"a", b"a b c", b" lead", b"trail  "];
    for record in records {
        let fv = FieldValues::parse(record, SPACE_BYTE, 1);
        assert_eq!(fv.unbounded(1), record);
        assert_eq!(fv.unbounded(0), record);
    }
}

#[test]
fn empty_record_has_one_empty_field() {
    let fv = FieldValues::parse(b"", SPACE_BYTE, 1);
    assert_eq!(fv.single(1), b"");
    assert_eq!(fv.single(2), b"");
    assert_eq!(fv.range(1, 2), b"");
    assert_eq!(fv.unbounded(1), b"");
}

#[test]
fn trailing_spaces_give_trailing_empty_fields() {
    let fv = FieldValues::parse(b"a  ", SPACE_BYTE, 1);
    assert_eq!(fv.single(1), b"a");
    assert_eq!(fv.single(2), b"");
    assert_eq!(fv.single(3), b"");
    assert_eq!(fv.range(1, 2), b"a ");
    assert_eq!(fv.range(1, 3), b"a  ");
    assert_eq!(fv.range(2, 3), b" ");
    assert_eq!(fv.unbounded(2), b" ");
    assert_eq!(fv.unbounded(3), b"");
}

#[test]
fn ranges_keep_the_separator_of_the_record() {
    let fv = FieldValues::parse(b"a|b|c|d", PIPE_BYTE, 4);
    assert_eq!(fv.range(2, 3), b"b|c");
    assert_eq!(fv.range(0, 2), b"a|b");
    assert_eq!(fv.range(3, 9), b"c|d");
    assert_eq!(fv.range(5, 9), b"");
    assert_eq!(fv.unbounded(3), b"c|d");
}

#[test]
fn more_delimiters_than_the_vector_holds_inline() {
    // 40 separators: the offsets no longer fit the 32 inline slots
    let record = [b' '; 40];
    let fv = FieldValues::parse(&record, SPACE_BYTE, 0);
    for field in 1..=41 {
        assert_eq!(fv.single(field), b"");
        assert_eq!(fv.field_start(field), field - 1);
    }
    assert_eq!(fv.field_end(40), 39);
    assert_eq!(fv.field_end(41), 40);
    assert_eq!(fv.range(2, 4), b"  ");
    assert_eq!(fv.unbounded(40), b" ");

    let mut long = Vec::new();
    for i in 0..100u8 {
        long.push(b'a' + (i % 26));
        long.push(b',');
    }
    let fields = FieldValues::parse(&long, COMMA_BYTE, 64);
    assert_eq!(fields.single(1), b"a");
    assert_eq!(fields.single(27), b"a");
    assert_eq!(fields.single(100), b"v");
    assert_eq!(fields.single(101), b"");
    assert_eq!(fields.range(99, 100), b"u,v");
}

#[test]
fn equal_records_give_equal_field_values() {
    let a = FieldValues::parse(b"x y", SPACE_BYTE, 1);
    let b = FieldValues::parse(b"x y", SPACE_BYTE, 7);
    let c = FieldValues::parse(b"x y", COMMA_BYTE, 1);
    assert_eq!(a, b);
    assert_ne!(a, c);
}

#[test]
fn records_that_fit() {
    let most = isize::MAX as usize;
    assert!(FieldValues::fits(0));
    assert!(FieldValues::fits(13));
    assert!(FieldValues::fits(most / 16));
    assert!(!FieldValues::fits(most / 16 + 1));
    assert!(!FieldValues::fits(usize::MAX));
}

#[test]
fn any_hint_gives_the_same_fields() {
    let record = b"one two  three ";
    let first = FieldValues::parse(record, SPACE_BYTE, 0);
    for hint in [0, 1, 4, 32, 33, 1000, usize::MAX / 2, usize::MAX] {
        let fv = FieldValues::parse(record, SPACE_BYTE, hint);
        assert_eq!(fv, first);
        assert_eq!(fv.single(1), b"one");
        assert_eq!(fv.single(3), b"");
        assert_eq!(fv.single(4), b"three");
        assert_eq!(fv.single(5), b"");
        assert_eq!(fv.single(6), b"");
        assert_eq!(fv.unbounded(1), record);
        assert_eq!(fv.unbounded(0), record);
    }
    let empty = FieldValues::parse(b"", SPACE_BYTE, usize::MAX);
    assert_eq!(empty.single(1), b"");
    assert_eq!(empty.single(2), b"");
    assert_eq!(empty.unbounded(1), b"");
}
