use piper::context::Fragment::{FieldRange, SingleField, StaticValue, UnboundedFieldRange};
use piper::context::{FieldValues, OutputTemplate, COMMA_BYTE, SPACE_BYTE};

#[test]
fn test_merge_single_value() {
    let values = FieldValues::parse(b"first second third fourth fifth sixth", SPACE_BYTE, 1);

    let result = OutputTemplate::parse("single: {2}")
        .unwrap()
        .merge(values)
        .unwrap();

    assert_eq!(result, "single: second");
}

#[test]
fn test_merge_range() {
    let values = FieldValues::parse(b"first second third fourth fifth sixth", SPACE_BYTE, 1);

    let result = OutputTemplate::parse("range: {1,3}")
        .unwrap()
        .merge(values)
        .unwrap();
    assert_eq!(result, "range: first second third");
}

#[test]
fn test_merge_unbounded() {
    let values = FieldValues::parse(b"first second third fourth fifth sixth", SPACE_BYTE, 1);

    let result = OutputTemplate::parse("range: {4,}")
        .unwrap()
        .merge(values)
        .unwrap();

    assert_eq!(result, "range: fourth fifth sixth");
}

#[test]
fn test_merge_all() {
    let values = FieldValues::parse(b"first second third fourth", SPACE_BYTE, 1);

    let result = OutputTemplate::parse("all: {0}")
        .unwrap()
        .merge(values)
        .unwrap();

    assert_eq!(result, "all: first second third fourth");
}

#[test]
fn test_alternate_field_delimiter_same_output_delimiter() {
    let values = FieldValues::parse(b"first,second,third,fourth,fifth,sixth", COMMA_BYTE, 1);

    let result = OutputTemplate::parse("range: {4,}")
        .unwrap()
        .merge(values)
        .unwrap();

    assert_eq!(result, "range: fourth,fifth,sixth");
}

#[test]
fn test_equality() {
    let a = OutputTemplate::new(
        "baz",
        vec![
            StaticValue(b"".to_vec()),
            SingleField(1),
            FieldRange(2, 4),
            UnboundedFieldRange(2),
        ],
    );

    let b = OutputTemplate::new(
        "baz",
        vec![
            StaticValue(b"".to_vec()),
            SingleField(1),
            FieldRange(2, 4),
            UnboundedFieldRange(2),
        ],
    );
    assert_eq!(a, b);
}

#[test]
fn test_extract_fragments() {
    assert_eq!(OutputTemplate::extract_fragments("").unwrap(), vec![]);
    assert_eq!(
        OutputTemplate::extract_fragments("foo").unwrap(),
        vec![StaticValue(b"foo".to_vec())]
    );
    assert_eq!(
        OutputTemplate::extract_fragments("foo bar baz").unwrap(),
        vec![StaticValue(b"foo bar baz".to_vec())]
    );
    assert_eq!(
        OutputTemplate::extract_fragments("{}").unwrap(),
        vec![SingleField(1)]
    );
    assert_eq!(
        OutputTemplate::extract_fragments("{}{}").unwrap(),
        vec![SingleField(1), SingleField(2)]
    );
    assert_eq!(
        OutputTemplate::extract_fragments("{}foo{}{1}bar{}{5}").unwrap(),
        vec![
            SingleField(1),
            StaticValue(b"foo".to_vec()),
            SingleField(2),
            SingleField(1),
            StaticValue(b"bar".to_vec()),
            SingleField(3),
            SingleField(5)
        ]
    );
    assert_eq!(
        OutputTemplate::extract_fragments("{2,4}").unwrap(),
        vec![FieldRange(2, 4)]
    );
    assert_eq!(
        OutputTemplate::extract_fragments("foo{2,4}bar").unwrap(),
        vec![
            StaticValue(b"foo".to_vec()),
            FieldRange(2, 4),
            StaticValue(b"bar".to_vec())
        ]
    );
    assert_eq!(
        OutputTemplate::extract_fragments("{2,}").unwrap(),
        vec![UnboundedFieldRange(2)]
    );
    assert_eq!(
        OutputTemplate::extract_fragments("{1}{2,3}{0}{5,}").unwrap(),
        vec![
            SingleField(1),
            FieldRange(2, 3),
            UnboundedFieldRange(1),
            UnboundedFieldRange(5),
        ]
    );
    assert_eq!(
        OutputTemplate::extract_fragments(
            "foo {1} bar {2,5} baz {6,} qux {0} quxx {11,66} quxxx {}"
        )
        .unwrap(),
        vec![
            StaticValue(b"foo ".to_vec()),
            SingleField(1),
            StaticValue(b" bar ".to_vec()),
            FieldRange(2, 5),
            StaticValue(b" baz ".to_vec()),
            UnboundedFieldRange(6),
            StaticValue(b" qux ".to_vec()),
            UnboundedFieldRange(1),
            StaticValue(b" quxx ".to_vec()),
            FieldRange(11, 66),
            StaticValue(b" quxxx ".to_vec()),
            SingleField(1),
        ]
    );
}

#[test]
fn test_field_value_extract() {
    let fv = FieldValues::parse(b"one two three", SPACE_BYTE, 0);

    assert_eq!(fv.single(1), b"one");
    assert_eq!(fv.single(2), b"two");
    assert_eq!(fv.single(3), b"three");
    assert_eq!(fv.single(4), b"");

    assert_eq!(fv.range(1, 1), b"one");
    assert_eq!(fv.range(1, 2), b"one two");
    assert_eq!(fv.range(1, 3), b"one two three");
    assert_eq!(fv.range(1, 4), b"one two three");
    assert_eq!(fv.range(2, 4), b"two three");

    assert_eq!(fv.unbounded(1), b"one two three");
    assert_eq!(fv.unbounded(2), b"two three");
    assert_eq!(fv.unbounded(3), b"three");
    assert_eq!(fv.unbounded(4), b"");
}
