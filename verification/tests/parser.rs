use piper::grammar::ErrorKind::{Char, Digit, Eof, IsNot, TakeTill1};
use piper::grammar::ErrorKind;
use piper::parser::RequestFragment::{
    EscapedChar, FieldRange, Literal, SingleField, UnboundedFieldRange,
};
use piper::parser::{
    complete_parse_request_fragments, inside_brackets, parse_escaped_char, parse_field_range,
    parse_literal, parse_numeric_field, parse_request_fragment, parse_request_fragments,
    parse_single_field, parse_unbounded_field_range, ParseError,
};

fn stopped<'a>(input: &'a str, code: ErrorKind) -> ParseError<'a> {
    ParseError {
        input: input.as_bytes(),
        code,
    }
}

#[test]
fn test_parse_literal() {
    assert_eq!(parse_literal("".as_bytes()), Err(stopped("", IsNot)));
    assert_eq!(
        parse_literal("abcd".as_bytes()),
        Ok(("".as_bytes(), "abcd".as_bytes()))
    );
    assert_eq!(
        parse_literal("the fox".as_bytes()),
        Ok(("".as_bytes(), "the fox".as_bytes()))
    );
    assert_eq!(
        parse_literal("the }} fox".as_bytes()),
        Ok(("".as_bytes(), "the }} fox".as_bytes()))
    );

    // should stop when it hits the start of a possible token
    assert_eq!(
        parse_literal("the {} fox".as_bytes()),
        Ok(("{} fox".as_bytes(), "the ".as_bytes()))
    );

    // should stop when it hits an escaped character
    assert_eq!(
        parse_literal("the \\n fox".as_bytes()),
        Ok(("\\n fox".as_bytes(), "the ".as_bytes()))
    );

    assert_eq!(
        parse_literal("the \\{\\} fox".as_bytes()),
        Ok(("\\{\\} fox".as_bytes(), "the ".as_bytes()))
    );
}

#[test]
fn test_parse_escaped_character() {
    assert_eq!(
        parse_escaped_char("\\\\ fox".as_bytes()),
        Ok((" fox".as_bytes(), '\\'))
    );
    assert_eq!(
        parse_escaped_char("\\{ fox".as_bytes()),
        Ok((" fox".as_bytes(), '{'))
    );
    assert_eq!(
        parse_escaped_char("\\} fox".as_bytes()),
        Ok((" fox".as_bytes(), '}'))
    );
    assert_eq!(
        parse_escaped_char("\\n fox".as_bytes()),
        Ok((" fox".as_bytes(), 'n'))
    );
    assert_eq!(
        parse_escaped_char("first char must be backslash \\ fox".as_bytes()),
        Err(stopped("first char must be backslash \\ fox", Char))
    );
}

#[test]
fn test_inside_brackets() {
    assert_eq!(
        inside_brackets("{}".as_bytes()),
        Err(stopped("}", TakeTill1))
    );
    assert_eq!(
        inside_brackets("{1}".as_bytes()),
        Ok(("".as_bytes(), "1".as_bytes()))
    );
    assert_eq!(
        inside_brackets("{100}".as_bytes()),
        Ok(("".as_bytes(), "100".as_bytes()))
    );
    assert_eq!(
        inside_brackets("{2,}".as_bytes()),
        Ok(("".as_bytes(), "2,".as_bytes()))
    );
    assert_eq!(
        inside_brackets("{200,}".as_bytes()),
        Ok(("".as_bytes(), "200,".as_bytes()))
    );
    assert_eq!(
        inside_brackets("{2,4}".as_bytes()),
        Ok(("".as_bytes(), "2,4".as_bytes()))
    );
    assert_eq!(
        inside_brackets("{200,400}".as_bytes()),
        Ok(("".as_bytes(), "200,400".as_bytes()))
    );

    // inside brackets can also look for character sequences, really anything till the closing curly brace
    assert_eq!(
        inside_brackets("{foobar}".as_bytes()),
        Ok(("".as_bytes(), "foobar".as_bytes()))
    );
    assert_eq!(
        inside_brackets("{foo bar}".as_bytes()),
        Ok(("".as_bytes(), "foo bar".as_bytes()))
    );

    assert_eq!(
        inside_brackets("{H}".as_bytes()),
        Ok(("".as_bytes(), "H".as_bytes()))
    );
    assert_eq!(
        inside_brackets("{H:content-length}".as_bytes()),
        Ok(("".as_bytes(), "H:content-length".as_bytes()))
    );

    // utf-8 works too
    assert_eq!(
        inside_brackets("{ðŸ’¯}".as_bytes()),
        Ok(("".as_bytes(), "ðŸ’¯".as_bytes()))
    );

    // it is _not_ currently smart enough to allow nested curly brackets
    assert_eq!(
        inside_brackets("{foo \\{\\} bar}".as_bytes()),
        Ok((" bar}".as_bytes(), "foo \\{\\".as_bytes()))
    );
    assert_eq!(
        inside_brackets("{foo {} bar}".as_bytes()),
        Ok((" bar}".as_bytes(), "foo {".as_bytes()))
    );

    // it leaves the things alone after the closing bracket
    assert_eq!(
        inside_brackets("{1} after".as_bytes()),
        Ok((" after".as_bytes(), "1".as_bytes()))
    );
}

#[test]
fn test_parse_single_field() {
    assert_eq!(
        parse_single_field("1".as_bytes()),
        Ok(("".as_bytes(), SingleField(1)))
    );
    assert_eq!(
        parse_single_field("100".as_bytes()),
        Ok(("".as_bytes(), SingleField(100)))
    );

    assert_eq!(
        parse_single_field("100,".as_bytes()),
        Err(stopped(",", Eof))
    );
    assert_eq!(
        parse_single_field("100,200".as_bytes()),
        Err(stopped(",200", Eof))
    );
}

#[test]
fn test_parse_field_range() {
    assert_eq!(
        parse_field_range("1,2".as_bytes()),
        Ok(("".as_bytes(), FieldRange(1, 2)))
    );
    assert_eq!(
        parse_field_range("100,200".as_bytes()),
        Ok(("".as_bytes(), FieldRange(100, 200)))
    );

    assert_eq!(
        parse_field_range("100,".as_bytes()),
        Err(stopped("", Digit))
    );
    assert_eq!(
        parse_field_range("100".as_bytes()),
        Err(stopped("", Char))
    );
}

#[test]
fn test_parse_unbounded_field_range() {
    assert_eq!(
        parse_unbounded_field_range("1,".as_bytes()),
        Ok(("".as_bytes(), UnboundedFieldRange(1)))
    );
    assert_eq!(
        parse_unbounded_field_range("100,".as_bytes()),
        Ok(("".as_bytes(), UnboundedFieldRange(100)))
    );

    assert_eq!(
        parse_unbounded_field_range("100,200".as_bytes()),
        Err(stopped("200", Eof))
    );
    assert_eq!(
        parse_unbounded_field_range("100".as_bytes()),
        Err(stopped("", Char))
    );
}

#[test]
fn test_parse_field() {
    // extract different kinds of fields without static text
    assert_eq!(
        parse_numeric_field("{1}".as_bytes()),
        Ok(("".as_bytes(), SingleField(1)))
    );
    assert_eq!(
        parse_numeric_field("{100}".as_bytes()),
        Ok(("".as_bytes(), SingleField(100)))
    );
    assert_eq!(
        parse_numeric_field("{2,}".as_bytes()),
        Ok(("".as_bytes(), UnboundedFieldRange(2)))
    );
    assert_eq!(
        parse_numeric_field("{200,}".as_bytes()),
        Ok(("".as_bytes(), UnboundedFieldRange(200)))
    );
    assert_eq!(
        parse_numeric_field("{2,4}".as_bytes()),
        Ok(("".as_bytes(), FieldRange(2, 4)))
    );
    assert_eq!(
        parse_numeric_field("{200,400}".as_bytes()),
        Ok(("".as_bytes(), FieldRange(200, 400)))
    );

    // extract different kinds of fields followed by other text
    assert_eq!(
        parse_numeric_field("{1} after".as_bytes()),
        Ok((" after".as_bytes(), SingleField(1)))
    );
    assert_eq!(
        parse_numeric_field("{2} after".as_bytes()),
        Ok((" after".as_bytes(), SingleField(2)))
    );
    assert_eq!(
        parse_numeric_field("{2,} after".as_bytes()),
        Ok((" after".as_bytes(), UnboundedFieldRange(2)))
    );
    assert_eq!(
        parse_numeric_field("{2,4} after".as_bytes()),
        Ok((" after".as_bytes(), FieldRange(2, 4)))
    );

    // error if we don't close our field appropriately
    assert_eq!(
        parse_numeric_field("{1".as_bytes()),
        Err(stopped("", Char))
    );

    // error if we have some invalid text inside
    assert_eq!(
        parse_numeric_field("{f}".as_bytes()),
        Err(stopped("f", Digit))
    );
}

#[test]
fn test_parse_request_fragment() {
    assert_eq!(
        parse_request_fragment("before {1} after".as_bytes()),
        Ok(("{1} after".as_bytes(), Literal("before ".as_bytes())))
    );
    assert_eq!(
        parse_request_fragment("before \\{1\\} after".as_bytes()),
        Ok(("\\{1\\} after".as_bytes(), Literal("before ".as_bytes())))
    );

    assert_eq!(
        parse_request_fragment("\\\\ after".as_bytes()),
        Ok((" after".as_bytes(), EscapedChar('\\')))
    );
    assert_eq!(
        parse_request_fragment("\\{ after".as_bytes()),
        Ok((" after".as_bytes(), EscapedChar('{')))
    );

    assert_eq!(
        parse_request_fragment("{1} after".as_bytes()),
        Ok((" after".as_bytes(), SingleField(1)))
    );
    assert_eq!(
        parse_request_fragment("{2,} after".as_bytes()),
        Ok((" after".as_bytes(), UnboundedFieldRange(2)))
    );
    assert_eq!(
        parse_request_fragment("{2,4} after".as_bytes()),
        Ok((" after".as_bytes(), FieldRange(2, 4)))
    );

    // malformed expression, no closing bracket matching the opening one
    assert_eq!(
        parse_request_fragment("{2,4\\} after".as_bytes()),
        Err(stopped("4\\", Eof))
    );
}

#[test]
fn test_parse_request_fragments() {
    assert_eq!(
        parse_request_fragments("".as_bytes()),
        Ok(("".as_bytes(), vec![]))
    );
    assert_eq!(
        parse_request_fragments("abc".as_bytes()),
        Ok(("".as_bytes(), vec![Literal("abc".as_bytes())]))
    );
    assert_eq!(
        parse_request_fragments("\\{".as_bytes()),
        Ok(("".as_bytes(), vec![EscapedChar('{')]))
    );
    assert_eq!(
        parse_request_fragments("{1}".as_bytes()),
        Ok(("".as_bytes(), vec![SingleField(1)]))
    );
    assert_eq!(
        parse_request_fragments("{1,3}".as_bytes()),
        Ok(("".as_bytes(), vec![FieldRange(1, 3)]))
    );
    assert_eq!(
        parse_request_fragments("{3,}".as_bytes()),
        Ok(("".as_bytes(), vec![UnboundedFieldRange(3)]))
    );

    assert_eq!(
        parse_request_fragments("a {1} \\{\\} {3,} b {4,6} end\n".as_bytes()),
        Ok((
            "".as_bytes(),
            vec![
                Literal("a ".as_bytes()),
                SingleField(1),
                Literal(" ".as_bytes()),
                EscapedChar('{'),
                EscapedChar('}'),
                Literal(" ".as_bytes()),
                UnboundedFieldRange(3),
                Literal(" b ".as_bytes()),
                FieldRange(4, 6),
                Literal(" end\n".as_bytes()),
            ]
        ))
    );

    // malformed expression, shouldn't eat anything and leave the rest for other parsers to deal with
    assert_eq!(
        parse_request_fragments("{2,4\\} after".as_bytes()),
        Ok(("{2,4\\} after".as_bytes(), vec![])),
    );
}

#[test]
fn test_request_template_from_str() {
    assert_eq!(
        complete_parse_request_fragments("just a literal").unwrap(),
        vec![Literal("just a literal".as_bytes())]
    );

    assert_eq!(
        complete_parse_request_fragments("a literal \\{").unwrap(),
        vec![Literal("a literal ".as_bytes()), EscapedChar('{'),]
    );

    assert_eq!(
        complete_parse_request_fragments("{2,4\\} after")
            .unwrap_err()
            .to_string(),
        "Unable to process. Stopped at: {2,4\\} after"
    );
}
