//! The template parser: one function for each production of the grammar.

use crate::grammar::{
    decimal_value, escaped_char_fragment_outcome, escaped_char_outcome, field_range_outcome,
    fragments_from, implicit_field_outcome, in_class, inside_brackets_outcome,
    lemma_decimal_value_prefix, lemma_fragment_consumes, lemma_run_len_bounds,
    lemma_run_len_is, lemma_tail_from, literal_fragment_outcome, literal_outcome, num_outcome,
    numeric_field_outcome, request_fragment_outcome, request_fragments, resolve, run_len,
    single_field_outcome, tail_from, unbounded_field_range_outcome, well_formed, ByteClass,
    ErrorKind, Failure, FragmentSpec, Outcome, BACKSLASH, CLOSE_BRACE, COMMA, DIGIT_NINE,
    DIGIT_ZERO, OPEN_BRACE,
};
use crate::utf8::decode_scalar;
use vstd::prelude::*;
use vstd::slice::slice_subrange;
use vstd::string::{StringExecFns, StringSliceAdditionalSpecFns};
use vstd::utf8::{
    encode_utf8_decode_utf8, encode_utf8_valid_utf8, is_char_boundary_iff_not_is_continuation_byte,
};

verus! {

/// Where a production stopped in the input, and why.
#[derive(Clone, Copy, Debug, PartialEq, Eq)]
pub struct ParseError<'a> {
    /// The input from the place where reading stopped.
    pub input: &'a [u8],
    /// Why reading stopped there.
    pub code: ErrorKind,
}

impl<'a> View for ParseError<'a> {
    type V = Failure;

    open spec fn view(&self) -> Failure {
        Failure { input: self.input@, code: self.code }
    }
}

/// Template fragments that are valid at request time: literal bytes,
/// escaped characters and references to the fields of the input record.
#[derive(Clone, Debug, PartialEq)]
pub enum RequestFragment<'a> {
    /// `a value`: bytes that stand for themselves.
    Literal(&'a [u8]),
    /// A character after a backslash, as in `\{`.
    EscapedChar(char),
    /// `{2}`: field 2.
    SingleField(usize),
    /// `{2,4}`: fields 2, 3 and 4.
    FieldRange(usize, usize),
    /// `{2,}`: field 2 and all after it.
    UnboundedFieldRange(usize),
    /// `{}`: the field whose number is the rank of this placeholder among
    /// those without a number.
    Implicit,
}

impl<'a> View for RequestFragment<'a> {
    type V = FragmentSpec;

    open spec fn view(&self) -> FragmentSpec {
        match *self {
            RequestFragment::Literal(bytes) => FragmentSpec::Literal(bytes@),
            RequestFragment::EscapedChar(c) => FragmentSpec::EscapedChar(c),
            RequestFragment::SingleField(field) => FragmentSpec::SingleField(field as int),
            RequestFragment::FieldRange(lo, hi) => FragmentSpec::FieldRange(lo as int, hi as int),
            RequestFragment::UnboundedFieldRange(lo) => FragmentSpec::UnboundedFieldRange(
                lo as int,
            ),
            RequestFragment::Implicit => FragmentSpec::Implicit,
        }
    }
}

impl<'a> DeepView for RequestFragment<'a> {
    type V = FragmentSpec;

    open spec fn deep_view(&self) -> FragmentSpec {
        self.view()
    }
}

/// The outcome of a production that yields bytes.
pub open spec fn bytes_outcome(r: Result<(&[u8], &[u8]), ParseError>) -> Outcome<Seq<u8>> {
    match r {
        Ok((rest, bytes)) => Ok((rest@, bytes@)),
        Err(e) => Err(e@),
    }
}

/// The outcome of a production that yields a plain value.
pub open spec fn value_outcome<T>(r: Result<(&[u8], T), ParseError>) -> Outcome<T> {
    match r {
        Ok((rest, value)) => Ok((rest@, value)),
        Err(e) => Err(e@),
    }
}

/// The outcome of a production that yields a fragment.
pub open spec fn fragment_outcome(r: Result<(&[u8], RequestFragment), ParseError>) -> Outcome<
    FragmentSpec,
> {
    match r {
        Ok((rest, fragment)) => Ok((rest@, fragment@)),
        Err(e) => Err(e@),
    }
}

/// Whether a byte is of a class.
fn class_holds(class: ByteClass, byte: u8) -> (r: bool)
    ensures
        r == in_class(class, byte),
{
    match class {
        ByteClass::Literal => byte != OPEN_BRACE && byte != BACKSLASH,
        ByteClass::Digit => DIGIT_ZERO <= byte && byte <= DIGIT_NINE,
        ByteClass::Bracketed => byte != CLOSE_BRACE,
    }
}

/// The length of the longest prefix of `input` whose bytes are in `class`.
pub fn run_length(input: &[u8], class: ByteClass) -> (n: usize)
    ensures
        n == run_len(input@, class),
        n <= input@.len(),
{
    let mut n: usize = 0;
    while n < input.len() && class_holds(class, input[n])
        invariant
            n <= input@.len(),
            forall|j: int| 0 <= j < n ==> in_class(class, input@[j]),
        decreases input@.len() - n,
    {
        n += 1;
    }
    proof {
        lemma_run_len_is(input@, class, n as int);
    }
    n
}

/// Reads a literal: everything up to the first `{` or `\`, which must be
/// at least one byte.
pub fn parse_literal<'a>(input: &'a [u8]) -> (r: Result<(&'a [u8], &'a [u8]), ParseError<'a>>)
    ensures
        bytes_outcome(r) == literal_outcome(input@),
{
    let n = run_length(input, ByteClass::Literal);
    if n == 0 {
        return Err(ParseError { input, code: ErrorKind::IsNot });
    }
    Ok((slice_subrange(input, n, input.len()), slice_subrange(input, 0, n)))
}

/// Reads a literal as a fragment.
pub fn parse_literal_fragment<'a>(input: &'a [u8]) -> (r: Result<
    (&'a [u8], RequestFragment<'a>),
    ParseError<'a>,
>)
    ensures
        fragment_outcome(r) == literal_fragment_outcome(input@),
{
    match parse_literal(input) {
        Ok((remainder, literal)) => Ok((remainder, RequestFragment::Literal(literal))),
        Err(e) => Err(e),
    }
}

/// Reads a backslash and the character after it.
pub fn parse_escaped_char<'a>(input: &'a [u8]) -> (r: Result<(&'a [u8], char), ParseError<'a>>)
    ensures
        value_outcome(r) == escaped_char_outcome(input@),
{
    if input.len() == 0 || input[0] != BACKSLASH {
        return Err(ParseError { input, code: ErrorKind::Char });
    }
    let after = slice_subrange(input, 1, input.len());
    if after.len() == 0 {
        return Err(ParseError { input: after, code: ErrorKind::Eof });
    }
    match decode_scalar(after) {
        None => Err(ParseError { input: after, code: ErrorKind::Char }),
        Some((c, width)) => Ok((slice_subrange(after, width, after.len()), c)),
    }
}

/// Reads an escaped character as a fragment.
pub fn parse_escaped_char_fragment<'a>(input: &'a [u8]) -> (r: Result<
    (&'a [u8], RequestFragment<'a>),
    ParseError<'a>,
>)
    ensures
        fragment_outcome(r) == escaped_char_fragment_outcome(input@),
{
    match parse_escaped_char(input) {
        Ok((remainder, c)) => Ok((remainder, RequestFragment::EscapedChar(c))),
        Err(e) => Err(e),
    }
}

/// Reads `{`, then everything up to the first `}`, which must be at least
/// one byte, then that `}`.
pub fn inside_brackets<'a>(input: &'a [u8]) -> (r: Result<(&'a [u8], &'a [u8]), ParseError<'a>>)
    ensures
        bytes_outcome(r) == inside_brackets_outcome(input@),
{
    if input.len() == 0 || input[0] != OPEN_BRACE {
        return Err(ParseError { input, code: ErrorKind::Char });
    }
    let after = slice_subrange(input, 1, input.len());
    let n = run_length(after, ByteClass::Bracketed);
    if n == 0 {
        return Err(ParseError { input: after, code: ErrorKind::TakeTill1 });
    }
    if n == after.len() {
        return Err(ParseError { input: slice_subrange(after, n, n), code: ErrorKind::Char });
    }
    Ok((slice_subrange(after, n + 1, after.len()), slice_subrange(after, 0, n)))
}

/// Reads a decimal number that fits a field index.
pub fn parse_num<'a>(input: &'a [u8]) -> (r: Result<(&'a [u8], usize), ParseError<'a>>)
    ensures
        value_outcome(r) == num_outcome(input@),
{
    let n = run_length(input, ByteClass::Digit);
    if n == 0 {
        return Err(ParseError { input, code: ErrorKind::Digit });
    }
    proof {
        lemma_run_len_bounds(input@, ByteClass::Digit);
    }
    let ghost digits = input@.take(n as int);
    let mut value: usize = 0;
    let mut i: usize = 0;
    while i < n
        invariant
            i <= n <= input@.len(),
            0 < n == run_len(input@, ByteClass::Digit),
            digits == input@.take(n as int),
            forall|j: int| 0 <= j < digits.len() ==> in_class(ByteClass::Digit, digits[j]),
            value == decimal_value(digits.take(i as int)),
        decreases n - i,
    {
        proof {
            assert(digits[i as int] == input@[i as int]);
            assert(digits.take(i + 1).drop_last() == digits.take(i as int));
            assert(decimal_value(digits.take(i + 1)) == value * 10 + (input@[i as int]
                - DIGIT_ZERO));
            lemma_decimal_value_prefix(digits, i + 1);
        }
        let digit: usize = (input[i] - DIGIT_ZERO) as usize;
        let scaled = match value.checked_mul(10) {
            Some(scaled) => scaled,
            None => {
                return Err(ParseError { input, code: ErrorKind::MapRes });
            },
        };
        value = match scaled.checked_add(digit) {
            Some(sum) => sum,
            None => {
                return Err(ParseError { input, code: ErrorKind::MapRes });
            },
        };
        i += 1;
    }
    proof {
        assert(digits.take(n as int) == digits);
    }
    Ok((slice_subrange(input, n, input.len()), value))
}

/// Reads the inside of `{n}`.
pub fn parse_single_field<'a>(input: &'a [u8]) -> (r: Result<
    (&'a [u8], RequestFragment<'a>),
    ParseError<'a>,
>)
    ensures
        fragment_outcome(r) == single_field_outcome(input@),
{
    match parse_num(input) {
        Err(e) => Err(e),
        Ok((remainder, field_number)) => {
            if remainder.len() != 0 {
                Err(ParseError { input: remainder, code: ErrorKind::Eof })
            } else if field_number == 0 {
                Ok((remainder, RequestFragment::UnboundedFieldRange(1)))
            } else {
                Ok((remainder, RequestFragment::SingleField(field_number)))
            }
        },
    }
}

/// Reads the inside of `{lo,hi}`.
pub fn parse_field_range<'a>(input: &'a [u8]) -> (r: Result<
    (&'a [u8], RequestFragment<'a>),
    ParseError<'a>,
>)
    ensures
        fragment_outcome(r) == field_range_outcome(input@),
{
    let (after_start, start) = match parse_num(input) {
        Err(e) => {
            return Err(e);
        },
        Ok(read) => read,
    };
    if after_start.len() == 0 || after_start[0] != COMMA {
        return Err(ParseError { input: after_start, code: ErrorKind::Char });
    }
    let (remainder, end) = match parse_num(slice_subrange(after_start, 1, after_start.len())) {
        Err(e) => {
            return Err(e);
        },
        Ok(read) => read,
    };
    if remainder.len() != 0 {
        Err(ParseError { input: remainder, code: ErrorKind::Eof })
    } else if start < 1 || end <= start {
        Err(ParseError { input, code: ErrorKind::Verify })
    } else {
        Ok((remainder, RequestFragment::FieldRange(start, end)))
    }
}

/// Reads the inside of `{lo,}`.
pub fn parse_unbounded_field_range<'a>(input: &'a [u8]) -> (r: Result<
    (&'a [u8], RequestFragment<'a>),
    ParseError<'a>,
>)
    ensures
        fragment_outcome(r) == unbounded_field_range_outcome(input@),
{
    let (after_start, start) = match parse_num(input) {
        Err(e) => {
            return Err(e);
        },
        Ok(read) => read,
    };
    if after_start.len() == 0 || after_start[0] != COMMA {
        return Err(ParseError { input: after_start, code: ErrorKind::Char });
    }
    let remainder = slice_subrange(after_start, 1, after_start.len());
    if remainder.len() != 0 {
        Err(ParseError { input: remainder, code: ErrorKind::Eof })
    } else if start < 1 {
        Err(ParseError { input, code: ErrorKind::Verify })
    } else {
        Ok((remainder, RequestFragment::UnboundedFieldRange(start)))
    }
}

/// Reads a numbered placeholder in braces: `{1}`, `{1,4}` or `{3,}`.
pub fn parse_numeric_field<'a>(input: &'a [u8]) -> (r: Result<
    (&'a [u8], RequestFragment<'a>),
    ParseError<'a>,
>)
    ensures
        fragment_outcome(r) == numeric_field_outcome(input@),
{
    let (remaining, inside) = match inside_brackets(input) {
        Err(e) => {
            return Err(e);
        },
        Ok(read) => read,
    };
    if let Ok((_, fragment)) = parse_single_field(inside) {
        return Ok((remaining, fragment));
    }
    if let Ok((_, fragment)) = parse_field_range(inside) {
        return Ok((remaining, fragment));
    }
    match parse_unbounded_field_range(inside) {
        Ok((_, fragment)) => Ok((remaining, fragment)),
        Err(e) => Err(e),
    }
}

/// Reads `{}`.
pub fn parse_implicit_field<'a>(input: &'a [u8]) -> (r: Result<
    (&'a [u8], RequestFragment<'a>),
    ParseError<'a>,
>)
    ensures
        fragment_outcome(r) == implicit_field_outcome(input@),
{
    if input.len() >= 2 && input[0] == OPEN_BRACE && input[1] == CLOSE_BRACE {
        Ok((slice_subrange(input, 2, input.len()), RequestFragment::Implicit))
    } else {
        Err(ParseError { input, code: ErrorKind::Tag })
    }
}

/// Reads one fragment: a literal, an escaped character or a placeholder.
pub fn parse_request_fragment<'a>(input: &'a [u8]) -> (r: Result<
    (&'a [u8], RequestFragment<'a>),
    ParseError<'a>,
>)
    ensures
        fragment_outcome(r) == request_fragment_outcome(input@),
{
    if let Ok(read) = parse_literal_fragment(input) {
        return Ok(read);
    }
    if let Ok(read) = parse_escaped_char_fragment(input) {
        return Ok(read);
    }
    if let Ok(read) = parse_implicit_field(input) {
        return Ok(read);
    }
    parse_numeric_field(input)
}

/// Reads fragments from the start of `s` for as long as there are any, and
/// numbers the placeholders `{}` from 1 in the order in which they stand.
/// What cannot be read is handed back with the fragments read before it.
pub fn parse_request_fragments<'a>(s: &'a [u8]) -> (r: Result<
    (&'a [u8], Vec<RequestFragment<'a>>),
    ParseError<'a>,
>)
    ensures
        r matches Ok((rest, fragments)) && rest@ == tail_from(s@) && fragments.deep_view()
            == request_fragments(s@),
{
    let mut fragments: Vec<RequestFragment<'a>> = Vec::new();
    let mut remaining = s;
    let mut at_implicit_field: usize = 0;
    assert(s@.len() == s.len());
    assert(fragments.deep_view() + fragments_from(s@, 0) == fragments_from(s@, 0));
    loop
        invariant
            remaining@.len() <= s@.len() <= usize::MAX,
            at_implicit_field <= s@.len() - remaining@.len(),
            tail_from(s@) == tail_from(remaining@),
            request_fragments(s@) == fragments.deep_view() + fragments_from(
                remaining@,
                at_implicit_field as int,
            ),
        decreases remaining@.len(),
    {
        match parse_request_fragment(remaining) {
            Err(_) => {
                assert(fragments.deep_view() + Seq::<FragmentSpec>::empty()
                    == fragments.deep_view());
                return Ok((remaining, fragments));
            },
            Ok((rest, fragment)) => {
                proof {
                    lemma_fragment_consumes(remaining@);
                    assert(request_fragment_outcome(remaining@)->Ok_0 == (rest@, fragment@));
                    assert(rest@.len() < remaining@.len());
                }
                let ghost before = fragments.deep_view();
                let ghost seen = at_implicit_field as int;
                let resolved = match fragment {
                    RequestFragment::Implicit => {
                        at_implicit_field += 1;
                        RequestFragment::SingleField(at_implicit_field)
                    },
                    other => other,
                };
                fragments.push(resolved);
                proof {
                    assert(resolved@ == resolve(fragment@, seen + 1));
                    assert(fragments.deep_view() == before.push(resolved@));
                    assert(before + (seq![resolved@] + fragments_from(
                        rest@,
                        at_implicit_field as int,
                    )) == before.push(resolved@) + fragments_from(
                        rest@,
                        at_implicit_field as int,
                    ));
                }
                remaining = rest;
            },
        }
    }
}

/// What is wrong with a template: the part of it that cannot be read as
/// fragments.
#[derive(Clone, Copy, Debug, PartialEq, Eq)]
pub struct TemplateError<'a> {
    /// The template from the first byte that no fragment starts with.
    pub remaining: &'a str,
}

impl<'a> TemplateError<'a> {
    /// The message for the user: a fixed opening and the unread part.
    pub fn to_string(&self) -> (message: String)
        ensures
            message@ == "Unable to process. Stopped at: "@ + self.remaining@,
    {
        String::from_str("Unable to process. Stopped at: ").concat(self.remaining)
    }
}

/// Reads a whole template. All of it must be read as fragments: if anything
/// is left, the template is refused, with the part that was left.
pub fn complete_parse_request_fragments<'a>(s: &'a str) -> (r: Result<
    Vec<RequestFragment<'a>>,
    TemplateError<'a>,
>)
    ensures
        match r {
            Ok(fragments) => well_formed(s.spec_bytes()) && fragments.deep_view()
                == request_fragments(s.spec_bytes()),
            Err(e) => !well_formed(s.spec_bytes()) && e.remaining.spec_bytes() == tail_from(
                s.spec_bytes(),
            ),
        },
{
    let bytes = s.as_bytes();
    match parse_request_fragments(bytes) {
        Ok((remaining, fragments)) => {
            if remaining.len() == 0 {
                Ok(fragments)
            } else {
                proof {
                    lemma_tail_from(bytes@);
                }
                let stopped_at = bytes.len() - remaining.len();
                proof {
                    encode_utf8_valid_utf8(s@);
                    assert(bytes@[stopped_at as int] == remaining@[0]);
                    is_char_boundary_iff_not_is_continuation_byte(bytes@, stopped_at as int);
                }
                let (_, unread) = s.split_at(stopped_at);
                Err(TemplateError { remaining: unread })
            }
        },
        // reading a run of fragments stops at what it cannot read; it does not fail
        Err(_) => Err(TemplateError { remaining: s }),
    }
}

/// Template fragments that are valid at response time: everything that is
/// valid at request time, what the request resolved to, and what the
/// response exposes.
#[derive(Clone, Debug, PartialEq)]
pub enum ResponseFragment<'a> {
    /// Any of the values that are valid for building the request.
    RequestFragment(RequestFragment<'a>),
    RequestUrl,
    RequestTime,
    RequestDuration,
    /// A header of the request; the value is the header's key.
    RequestHeader(&'a [u8]),
    ResponseBody,
    ResponseStatusCode,
    /// A header of the response; the value is the header's key.
    ResponseHeader(&'a [u8]),
}

/// What a response fragment is, with its bytes as a sequence.
pub enum ResponseFragmentSpec {
    RequestFragment(FragmentSpec),
    RequestUrl,
    RequestTime,
    RequestDuration,
    RequestHeader(Seq<u8>),
    ResponseBody,
    ResponseStatusCode,
    ResponseHeader(Seq<u8>),
}

impl<'a> View for ResponseFragment<'a> {
    type V = ResponseFragmentSpec;

    open spec fn view(&self) -> ResponseFragmentSpec {
        match *self {
            ResponseFragment::RequestFragment(fragment) => ResponseFragmentSpec::RequestFragment(
                fragment@,
            ),
            ResponseFragment::RequestUrl => ResponseFragmentSpec::RequestUrl,
            ResponseFragment::RequestTime => ResponseFragmentSpec::RequestTime,
            ResponseFragment::RequestDuration => ResponseFragmentSpec::RequestDuration,
            ResponseFragment::RequestHeader(key) => ResponseFragmentSpec::RequestHeader(key@),
            ResponseFragment::ResponseBody => ResponseFragmentSpec::ResponseBody,
            ResponseFragment::ResponseStatusCode => ResponseFragmentSpec::ResponseStatusCode,
            ResponseFragment::ResponseHeader(key) => ResponseFragmentSpec::ResponseHeader(key@),
        }
    }
}

impl<'a> DeepView for ResponseFragment<'a> {
    type V = ResponseFragmentSpec;

    open spec fn deep_view(&self) -> ResponseFragmentSpec {
        self.view()
    }
}

/// Whether two slices hold the same bytes.
fn bytes_eq(a: &[u8], b: &[u8]) -> (r: bool)
    ensures
        r == (a@ == b@),
{
    if a.len() != b.len() {
        return false;
    }
    let mut i: usize = 0;
    while i < a.len()
        invariant
            i <= a@.len() == b@.len(),
            forall|k: int| 0 <= k < i ==> a@[k] == b@[k],
        decreases a@.len() - i,
    {
        if a[i] != b[i] {
            return false;
        }
        i += 1;
    }
    assert(a@ =~= b@);
    true
}

/// Whether two texts hold the same characters: their encodings are
/// compared byte by byte.
fn str_eq(a: &str, b: &str) -> (r: bool)
    ensures
        r == (a@ == b@),
{
    let same = bytes_eq(a.as_bytes(), b.as_bytes());
    proof {
        encode_utf8_decode_utf8(a@);
        encode_utf8_decode_utf8(b@);
    }
    same
}

/// Whether two fragments are of one kind and hold equal values.
fn request_fragment_eq(a: &RequestFragment, b: &RequestFragment) -> (r: bool)
    ensures
        r == (a@ == b@),
{
    match (a, b) {
        (RequestFragment::Literal(x), RequestFragment::Literal(y)) => bytes_eq(x, y),
        (RequestFragment::EscapedChar(x), RequestFragment::EscapedChar(y)) => *x == *y,
        (RequestFragment::SingleField(x), RequestFragment::SingleField(y)) => *x == *y,
        (RequestFragment::FieldRange(x_lo, x_hi), RequestFragment::FieldRange(y_lo, y_hi)) => {
            *x_lo == *y_lo && *x_hi == *y_hi
        },
        (
            RequestFragment::UnboundedFieldRange(x),
            RequestFragment::UnboundedFieldRange(y),
        ) => *x == *y,
        (RequestFragment::Implicit, RequestFragment::Implicit) => true,
        _ => false,
    }
}

/// Whether two fragments are of one kind and hold equal values.
fn response_fragment_eq(a: &ResponseFragment, b: &ResponseFragment) -> (r: bool)
    ensures
        r == (a@ == b@),
{
    match (a, b) {
        (ResponseFragment::RequestFragment(x), ResponseFragment::RequestFragment(y)) => {
            request_fragment_eq(x, y)
        },
        (ResponseFragment::RequestUrl, ResponseFragment::RequestUrl) => true,
        (ResponseFragment::RequestTime, ResponseFragment::RequestTime) => true,
        (ResponseFragment::RequestDuration, ResponseFragment::RequestDuration) => true,
        (ResponseFragment::RequestHeader(x), ResponseFragment::RequestHeader(y)) => bytes_eq(
            x,
            y,
        ),
        (ResponseFragment::ResponseBody, ResponseFragment::ResponseBody) => true,
        (ResponseFragment::ResponseStatusCode, ResponseFragment::ResponseStatusCode) => true,
        (ResponseFragment::ResponseHeader(x), ResponseFragment::ResponseHeader(y)) => bytes_eq(
            x,
            y,
        ),
        _ => false,
    }
}

/// A request template: its text and the fragments the text was read as.
#[derive(Debug)]
pub struct RequestTemplate<'a> {
    pub raw_template: &'a str,
    pub fragments: Vec<RequestFragment<'a>>,
}

impl<'a> PartialEq for RequestTemplate<'a> {
    /// Two templates are equal when their texts are equal and their
    /// fragments are equal one by one.
    fn eq(&self, other: &Self) -> (r: bool) {
        if !str_eq(self.raw_template, other.raw_template) {
            return false;
        }
        if self.fragments.len() != other.fragments.len() {
            assert(self.fragments.deep_view().len() != other.fragments.deep_view().len());
            return false;
        }
        let mut i: usize = 0;
        while i < self.fragments.len()
            invariant
                i <= self.fragments.len() == other.fragments.len(),
                forall|k: int|
                    0 <= k < i ==> self.fragments.deep_view()[k] == other.fragments.deep_view()[k],
            decreases self.fragments.len() - i,
        {
            if !request_fragment_eq(&self.fragments[i], &other.fragments[i]) {
                assert(self.fragments.deep_view()[i as int] != other.fragments.deep_view()[i as int]);
                return false;
            }
            i += 1;
        }
        assert(self.fragments.deep_view() =~= other.fragments.deep_view());
        true
    }
}

impl<'a> vstd::std_specs::cmp::PartialEqSpecImpl for RequestTemplate<'a> {
    open spec fn obeys_eq_spec() -> bool {
        true
    }

    open spec fn eq_spec(&self, other: &Self) -> bool {
        self.raw_template@ == other.raw_template@ && self.fragments.deep_view()
            == other.fragments.deep_view()
    }
}

/// A response template: its text and the fragments the text was read as.
#[derive(Debug)]
pub struct ResponseTemplate<'a> {
    pub raw_template: &'a str,
    pub fragments: Vec<ResponseFragment<'a>>,
}

impl<'a> PartialEq for ResponseTemplate<'a> {
    /// Two templates are equal when their texts are equal and their
    /// fragments are equal one by one.
    fn eq(&self, other: &Self) -> (r: bool) {
        if !str_eq(self.raw_template, other.raw_template) {
            return false;
        }
        if self.fragments.len() != other.fragments.len() {
            assert(self.fragments.deep_view().len() != other.fragments.deep_view().len());
            return false;
        }
        let mut i: usize = 0;
        while i < self.fragments.len()
            invariant
                i <= self.fragments.len() == other.fragments.len(),
                forall|k: int|
                    0 <= k < i ==> self.fragments.deep_view()[k] == other.fragments.deep_view()[k],
            decreases self.fragments.len() - i,
        {
            if !response_fragment_eq(&self.fragments[i], &other.fragments[i]) {
                assert(self.fragments.deep_view()[i as int] != other.fragments.deep_view()[i as int]);
                return false;
            }
            i += 1;
        }
        assert(self.fragments.deep_view() =~= other.fragments.deep_view());
        true
    }
}

impl<'a> vstd::std_specs::cmp::PartialEqSpecImpl for ResponseTemplate<'a> {
    open spec fn obeys_eq_spec() -> bool {
        true
    }

    open spec fn eq_spec(&self, other: &Self) -> bool {
        self.raw_template@ == other.raw_template@ && self.fragments.deep_view()
            == other.fragments.deep_view()
    }
}

} // verus!
