//! The grammar of templates, as functions on byte sequences.
//!
//! A template is a run of fragments. A fragment is a literal (bytes other
//! than `{` and `\`), an escaped character (`\` and any character), or a
//! placeholder in braces: `{}`, `{n}`, `{lo,hi}` or `{lo,}`. Each production
//! has an outcome: what is left of the input and what was read, or where and
//! why reading stopped.

use vstd::prelude::*;
use vstd::utf8::*;

verus! {

/// `{`, which opens a placeholder.
pub const OPEN_BRACE: u8 = 0x7b;

/// `}`, which closes a placeholder.
pub const CLOSE_BRACE: u8 = 0x7d;

/// `\`, which escapes the character after it.
pub const BACKSLASH: u8 = 0x5c;

/// `,`, which parts the two bounds of a range.
pub const COMMA: u8 = 0x2c;

/// The digit `0`.
pub const DIGIT_ZERO: u8 = 0x30;

/// The digit `9`.
pub const DIGIT_NINE: u8 = 0x39;

/// Why a production did not match.
#[derive(Clone, Copy, Debug, PartialEq, Eq, Structural)]
pub enum ErrorKind {
    /// A literal was expected and the input starts with `{` or `\`, or is empty.
    IsNot,
    /// A given character was expected, or a character after `\`.
    Char,
    /// The braces hold nothing.
    TakeTill1,
    /// `{}` was expected.
    Tag,
    /// A decimal digit was expected.
    Digit,
    /// The digits denote a number too large for a field index.
    MapRes,
    /// Input is left over where the end was expected, or missing after `\`.
    Eof,
    /// The bounds of a range are not `1 <= lo < hi`, or `lo` of an open range is 0.
    Verify,
}

/// Where a production stopped, and why.
pub struct Failure {
    pub input: Seq<u8>,
    pub code: ErrorKind,
}

/// What a fragment is, with its bytes as a sequence.
pub enum FragmentSpec {
    Literal(Seq<u8>),
    EscapedChar(char),
    SingleField(int),
    FieldRange(int, int),
    UnboundedFieldRange(int),
    Implicit,
}

/// The result of a production: the input left over and the value read, or
/// the failure.
pub type Outcome<T> = Result<(Seq<u8>, T), Failure>;

/// The production stopped at `input` for the reason `code`.
pub open spec fn failure<T>(input: Seq<u8>, code: ErrorKind) -> Outcome<T> {
    Err(Failure { input, code })
}

/// The production read `value` and left `rest`.
pub open spec fn success<T>(rest: Seq<u8>, value: T) -> Outcome<T> {
    Ok((rest, value))
}

/// The bytes that a run may hold.
#[derive(Clone, Copy, Debug, PartialEq, Eq, Structural)]
pub enum ByteClass {
    /// Any byte but `{` and `\`.
    Literal,
    /// `0` to `9`.
    Digit,
    /// Any byte but `}`.
    Bracketed,
}

/// Whether a byte is of a class.
pub open spec fn in_class(class: ByteClass, byte: u8) -> bool {
    match class {
        ByteClass::Literal => byte != OPEN_BRACE && byte != BACKSLASH,
        ByteClass::Digit => DIGIT_ZERO <= byte <= DIGIT_NINE,
        ByteClass::Bracketed => byte != CLOSE_BRACE,
    }
}

/// The length of the longest prefix of `s` whose bytes are all in `class`.
pub open spec fn run_len(s: Seq<u8>, class: ByteClass) -> nat
    decreases s.len(),
{
    if s.len() == 0 || !in_class(class, s[0]) {
        0
    } else {
        1 + run_len(s.drop_first(), class)
    }
}

/// The number that decimal digits denote.
pub open spec fn decimal_value(digits: Seq<u8>) -> nat
    decreases digits.len(),
{
    if digits.len() == 0 {
        0
    } else {
        decimal_value(digits.drop_last()) * 10 + (digits.last() - DIGIT_ZERO) as nat
    }
}

/// A literal: the longest run of bytes other than `{` and `\`, not empty.
pub open spec fn literal_outcome(s: Seq<u8>) -> Outcome<Seq<u8>> {
    let n = run_len(s, ByteClass::Literal) as int;
    if n == 0 {
        failure(s, ErrorKind::IsNot)
    } else {
        Ok((s.skip(n), s.take(n)))
    }
}

/// An escaped character: `\`, then the UTF-8 encoding of one character.
pub open spec fn escaped_char_outcome(s: Seq<u8>) -> Outcome<char> {
    if s.len() == 0 || s[0] != BACKSLASH {
        failure(s, ErrorKind::Char)
    } else {
        let t = s.skip(1);
        if t.len() == 0 {
            failure(t, ErrorKind::Eof)
        } else if !valid_first_scalar(t) {
            failure(t, ErrorKind::Char)
        } else {
            Ok((t.skip(length_of_first_scalar(t)), decode_first_scalar(t) as char))
        }
    }
}

/// What stands between `{` and the first `}` after it, not empty.
pub open spec fn inside_brackets_outcome(s: Seq<u8>) -> Outcome<Seq<u8>> {
    if s.len() == 0 || s[0] != OPEN_BRACE {
        failure(s, ErrorKind::Char)
    } else {
        let t = s.skip(1);
        let n = run_len(t, ByteClass::Bracketed) as int;
        if n == 0 {
            failure(t, ErrorKind::TakeTill1)
        } else if n == t.len() {
            failure(t.skip(n), ErrorKind::Char)
        } else {
            Ok((t.skip(n + 1), t.take(n)))
        }
    }
}

/// A decimal number that fits a field index.
pub open spec fn num_outcome(s: Seq<u8>) -> Outcome<usize> {
    let n = run_len(s, ByteClass::Digit) as int;
    if n == 0 {
        failure(s, ErrorKind::Digit)
    } else if decimal_value(s.take(n)) > usize::MAX {
        failure(s, ErrorKind::MapRes)
    } else {
        Ok((s.skip(n), decimal_value(s.take(n)) as usize))
    }
}

/// The inside of `{n}`: a number and nothing else. `0` stands for every
/// field from the first on.
pub open spec fn single_field_outcome(s: Seq<u8>) -> Outcome<FragmentSpec> {
    match num_outcome(s) {
        Err(e) => Err(e),
        Ok((rest, n)) => if rest.len() != 0 {
            failure(rest, ErrorKind::Eof)
        } else if n == 0 {
            Ok((rest, FragmentSpec::UnboundedFieldRange(1)))
        } else {
            Ok((rest, FragmentSpec::SingleField(n as int)))
        },
    }
}

/// The inside of `{lo,hi}`: two numbers with a comma between them, where
/// `1 <= lo < hi`.
pub open spec fn field_range_outcome(s: Seq<u8>) -> Outcome<FragmentSpec> {
    match num_outcome(s) {
        Err(e) => Err(e),
        Ok((after_lo, lo)) => if after_lo.len() == 0 || after_lo[0] != COMMA {
            failure(after_lo, ErrorKind::Char)
        } else {
            match num_outcome(after_lo.skip(1)) {
                Err(e) => Err(e),
                Ok((rest, hi)) => if rest.len() != 0 {
                    failure(rest, ErrorKind::Eof)
                } else if lo < 1 || hi <= lo {
                    failure(s, ErrorKind::Verify)
                } else {
                    Ok((rest, FragmentSpec::FieldRange(lo as int, hi as int)))
                },
            }
        },
    }
}

/// The inside of `{lo,}`: a number of at least 1 and a comma.
pub open spec fn unbounded_field_range_outcome(s: Seq<u8>) -> Outcome<FragmentSpec> {
    match num_outcome(s) {
        Err(e) => Err(e),
        Ok((after_lo, lo)) => if after_lo.len() == 0 || after_lo[0] != COMMA {
            failure(after_lo, ErrorKind::Char)
        } else {
            let rest = after_lo.skip(1);
            if rest.len() != 0 {
                failure(rest, ErrorKind::Eof)
            } else if lo < 1 {
                failure(s, ErrorKind::Verify)
            } else {
                Ok((rest, FragmentSpec::UnboundedFieldRange(lo as int)))
            }
        },
    }
}

/// The inside of a numbered placeholder: the first of the three forms that
/// matches, or the failure of the last.
pub open spec fn field_outcome(inside: Seq<u8>) -> Outcome<FragmentSpec> {
    if single_field_outcome(inside) is Ok {
        single_field_outcome(inside)
    } else if field_range_outcome(inside) is Ok {
        field_range_outcome(inside)
    } else {
        unbounded_field_range_outcome(inside)
    }
}

/// A numbered placeholder: braces around one of `n`, `lo,hi` and `lo,`.
pub open spec fn numeric_field_outcome(s: Seq<u8>) -> Outcome<FragmentSpec> {
    match inside_brackets_outcome(s) {
        Err(e) => Err(e),
        Ok((remaining, inside)) => match field_outcome(inside) {
            Err(e) => Err(e),
            Ok((_, fragment)) => Ok((remaining, fragment)),
        },
    }
}

/// The placeholder without a number, `{}`.
pub open spec fn implicit_field_outcome(s: Seq<u8>) -> Outcome<FragmentSpec> {
    if s.len() >= 2 && s[0] == OPEN_BRACE && s[1] == CLOSE_BRACE {
        Ok((s.skip(2), FragmentSpec::Implicit))
    } else {
        failure(s, ErrorKind::Tag)
    }
}

/// A literal, as a fragment.
pub open spec fn literal_fragment_outcome(s: Seq<u8>) -> Outcome<FragmentSpec> {
    match literal_outcome(s) {
        Err(e) => Err(e),
        Ok((rest, bytes)) => Ok((rest, FragmentSpec::Literal(bytes))),
    }
}

/// An escaped character, as a fragment.
pub open spec fn escaped_char_fragment_outcome(s: Seq<u8>) -> Outcome<FragmentSpec> {
    match escaped_char_outcome(s) {
        Err(e) => Err(e),
        Ok((rest, c)) => Ok((rest, FragmentSpec::EscapedChar(c))),
    }
}

/// One fragment: a literal, an escaped character, `{}` or a numbered
/// placeholder, tried in this order; the failure is that of the last.
pub open spec fn request_fragment_outcome(s: Seq<u8>) -> Outcome<FragmentSpec> {
    if literal_fragment_outcome(s) is Ok {
        literal_fragment_outcome(s)
    } else if escaped_char_fragment_outcome(s) is Ok {
        escaped_char_fragment_outcome(s)
    } else if implicit_field_outcome(s) is Ok {
        implicit_field_outcome(s)
    } else {
        numeric_field_outcome(s)
    }
}

/// A fragment as it stands in a template: `{}` becomes the field whose
/// number is its rank among the `{}` of the template.
pub open spec fn resolve(fragment: FragmentSpec, rank: int) -> FragmentSpec {
    match fragment {
        FragmentSpec::Implicit => FragmentSpec::SingleField(rank),
        _ => fragment,
    }
}

/// The fragments read from the start of `s`, as far as fragments can be
/// read, when `implicit_seen` placeholders `{}` stand before `s`.
pub open spec fn fragments_from(s: Seq<u8>, implicit_seen: int) -> Seq<FragmentSpec>
    decreases s.len(),
{
    match request_fragment_outcome(s) {
        Err(_) => Seq::empty(),
        Ok((rest, fragment)) => {
            proof {
                lemma_fragment_consumes(s);
            }
            let seen = if fragment is Implicit {
                implicit_seen + 1
            } else {
                implicit_seen
            };
            seq![resolve(fragment, implicit_seen + 1)] + fragments_from(rest, seen)
        },
    }
}

/// What `fragments_from` leaves unread.
pub open spec fn tail_from(s: Seq<u8>) -> Seq<u8>
    decreases s.len(),
{
    match request_fragment_outcome(s) {
        Err(_) => s,
        Ok((rest, _)) => {
            proof {
                lemma_fragment_consumes(s);
            }
            tail_from(rest)
        },
    }
}

/// The fragments of a whole template.
pub open spec fn request_fragments(s: Seq<u8>) -> Seq<FragmentSpec> {
    fragments_from(s, 0)
}

/// A template is well formed when reading fragments consumes all of it.
pub open spec fn well_formed(s: Seq<u8>) -> bool {
    tail_from(s).len() == 0
}

/// A prefix in the class that ends at the end of the input or before a
/// byte outside the class is the longest one.
pub proof fn lemma_run_len_is(s: Seq<u8>, class: ByteClass, n: int)
    requires
        0 <= n <= s.len(),
        forall|j: int| 0 <= j < n ==> in_class(class, s[j]),
        n == s.len() || !in_class(class, s[n]),
    ensures
        run_len(s, class) == n,
    decreases n,
{
    if n > 0 {
        let t = s.drop_first();
        assert forall|j: int| 0 <= j < n - 1 implies in_class(class, t[j]) by {
            assert(t[j] == s[j + 1]);
        }
        lemma_run_len_is(t, class, n - 1);
    }
}

/// The longest run lies inside the input, holds bytes of the class only,
/// and ends at the end of the input or before a byte outside the class.
pub proof fn lemma_run_len_bounds(s: Seq<u8>, class: ByteClass)
    ensures
        run_len(s, class) <= s.len(),
        forall|j: int| 0 <= j < run_len(s, class) ==> in_class(class, #[trigger] s[j]),
        run_len(s, class) == s.len() || !in_class(class, s[run_len(s, class) as int]),
    decreases s.len(),
{
    if s.len() > 0 && in_class(class, s[0]) {
        let t = s.drop_first();
        lemma_run_len_bounds(t, class);
        assert forall|j: int| 0 <= j < run_len(s, class) implies in_class(
            class,
            #[trigger] s[j],
        ) by {
            if j > 0 {
                assert(s[j] == t[j - 1]);
            }
        }
        if run_len(s, class) != s.len() {
            assert(s[run_len(s, class) as int] == t[run_len(t, class) as int]);
        }
    }
}

/// Digits read so far never denote more than the digits read in the end.
pub proof fn lemma_decimal_value_prefix(digits: Seq<u8>, i: int)
    requires
        0 <= i <= digits.len(),
        forall|j: int| 0 <= j < digits.len() ==> in_class(ByteClass::Digit, digits[j]),
    ensures
        decimal_value(digits.take(i)) <= decimal_value(digits),
    decreases digits.len() - i,
{
    if i < digits.len() {
        let init = digits.drop_last();
        assert(init.take(i) == digits.take(i));
        lemma_decimal_value_prefix(init, i);
    } else {
        assert(digits.take(i) == digits);
    }
}

/// A fragment that was read took at least one byte off the front of the
/// input, and `{}` took exactly two.
pub proof fn lemma_fragment_consumes(s: Seq<u8>)
    requires
        request_fragment_outcome(s) is Ok,
    ensures
        ({
            let (rest, fragment) = request_fragment_outcome(s)->Ok_0;
            &&& rest.len() < s.len()
            &&& rest == s.skip(s.len() - rest.len())
            &&& fragment is Implicit ==> rest.len() + 2 == s.len()
        }),
{
    lemma_run_len_bounds(s, ByteClass::Literal);
    if literal_fragment_outcome(s) is Ok {
    } else if escaped_char_fragment_outcome(s) is Ok {
        let t = s.skip(1);
        let w = length_of_first_scalar(t);
        assert(t.skip(w) == s.skip(1 + w));
    } else if implicit_field_outcome(s) is Ok {
    } else {
        let t = s.skip(1);
        lemma_run_len_bounds(t, ByteClass::Bracketed);
        let n = run_len(t, ByteClass::Bracketed) as int;
        assert(t.skip(n + 1) == s.skip(n + 2));
    }
}

/// What is left unread is the end of the input, and it is empty or starts
/// with `{` or `\`.
pub proof fn lemma_tail_from(s: Seq<u8>)
    ensures
        tail_from(s).len() <= s.len(),
        tail_from(s) == s.skip(s.len() - tail_from(s).len()),
        tail_from(s).len() > 0 ==> tail_from(s)[0] == OPEN_BRACE || tail_from(s)[0] == BACKSLASH,
        request_fragment_outcome(tail_from(s)) is Err,
    decreases s.len(),
{
    match request_fragment_outcome(s) {
        Err(_) => {
            assert(s.skip(0) == s);
            if s.len() > 0 {
                lemma_run_len_bounds(s, ByteClass::Literal);
            }
        },
        Ok((rest, _)) => {
            lemma_fragment_consumes(s);
            lemma_tail_from(rest);
            let k = s.len() - rest.len();
            let m = rest.len() - tail_from(rest).len();
            assert(s.skip(k).skip(m) == s.skip(k + m));
        },
    }
}

/// A fragment that can be rendered: its field numbers count from 1, a range
/// ends after it begins, and `{}` has been given its number.
pub open spec fn renderable(fragment: FragmentSpec) -> bool {
    match fragment {
        FragmentSpec::Literal(_) => true,
        FragmentSpec::EscapedChar(_) => true,
        FragmentSpec::SingleField(field) => 1 <= field <= usize::MAX,
        FragmentSpec::FieldRange(lo, hi) => 1 <= lo < hi <= usize::MAX,
        FragmentSpec::UnboundedFieldRange(lo) => 1 <= lo <= usize::MAX,
        FragmentSpec::Implicit => false,
    }
}

/// Every fragment of a sequence can be rendered.
pub open spec fn all_renderable(fragments: Seq<FragmentSpec>) -> bool {
    forall|i: int| 0 <= i < fragments.len() ==> renderable(#[trigger] fragments[i])
}

/// The fragments read from a template can all be rendered, as long as the
/// numbers given to `{}` fit a field index.
pub proof fn lemma_fragments_renderable(s: Seq<u8>, implicit_seen: int)
    requires
        0 <= implicit_seen,
        implicit_seen + s.len() <= usize::MAX,
    ensures
        all_renderable(fragments_from(s, implicit_seen)),
    decreases s.len(),
{
    match request_fragment_outcome(s) {
        Err(_) => {},
        Ok((rest, fragment)) => {
            lemma_fragment_consumes(s);
            let seen = if fragment is Implicit {
                implicit_seen + 1
            } else {
                implicit_seen
            };
            lemma_fragments_renderable(rest, seen);
            let first = resolve(fragment, implicit_seen + 1);
            let others = fragments_from(rest, seen);
            assert(renderable(first));
            assert forall|i: int| 0 <= i < fragments_from(s, implicit_seen).len() implies renderable(
                #[trigger] fragments_from(s, implicit_seen)[i],
            ) by {
                if i > 0 {
                    assert(fragments_from(s, implicit_seen)[i] == others[i - 1]);
                }
            }
        },
    }
}

} // verus!
