//! How fragments are spelled: which texts the parser reads as which
//! fragment.
//!
//! A literal is spelled by its bytes, an escaped character by a backslash
//! and its UTF-8 encoding, a field reference by its numbers in decimal,
//! with or without leading zeros, between braces. The parser reads every
//! spelling as the fragment it spells, and reads nothing else as a fragment.

use crate::grammar::{
    decimal_value, escaped_char_fragment_outcome, field_range_outcome, implicit_field_outcome,
    in_class, inside_brackets_outcome, lemma_run_len_bounds, lemma_run_len_is,
    literal_fragment_outcome, num_outcome, request_fragment_outcome, run_len,
    single_field_outcome, success, ByteClass, FragmentSpec, BACKSLASH, CLOSE_BRACE, COMMA,
    OPEN_BRACE,
};
use vstd::prelude::*;
use vstd::utf8::{
    char_is_scalar, char_u32_cast, decode_first_scalar, decode_utf8_first_scalar, encode_scalar,
    encode_utf8, encode_utf8_first_scalar, length_of_first_scalar, valid_first_scalar, valid_utf8,
};

verus! {

/// Decimal digits, at least one, that denote `n`.
pub open spec fn denotes(digits: Seq<u8>, n: int) -> bool {
    &&& digits.len() > 0
    &&& forall|j: int| 0 <= j < digits.len() ==> in_class(ByteClass::Digit, digits[j])
    &&& decimal_value(digits) == n
}

/// `inside` between braces.
pub open spec fn braced(inside: Seq<u8>) -> Seq<u8> {
    seq![OPEN_BRACE] + inside + seq![CLOSE_BRACE]
}

/// Whether `text` spells `fragment`.
pub open spec fn spells(text: Seq<u8>, fragment: FragmentSpec) -> bool {
    match fragment {
        FragmentSpec::Literal(bytes) => {
            &&& text == bytes
            &&& bytes.len() > 0
            &&& forall|j: int| 0 <= j < bytes.len() ==> in_class(ByteClass::Literal, bytes[j])
        },
        FragmentSpec::EscapedChar(c) => text == seq![BACKSLASH] + encode_scalar(c as u32),
        FragmentSpec::Implicit => text == seq![OPEN_BRACE, CLOSE_BRACE],
        FragmentSpec::SingleField(field) => {
            &&& 1 <= field <= usize::MAX
            &&& exists|digits: Seq<u8>| #[trigger] denotes(digits, field) && text == braced(digits)
        },
        FragmentSpec::FieldRange(lo, hi) => {
            &&& 1 <= lo < hi <= usize::MAX
            &&& exists|lo_digits: Seq<u8>, hi_digits: Seq<u8>|
                #![trigger denotes(lo_digits, lo), denotes(hi_digits, hi)]
                denotes(lo_digits, lo) && denotes(hi_digits, hi) && text == braced(
                    lo_digits + seq![COMMA] + hi_digits,
                )
        },
        FragmentSpec::UnboundedFieldRange(lo) => {
            &&& 1 <= lo <= usize::MAX
            &&& {
                ||| exists|digits: Seq<u8>| #[trigger]
                    denotes(digits, lo) && text == braced(digits + seq![COMMA])
                ||| lo == 1 && exists|zeros: Seq<u8>| #[trigger]
                    denotes(zeros, 0) && text == braced(zeros)
            }
        },
    }
}

/// Digits followed by something that is no digit are read as the number
/// they denote.
pub proof fn lemma_number_is_read(digits: Seq<u8>, n: int, rest: Seq<u8>)
    requires
        denotes(digits, n),
        n <= usize::MAX,
        rest.len() == 0 || !in_class(ByteClass::Digit, rest[0]),
    ensures
        num_outcome(digits + rest) == success(rest, n as usize),
{
    let s = digits + rest;
    assert forall|j: int| 0 <= j < digits.len() implies in_class(ByteClass::Digit, s[j]) by {
        assert(s[j] == digits[j]);
    }
    if rest.len() > 0 {
        assert(s[digits.len() as int] == rest[0]);
    }
    lemma_run_len_is(s, ByteClass::Digit, digits.len() as int);
    assert(s.take(digits.len() as int) == digits);
    assert(s.skip(digits.len() as int) == rest);
}

/// A number that was read stands in the input as digits that denote it.
pub proof fn lemma_read_is_number(s: Seq<u8>)
    requires
        num_outcome(s) is Ok,
    ensures
        ({
            let (rest, n) = num_outcome(s)->Ok_0;
            let digits = s.take(s.len() - rest.len());
            &&& rest.len() < s.len()
            &&& s == digits + rest
            &&& denotes(digits, n as int)
            &&& rest.len() == 0 || !in_class(ByteClass::Digit, rest[0])
        }),
{
    lemma_run_len_bounds(s, ByteClass::Digit);
    let k = run_len(s, ByteClass::Digit) as int;
    let rest = s.skip(k);
    assert(s == s.take(k) + rest);
    if rest.len() > 0 {
        assert(rest[0] == s[k]);
    }
}

/// What stands between braces and holds no `}` is read as the inside of the
/// braces.
pub proof fn lemma_braces_are_read(inside: Seq<u8>, rest: Seq<u8>)
    requires
        inside.len() > 0,
        forall|j: int| 0 <= j < inside.len() ==> inside[j] != CLOSE_BRACE,
    ensures
        inside_brackets_outcome(braced(inside) + rest) == success(rest, inside),
{
    let s = braced(inside) + rest;
    let t = s.skip(1);
    assert(t == inside + seq![CLOSE_BRACE] + rest);
    let n = inside.len() as int;
    assert forall|j: int| 0 <= j < n implies in_class(ByteClass::Bracketed, t[j]) by {
        assert(t[j] == inside[j]);
    }
    assert(t[n] == CLOSE_BRACE);
    lemma_run_len_is(t, ByteClass::Bracketed, n);
    assert(t.take(n) == inside);
    assert(t.skip(n + 1) == rest);
}

/// The encoding of a character, followed by anything, starts with a
/// well-formed scalar that decodes to the character.
pub proof fn lemma_scalar_of_encoding(c: char, rest: Seq<u8>)
    ensures
        valid_first_scalar(encode_scalar(c as u32) + rest),
        decode_first_scalar(encode_scalar(c as u32) + rest) as char == c,
        length_of_first_scalar(encode_scalar(c as u32) + rest) == encode_scalar(c as u32).len(),
        1 <= encode_scalar(c as u32).len() <= 4,
{
    let e = encode_scalar(c as u32);
    let t = e + rest;
    let one = seq![c];
    char_is_scalar(c);
    encode_utf8_first_scalar(one);
    assert(one.drop_first() == Seq::<char>::empty());
    assert(encode_utf8(one.drop_first()) == Seq::<u8>::empty());
    assert(encode_utf8(one) == e + Seq::<u8>::empty());
    assert(e + Seq::<u8>::empty() == e);
    assert(forall|i: int| 0 <= i < e.len() ==> t[i] == e[i]);
    char_u32_cast(c, decode_first_scalar(e));
}

/// The bytes of a well-formed scalar at the start of a text are the
/// encoding of the character they decode to.
pub proof fn lemma_encoding_of_scalar(t: Seq<u8>)
    requires
        valid_first_scalar(t),
    ensures
        1 <= length_of_first_scalar(t) <= 4,
        length_of_first_scalar(t) <= t.len(),
        t.take(length_of_first_scalar(t)) == encode_scalar((decode_first_scalar(t) as char) as u32),
{
    let w = length_of_first_scalar(t);
    let u = t.take(w);
    assert(forall|i: int| 0 <= i < w ==> u[i] == t[i]);
    assert(valid_first_scalar(u));
    assert(decode_first_scalar(u) == decode_first_scalar(t));
    assert(length_of_first_scalar(u) == w);
    assert(u.subrange(w, u.len() as int) == Seq::<u8>::empty());
    assert(valid_utf8(u)) by {
        reveal_with_fuel(valid_utf8, 2);
    }
    decode_utf8_first_scalar(u);
    assert(u.subrange(0, w) == u);
}

/// Every spelling is read as the fragment it spells, and what follows it is
/// left. After a literal, the text must not go on with a literal byte, or
/// the literal read would be longer.
pub proof fn lemma_spelling_is_read(text: Seq<u8>, fragment: FragmentSpec, rest: Seq<u8>)
    requires
        spells(text, fragment),
        fragment is Literal ==> rest.len() == 0 || !in_class(ByteClass::Literal, rest[0]),
    ensures
        request_fragment_outcome(text + rest) == success(rest, fragment),
{
    let s = text + rest;
    match fragment {
        FragmentSpec::Literal(bytes) => {
            let n = bytes.len() as int;
            assert forall|j: int| 0 <= j < n implies in_class(ByteClass::Literal, s[j]) by {
                assert(s[j] == bytes[j]);
            }
            if rest.len() > 0 {
                assert(s[n] == rest[0]);
            }
            lemma_run_len_is(s, ByteClass::Literal, n);
            assert(s.take(n) == bytes);
            assert(s.skip(n) == rest);
        },
        FragmentSpec::EscapedChar(c) => {
            assert(s[0] == BACKSLASH);
            lemma_run_len_is(s, ByteClass::Literal, 0);
            let t = s.skip(1);
            let e = encode_scalar(c as u32);
            assert(t == e + rest);
            lemma_scalar_of_encoding(c, rest);
            assert(t.skip(e.len() as int) == rest);
        },
        FragmentSpec::Implicit => {
            assert(s[0] == OPEN_BRACE && s[1] == CLOSE_BRACE);
            lemma_run_len_is(s, ByteClass::Literal, 0);
            assert(s.skip(2) == rest);
        },
        FragmentSpec::SingleField(field) => {
            let d = choose|d: Seq<u8>| #[trigger] denotes(d, field) && text == braced(d);
            lemma_field_reference_is_read(d, rest);
            assert(d + Seq::<u8>::empty() == d);
            lemma_number_is_read(d, field, Seq::empty());
        },
        FragmentSpec::FieldRange(lo, hi) => {
            let (dl, dh) = choose|dl: Seq<u8>, dh: Seq<u8>|
                #![trigger denotes(dl, lo), denotes(dh, hi)]
                denotes(dl, lo) && denotes(dh, hi) && text == braced(dl + seq![COMMA] + dh);
            let inside = dl + seq![COMMA] + dh;
            assert forall|j: int| 0 <= j < inside.len() implies in_class(
                ByteClass::Digit,
                inside[j],
            ) || inside[j] == COMMA by {
                if j < dl.len() {
                    assert(inside[j] == dl[j]);
                } else if j > dl.len() {
                    assert(inside[j] == dh[j - dl.len() - 1]);
                }
            }
            assert(inside[0] == dl[0]);
            lemma_field_reference_is_read(inside, rest);
            let after_lo = seq![COMMA] + dh;
            assert(inside == dl + after_lo);
            assert(after_lo[0] == COMMA);
            lemma_number_is_read(dl, lo, after_lo);
            assert(after_lo.skip(1) == dh);
            assert(dh + Seq::<u8>::empty() == dh);
            lemma_number_is_read(dh, hi, Seq::empty());
        },
        FragmentSpec::UnboundedFieldRange(lo) => {
            if exists|d: Seq<u8>| #[trigger] denotes(d, lo) && text == braced(d + seq![COMMA]) {
                let d = choose|d: Seq<u8>| #[trigger]
                    denotes(d, lo) && text == braced(d + seq![COMMA]);
                let inside = d + seq![COMMA];
                assert forall|j: int| 0 <= j < inside.len() implies in_class(
                    ByteClass::Digit,
                    inside[j],
                ) || inside[j] == COMMA by {
                    if j < d.len() {
                        assert(inside[j] == d[j]);
                    }
                }
                assert(inside[0] == d[0]);
                lemma_field_reference_is_read(inside, rest);
                let after_lo = seq![COMMA];
                assert(after_lo[0] == COMMA);
                lemma_number_is_read(d, lo, after_lo);
                assert(after_lo.skip(1) == Seq::<u8>::empty());
                lemma_run_len_is(Seq::<u8>::empty(), ByteClass::Digit, 0);
            } else {
                let z = choose|z: Seq<u8>| #[trigger] denotes(z, 0) && text == braced(z);
                lemma_field_reference_is_read(z, rest);
                assert(z + Seq::<u8>::empty() == z);
                lemma_number_is_read(z, 0, Seq::empty());
            }
        },
    }
}

/// Digits and commas between braces are no literal, no escaped character
/// and no `{}`, and are read as the inside of a numbered placeholder.
proof fn lemma_field_reference_is_read(inside: Seq<u8>, rest: Seq<u8>)
    requires
        inside.len() > 0,
        in_class(ByteClass::Digit, inside[0]),
        forall|j: int|
            0 <= j < inside.len() ==> in_class(ByteClass::Digit, inside[j]) || inside[j] == COMMA,
    ensures
        literal_fragment_outcome(braced(inside) + rest) is Err,
        escaped_char_fragment_outcome(braced(inside) + rest) is Err,
        implicit_field_outcome(braced(inside) + rest) is Err,
        inside_brackets_outcome(braced(inside) + rest) == success(rest, inside),
{
    let s = braced(inside) + rest;
    assert(s[0] == OPEN_BRACE);
    assert(s[1] == inside[0]);
    lemma_run_len_is(s, ByteClass::Literal, 0);
    lemma_braces_are_read(inside, rest);
}

/// Whatever is read as a fragment is a spelling of that fragment: the text
/// that was taken off the input spells it. After a literal the input is at
/// its end or goes on with `{` or `\`.
pub proof fn lemma_read_is_spelling(s: Seq<u8>)
    requires
        request_fragment_outcome(s) is Ok,
    ensures
        ({
            let (rest, fragment) = request_fragment_outcome(s)->Ok_0;
            let text = s.take(s.len() - rest.len());
            &&& rest.len() < s.len()
            &&& s == text + rest
            &&& spells(text, fragment)
            &&& fragment is Literal ==> rest.len() == 0 || !in_class(ByteClass::Literal, rest[0])
        }),
{
    let (rest, fragment) = request_fragment_outcome(s)->Ok_0;
    lemma_run_len_bounds(s, ByteClass::Literal);
    if literal_fragment_outcome(s) is Ok {
        let n = run_len(s, ByteClass::Literal) as int;
        assert(s == s.take(n) + s.skip(n));
        if rest.len() > 0 {
            assert(rest[0] == s[n]);
        }
        assert(spells(s.take(n), fragment));
    } else if escaped_char_fragment_outcome(s) is Ok {
        let t = s.skip(1);
        let w = length_of_first_scalar(t);
        lemma_encoding_of_scalar(t);
        assert(t.skip(w) == s.skip(1 + w));
        let text = s.take(1 + w);
        assert(text == seq![BACKSLASH] + t.take(w));
        assert(s == text + rest);
        assert(spells(text, fragment));
    } else if implicit_field_outcome(s) is Ok {
        let text = s.take(2);
        assert(text == seq![OPEN_BRACE, CLOSE_BRACE]);
        assert(s == text + rest);
        assert(spells(text, fragment));
    } else {
        let t = s.skip(1);
        lemma_run_len_bounds(t, ByteClass::Bracketed);
        let n = run_len(t, ByteClass::Bracketed) as int;
        let inside = t.take(n);
        assert(t.skip(n + 1) == s.skip(n + 2));
        let text = s.take(n + 2);
        assert(text == braced(inside));
        assert(s == text + rest);
        if single_field_outcome(inside) is Ok {
            lemma_read_is_number(inside);
            let (after, number) = num_outcome(inside)->Ok_0;
            assert(inside.take(inside.len() as int) == inside);
            assert(denotes(inside, number as int));
            assert(after.len() == 0);
            if number == 0 {
                assert(fragment == FragmentSpec::UnboundedFieldRange(1));
                assert(exists|zeros: Seq<u8>| #[trigger] denotes(zeros, 0) && text == braced(zeros));
            } else {
                assert(fragment == FragmentSpec::SingleField(number as int));
                assert(exists|digits: Seq<u8>| #[trigger]
                    denotes(digits, number as int) && text == braced(digits));
            }
            assert(spells(text, fragment));
        } else if field_range_outcome(inside) is Ok {
            lemma_read_is_number(inside);
            let (after_lo, lo) = num_outcome(inside)->Ok_0;
            let dl = inside.take(inside.len() - after_lo.len());
            let dh = after_lo.skip(1);
            lemma_read_is_number(dh);
            let (end, hi) = num_outcome(dh)->Ok_0;
            assert(dh.take(dh.len() as int) == dh);
            assert(after_lo == seq![COMMA] + dh);
            assert(inside == dl + seq![COMMA] + dh);
            assert(denotes(dl, lo as int) && denotes(dh, hi as int));
            assert(end.len() == 0);
            assert(fragment == FragmentSpec::FieldRange(lo as int, hi as int));
            assert(exists|lo_digits: Seq<u8>, hi_digits: Seq<u8>|
                #![trigger denotes(lo_digits, lo as int), denotes(hi_digits, hi as int)]
                denotes(lo_digits, lo as int) && denotes(hi_digits, hi as int) && text == braced(
                    lo_digits + seq![COMMA] + hi_digits,
                ));
            assert(spells(text, fragment));
        } else {
            lemma_read_is_number(inside);
            let (after_lo, lo) = num_outcome(inside)->Ok_0;
            let d = inside.take(inside.len() - after_lo.len());
            assert(after_lo == seq![COMMA]);
            assert(inside == d + seq![COMMA]);
            assert(denotes(d, lo as int));
            assert(spells(text, fragment));
        }
    }
}

} // verus!
