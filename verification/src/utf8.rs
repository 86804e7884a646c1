//! Decoding and encoding of single UTF-8 scalars, against the definitions
//! of `vstd::utf8`.

use vstd::prelude::*;
use vstd::utf8::*;

verus! {

/// `char::from_u32`: the `char` with the given code, for every Unicode scalar
/// value and for nothing else.
#[verifier::external_body]
fn char_from_scalar(value: u32) -> (c: Option<char>)
    ensures
        c == if is_scalar(value) {
            Some(value as char)
        } else {
            None::<char>
        },
{
    char::from_u32(value)
}

/// Whether a byte has the form of a continuation byte, `10xxxxxx`.
fn is_continuation(byte: u8) -> (r: bool)
    ensures
        r == is_continuation_byte(byte),
{
    0x80 <= byte && byte <= 0xbf
}

/// Decodes the scalar that `input` begins with, and says how many bytes it
/// takes; `None` when `input` does not begin with a well-formed scalar.
pub fn decode_scalar(input: &[u8]) -> (r: Option<(char, usize)>)
    ensures
        match r {
            Some((c, width)) => {
                &&& valid_first_scalar(input@)
                &&& c == decode_first_scalar(input@) as char
                &&& width == length_of_first_scalar(input@)
                &&& 1 <= width <= 4
                &&& width <= input@.len()
            },
            None => !valid_first_scalar(input@),
        },
{
    let len = input.len();
    if len == 0 {
        return None;
    }
    let b0 = input[0];
    if b0 <= 0x7f {
        let code: u32 = (b0 & 0x7f) as u32;
        assert(((b0 & 0x7f) as u32) <= 0x7f) by (bit_vector);
        match char_from_scalar(code) {
            Some(c) => Some((c, 1)),
            None => None,
        }
    } else if 0xc0 <= b0 && b0 <= 0xdf {
        if len < 2 || !is_continuation(input[1]) {
            return None;
        }
        let b1 = input[1];
        let code: u32 = (((b0 & 0x1f) as u32) << 6) | ((b1 & 0x3f) as u32);
        assert(((((b0 & 0x1f) as u32) << 6) | ((b1 & 0x3f) as u32)) <= 0x7ff) by (bit_vector);
        if code < 0x80 {
            return None;
        }
        match char_from_scalar(code) {
            Some(c) => Some((c, 2)),
            None => None,
        }
    } else if 0xe0 <= b0 && b0 <= 0xef {
        if len < 3 || !is_continuation(input[1]) || !is_continuation(input[2]) {
            return None;
        }
        let b1 = input[1];
        let b2 = input[2];
        let code: u32 = (((b0 & 0x0f) as u32) << 12) | (((b1 & 0x3f) as u32) << 6) | ((b2
            & 0x3f) as u32);
        assert(((((b0 & 0x0f) as u32) << 12) | (((b1 & 0x3f) as u32) << 6) | ((b2 & 0x3f) as u32))
            <= 0xffff) by (bit_vector);
        if code < 0x800 || (0xd800 <= code && code <= 0xdfff) {
            return None;
        }
        match char_from_scalar(code) {
            Some(c) => Some((c, 3)),
            None => None,
        }
    } else if 0xf0 <= b0 && b0 <= 0xf7 {
        if len < 4 || !is_continuation(input[1]) || !is_continuation(input[2]) || !is_continuation(
            input[3],
        ) {
            return None;
        }
        let b1 = input[1];
        let b2 = input[2];
        let b3 = input[3];
        let code: u32 = (((b0 & 0x07) as u32) << 18) | (((b1 & 0x3f) as u32) << 12) | (((b2
            & 0x3f) as u32) << 6) | ((b3 & 0x3f) as u32);
        if code < 0x10000 || code > 0x10ffff {
            return None;
        }
        match char_from_scalar(code) {
            Some(c) => Some((c, 4)),
            None => None,
        }
    } else {
        None
    }
}

/// Appends the UTF-8 encoding of `c` to `out`.
pub fn encode_char(c: char, out: &mut Vec<u8>)
    ensures
        final(out)@ == old(out)@ + encode_scalar(c as u32),
{
    let v: u32 = c as u32;
    proof {
        char_is_scalar(c);
    }
    if v <= 0x7f {
        assert((v & 0x7f) <= 0xff) by (bit_vector);
        out.push((v & 0x7f) as u8);
        assert(out@ == old(out)@ + encode_scalar(v));
    } else if v <= 0x7ff {
        assert(((v >> 6) & 0x1f) <= 0xff) by (bit_vector);
        assert((v & 0x3f) <= 0xff) by (bit_vector);
        out.push(0xc0 | ((v >> 6) & 0x1f) as u8);
        out.push(0x80 | (v & 0x3f) as u8);
        assert(out@ == old(out)@ + encode_scalar(v));
    } else if v <= 0xffff {
        assert(((v >> 12) & 0x0f) <= 0xff) by (bit_vector);
        assert(((v >> 6) & 0x3f) <= 0xff) by (bit_vector);
        assert((v & 0x3f) <= 0xff) by (bit_vector);
        out.push(0xe0 | ((v >> 12) & 0x0f) as u8);
        out.push(0x80 | ((v >> 6) & 0x3f) as u8);
        out.push(0x80 | (v & 0x3f) as u8);
        assert(out@ == old(out)@ + encode_scalar(v));
    } else {
        assert(((v >> 18) & 0x07) <= 0xff) by (bit_vector);
        assert(((v >> 12) & 0x3f) <= 0xff) by (bit_vector);
        assert(((v >> 6) & 0x3f) <= 0xff) by (bit_vector);
        assert((v & 0x3f) <= 0xff) by (bit_vector);
        out.push(0xf0 | ((v >> 18) & 0x07) as u8);
        out.push(0x80 | ((v >> 12) & 0x3f) as u8);
        out.push(0x80 | ((v >> 6) & 0x3f) as u8);
        out.push(0x80 | (v & 0x3f) as u8);
        assert(out@ == old(out)@ + encode_scalar(v));
    }
}

} // verus!
