//! What a template gives for a record, as functions on sequences.

use crate::fields::{field_end_of, field_start_of, separator_offsets};
use crate::grammar::{request_fragments, FragmentSpec};
use vstd::prelude::*;
use vstd::utf8::encode_scalar;

verus! {

/// The bytes that one fragment stands for, given a record and the offsets of
/// its delimiters: a literal stands for itself, an escaped character for its
/// UTF-8 encoding, a field reference for the fields it names as they stand in
/// the record. A placeholder that has not been given its number stands for
/// nothing.
pub open spec fn fragment_bytes(fragment: FragmentSpec, record: Seq<u8>, offsets: Seq<int>) -> Seq<
    u8,
> {
    let len = record.len() as int;
    match fragment {
        FragmentSpec::Literal(bytes) => bytes,
        FragmentSpec::EscapedChar(c) => encode_scalar(c as u32),
        FragmentSpec::SingleField(field) => record.subrange(
            field_start_of(offsets, len, field),
            field_end_of(offsets, len, field),
        ),
        FragmentSpec::FieldRange(lo, hi) => record.subrange(
            field_start_of(offsets, len, lo),
            field_end_of(offsets, len, hi),
        ),
        FragmentSpec::UnboundedFieldRange(lo) => record.subrange(
            field_start_of(offsets, len, lo),
            len,
        ),
        FragmentSpec::Implicit => Seq::empty(),
    }
}

/// The bytes that a run of fragments stands for: those of each fragment in
/// order, with nothing between them.
pub open spec fn rendered(fragments: Seq<FragmentSpec>, record: Seq<u8>, offsets: Seq<int>) -> Seq<
    u8,
>
    decreases fragments.len(),
{
    if fragments.len() == 0 {
        Seq::empty()
    } else {
        rendered(fragments.drop_last(), record, offsets) + fragment_bytes(
            fragments.last(),
            record,
            offsets,
        )
    }
}

/// What a template text gives for a record whose fields `separator` parts.
pub open spec fn merged(text: Seq<u8>, record: Seq<u8>, separator: u8) -> Seq<u8> {
    rendered(request_fragments(text), record, separator_offsets(record, separator))
}

} // verus!
