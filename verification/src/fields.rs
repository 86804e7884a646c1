//! Fields of a record, as functions on byte sequences.
//!
//! A record is parted into fields by a separator byte. Fields are counted
//! from 1; a record with K separators has K + 1 fields, and every field
//! after them is empty.

use vstd::prelude::*;

verus! {

/// The offsets of every byte of `record` equal to `separator`, ascending.
pub open spec fn separator_offsets(record: Seq<u8>, separator: u8) -> Seq<int>
    decreases record.len(),
{
    if record.len() == 0 {
        Seq::empty()
    } else {
        let before = separator_offsets(record.drop_last(), separator);
        if record.last() == separator {
            before.push(record.len() - 1)
        } else {
            before
        }
    }
}

/// Offsets are strictly increasing and all lie inside a record of `len` bytes.
pub open spec fn offsets_ordered(offsets: Seq<int>, len: int) -> bool {
    &&& forall|i: int, j: int| 0 <= i < j < offsets.len() ==> offsets[i] < offsets[j]
    &&& forall|i: int| 0 <= i < offsets.len() ==> 0 <= #[trigger] offsets[i] < len
}

/// Where field `field` starts in a record of `len` bytes, fields counted
/// from 1: after the delimiter before it, or at `len` past the last field.
pub open spec fn field_start_of(offsets: Seq<int>, len: int, field: int) -> int {
    if field <= 1 {
        0
    } else if field > offsets.len() + 1 {
        len
    } else {
        offsets[field - 2] + 1
    }
}

/// Where field `field` ends (exclusive) in a record of `len` bytes: at its
/// delimiter, or at `len` for the last field and beyond.
pub open spec fn field_end_of(offsets: Seq<int>, len: int, field: int) -> int {
    if field > offsets.len() {
        len
    } else {
        offsets[field - 1]
    }
}

/// The offsets of the separator bytes are ordered, lie inside the record,
/// point at separator bytes only, and miss none of them.
pub proof fn lemma_separator_offsets(record: Seq<u8>, separator: u8)
    ensures
        offsets_ordered(separator_offsets(record, separator), record.len() as int),
        separator_offsets(record, separator).len() <= record.len(),
        forall|k: int|
            0 <= k < separator_offsets(record, separator).len() ==> record[#[trigger] separator_offsets(
                record,
                separator,
            )[k]] == separator,
        forall|i: int|
            0 <= i < record.len() && record[i] == separator ==> separator_offsets(
                record,
                separator,
            ).contains(i),
    decreases record.len(),
{
    if record.len() > 0 {
        let init = record.drop_last();
        lemma_separator_offsets(init, separator);
        let before = separator_offsets(init, separator);
        let all = separator_offsets(record, separator);
        assert forall|i: int| 0 <= i < record.len() && record[i] == separator implies all.contains(
            i,
        ) by {
            if i < init.len() {
                assert(init[i] == separator);
                let k = choose|k: int| 0 <= k < before.len() && before[k] == i;
                assert(all[k] == i);
            } else {
                assert(all[all.len() - 1] == i);
            }
        }
        assert forall|k: int| 0 <= k < all.len() implies record[#[trigger] all[k]] == separator by {
            if k < before.len() {
                assert(init[before[k]] == separator);
            }
        }
    }
}

/// The test for a byte to be the separator.
pub open spec fn is_separator(separator: u8) -> spec_fn(u8) -> bool {
    |byte: u8| byte == separator
}

/// The number of bytes of `record` equal to `separator`.
pub open spec fn separator_count(record: Seq<u8>, separator: u8) -> nat {
    record.filter(is_separator(separator)).len()
}

/// There is one offset for each separator byte of the record.
pub proof fn lemma_separator_offsets_count(record: Seq<u8>, separator: u8)
    ensures
        separator_offsets(record, separator).len() == separator_count(record, separator),
    decreases record.len(),
{
    let pred = is_separator(separator);
    if record.len() == 0 {
        record.lemma_filter_len(pred);
    } else {
        let init = record.drop_last();
        lemma_separator_offsets_count(init, separator);
        assert(init.push(record.last()) == record);
        init.lemma_filter_len_push(pred, record.last());
    }
}

/// The bytes of field `field` of a record whose fields `separator` parts.
pub open spec fn field_of(record: Seq<u8>, separator: u8, field: int) -> Seq<u8> {
    let offsets = separator_offsets(record, separator);
    let len = record.len() as int;
    record.subrange(field_start_of(offsets, len, field), field_end_of(offsets, len, field))
}

/// The bytes of a record from the start of field `start_field` on.
pub open spec fn fields_from(record: Seq<u8>, separator: u8, start_field: int) -> Seq<u8> {
    let offsets = separator_offsets(record, separator);
    let len = record.len() as int;
    record.subrange(field_start_of(offsets, len, start_field), len)
}

/// The bytes of a record from the start of field `start_field` to the end
/// of field `end_field`.
pub open spec fn fields_between(
    record: Seq<u8>,
    separator: u8,
    start_field: int,
    end_field: int,
) -> Seq<u8> {
    let offsets = separator_offsets(record, separator);
    let len = record.len() as int;
    record.subrange(
        field_start_of(offsets, len, start_field),
        field_end_of(offsets, len, end_field),
    )
}

/// No field holds a separator.
pub proof fn lemma_field_holds_no_separator(record: Seq<u8>, separator: u8, field: int)
    requires
        1 <= field,
    ensures
        forall|j: int|
            0 <= j < field_of(record, separator, field).len() ==> field_of(
                record,
                separator,
                field,
            )[j] != separator,
{
    let offsets = separator_offsets(record, separator);
    let len = record.len() as int;
    let start = field_start_of(offsets, len, field);
    let end = field_end_of(offsets, len, field);
    lemma_separator_offsets(record, separator);
    assert forall|j: int| 0 <= j < field_of(record, separator, field).len() implies field_of(
        record,
        separator,
        field,
    )[j] != separator by {
        let at = start + j;
        if record[at] == separator {
            let k = choose|k: int| 0 <= k < offsets.len() && offsets[k] == at;
            if field >= 2 {
                assert(offsets[field - 2] < offsets[k]);
                if k <= field - 2 {
                    assert(k < field - 2 ==> offsets[k] < offsets[field - 2]);
                }
            }
            if field <= offsets.len() {
                assert(offsets[k] < offsets[field - 1]);
                if k >= field - 1 {
                    assert(field - 1 < k ==> offsets[field - 1] < offsets[k]);
                }
            }
        }
    }
}

/// A run of fields is its first field, the separator as it stands in the
/// record, and the run of the fields after the first.
pub proof fn lemma_fields_between_unfold(
    record: Seq<u8>,
    separator: u8,
    start_field: int,
    end_field: int,
)
    requires
        1 <= start_field < end_field,
        start_field <= separator_count(record, separator),
    ensures
        fields_between(record, separator, start_field, end_field) == field_of(
            record,
            separator,
            start_field,
        ).push(separator) + fields_between(record, separator, start_field + 1, end_field),
{
    let offsets = separator_offsets(record, separator);
    lemma_separator_offsets(record, separator);
    lemma_separator_offsets_count(record, separator);
    let cut = offsets[start_field - 1];
    assert(record[cut] == separator);
    if start_field >= 2 {
        assert(offsets[start_field - 2] < offsets[start_field - 1]);
    }
    if end_field <= offsets.len() {
        assert(offsets[start_field - 1] < offsets[end_field - 1]);
    }
}

/// Everything from a field on is that field, the separator as it stands in
/// the record, and everything from the next field on.
pub proof fn lemma_fields_from_unfold(record: Seq<u8>, separator: u8, start_field: int)
    requires
        1 <= start_field <= separator_count(record, separator),
    ensures
        fields_from(record, separator, start_field) == field_of(
            record,
            separator,
            start_field,
        ).push(separator) + fields_from(record, separator, start_field + 1),
{
    let offsets = separator_offsets(record, separator);
    lemma_separator_offsets(record, separator);
    lemma_separator_offsets_count(record, separator);
    let cut = offsets[start_field - 1];
    assert(record[cut] == separator);
    if start_field >= 2 {
        assert(offsets[start_field - 2] < offsets[start_field - 1]);
    }
}

/// A record with K separators has K + 1 fields: every field after them is
/// empty.
pub proof fn lemma_field_past_last_is_empty(record: Seq<u8>, separator: u8, field: int)
    requires
        field > separator_count(record, separator) + 1,
    ensures
        field_of(record, separator, field) == Seq::<u8>::empty(),
{
    lemma_separator_offsets_count(record, separator);
}

/// Everything from the first field on is the whole record.
pub proof fn lemma_fields_from_first_is_record(record: Seq<u8>, separator: u8)
    ensures
        fields_from(record, separator, 1) == record,
{
}

} // verus!
