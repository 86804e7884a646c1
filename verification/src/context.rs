//! Field extraction from a record and rendering of output templates.
//!
//! `FieldValues` finds the fields of a record, `OutputTemplate` holds the
//! fragments of a template and merges them with the fields of a record.

use crate::fields::{
    field_end_of, field_start_of, lemma_separator_offsets, lemma_separator_offsets_count,
    offsets_ordered, separator_count, separator_offsets,
};
use crate::grammar::{
    all_renderable, lemma_fragments_renderable, renderable, request_fragments, tail_from,
    well_formed, FragmentSpec,
};
use crate::parser::{complete_parse_request_fragments, RequestFragment, TemplateError};
use crate::canonical::{
    canonical_template, lemma_canonical_round_trip, lemma_read_is_as_parsed, run_as_parsed,
};
use crate::render::{fragment_bytes, merged, rendered};
use crate::utf8::encode_char;
use smallvec::SmallVec;
use vstd::prelude::*;
use vstd::slice::{slice_subrange, slice_to_vec};
use vstd::string::{StringExecFns, StringSliceAdditionalSpecFns};
use vstd::utf8::{decode_utf8, encode_scalar, valid_utf8};

verus! {

/// The space byte, which separates the fields of a record.
pub const SPACE_BYTE: u8 = 0x20;

/// The comma byte.
pub const COMMA_BYTE: u8 = 0x2c;

/// The line feed byte, which separates records.
pub const NEWLINE_BYTE: u8 = 0x0a;

/// The vertical bar byte.
pub const PIPE_BYTE: u8 = 0x7c;

/// The delimiter offsets of one record, kept in a `smallvec::SmallVec` that
/// stays on the stack for up to 32 offsets. Nothing inside it is visible to
/// the verifier; `delimiter_seq` names what it holds.
#[verifier::external_body]
#[derive(PartialEq, Debug)]
pub struct DelimiterIndexes {
    inner: SmallVec<[usize; 32]>,
}

/// The offsets that a delimiter vector holds, in the order they were pushed.
pub uninterp spec fn delimiter_seq(v: DelimiterIndexes) -> Seq<usize>;

/// `SmallVec::with_capacity`: an empty vector with room for `n` offsets.
/// Room for more than the 32 inline slots is allocated, and the call panics
/// when `n` offsets take more bytes than one allocation may have; the bound
/// on `n` keeps the call from that.
#[verifier::external_body]
fn delimiters_with_capacity(n: usize) -> (v: DelimiterIndexes)
    requires
        n * 8 <= isize::MAX,
    ensures
        delimiter_seq(v) == Seq::<usize>::empty(),
{
    DelimiterIndexes { inner: SmallVec::with_capacity(n) }
}

/// `SmallVec::push`: appends one offset at the end and keeps the others. A
/// full vector grows to the next power of two above its length, and panics
/// when that many offsets take more bytes than one allocation may have; the
/// bound on the length keeps the call from that.
#[verifier::external_body]
fn delimiters_push(v: &mut DelimiterIndexes, offset: usize)
    requires
        (delimiter_seq(*old(v)).len() + 1) * 16 <= isize::MAX,
    ensures
        delimiter_seq(*final(v)) == delimiter_seq(*old(v)).push(offset),
{
    v.inner.push(offset)
}

/// `SmallVec::len`: the number of offsets held.
#[verifier::external_body]
fn delimiters_len(v: &DelimiterIndexes) -> (n: usize)
    ensures
        n == delimiter_seq(*v).len(),
{
    v.inner.len()
}

/// Indexing a `SmallVec` with a `usize`: the offset at position `i`. The
/// call panics when there is no such position, so `i` must be below the
/// length.
#[verifier::external_body]
fn delimiters_get(v: &DelimiterIndexes, i: usize) -> (offset: usize)
    requires
        i < delimiter_seq(*v).len(),
    ensures
        offset == delimiter_seq(*v)[i as int],
{
    v.inner[i]
}

/// A record and the offsets of its delimiters, from which any field or run
/// of fields is sliced without copying.
#[derive(PartialEq, Debug)]
pub struct FieldValues<'a> {
    raw_record: &'a [u8],
    raw_len: usize,
    delimiter_indexes: DelimiterIndexes,
}

impl<'a> FieldValues<'a> {
    /// The bytes of the record.
    pub closed spec fn record(&self) -> Seq<u8> {
        self.raw_record@
    }

    /// The offsets of the delimiters found in the record.
    pub closed spec fn offsets(&self) -> Seq<int> {
        delimiter_seq(self.delimiter_indexes).map_values(|o: usize| o as int)
    }

    /// The invariant of every value: the offsets are strictly increasing and
    /// lie inside the record.
    #[verifier::type_invariant]
    pub closed spec fn wf(&self) -> bool {
        &&& self.raw_len == self.raw_record@.len()
        &&& offsets_ordered(self.offsets(), self.raw_record@.len() as int)
    }

    /// The number of delimiters in the record.
    pub open spec fn delimiter_count(&self) -> nat {
        self.offsets().len()
    }

    /// The offset at which field `field` starts.
    pub open spec fn spec_field_start(&self, field: int) -> int {
        field_start_of(self.offsets(), self.record().len() as int, field)
    }

    /// The offset at which field `field` ends.
    pub open spec fn spec_field_end(&self, field: int) -> int {
        field_end_of(self.offsets(), self.record().len() as int, field)
    }

    /// The bytes of field `field`.
    pub open spec fn spec_single(&self, field: int) -> Seq<u8> {
        self.record().subrange(self.spec_field_start(field), self.spec_field_end(field))
    }

    /// The bytes from the start of field `start_field` to the end of the record.
    pub open spec fn spec_unbounded(&self, start_field: int) -> Seq<u8> {
        self.record().subrange(self.spec_field_start(start_field), self.record().len() as int)
    }

    /// The bytes from the start of field `start_field` to the end of field
    /// `end_field`, delimiters between them included.
    pub open spec fn spec_range(&self, start_field: int, end_field: int) -> Seq<u8> {
        self.record().subrange(
            self.spec_field_start(start_field),
            self.spec_field_end(end_field),
        )
    }

    /// Whether a record of `record_len` bytes is within what `parse` takes.
    pub fn fits(record_len: usize) -> (fits: bool)
        ensures
            fits == (record_len * 16 <= isize::MAX),
    {
        record_len <= (isize::MAX as usize) / 16
    }

    /// Scans `raw_record` once and notes where each `field_separator` byte
    /// stands. `expected_field_count` only sizes the offset vector, and
    /// never beyond the number of delimiters that the record can hold. The
    /// record must not be so long that the offsets of its delimiters would
    /// not fit in one allocation.
    pub fn parse(
        raw_record: &'a [u8],
        field_separator: u8,
        expected_field_count: usize,
    ) -> (fv: FieldValues<'a>)
        requires
            raw_record@.len() * 16 <= isize::MAX,
        ensures
            fv.wf(),
            fv.record() == raw_record@,
            fv.offsets() == separator_offsets(raw_record@, field_separator),
            fv.delimiter_count() == separator_count(raw_record@, field_separator),
    {
        let len = raw_record.len();
        let room = if expected_field_count < len {
            expected_field_count
        } else {
            len
        };
        let mut delimiters = delimiters_with_capacity(room);
        let mut offset: usize = 0;
        while offset < len
            invariant
                offset <= len,
                len == raw_record@.len(),
                raw_record@.len() * 16 <= isize::MAX,
                delimiter_seq(delimiters).map_values(|o: usize| o as int) == separator_offsets(
                    raw_record@.take(offset as int),
                    field_separator,
                ),
            decreases len - offset,
        {
            proof {
                lemma_separator_offsets(raw_record@.take(offset as int), field_separator);
                assert(raw_record@.take(offset + 1).drop_last() == raw_record@.take(offset as int));
            }
            if raw_record[offset] == field_separator {
                delimiters_push(&mut delimiters, offset);
            }
            offset += 1;
        }
        proof {
            assert(raw_record@.take(len as int) == raw_record@);
            lemma_separator_offsets(raw_record@, field_separator);
            lemma_separator_offsets_count(raw_record@, field_separator);
        }
        FieldValues { raw_record, raw_len: len, delimiter_indexes: delimiters }
    }

    /// The offset at which field `field` starts.
    pub fn field_start(&self, field: usize) -> (start: usize)
        ensures
            start == self.spec_field_start(field as int),
            start <= self.record().len(),
    {
        proof {
            use_type_invariant(self);
        }
        if field <= 1 {
            return 0;
        } else if field - 1 > delimiters_len(&self.delimiter_indexes) {
            return self.raw_len;
        }
        let delimiter = delimiters_get(&self.delimiter_indexes, field - 2);
        assert(self.offsets()[field - 2] == delimiter);
        delimiter + 1
    }

    /// The offset at which field `field` ends. Fields are counted from 1.
    pub fn field_end(&self, field: usize) -> (end: usize)
        requires
            field >= 1,
        ensures
            end == self.spec_field_end(field as int),
            self.spec_field_start(field as int) <= end <= self.record().len(),
    {
        proof {
            use_type_invariant(self);
        }
        if field > delimiters_len(&self.delimiter_indexes) {
            return self.raw_len;
        }
        let delimiter = delimiters_get(&self.delimiter_indexes, field - 1);
        assert(self.offsets()[field - 1] == delimiter);
        assert(field >= 2 ==> self.offsets()[field - 2] < self.offsets()[field - 1]);
        delimiter
    }

    /// The bytes of field `field`, counted from 1; empty past the last field.
    pub fn single(&self, field: usize) -> (bytes: &'a [u8])
        requires
            field >= 1,
        ensures
            bytes@ == self.spec_single(field as int),
            field > self.delimiter_count() + 1 ==> bytes@ == Seq::<u8>::empty(),
    {
        let start = self.field_start(field);
        let end = self.field_end(field);
        slice_subrange(self.raw_record, start, end)
    }

    /// Everything from the start of field `start_field` to the end of the
    /// record; the whole record when `start_field` is at most 1.
    pub fn unbounded(&self, start_field: usize) -> (bytes: &'a [u8])
        ensures
            bytes@ == self.spec_unbounded(start_field as int),
            start_field <= 1 ==> bytes@ == self.record(),
    {
        proof {
            use_type_invariant(self);
        }
        let start = self.field_start(start_field);
        slice_subrange(self.raw_record, start, self.raw_len)
    }

    /// Fields `start_field` to `end_field`, with the delimiters between them
    /// as they stand in the record.
    pub fn range(&self, start_field: usize, end_field: usize) -> (bytes: &'a [u8])
        requires
            start_field <= end_field,
            end_field >= 1,
        ensures
            bytes@ == self.spec_range(start_field as int, end_field as int),
    {
        proof {
            use_type_invariant(self);
        }
        let start = self.field_start(start_field);
        let end = self.field_end(end_field);
        slice_subrange(self.raw_record, start, end)
    }
}

/// A character that stood after a backslash in a template, kept with the
/// bytes that encode it.
#[derive(Debug, PartialEq, Eq)]
pub struct Escaped {
    character: char,
    encoding: Vec<u8>,
}

impl View for Escaped {
    type V = char;

    closed spec fn view(&self) -> char {
        self.character
    }
}

impl Escaped {
    /// The invariant of every value: the bytes are the UTF-8 encoding of
    /// the character.
    #[verifier::type_invariant]
    pub closed spec fn wf(&self) -> bool {
        self.encoding@ == encode_scalar(self.character as u32)
    }

    /// The escaped form of a character.
    pub fn new(character: char) -> (escaped: Escaped)
        ensures
            escaped@ == character,
    {
        let mut encoding: Vec<u8> = Vec::new();
        encode_char(character, &mut encoding);
        assert(encoding@ == encode_scalar(character as u32));
        Escaped { character, encoding }
    }

    /// The character.
    pub fn character(&self) -> (character: char)
        ensures
            character == self@,
    {
        self.character
    }

    /// The UTF-8 encoding of the character.
    pub fn bytes(&self) -> (bytes: &[u8])
        ensures
            bytes@ == encode_scalar(self@ as u32),
    {
        proof {
            use_type_invariant(self);
        }
        self.encoding.as_slice()
    }
}

impl Clone for Escaped {
    /// The escaped form of the same character.
    fn clone(&self) -> (copy: Escaped)
        ensures
            copy@ == self@,
    {
        Escaped::new(self.character)
    }
}

/// One piece of an output template: bytes that stand for themselves, an
/// escaped character, or a reference to fields of the record.
#[derive(Clone, Debug, PartialEq)]
pub enum Fragment {
    /// `a value`: a static string.
    StaticValue(Vec<u8>),
    /// A character after a backslash, as in `\{`.
    EscapedChar(Escaped),
    /// `{2}`: field 2.
    SingleField(usize),
    /// `{2,4}`: fields 2, 3 and 4.
    FieldRange(usize, usize),
    /// `{2,}`: field 2 and all after it.
    UnboundedFieldRange(usize),
}

impl View for Fragment {
    type V = FragmentSpec;

    open spec fn view(&self) -> FragmentSpec {
        match *self {
            Fragment::StaticValue(bytes) => FragmentSpec::Literal(bytes@),
            Fragment::EscapedChar(escaped) => FragmentSpec::EscapedChar(escaped@),
            Fragment::SingleField(field) => FragmentSpec::SingleField(field as int),
            Fragment::FieldRange(lo, hi) => FragmentSpec::FieldRange(lo as int, hi as int),
            Fragment::UnboundedFieldRange(lo) => FragmentSpec::UnboundedFieldRange(lo as int),
        }
    }
}

impl DeepView for Fragment {
    type V = FragmentSpec;

    open spec fn deep_view(&self) -> FragmentSpec {
        self.view()
    }
}

/// Why a template could not be merged with a record into text.
#[derive(Clone, Copy, Debug, PartialEq, Eq, Structural)]
pub enum MergeError {
    /// The merged bytes are not valid UTF-8.
    InvalidUtf8,
}

/// `String::from_utf8`: the text that the bytes encode, when they are valid
/// UTF-8, and nothing otherwise.
#[verifier::external_body]
fn string_from_utf8(bytes: Vec<u8>) -> (text: Option<String>)
    ensures
        match text {
            Some(s) => valid_utf8(bytes@) && s@ == decode_utf8(bytes@),
            None => !valid_utf8(bytes@),
        },
{
    String::from_utf8(bytes).ok()
}

/// Appends `bytes` to `out`.
fn append_bytes(out: &mut Vec<u8>, bytes: &[u8])
    ensures
        final(out)@ == old(out)@ + bytes@,
{
    let mut i: usize = 0;
    while i < bytes.len()
        invariant
            i <= bytes@.len(),
            out@ == old(out)@ + bytes@.take(i as int),
        decreases bytes@.len() - i,
    {
        out.push(bytes[i]);
        assert(bytes@.take(i + 1) == bytes@.take(i as int).push(bytes@[i as int]));
        i += 1;
    }
    assert(bytes@.take(bytes@.len() as int) == bytes@);
}

/// A template: its text and the fragments that the text was read as.
#[derive(Debug)]
pub struct OutputTemplate {
    raw_template: String,
    fragments: Vec<Fragment>,
}

impl OutputTemplate {
    /// The text of the template.
    pub closed spec fn text(&self) -> Seq<char> {
        self.raw_template@
    }

    /// The fragments of the template.
    pub closed spec fn fragments(&self) -> Seq<FragmentSpec> {
        self.fragments.deep_view()
    }

    /// The invariant of every value: each fragment can be rendered.
    #[verifier::type_invariant]
    pub closed spec fn wf(&self) -> bool {
        all_renderable(self.fragments.deep_view())
    }

    /// The bytes that the template gives for a record.
    pub open spec fn spec_merge(&self, field_values: FieldValues) -> Seq<u8> {
        rendered(self.fragments(), field_values.record(), field_values.offsets())
    }

    /// A template from its parts. The fragments are taken as they are.
    pub fn new(raw_template: &str, fragments: Vec<Fragment>) -> (template: OutputTemplate)
        requires
            all_renderable(fragments.deep_view()),
        ensures
            template.wf(),
            template.text() == raw_template@,
            template.fragments() == fragments.deep_view(),
    {
        OutputTemplate { raw_template: String::from_str(raw_template), fragments }
    }

    /// Reads a template. It is refused when some part of it cannot be read
    /// as fragments.
    pub fn parse<'a>(raw_template: &'a str) -> (r: Result<OutputTemplate, TemplateError<'a>>)
        ensures
            match r {
                Ok(template) => {
                    &&& well_formed(raw_template.spec_bytes())
                    &&& template.wf()
                    &&& template.text() == raw_template@
                    &&& template.fragments() == request_fragments(raw_template.spec_bytes())
                    &&& run_as_parsed(template.fragments())
                },
                Err(e) => {
                    &&& !well_formed(raw_template.spec_bytes())
                    &&& e.remaining.spec_bytes() == tail_from(raw_template.spec_bytes())
                },
            },
    {
        match OutputTemplate::extract_fragments(raw_template) {
            Ok(fragments) => Ok(
                OutputTemplate { raw_template: String::from_str(raw_template), fragments },
            ),
            Err(e) => Err(e),
        }
    }

    /// Reads the text of a template as fragments, in the order of the text:
    /// literals that are not empty and do not follow one another, escaped
    /// characters, and field references with every `{}` given its number.
    pub fn extract_fragments<'a>(raw_template: &'a str) -> (r: Result<
        Vec<Fragment>,
        TemplateError<'a>,
    >)
        ensures
            match r {
                Ok(fragments) => {
                    &&& well_formed(raw_template.spec_bytes())
                    &&& all_renderable(fragments.deep_view())
                    &&& fragments.deep_view() == request_fragments(raw_template.spec_bytes())
                    &&& run_as_parsed(fragments.deep_view())
                },
                Err(e) => {
                    &&& !well_formed(raw_template.spec_bytes())
                    &&& e.remaining.spec_bytes() == tail_from(raw_template.spec_bytes())
                },
            },
    {
        let parsed = match complete_parse_request_fragments(raw_template) {
            Ok(parsed) => parsed,
            Err(e) => {
                return Err(e);
            },
        };
        let ghost read = request_fragments(raw_template.spec_bytes());
        let bytes = raw_template.as_bytes();
        proof {
            assert(bytes@.len() == bytes.len());
            lemma_fragments_renderable(raw_template.spec_bytes(), 0);
        }
        let mut fragments: Vec<Fragment> = Vec::new();
        let mut i: usize = 0;
        while i < parsed.len()
            invariant
                i <= parsed.len(),
                parsed.deep_view() == read,
                all_renderable(read),
                fragments.deep_view() == read.take(i as int),
            decreases parsed.len() - i,
        {
            let ghost before = fragments.deep_view();
            assert(parsed[i as int]@ == read[i as int]);
            assert(renderable(read[i as int]));
            let fragment = match &parsed[i] {
                RequestFragment::Literal(bytes) => Fragment::StaticValue(slice_to_vec(bytes)),
                RequestFragment::EscapedChar(c) => Fragment::EscapedChar(Escaped::new(*c)),
                RequestFragment::SingleField(field) => Fragment::SingleField(*field),
                RequestFragment::FieldRange(lo, hi) => Fragment::FieldRange(*lo, *hi),
                RequestFragment::UnboundedFieldRange(lo) => Fragment::UnboundedFieldRange(*lo),
                RequestFragment::Implicit => {
                    // The parser has given every `{}` its number.
                    assert(false);
                    Fragment::SingleField(1)
                },
            };
            assert(fragment@ == read[i as int]);
            fragments.push(fragment);
            proof {
                assert(fragments.deep_view() == before.push(fragment@));
                assert(read.take(i + 1) == read.take(i as int).push(read[i as int]));
            }
            i += 1;
        }
        proof {
            assert(read.take(parsed.len() as int) == read);
            lemma_read_is_as_parsed(raw_template.spec_bytes(), 0);
        }
        Ok(fragments)
    }

    /// The number of fragments of the template.
    pub fn fragment_count(&self) -> (count: usize)
        ensures
            count == self.fragments().len(),
    {
        self.fragments.len()
    }

    /// The bytes that fragment `index` gives for a record, as a slice of the
    /// template or of the record. A writer that takes the pieces in order
    /// has written the merged output without holding it as a whole.
    pub fn piece<'b>(&'b self, index: usize, field_values: &FieldValues<'b>) -> (bytes: &'b [u8])
        requires
            index < self.fragments().len(),
        ensures
            bytes@ == fragment_bytes(
                self.fragments()[index as int],
                field_values.record(),
                field_values.offsets(),
            ),
    {
        proof {
            use_type_invariant(self);
            use_type_invariant(field_values);
        }
        assert(self.fragments[index as int]@ == self.fragments.deep_view()[index as int]);
        assert(renderable(self.fragments.deep_view()[index as int]));
        match &self.fragments[index] {
            Fragment::StaticValue(val) => val.as_slice(),
            Fragment::EscapedChar(escaped) => escaped.bytes(),
            Fragment::SingleField(field) => field_values.single(*field),
            Fragment::UnboundedFieldRange(start_field) => field_values.unbounded(*start_field),
            Fragment::FieldRange(start_field, end_field) => field_values.range(
                *start_field,
                *end_field,
            ),
        }
    }

    /// Writes to `writer` what the template gives for a record: the bytes of
    /// each fragment, in order, with nothing added between them.
    pub fn write_merged(&self, writer: &mut Vec<u8>, field_values: FieldValues)
        ensures
            final(writer)@ == old(writer)@ + self.spec_merge(field_values),
    {
        let ghost all = self.fragments();
        let ghost record = field_values.record();
        let ghost offsets = field_values.offsets();
        let count = self.fragment_count();
        let mut i: usize = 0;
        assert(writer@ + Seq::<u8>::empty() == writer@);
        while i < count
            invariant
                i <= count == all.len(),
                all == self.fragments(),
                record == field_values.record(),
                offsets == field_values.offsets(),
                writer@ == old(writer)@ + rendered(all.take(i as int), record, offsets),
            decreases count - i,
        {
            append_bytes(writer, self.piece(i, &field_values));
            proof {
                assert(all.take(i + 1).drop_last() == all.take(i as int));
            }
            i += 1;
        }
        assert(all.take(count as int) == all);
    }

    /// What the template gives for a record, as text. The merged bytes must
    /// be valid UTF-8.
    pub fn merge(&self, field_values: FieldValues) -> (r: Result<String, MergeError>)
        ensures
            match r {
                Ok(text) => valid_utf8(self.spec_merge(field_values)) && text@ == decode_utf8(
                    self.spec_merge(field_values),
                ),
                Err(_) => !valid_utf8(self.spec_merge(field_values)),
            },
    {
        let mut out: Vec<u8> = Vec::new();
        self.write_merged(&mut out, field_values);
        match string_from_utf8(out) {
            Some(text) => Ok(text),
            None => Err(MergeError::InvalidUtf8),
        }
    }
}

/// Whether two fragments are of one kind and hold equal values.
fn fragment_eq(a: &Fragment, b: &Fragment) -> (r: bool)
    ensures
        r == (a@ == b@),
{
    match (a, b) {
        (Fragment::StaticValue(x), Fragment::StaticValue(y)) => {
            let same = x == y;
            assert(same == (x@ =~= y@));
            same
        },
        (Fragment::EscapedChar(x), Fragment::EscapedChar(y)) => x.character() == y.character(),
        (Fragment::SingleField(x), Fragment::SingleField(y)) => *x == *y,
        (Fragment::FieldRange(x_lo, x_hi), Fragment::FieldRange(y_lo, y_hi)) => *x_lo == *y_lo
            && *x_hi == *y_hi,
        (Fragment::UnboundedFieldRange(x), Fragment::UnboundedFieldRange(y)) => *x == *y,
        _ => false,
    }
}

impl PartialEq for OutputTemplate {
    /// Two templates are equal when their texts are equal and their
    /// fragments are equal one by one.
    fn eq(&self, other: &Self) -> (r: bool) {
        if !(self.raw_template == other.raw_template) {
            return false;
        }
        if self.fragments.len() != other.fragments.len() {
            assert(self.fragments.deep_view().len() != other.fragments.deep_view().len());
            return false;
        }
        let mut i: usize = 0;
        while i < self.fragments.len()
            invariant
                i <= self.fragments.len() == other.fragments.len(),
                forall|k: int|
                    0 <= k < i ==> self.fragments.deep_view()[k] == other.fragments.deep_view()[k],
            decreases self.fragments.len() - i,
        {
            if !fragment_eq(&self.fragments[i], &other.fragments[i]) {
                assert(self.fragments.deep_view()[i as int] != other.fragments.deep_view()[i as int]);
                return false;
            }
            i += 1;
        }
        assert(self.fragments.deep_view() =~= other.fragments.deep_view());
        true
    }
}

impl vstd::std_specs::cmp::PartialEqSpecImpl for OutputTemplate {
    open spec fn obeys_eq_spec() -> bool {
        true
    }

    open spec fn eq_spec(&self, other: &Self) -> bool {
        self.text() == other.text() && self.fragments() == other.fragments()
    }
}

/// Rendering is a function of the template text, the record and the
/// separator: whatever two parses of one text and two scans of one record
/// return, the merged bytes are the same.
pub proof fn lemma_merge_is_deterministic(
    first: OutputTemplate,
    second: OutputTemplate,
    first_values: FieldValues,
    second_values: FieldValues,
    text: Seq<u8>,
    record: Seq<u8>,
    separator: u8,
)
    requires
        first.fragments() == request_fragments(text),
        second.fragments() == request_fragments(text),
        first_values.record() == record,
        second_values.record() == record,
        first_values.offsets() == separator_offsets(record, separator),
        second_values.offsets() == separator_offsets(record, separator),
    ensures
        first.spec_merge(first_values) == second.spec_merge(second_values),
        first.spec_merge(first_values) == merged(text, record, separator),
{
}

/// Writing the fragments of a parsed template in their canonical text and
/// reading that text gives the same fragments: the text is well formed, and
/// a template parsed from it has the fragments of the first.
pub proof fn lemma_template_round_trip(template: OutputTemplate, text: Seq<u8>)
    requires
        well_formed(text),
        text.len() <= usize::MAX,
        template.fragments() == request_fragments(text),
    ensures
        well_formed(canonical_template(template.fragments())),
        request_fragments(canonical_template(template.fragments())) == template.fragments(),
{
    lemma_canonical_round_trip(text);
}

} // verus!
