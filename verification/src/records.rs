//! The record source: input bytes, as they are read, cut into records at
//! each line feed.

use crate::context::NEWLINE_BYTE;
use vstd::prelude::*;

verus! {

/// What stands after the last line feed of `input`: the record that has
/// begun and not ended.
pub open spec fn unterminated(input: Seq<u8>) -> Seq<u8>
    decreases input.len(),
{
    if input.len() == 0 || input.last() == NEWLINE_BYTE {
        Seq::empty()
    } else {
        unterminated(input.drop_last()).push(input.last())
    }
}

/// The records of `input` that a line feed ends, each without its line
/// feed, in the order of the input.
pub open spec fn terminated_records(input: Seq<u8>) -> Seq<Seq<u8>>
    decreases input.len(),
{
    if input.len() == 0 {
        Seq::empty()
    } else if input.last() == NEWLINE_BYTE {
        terminated_records(input.drop_last()).push(unterminated(input.drop_last()))
    } else {
        terminated_records(input.drop_last())
    }
}

/// The records of an input that has ended: those that a line feed ends,
/// and the bytes after the last line feed if there are any.
pub open spec fn records_of(input: Seq<u8>) -> Seq<Seq<u8>> {
    if unterminated(input).len() > 0 {
        terminated_records(input).push(unterminated(input))
    } else {
        terminated_records(input)
    }
}

/// Records with a line feed after each, one after the other.
pub open spec fn joined(records: Seq<Seq<u8>>) -> Seq<u8>
    decreases records.len(),
{
    if records.len() == 0 {
        Seq::empty()
    } else {
        joined(records.drop_last()) + records.last().push(NEWLINE_BYTE)
    }
}

/// Nothing is lost and nothing added: the terminated records, each with its
/// line feed, and the unterminated rest are the input.
pub proof fn lemma_records_rejoin(input: Seq<u8>)
    ensures
        joined(terminated_records(input)) + unterminated(input) == input,
    decreases input.len(),
{
    if input.len() > 0 {
        let init = input.drop_last();
        lemma_records_rejoin(init);
        let before = terminated_records(init);
        let rest = unterminated(init);
        if input.last() == NEWLINE_BYTE {
            assert(before.push(rest).drop_last() == before);
            assert(joined(before) + rest.push(NEWLINE_BYTE) == (joined(before) + rest).push(
                NEWLINE_BYTE,
            ));
            assert(init.push(NEWLINE_BYTE) == input);
            assert(input + Seq::<u8>::empty() == input);
        } else {
            assert(joined(before) + rest.push(input.last()) == (joined(before) + rest).push(
                input.last(),
            ));
            assert(init.push(input.last()) == input);
        }
    } else {
        assert(Seq::<u8>::empty() + Seq::<u8>::empty() == input);
    }
}

/// No record holds a line feed.
pub proof fn lemma_records_hold_no_line_feed(input: Seq<u8>)
    ensures
        forall|j: int| 0 <= j < unterminated(input).len() ==> unterminated(input)[j] != NEWLINE_BYTE,
        forall|i: int, j: int|
            0 <= i < terminated_records(input).len() && 0 <= j < terminated_records(input)[i].len()
                ==> terminated_records(input)[i][j] != NEWLINE_BYTE,
    decreases input.len(),
{
    if input.len() > 0 {
        let init = input.drop_last();
        lemma_records_hold_no_line_feed(init);
        let records = terminated_records(input);
        assert forall|i: int, j: int|
            0 <= i < records.len() && 0 <= j < records[i].len() implies records[i][j]
            != NEWLINE_BYTE by {
            if i < terminated_records(init).len() {
                assert(records[i] == terminated_records(init)[i]);
            } else {
                assert(records[i] == unterminated(init));
            }
        }
        assert forall|j: int| 0 <= j < unterminated(input).len() implies unterminated(input)[j]
            != NEWLINE_BYTE by {
            if j < unterminated(init).len() {
                assert(unterminated(input)[j] == unterminated(init)[j]);
            }
        }
    }
}

/// One input line, without its line feed, and its rank among the records
/// of the input, counted from 1.
#[derive(Clone, Debug, PartialEq, Eq)]
pub struct Record {
    pub bytes: Vec<u8>,
    pub id: u64,
}

/// What a record is, with its bytes as a sequence.
pub struct RecordSpec {
    pub bytes: Seq<u8>,
    pub id: int,
}

impl View for Record {
    type V = RecordSpec;

    open spec fn view(&self) -> RecordSpec {
        RecordSpec { bytes: self.bytes@, id: self.id as int }
    }
}

impl DeepView for Record {
    type V = RecordSpec;

    open spec fn deep_view(&self) -> RecordSpec {
        self.view()
    }
}

/// The records `from` to `to` (exclusive) of `all`, counted from 0, each
/// with its rank counted from 1.
pub open spec fn numbered(all: Seq<Seq<u8>>, from: int, to: int) -> Seq<RecordSpec> {
    Seq::new((to - from) as nat, |k: int| RecordSpec { bytes: all[from + k], id: from + k + 1 })
}

/// Cuts a stream of bytes into records as the bytes come in, and numbers
/// the records from 1.
pub struct RecordSplitter {
    pending: Vec<u8>,
    yielded: u64,
    seen: Ghost<Seq<u8>>,
}

impl RecordSplitter {
    /// All the bytes that the splitter has been given.
    pub closed spec fn seen(&self) -> Seq<u8> {
        self.seen@
    }

    /// The invariant of every value: it holds the bytes that came after the
    /// last line feed, and the number of records that it has handed out.
    #[verifier::type_invariant]
    pub closed spec fn wf(&self) -> bool {
        &&& self.pending@ == unterminated(self.seen@)
        &&& self.yielded == terminated_records(self.seen@).len()
    }

    /// A splitter that has been given nothing.
    pub fn new() -> (splitter: RecordSplitter)
        ensures
            splitter.wf(),
            splitter.seen() == Seq::<u8>::empty(),
    {
        RecordSplitter { pending: Vec::new(), yielded: 0, seen: Ghost(Seq::empty()) }
    }

    /// The number of records handed out so far.
    pub fn yielded(&self) -> (count: u64)
        ensures
            count == terminated_records(self.seen()).len(),
    {
        proof {
            use_type_invariant(self);
        }
        self.yielded
    }

    /// Whether the numbers suffice for the records that `chunk_len` more
    /// bytes may end, and for one more after them.
    pub fn can_take(&self, chunk_len: usize) -> (room: bool)
        ensures
            room == (terminated_records(self.seen()).len() + chunk_len < u64::MAX),
    {
        proof {
            use_type_invariant(self);
        }
        (chunk_len as u64) < u64::MAX - self.yielded
    }

    /// Takes the next bytes of the input and hands out the records that they
    /// end, in order, each with its number. The numbers must not run out.
    pub fn push_chunk(&mut self, chunk: &[u8]) -> (records: Vec<Record>)
        requires
            terminated_records(old(self).seen()).len() + chunk@.len() < u64::MAX,
        ensures
            final(self).seen() == old(self).seen() + chunk@,
            records.deep_view() == numbered(
                terminated_records(final(self).seen()),
                terminated_records(old(self).seen()).len() as int,
                terminated_records(final(self).seen()).len() as int,
            ),
    {
        proof {
            use_type_invariant(&*self);
        }
        let ghost before = self.seen@;
        let ghost first = terminated_records(before).len() as int;
        let mut taken = RecordSplitter::new();
        std::mem::swap(self, &mut taken);
        let mut pending = taken.pending;
        let mut yielded = taken.yielded;
        let mut records: Vec<Record> = Vec::new();
        let mut i: usize = 0;
        assert(before + chunk@.take(0) == before);
        assert(records.deep_view() == numbered(terminated_records(before), first, first));
        while i < chunk.len()
            invariant
                i <= chunk@.len(),
                first == terminated_records(before).len(),
                first + chunk@.len() < u64::MAX,
                pending@ == unterminated(before + chunk@.take(i as int)),
                yielded == terminated_records(before + chunk@.take(i as int)).len(),
                first <= yielded <= first + i,
                records.deep_view() == numbered(
                    terminated_records(before + chunk@.take(i as int)),
                    first,
                    yielded as int,
                ),
            decreases chunk@.len() - i,
        {
            let ghost so_far = before + chunk@.take(i as int);
            let ghost held = records.deep_view();
            let byte = chunk[i];
            proof {
                assert(before + chunk@.take(i + 1) == so_far.push(byte));
                assert(so_far.push(byte).drop_last() == so_far);
            }
            if byte == NEWLINE_BYTE {
                let mut bytes: Vec<u8> = Vec::new();
                std::mem::swap(&mut bytes, &mut pending);
                yielded = yielded + 1;
                let record = Record { bytes, id: yielded };
                records.push(record);
                proof {
                    let now = terminated_records(so_far.push(byte));
                    assert(now == terminated_records(so_far).push(unterminated(so_far)));
                    assert(records.deep_view() == held.push(record@));
                    assert(held.push(record@) == numbered(now, first, yielded as int));
                }
            } else {
                pending.push(byte);
            }
            i += 1;
        }
        assert(chunk@.take(chunk@.len() as int) == chunk@);
        *self = RecordSplitter { pending, yielded, seen: Ghost(before + chunk@) };
        records
    }

    /// At the end of the input: the record that no line feed ended, if the
    /// input did not end with a line feed or empty.
    pub fn finish(self) -> (last: Option<Record>)
        requires
            terminated_records(self.seen()).len() < u64::MAX,
        ensures
            match last {
                Some(record) => {
                    &&& record.bytes@ == unterminated(self.seen())
                    &&& record.bytes@.len() > 0
                    &&& record.id == terminated_records(self.seen()).len() + 1
                    &&& records_of(self.seen()) == terminated_records(self.seen()).push(
                        record.bytes@,
                    )
                },
                None => {
                    &&& unterminated(self.seen()).len() == 0
                    &&& records_of(self.seen()) == terminated_records(self.seen())
                },
            },
    {
        proof {
            use_type_invariant(&self);
        }
        if self.pending.len() > 0 {
            Some(Record { bytes: self.pending, id: self.yielded + 1 })
        } else {
            None
        }
    }
}

} // verus!
