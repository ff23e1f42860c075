//! Reading a record that another process may be writing.
//!
//! A writer makes the version odd, writes the record word by word, and makes
//! the version even. A reader notes an even version, copies the record word
//! by word, and looks at the version again. The model below takes one step
//! per access to shared memory, in any order of writer and reader, and shows
//! that a reader that sees its version again holds one published record and
//! not a mixture of two.

use vstd::prelude::*;

verus! {

/// Whether a reader may start copying at this version.
pub fn may_copy(version: u32) -> (res: bool)
    ensures
        res == (version % 2 == 0),
{
    version % 2 == 0
}

/// Whether a copy that started at `before` is whole.
pub fn copy_is_whole(before: u32, after: u32) -> (res: bool)
    ensures
        res == (before == after),
{
    before == after
}

/// A writer in the middle of a record.
#[verifier::ext_equal]
pub struct Writing {
    /// The record to write.
    pub record: Seq<u32>,
    /// Words written.
    pub done: int,
}

/// A reader in the middle of a copy.
#[verifier::ext_equal]
pub struct Reading {
    /// Version at the start.
    pub before: int,
    /// Words copied.
    pub copied: Seq<u32>,
}

/// Shared memory, one writer and one reader.
#[verifier::ext_equal]
pub struct Protocol {
    /// Changes of the version so far; the memory holds their number modulo
    /// 2 to the 32nd.
    pub changes: int,
    /// The record in memory.
    pub memory: Seq<u32>,
    /// Every record that was ever whole in memory, oldest first.
    pub published: Seq<Seq<u32>>,
    /// The writer, while it is at work.
    pub writer: Option<Writing>,
    /// The reader, while it is at work.
    pub reader: Option<Reading>,
}

/// The version that the memory holds.
pub open spec fn version_of(changes: int) -> u32 {
    (changes % 0x1_0000_0000) as u32
}

/// Nobody at work, one record in memory.
pub open spec fn started(p: Protocol, record: Seq<u32>) -> bool {
    &&& p.changes == 0
    &&& p.memory == record
    &&& p.published == seq![record]
    &&& p.writer is None
    &&& p.reader is None
}

/// The writer makes the version odd.
pub open spec fn raise(p: Protocol, q: Protocol, record: Seq<u32>) -> bool {
    &&& p.writer is None
    &&& record.len() == p.memory.len()
    &&& q == (Protocol {
        changes: p.changes + 1,
        writer: Some(Writing { record, done: 0 }),
        ..p
    })
}

/// The writer writes one word.
pub open spec fn write_word(p: Protocol, q: Protocol) -> bool {
    &&& p.writer matches Some(w)
    &&& w.done < p.memory.len()
    &&& q == (Protocol {
        memory: p.memory.update(w.done, w.record[w.done]),
        writer: Some(Writing { done: w.done + 1, ..w }),
        ..p
    })
}

/// The writer makes the version even.
pub open spec fn settle(p: Protocol, q: Protocol) -> bool {
    &&& p.writer matches Some(w)
    &&& w.done == p.memory.len()
    &&& q == (Protocol {
        changes: p.changes + 1,
        published: p.published.push(w.record),
        writer: None,
        ..p
    })
}

/// The reader notes an even version.
pub open spec fn begin_copy(p: Protocol, q: Protocol) -> bool {
    &&& version_of(p.changes) % 2 == 0
    &&& q == (Protocol {
        reader: Some(Reading { before: p.changes, copied: Seq::empty() }),
        ..p
    })
}

/// The reader copies one word.
pub open spec fn copy_word(p: Protocol, q: Protocol) -> bool {
    &&& p.reader matches Some(r)
    &&& r.copied.len() < p.memory.len()
    &&& q == (Protocol {
        reader: Some(Reading { copied: r.copied.push(p.memory[r.copied.len() as int]), ..r }),
        ..p
    })
}

/// One step of either process.
pub open spec fn step(p: Protocol, q: Protocol) -> bool {
    ||| exists|record: Seq<u32>| raise(p, q, record)
    ||| write_word(p, q)
    ||| settle(p, q)
    ||| begin_copy(p, q)
    ||| copy_word(p, q)
}

/// What holds between any two steps.
pub open spec fn consistent(p: Protocol) -> bool {
    &&& p.changes >= 0
    &&& p.published.len() == p.changes / 2 + 1
    &&& p.writer is None <==> p.changes % 2 == 0
    &&& p.writer is None ==> p.memory == p.published.last()
    &&& p.writer matches Some(w) ==> {
        &&& 0 <= w.done <= p.memory.len()
        &&& w.record.len() == p.memory.len()
        &&& forall|i: int| 0 <= i < w.done ==> #[trigger] p.memory[i] == w.record[i]
    }
    &&& p.reader matches Some(r) ==> {
        &&& 0 <= r.before <= p.changes
        &&& r.before % 2 == 0
        &&& r.copied.len() <= p.memory.len()
        &&& p.changes == r.before ==> forall|i: int|
            0 <= i < r.copied.len() ==> #[trigger] r.copied[i] == p.memory[i]
    }
}

/// The protocol starts consistent.
pub proof fn law_start_is_consistent(p: Protocol, record: Seq<u32>)
    requires
        started(p, record),
    ensures
        consistent(p),
{
}

/// Every step of either process keeps the protocol consistent.
pub proof fn law_steps_keep_consistency(p: Protocol, q: Protocol)
    requires
        consistent(p),
        step(p, q),
    ensures
        consistent(q),
        q.memory.len() == p.memory.len(),
{
    if write_word(p, q) {
        let w = p.writer->Some_0;
        assert forall|i: int| 0 <= i < w.done + 1 implies #[trigger] q.memory[i]
            == w.record[i] by {}
    } else if settle(p, q) {
        let w = p.writer->Some_0;
        assert(p.memory =~= w.record);
    } else if begin_copy(p, q) {
        assert(p.changes % 2 == (p.changes % 0x1_0000_0000) % 2);
    } else if copy_word(p, q) {
        let r = p.reader->Some_0;
    } else {
        let record = choose|record: Seq<u32>| raise(p, q, record);
        assert(raise(p, q, record));
    }
}

/// A whole copy is one published record: a reader that has copied every word
/// and sees the version that it noted, with fewer than 2 to the 32nd changes
/// in between, holds exactly the record that was published at that version.
pub proof fn law_whole_copy_is_one_record(p: Protocol)
    requires
        consistent(p),
        p.reader matches Some(r) && {
            &&& r.copied.len() == p.memory.len()
            &&& version_of(p.changes) == version_of(r.before)
            &&& p.changes - r.before < 0x1_0000_0000
        },
    ensures
        p.reader matches Some(r) && r.copied == p.published[r.before / 2],
{
    let r = p.reader->Some_0;
    let d = p.changes - r.before;
    assert(p.changes % 0x1_0000_0000 == r.before % 0x1_0000_0000);
    assert(d % 0x1_0000_0000 == 0);
    assert(d == 0);
    assert(r.copied =~= p.memory);
}

} // verus!
