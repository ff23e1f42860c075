//! Which jobs a piece of storage holds, regardless of order and hints.
//!
//! "No job is lost and none runs twice" is stated with these bags: an
//! operation that hands out a job takes exactly that job out of the bag, and
//! an operation that hands out nothing leaves the bag alone.

use crate::fcl_local::Slot;
use crate::fcl_worker::{slot_rest, stash_rest};
use crate::job::{compact_of, CompactJobRef, JobRef};
use vstd::multiset::Multiset;
use vstd::prelude::*;

verus! {

/// A bag of job names.
pub type JobBag = Multiset<CompactJobRef>;

/// The jobs of a sequence.
pub open spec fn seq_bag(s: Seq<CompactJobRef>) -> JobBag {
    s.to_multiset()
}

/// The jobs of a sequence of handles.
pub open spec fn refs_bag(s: Seq<JobRef>) -> JobBag {
    s.map_values(|j: JobRef| compact_of(j)).to_multiset()
}

/// The jobs of a sequence of slots.
pub open spec fn slots_bag(s: Seq<Slot>) -> JobBag
    decreases s.len(),
{
    if s.len() == 0 {
        Multiset::empty()
    } else {
        slots_bag(s.drop_last()).add(seq_bag(s.last().jobs))
    }
}

/// The union of a sequence of bags.
pub open spec fn union_bags(s: Seq<JobBag>) -> JobBag
    decreases s.len(),
{
    if s.len() == 0 {
        Multiset::empty()
    } else {
        union_bags(s.drop_last()).add(s.last())
    }
}

/// Pushing a slot adds its jobs.
pub proof fn lemma_slots_bag_push(s: Seq<Slot>, x: Slot)
    ensures
        slots_bag(s.push(x)) == slots_bag(s).add(seq_bag(x.jobs)),
{
    assert(s.push(x).drop_last() =~= s);
}

/// Taking the newest slot takes its jobs.
pub proof fn lemma_slots_bag_drop_last(s: Seq<Slot>)
    requires
        s.len() > 0,
    ensures
        slots_bag(s) == slots_bag(s.drop_last()).add(seq_bag(s.last().jobs)),
{
}

/// Taking the oldest slot takes its jobs.
pub proof fn lemma_slots_bag_drop_first(s: Seq<Slot>)
    requires
        s.len() > 0,
    ensures
        slots_bag(s) =~= slots_bag(s.drop_first()).add(seq_bag(s.first().jobs)),
    decreases s.len(),
{
    if s.len() == 1 {
        assert(s.drop_last() =~= Seq::<Slot>::empty());
        assert(s.drop_first() =~= Seq::<Slot>::empty());
    } else {
        lemma_slots_bag_drop_first(s.drop_last());
        assert(s.drop_first().drop_last() =~= s.drop_last().drop_first());
        assert(s.drop_first().last() == s.last());
        assert(s.drop_last().first() == s.first());
    }
}

/// A job that enters a slot is added to its bag.
pub proof fn lemma_with_job(s: Slot, job: JobRef)
    ensures
        seq_bag(s.with_job(job).jobs) =~= seq_bag(s.jobs).insert(compact_of(job)),
{
    broadcast use vstd::seq_lib::group_to_multiset_ensures;

    if s.jobs.len() == 0 {
        assert(s.jobs =~= Seq::<CompactJobRef>::empty());
        assert(s.with_job(job).jobs =~= s.jobs.push(compact_of(job)));
    }
}

/// A slot's bag is its first job and the rest.
pub proof fn lemma_slot_rest(s: Slot)
    requires
        s.jobs.len() > 0,
    ensures
        seq_bag(s.jobs) =~= seq_bag(slot_rest(s).jobs).insert(s.jobs[0]),
{
    lemma_seq_bag_drop_first(s.jobs);
}

/// A stash's bag is its newest job and the rest.
pub proof fn lemma_stash_rest(s: Slot)
    requires
        s.jobs.len() > 0,
    ensures
        seq_bag(s.jobs) =~= seq_bag(stash_rest(s).jobs).insert(s.jobs.last()),
{
    broadcast use vstd::seq_lib::group_to_multiset_ensures;

    assert(s.jobs =~= s.jobs.drop_last().push(s.jobs.last()));
}

/// A sequence's bag is its first element and the rest.
pub proof fn lemma_seq_bag_drop_first(s: Seq<CompactJobRef>)
    requires
        s.len() > 0,
    ensures
        seq_bag(s) =~= seq_bag(s.drop_first()).insert(s[0]),
{
    broadcast use vstd::seq_lib::group_to_multiset_ensures;

    assert(s.remove(0) =~= s.drop_first());
    assert(s.to_multiset().contains(s[0]));
}

/// An empty sequence has an empty bag, and a bag is as large as its sequence.
pub proof fn lemma_seq_bag_empty(s: Seq<CompactJobRef>)
    ensures
        s.len() == 0 ==> seq_bag(s) == Multiset::<CompactJobRef>::empty(),
        seq_bag(s).len() == s.len(),
{
    broadcast use vstd::seq_lib::group_to_multiset_ensures;

    if s.len() == 0 {
        assert forall|a: CompactJobRef| seq_bag(s).count(a) == 0 by {
            assert(!s.contains(a));
        }
        assert(seq_bag(s) =~= Multiset::<CompactJobRef>::empty());
    }
}

/// A bag of slots is as large as the slots' job counts together; in
/// particular, filled slots make a non-empty bag.
pub proof fn lemma_slots_bag_nonempty(s: Seq<Slot>)
    requires
        s.len() > 0,
        s.last().jobs.len() > 0,
    ensures
        slots_bag(s).len() > 0,
{
    lemma_seq_bag_empty(s.last().jobs);
}

/// Appending a handle adds its job.
pub proof fn lemma_refs_bag_push(s: Seq<JobRef>, j: JobRef)
    ensures
        refs_bag(s.push(j)) =~= refs_bag(s).insert(compact_of(j)),
{
    broadcast use vstd::seq_lib::group_to_multiset_ensures;

    let f = |j: JobRef| compact_of(j);
    assert(s.push(j).map_values(f) =~= s.map_values(f).push(compact_of(j)));
}

/// Taking the first handle takes its job.
pub proof fn lemma_refs_bag_drop_first(s: Seq<JobRef>)
    requires
        s.len() > 0,
    ensures
        refs_bag(s) =~= refs_bag(s.drop_first()).insert(compact_of(s[0])),
{
    let f = |j: JobRef| compact_of(j);
    lemma_seq_bag_drop_first(s.map_values(f));
    assert(s.map_values(f).drop_first() =~= s.drop_first().map_values(f));
}

/// An empty sequence of handles has an empty bag.
pub proof fn lemma_refs_bag_empty(s: Seq<JobRef>)
    ensures
        s.len() == 0 ==> refs_bag(s) =~= Multiset::<CompactJobRef>::empty(),
{
    lemma_seq_bag_empty(s.map_values(|j: JobRef| compact_of(j)));
}

/// Replacing one bag of a union exchanges the old one for the new one.
pub proof fn lemma_union_bags_update(s: Seq<JobBag>, i: int, b: JobBag)
    requires
        0 <= i < s.len(),
    ensures
        union_bags(s.update(i, b)).add(s[i]) == union_bags(s).add(b),
    decreases s.len(),
{
    let t = s.update(i, b);
    if i == s.len() - 1 {
        assert(t.drop_last() =~= s.drop_last());
    } else {
        assert(t.drop_last() =~= s.drop_last().update(i, b));
        lemma_union_bags_update(s.drop_last(), i, b);
        assert(t.last() == s.last());
        assert(s.drop_last()[i] == s[i]);
        assert forall|a: CompactJobRef|
            union_bags(t).add(s[i]).count(a) == union_bags(s).add(b).count(a) by {
            let td = union_bags(t.drop_last());
            let sd = union_bags(s.drop_last());
            assert(td.add(s[i]).count(a) == sd.add(b).count(a));
        }
    }
    assert(union_bags(t).add(s[i]) =~= union_bags(s).add(b));
}

/// An exchange of parts carries over to larger bags.
pub proof fn lemma_exchange_frame(whole1: JobBag, part1: JobBag, whole2: JobBag, part2: JobBag, rest: JobBag)
    requires
        whole2.add(part1) == whole1.add(part2),
    ensures
        whole2.add(rest).add(part1) == whole1.add(rest).add(part2),
{
    assert forall|x: CompactJobRef|
        whole2.add(rest).add(part1).count(x) == whole1.add(rest).add(part2).count(x) by {
        assert(whole2.add(part1).count(x) == whole2.count(x) + part1.count(x));
        assert(whole1.add(part2).count(x) == whole1.count(x) + part2.count(x));
    }
    assert(whole2.add(rest).add(part1) =~= whole1.add(rest).add(part2));
}

/// A part that gave up one job takes it out of the whole.
pub proof fn lemma_exchange_take(whole1: JobBag, part1: JobBag, whole2: JobBag, part2: JobBag, j: CompactJobRef)
    requires
        whole2.add(part1) == whole1.add(part2),
        part1 == part2.insert(j),
    ensures
        whole1 == whole2.insert(j),
{
    assert forall|x: CompactJobRef| whole1.count(x) == whole2.insert(j).count(x) by {
        assert(whole2.add(part1).count(x) == whole2.count(x) + part1.count(x));
        assert(whole1.add(part2).count(x) == whole1.count(x) + part2.count(x));
    }
    assert(whole1 =~= whole2.insert(j));
}

/// A part that received one job adds it to the whole.
pub proof fn lemma_exchange_give(whole1: JobBag, part1: JobBag, whole2: JobBag, part2: JobBag, j: CompactJobRef)
    requires
        whole2.add(part1) == whole1.add(part2),
        part2 == part1.insert(j),
    ensures
        whole2 == whole1.insert(j),
{
    assert forall|x: CompactJobRef| whole2.count(x) == whole1.insert(j).count(x) by {
        assert(whole2.add(part1).count(x) == whole2.count(x) + part1.count(x));
        assert(whole1.add(part2).count(x) == whole1.count(x) + part2.count(x));
    }
    assert(whole2 =~= whole1.insert(j));
}

/// A part that kept its jobs leaves the whole alone.
pub proof fn lemma_exchange_same(whole1: JobBag, part1: JobBag, whole2: JobBag, part2: JobBag)
    requires
        whole2.add(part1) == whole1.add(part2),
        part1 == part2,
    ensures
        whole1 == whole2,
{
    assert forall|x: CompactJobRef| whole1.count(x) == whole2.count(x) by {
        assert(whole2.add(part1).count(x) == whole2.count(x) + part1.count(x));
        assert(whole1.add(part2).count(x) == whole1.count(x) + part2.count(x));
    }
    assert(whole1 =~= whole2);
}

/// A union of empty bags is empty.
pub proof fn lemma_union_bags_empty(s: Seq<JobBag>)
    requires
        forall|i: int| 0 <= i < s.len() ==> #[trigger] s[i] == Multiset::<CompactJobRef>::empty(),
    ensures
        union_bags(s) =~= Multiset::<CompactJobRef>::empty(),
    decreases s.len(),
{
    if s.len() > 0 {
        lemma_union_bags_empty(s.drop_last());
        assert(s.last() == s[s.len() - 1]);
    }
}

} // verus!
