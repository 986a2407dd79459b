//! The bounded top-K structure behind suggestion ranking: a double-ended
//! priority queue from the priority_queue crate, holding corpus indices keyed
//! by an encoded (edit distance, reversed popularity) pair, so that the
//! lexicographically greatest pair is the worst-ranked candidate.
use vstd::prelude::*;

use priority_queue::DoublePriorityQueue;

verus! {

use vstd::multiset::Multiset;

#[verifier::external_type_specification]
#[verifier::external_body]
#[verifier::reject_recursive_types(I)]
#[verifier::reject_recursive_types(P)]
#[verifier::reject_recursive_types(H)]
pub struct ExDoublePriorityQueue<I, P, H>(DoublePriorityQueue<I, P, H>);

/// The contents of the queue: one (item, distance, reversed popularity)
/// triple per entry, where (distance, reversed popularity) is the entry's
/// priority pair.
pub uninterp spec fn pq_contents(q: DoublePriorityQueue<u64, (u64, u64)>) -> Multiset<
    (u64, u64, u64),
>;

/// The standard lexicographic order on priority pairs, as the derived Ord on
/// (u64, u64) compares them; a smaller pair is a better-ranked candidate.
pub open spec fn pair_le(a: (u64, u64), b: (u64, u64)) -> bool {
    a.0 < b.0 || (a.0 == b.0 && a.1 <= b.1)
}

/// Relies on DoublePriorityQueue::new: creates an empty queue.
#[verifier::external_body]
pub fn pq_new() -> (q: DoublePriorityQueue<u64, (u64, u64)>)
    ensures
        pq_contents(q) == Multiset::<(u64, u64, u64)>::empty(),
{
    DoublePriorityQueue::new()
}

/// Relies on DoublePriorityQueue::len: the number of entries in the queue.
#[verifier::external_body]
pub fn pq_len(q: &DoublePriorityQueue<u64, (u64, u64)>) -> (n: usize)
    ensures
        n == pq_contents(*q).len(),
{
    q.len()
}

/// Relies on DoublePriorityQueue::push: an item not yet in the queue is
/// inserted with the given priority pair.
#[verifier::external_body]
pub fn pq_push(q: &mut DoublePriorityQueue<u64, (u64, u64)>, item: u64, dist: u64, rev_pop: u64)
    requires
        forall|e: (u64, u64, u64)| pq_contents(*old(q)).count(e) > 0 ==> e.0 != item,
    ensures
        pq_contents(*final(q)) == pq_contents(*old(q)).insert((item, dist, rev_pop)),
{
    q.push(item, (dist, rev_pop));
}

/// Relies on DoublePriorityQueue::pop_max: removes and returns an entry whose
/// priority pair is greatest, or None when the queue is empty; which of
/// several greatest entries leaves is unspecified.
#[verifier::external_body]
pub fn pq_pop_max(q: &mut DoublePriorityQueue<u64, (u64, u64)>) -> (r: Option<(u64, (u64, u64))>)
    ensures
        pq_contents(*old(q)).len() == 0 ==> r is None && pq_contents(*final(q)) == pq_contents(
            *old(q),
        ),
        pq_contents(*old(q)).len() > 0 ==> r is Some,
        r matches Some(p) ==> {
            &&& pq_contents(*old(q)).count((p.0, p.1.0, p.1.1)) > 0
            &&& pq_contents(*final(q)) == pq_contents(*old(q)).remove((p.0, p.1.0, p.1.1))
            &&& forall|o: (u64, u64, u64)|
                pq_contents(*final(q)).count(o) > 0 ==> pair_le((o.1, o.2), (p.1.0, p.1.1))
        },
{
    q.pop_max()
}

/// The items `out` list the entries of `qc` exactly once each, ordered from
/// the lowest priority pair to the highest.
pub open spec fn ascending_items_of(out: Seq<u64>, qc: Multiset<(u64, u64, u64)>) -> bool {
    exists|ts: Seq<(u64, u64, u64)>|
        {
            &&& ts.to_multiset() == qc
            &&& out.len() == ts.len()
            &&& forall|i: int| 0 <= i < ts.len() ==> out[i] == (#[trigger] ts[i]).0
            &&& forall|i: int, j: int|
                0 <= i <= j < ts.len() ==> pair_le(
                    ((#[trigger] ts[i]).1, ts[i].2),
                    ((#[trigger] ts[j]).1, ts[j].2),
                )
        }
}

/// Relies on DoublePriorityQueue::into_ascending_sorted_vec: consumes the
/// queue and returns its items sorted from the lowest priority pair to the
/// highest; entries with equal pairs come out in an unspecified order.
#[verifier::external_body]
pub fn pq_into_ascending_vec(q: DoublePriorityQueue<u64, (u64, u64)>) -> (r: Vec<u64>)
    ensures
        ascending_items_of(r@, pq_contents(q)),
{
    q.into_ascending_sorted_vec()
}

} // verus!
