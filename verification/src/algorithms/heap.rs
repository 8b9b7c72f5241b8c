//! The priority queue ordering not-yet-tried children by their threat
//! heuristic, so the most forcing replies are searched first.
//!
//! The queue is binary-heap-plus's binary heap with its default max
//! comparator, held behind a small trusted surface: the contents are named
//! by `heap_contents`, and each wrapper states over that name what the
//! crate's source shows of the call it makes.

use vstd::prelude::*;
use vstd::multiset::Multiset;

verus! {

#[verifier::external_type_specification]
#[verifier::external_body]
#[verifier::reject_recursive_types(T)]
#[verifier::reject_recursive_types(C)]
pub struct ExBinaryHeap<T, C>(binary_heap_plus::BinaryHeap<T, C>);

#[verifier::external_type_specification]
#[verifier::external_body]
pub struct ExMaxComparator(binary_heap_plus::MaxComparator);

/// What the queue holds: the multiset of its items, each a (priority,
/// column) pair.
pub uninterp spec fn heap_contents(
    h: binary_heap_plus::BinaryHeap<(u64, u64), binary_heap_plus::MaxComparator>,
) -> Multiset<(u64, u64)>;

/// The order the max comparator uses on items: the standard lexicographic
/// order on pairs of unsigned integers.
pub open spec fn pair_le(a: (u64, u64), b: (u64, u64)) -> bool {
    a.0 < b.0 || (a.0 == b.0 && a.1 <= b.1)
}

/// Relies on binary_heap_plus::BinaryHeap::with_capacity: a freshly created
/// heap is empty.
#[verifier::external_body]
pub fn heap_new(capacity: usize) -> (h: binary_heap_plus::BinaryHeap<
    (u64, u64),
    binary_heap_plus::MaxComparator,
>)
    ensures
        heap_contents(h).len() == 0,
        forall|x: (u64, u64)| heap_contents(h).count(x) == 0,
{
    binary_heap_plus::BinaryHeap::with_capacity(capacity)
}

/// Relies on binary_heap_plus::BinaryHeap::push: adds the item to the
/// queue's contents.
#[verifier::external_body]
pub fn heap_push(
    h: &mut binary_heap_plus::BinaryHeap<(u64, u64), binary_heap_plus::MaxComparator>,
    item: (u64, u64),
)
    ensures
        heap_contents(*final(h)) == heap_contents(*old(h)).insert(item),
{
    h.push(item);
}

/// Relies on binary_heap_plus::BinaryHeap::pop: removes and returns a
/// greatest item of the queue under the max comparator (the derived
/// lexicographic order on pairs), or None when the queue is empty.
#[verifier::external_body]
pub fn heap_pop(
    h: &mut binary_heap_plus::BinaryHeap<(u64, u64), binary_heap_plus::MaxComparator>,
) -> (r: Option<(u64, u64)>)
    ensures
        heap_contents(*old(h)).len() == 0 ==> r is None && heap_contents(*final(h))
            == heap_contents(*old(h)),
        heap_contents(*old(h)).len() > 0 ==> (r matches Some(m)
            && heap_contents(*old(h)).count(m) > 0 && heap_contents(*final(h)) == heap_contents(
            *old(h),
        ).remove(m) && (forall|x: (u64, u64)|
            heap_contents(*old(h)).count(x) > 0 ==> pair_le(x, m))),
{
    h.pop()
}

} // verus!
