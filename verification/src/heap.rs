//! The frontier of a search: a min-heap of `(elapsed, station)` pairs, kept
//! in the Fibonacci heap of the `rudac` crate.
//!
//! Pairs are ordered by elapsed time first and station index second, as
//! tuples are. The order is total, so the least pair of a frontier is one
//! value, whatever the shape of the heap.

use rudac::heap::FibonacciHeap;
use vstd::multiset::Multiset;
use vstd::prelude::*;

verus! {

/// An entry of the frontier: the time elapsed since the start, and the
/// station reached after it.
pub type Entry = (i64, u32);

/// `rudac::heap::FibonacciHeap`.
#[verifier::external_type_specification]
#[verifier::external_body]
#[verifier::reject_recursive_types(T)]
pub struct ExFibonacciHeap<T: Ord>(FibonacciHeap<T>);

/// The entries that a heap holds, each as often as it was pushed and not yet
/// popped.
pub uninterp spec fn heap_entries(heap: FibonacciHeap<(i64, u32)>) -> Multiset<(i64, u32)>;

/// Whether `a` comes out of the heap no later than `b`: the order of tuples.
pub open spec fn precedes(a: Entry, b: Entry) -> bool {
    a.0 < b.0 || (a.0 == b.0 && a.1 <= b.1)
}

/// Whether `entry` is the one that comes out of `entries` first.
pub open spec fn is_least(entries: Multiset<Entry>, entry: Entry) -> bool {
    &&& entries.contains(entry)
    &&& forall|other: Entry| entries.contains(other) ==> precedes(entry, other)
}

/// The entry that comes out of `entries` first.
pub open spec fn least(entries: Multiset<Entry>) -> Entry {
    choose|entry: Entry| is_least(entries, entry)
}

/// `FibonacciHeap::init_min`: a min-heap without entries.
#[verifier::external_body]
pub(crate) fn heap_new() -> (heap: FibonacciHeap<Entry>)
    ensures
        heap_entries(heap) == Multiset::<Entry>::empty(),
{
    FibonacciHeap::init_min()
}

/// `FibonacciHeap::push`: the heap holds one more copy of `entry`.
#[verifier::external_body]
pub(crate) fn heap_push(heap: &mut FibonacciHeap<Entry>, entry: Entry)
    ensures
        heap_entries(*final(heap)) == heap_entries(*old(heap)).insert(entry),
{
    heap.push(entry);
}

/// `FibonacciHeap::pop` on a min-heap: nothing comes out of an empty heap;
/// otherwise one copy of an entry that precedes every entry of the heap
/// leaves it and is returned.
#[verifier::external_body]
pub(crate) fn heap_pop(heap: &mut FibonacciHeap<Entry>) -> (r: Option<Entry>)
    ensures
        match r {
            Some(entry) => is_least(heap_entries(*old(heap)), entry) && heap_entries(*final(heap))
                == heap_entries(*old(heap)).remove(entry),
            None => heap_entries(*old(heap)).len() == 0 && heap_entries(*final(heap))
                == heap_entries(*old(heap)),
        },
{
    heap.pop()
}

/// A frontier has at most one least entry.
pub proof fn lemma_least_unique(entries: Multiset<Entry>, entry: Entry)
    requires
        is_least(entries, entry),
    ensures
        least(entries) == entry,
{
    let chosen = least(entries);
    assert(is_least(entries, chosen));
    assert(precedes(chosen, entry) && precedes(entry, chosen));
}

} // verus!
