//! The merge scheduler's priority queue: an 8-ary max-heap of integer keys.

use dary_heap::DaryHeap;
use vstd::multiset::Multiset;
use vstd::prelude::*;

verus! {

/// A queue key: recorded count, complemented pair, slot of the position list.
pub type JobKey = (u64, u32, u32, usize);

#[verifier::external_type_specification]
#[verifier::external_body]
#[verifier::reject_recursive_types(T)]
pub struct ExDaryHeap<T, const D: usize>(DaryHeap<T, D>);

/// The keys that a heap holds, each as often as it was pushed and not yet
/// popped.
pub uninterp spec fn heap_keys(heap: DaryHeap<JobKey, 8>) -> Multiset<JobKey>;

/// Lexicographic order on keys, the order of `Ord` on a tuple of integers.
pub open spec fn key_le(a: JobKey, b: JobKey) -> bool {
    a.0 < b.0 || (a.0 == b.0 && (a.1 < b.1 || (a.1 == b.1 && (a.2 < b.2 || (a.2 == b.2 && a.3
        <= b.3)))))
}

/// `dary_heap::DaryHeap::new`: a heap that holds nothing.
#[verifier::external_body]
pub(crate) fn heap_new() -> (heap: DaryHeap<JobKey, 8>)
    ensures
        heap_keys(heap) == Multiset::<JobKey>::empty(),
{
    DaryHeap::new()
}

/// `dary_heap::DaryHeap::push`: the heap gains the one key and nothing else
/// changes. The number of keys that an 8-ary heap can hold, a good eighth of
/// `usize::MAX`, is out of reach: a key takes 24 bytes, and no vector holds
/// more than `isize::MAX` bytes.
#[verifier::external_body]
pub(crate) fn heap_push(heap: &mut DaryHeap<JobKey, 8>, key: JobKey)
    ensures
        heap_keys(*final(heap)) == heap_keys(*old(heap)).insert(key),
{
    heap.push(key)
}

/// `dary_heap::DaryHeap::pop`: `None` exactly on an empty heap; otherwise a
/// greatest key, of which one copy leaves the heap.
#[verifier::external_body]
pub(crate) fn heap_pop(heap: &mut DaryHeap<JobKey, 8>) -> (top: Option<JobKey>)
    ensures
        top is None <==> heap_keys(*old(heap)).len() == 0,
        top is None ==> heap_keys(*final(heap)) == heap_keys(*old(heap)),
        top matches Some(k) ==> {
            &&& heap_keys(*old(heap)).count(k) > 0
            &&& heap_keys(*final(heap)) == heap_keys(*old(heap)).remove(k)
            &&& forall|other: JobKey| heap_keys(*old(heap)).count(other) > 0 ==> key_le(other, k)
        },
{
    heap.pop()
}

} // verus!
