//! The binary heap of the `binary_heap_plus` crate, as far as the priority
//! frontier uses it: a min-heap of integer triples.
//!
//! Nothing in this module is proved. Each function states what the heap's
//! source shows of the method it calls, over the multiset of entries that the
//! heap holds.
use binary_heap_plus::BinaryHeap;
use binary_heap_plus::MinComparator;
use vstd::multiset::Multiset;
use vstd::prelude::*;

verus! {

/// `binary_heap_plus::BinaryHeap`: opaque to the verifier.
#[verifier::external_type_specification]
#[verifier::external_body]
#[verifier::reject_recursive_types(T)]
#[verifier::reject_recursive_types(C)]
pub struct ExBinaryHeap<T, C>(BinaryHeap<T, C>);

/// `binary_heap_plus::MinComparator`: the comparator that turns the heap into
/// a min-heap of an `Ord` type.
#[verifier::external_type_specification]
#[verifier::external_body]
pub struct ExMinComparator(MinComparator);

/// What a heap entry is made of: a rank in two parts and the arrival number
/// of the item that it stands for.
pub type Entry = (i32, i32, u64);

/// The order in which entries leave the heap: the order of tuples in std,
/// which compares component by component, the first one first.
pub open spec fn entry_le(a: Entry, b: Entry) -> bool {
    a.0 < b.0 || (a.0 == b.0 && (a.1 < b.1 || (a.1 == b.1 && a.2 <= b.2)))
}

/// The entries that a heap holds, each as often as it was pushed and not yet
/// popped.
pub uninterp spec fn heap_entries(heap: BinaryHeap<Entry, MinComparator>) -> Multiset<Entry>;

/// `BinaryHeap::from_vec_cmp` on an empty vector and `MinComparator`: a heap
/// that holds nothing.
#[verifier::external_body]
pub(crate) fn heap_new() -> (heap: BinaryHeap<Entry, MinComparator>)
    ensures
        heap_entries(heap) == Multiset::<Entry>::empty(),
{
    BinaryHeap::from_vec_cmp(Vec::new(), MinComparator)
}

/// `BinaryHeap::push`: the heap holds one more copy of `entry`, and every
/// other entry as often as before.
#[verifier::external_body]
pub(crate) fn heap_push(heap: &mut BinaryHeap<Entry, MinComparator>, entry: Entry)
    ensures
        heap_entries(*final(heap)) == heap_entries(*old(heap)).insert(entry),
{
    heap.push(entry)
}

/// `BinaryHeap::pop`: `None` on a heap that holds nothing, which stays as it
/// is; otherwise an entry of the heap that no other entry precedes in the
/// order of tuples, and the heap holds one copy less of it.
#[verifier::external_body]
pub(crate) fn heap_pop(heap: &mut BinaryHeap<Entry, MinComparator>) -> (popped: Option<Entry>)
    ensures
        match popped {
            Some(entry) => {
                &&& heap_entries(*old(heap)).contains(entry)
                &&& forall|other: Entry| #[trigger]
                    heap_entries(*old(heap)).contains(other) ==> entry_le(entry, other)
                &&& heap_entries(*final(heap)) == heap_entries(*old(heap)).remove(entry)
            },
            None => {
                &&& heap_entries(*old(heap)).len() == 0
                &&& heap_entries(*final(heap)) == heap_entries(*old(heap))
            },
        },
{
    heap.pop()
}

/// `BinaryHeap::len`: the number of entries, copies counted.
#[verifier::external_body]
pub(crate) fn heap_len(heap: &BinaryHeap<Entry, MinComparator>) -> (len: usize)
    ensures
        len == heap_entries(*heap).len(),
{
    heap.len()
}

/// `BinaryHeap::clear`: the heap holds nothing afterwards.
#[verifier::external_body]
pub(crate) fn heap_clear(heap: &mut BinaryHeap<Entry, MinComparator>)
    ensures
        heap_entries(*final(heap)) == Multiset::<Entry>::empty(),
{
    heap.clear()
}

} // verus!
