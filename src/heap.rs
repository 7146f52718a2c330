//! The min-heap of the `binary-heap-plus` crate, as the A* solver uses it.
use binary_heap_plus::{BinaryHeap, MinComparator};
use vstd::multiset::Multiset;
use vstd::prelude::*;

verus! {

#[verifier::external_type_specification]
#[verifier::external_body]
#[verifier::reject_recursive_types(T)]
#[verifier::reject_recursive_types(C)]
pub struct ExBinaryHeap<T, C>(BinaryHeap<T, C>);

#[verifier::external_type_specification]
#[verifier::external_body]
pub struct ExMinComparator(MinComparator);

/// An item of the heap: a priority, then a column and a row.
pub type Entry = (u64, u16, u16);

/// The items a heap holds.
pub uninterp spec fn heap_items(h: BinaryHeap<Entry, MinComparator>) -> Multiset<Entry>;

/// `a` comes no later than `b` in the order of tuples: by priority, then by
/// column, then by row.
pub open spec fn entry_le(a: Entry, b: Entry) -> bool {
    a.0 < b.0 || (a.0 == b.0 && (a.1 < b.1 || (a.1 == b.1 && a.2 <= b.2)))
}

/// Relies on `BinaryHeap::new_min`: an empty heap ordered so that `pop`
/// gives the least item.
#[verifier::external_body]
pub(crate) fn heap_new() -> (h: BinaryHeap<Entry, MinComparator>)
    ensures
        heap_items(h) == Multiset::<Entry>::empty(),
{
    BinaryHeap::new_min()
}

/// Relies on `BinaryHeap::push`: adds the item.
#[verifier::external_body]
pub(crate) fn heap_push(h: &mut BinaryHeap<Entry, MinComparator>, e: Entry)
    ensures
        heap_items(*final(h)) == heap_items(*old(h)).insert(e),
{
    h.push(e);
}

/// Relies on `BinaryHeap::pop` of a min-heap: removes and returns a least
/// item, or `None` when the heap is empty.
#[verifier::external_body]
pub(crate) fn heap_pop(h: &mut BinaryHeap<Entry, MinComparator>) -> (r: Option<Entry>)
    ensures
        r is None <==> heap_items(*old(h)).len() == 0,
        r is None ==> heap_items(*final(h)) == heap_items(*old(h)),
        r matches Some(e) ==> {
            &&& heap_items(*old(h)).contains(e)
            &&& heap_items(*final(h)) == heap_items(*old(h)).remove(e)
            &&& forall|x: Entry| #[trigger] heap_items(*old(h)).contains(x) ==> entry_le(e, x)
        },
{
    h.pop()
}

} // verus!
