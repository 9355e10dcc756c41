//! Usage figures of the kernel heap, read from the `linked_list_allocator`
//! heap that backs the global allocator.
use vstd::prelude::*;
use linked_list_allocator::Heap;

verus! {

#[verifier::external_type_specification]
#[verifier::external_body]
pub struct ExHeap(Heap);

/// Bytes of a heap in use, as `Heap::used` reports them.
pub uninterp spec fn heap_used(h: Heap) -> usize;

/// Bytes a heap manages, as `Heap::size` reports them.
pub uninterp spec fn heap_size(h: Heap) -> usize;

/// `linked_list_allocator::Heap::used`: the bytes in use.
#[verifier::external_body]
fn heap_used_bytes(h: &Heap) -> (n: usize)
    ensures
        n == heap_used(*h),
{
    h.used()
}

/// `linked_list_allocator::Heap::size`: the bytes the heap manages.
#[verifier::external_body]
fn heap_size_bytes(h: &Heap) -> (n: usize)
    ensures
        n == heap_size(*h),
{
    h.size()
}

/// `linked_list_allocator::Heap::free`: its source computes
/// `self.size() - self.used`, which overflows unless the heap uses no more
/// than it manages.
#[verifier::external_body]
fn heap_free_bytes(h: &Heap) -> (n: usize)
    requires
        heap_used(*h) <= heap_size(*h),
    ensures
        n == heap_size(*h) - heap_used(*h),
{
    h.free()
}

/// Heap usage in bytes.
#[derive(Debug, Clone, Copy, PartialEq, Eq, Structural)]
pub struct HeapStats {
    pub used: usize,
    pub free: usize,
    pub total: usize,
}

/// Heap usage: bytes used, free and managed.
pub fn stats(heap: &Heap) -> (s: HeapStats)
    requires
        heap_used(*heap) <= heap_size(*heap),
    ensures
        s.used == heap_used(*heap),
        s.free == heap_size(*heap) - heap_used(*heap),
        s.total == heap_size(*heap),
        s.used + s.free == s.total,
{
    HeapStats { used: heap_used_bytes(heap), free: heap_free_bytes(heap), total: heap_size_bytes(heap) }
}

/// Heap usage, or `None` for a heap that claims to use more than it
/// manages (where the free figure would overflow).
pub fn checked_stats(heap: &Heap) -> (s: Option<HeapStats>)
    ensures
        heap_used(*heap) <= heap_size(*heap) ==> s == Some(
            HeapStats {
                used: heap_used(*heap),
                free: (heap_size(*heap) - heap_used(*heap)) as usize,
                total: heap_size(*heap),
            },
        ),
        heap_used(*heap) > heap_size(*heap) ==> s is None,
        s matches Some(t) ==> t.used + t.free == t.total,
{
    let used = heap_used_bytes(heap);
    let size = heap_size_bytes(heap);
    if used <= size {
        Some(stats(heap))
    } else {
        None
    }
}

} // verus!
