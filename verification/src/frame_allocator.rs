//! Bitmap allocator of physical frames over the largest usable region.
//!
//! One bit per frame, 1 for "in use"; the region covers `frame_count`
//! frames starting at frame number `base_frame`.
use vstd::prelude::*;
use crate::frame::{Frame, PAGE_SIZE};
use crate::memory_map::{MemoryRegion, largest_spec, largest_usable_region, usable_regions_spec};

verus! {

/// At most this many frames are tracked (1 GiB of 4 KiB frames).
pub const MAX_FRAMES: usize = 262144;

/// Number of 64-bit words in the bitmap.
pub const BITMAP_WORDS: usize = 4096;

#[derive(Debug, Clone, Copy, PartialEq, Eq, Structural)]
pub enum FrameError {
    OutOfRange,
    DoubleFree,
    NotInitialized,
    SelfTestFailed,
    Exhausted,
}

#[derive(Debug, Clone, Copy, Default, PartialEq, Eq, Structural)]
pub struct FrameStats {
    pub total: usize,
    pub used: usize,
    pub free: usize,
}

/// The allocator: where the managed region starts and how many frames it
/// has, how many are in use, whether it has been set up, and the bitmap.
pub struct BootFrameAllocator {
    pub base_frame: usize,
    pub frame_count: usize,
    pub used_count: usize,
    pub initialized: bool,
    pub bitmap: [u64; 4096],
}

/// Bit `b` of word `w` is set.
pub open spec fn word_bit(w: u64, b: u64) -> bool {
    (w >> b) & 1u64 == 1u64
}

/// The bit of frame index `idx` is set in `bitmap`.
pub open spec fn frame_bit(bitmap: Seq<u64>, idx: int) -> bool {
    word_bit(bitmap[idx / 64], (idx % 64) as u64)
}

/// Indices (relative to `base_frame`) of the frames in use.
pub open spec fn used_set(a: &BootFrameAllocator) -> Set<int> {
    Set::new(|i: int| 0 <= i < a.frame_count && frame_bit(a.bitmap@, i))
}

/// Indices of all frames of the region.
pub open spec fn all_frames(a: &BootFrameAllocator) -> Set<int> {
    vstd::set_lib::set_int_range(0, a.frame_count as int)
}

/// The allocator's invariant: a full bitmap, a region within the bitmap
/// whose frames all have addresses, and a use count that counts the set
/// bits of the region.
pub open spec fn wf(a: &BootFrameAllocator) -> bool {
    &&& a.bitmap@.len() == BITMAP_WORDS
    &&& a.frame_count <= MAX_FRAMES
    &&& (a.base_frame + a.frame_count) * PAGE_SIZE <= usize::MAX
    &&& a.used_count == used_set(a).len()
}

proof fn lemma_set_bit(w: u64, b: u64, c: u64)
    requires
        b < 64,
        c < 64,
    ensures
        word_bit(w | (1u64 << b), c) == (b == c || word_bit(w, c)),
{
    assert(((w | (1u64 << b)) >> c) & 1u64 == 1u64 <==> (b == c || (w >> c) & 1u64 == 1u64))
        by (bit_vector)
        requires
            b < 64,
            c < 64,
    ;
}

proof fn lemma_clear_bit(w: u64, b: u64, c: u64)
    requires
        b < 64,
        c < 64,
    ensures
        word_bit(w & !(1u64 << b), c) == (b != c && word_bit(w, c)),
{
    assert(((w & !(1u64 << b)) >> c) & 1u64 == 1u64 <==> (b != c && (w >> c) & 1u64 == 1u64))
        by (bit_vector)
        requires
            b < 64,
            c < 64,
    ;
}

proof fn lemma_zero_word(c: u64)
    requires
        c < 64,
    ensures
        !word_bit(0u64, c),
{
    assert((0u64 >> c) & 1u64 != 1u64) by (bit_vector);
}

/// The set of frames in use is a finite part of the region.
proof fn lemma_used_finite(a: &BootFrameAllocator)
    ensures
        used_set(a).finite(),
        used_set(a).subset_of(all_frames(a)),
        all_frames(a).finite(),
        all_frames(a).len() == a.frame_count,
        used_set(a).len() <= a.frame_count,
{
    vstd::set_lib::lemma_int_range(0, a.frame_count as int);
    vstd::set_lib::lemma_len_subset(used_set(a), all_frames(a));
}

/// If every frame of the region is in use, the use count is the region size.
proof fn lemma_full(a: &BootFrameAllocator)
    requires
        forall|i: int| 0 <= i < a.frame_count ==> frame_bit(a.bitmap@, i),
    ensures
        used_set(a) == all_frames(a),
{
    assert(used_set(a) =~= all_frames(a));
}

/// Frame index `idx` is free.
pub fn is_free(bitmap: &[u64; 4096], idx: usize) -> (free: bool)
    requires
        idx / 64 < bitmap@.len(),
    ensures
        free == !frame_bit(bitmap@, idx as int),
{
    let w = bitmap[idx / 64];
    let b = (idx % 64) as u64;
    assert((w >> b) & 1u64 == 0u64 <==> !((w >> b) & 1u64 == 1u64)) by (bit_vector);
    (w >> b) & 1u64 == 0u64
}

/// Marks frame index `idx` used or free.
pub fn set_used(bitmap: &mut [u64; 4096], idx: usize, used: bool)
    requires
        idx / 64 < old(bitmap)@.len(),
    ensures
        final(bitmap)@.len() == old(bitmap)@.len(),
        forall|i: int|
            0 <= i < 64 * old(bitmap)@.len() ==> #[trigger] frame_bit(final(bitmap)@, i) == (if i
                == idx {
                used
            } else {
                frame_bit(old(bitmap)@, i)
            }),
{
    let b = (idx % 64) as u64;
    let bit = 1u64 << b;
    let w = bitmap[idx / 64];
    if used {
        bitmap[idx / 64] = w | bit;
    } else {
        bitmap[idx / 64] = w & !bit;
    }
    proof {
        assert forall|i: int| 0 <= i < 64 * old(bitmap)@.len() implies #[trigger] frame_bit(
            bitmap@,
            i,
        ) == (if i == idx {
            used
        } else {
            frame_bit(old(bitmap)@, i)
        }) by {
            if i / 64 == idx / 64 {
                let c = (i % 64) as u64;
                if used {
                    lemma_set_bit(w, b, c);
                } else {
                    lemma_clear_bit(w, b, c);
                }
            }
        }
    }
}

/// Index of frame `frame` relative to the region start, if it is not below it.
pub fn frame_index(a: &BootFrameAllocator, frame: Frame) -> (idx: Option<usize>)
    ensures
        idx == (if frame.number >= a.base_frame {
            Some((frame.number - a.base_frame) as usize)
        } else {
            None
        }),
{
    frame.number.checked_sub(a.base_frame)
}

impl BootFrameAllocator {
    /// An allocator that has not been set up: it manages no frames.
    pub fn new() -> (a: Self)
        ensures
            wf(&a),
            !a.initialized,
            a.base_frame == 0,
            a.frame_count == 0,
            a.used_count == 0,
    {
        let bitmap: [u64; 4096] = vstd::array::array_fill_for_copy_types(0u64);
        let a = BootFrameAllocator {
            base_frame: 0,
            frame_count: 0,
            used_count: 0,
            initialized: false,
            bitmap,
        };
        assert forall|j: int| 0 <= j < 4096 implies a.bitmap@[j] == 0u64 by {}
        assert(used_set(&a) =~= Set::<int>::empty());
        a
    }
}

/// Frames of the region a map gives: from the first whole frame of the
/// largest usable region up to the frame containing its end.
pub open spec fn region_frames(regions: Seq<MemoryRegion>) -> (usize, usize) {
    let (start, end) = largest_spec(usable_regions_spec(regions))->0;
    let base = start / PAGE_SIZE;
    let end_frame = end / PAGE_SIZE;
    (base as usize, if end_frame >= base {
        (end_frame - base) as usize
    } else {
        0
    })
}

/// How many frames the allocator would manage over `regions`, or `None`
/// when no region is usable (the checks a caller makes before
/// `init_frame_allocator`).
pub fn usable_frame_count(regions: &[MemoryRegion]) -> (r: Option<usize>)
    ensures
        r is None <==> largest_spec(usable_regions_spec(regions@)) is None,
        r matches Some(n) ==> n == region_frames(regions@).1,
{
    match largest_usable_region(regions) {
        Some((start, end)) => Some((end / PAGE_SIZE).saturating_sub(start / PAGE_SIZE)),
        None => None,
    }
}

/// Sets the allocator up over the largest usable region of `regions`,
/// with every frame free. Booting cannot go on when no region is usable
/// or when the region has more than `MAX_FRAMES` frames, so the caller
/// checks both first (the kernel panics on either).
pub fn init_frame_allocator(a: &mut BootFrameAllocator, regions: &[MemoryRegion])
    requires
        wf(old(a)),
        largest_spec(usable_regions_spec(regions@)) is Some,
        region_frames(regions@).1 <= MAX_FRAMES,
    ensures
        wf(final(a)),
        final(a).initialized,
        final(a).base_frame == region_frames(regions@).0,
        final(a).frame_count == region_frames(regions@).1,
        final(a).used_count == 0,
        used_set(final(a)) == Set::<int>::empty(),
{
    let (start, end) = match largest_usable_region(regions) {
        Some(r) => r,
        None => {
            return;
        },
    };
    let base_frame = start / PAGE_SIZE;
    let end_frame = end / PAGE_SIZE;
    let frame_count = end_frame.saturating_sub(base_frame);
    if frame_count > MAX_FRAMES {
        return;
    }
    a.base_frame = base_frame;
    a.frame_count = frame_count;
    a.used_count = 0;
    a.initialized = true;
    let mut i: usize = 0;
    while i < a.bitmap.len()
        invariant
            i <= a.bitmap@.len(),
            a.bitmap@.len() == BITMAP_WORDS,
            forall|j: int| 0 <= j < i ==> a.bitmap@[j] == 0u64,
            a.base_frame == base_frame,
            a.frame_count == frame_count,
            a.used_count == 0,
            a.initialized,
        decreases a.bitmap@.len() - i,
    {
        a.bitmap[i] = 0u64;
        i = i + 1;
    }
    proof {
        assert forall|j: int| 0 <= j < a.frame_count implies !frame_bit(a.bitmap@, j) by {
            lemma_zero_word((j % 64) as u64);
        }
        assert(used_set(a) =~= Set::<int>::empty());
        assert((base_frame + frame_count) * PAGE_SIZE <= usize::MAX) by (nonlinear_arith)
            requires
                base_frame == start / 4096,
                end_frame == end / 4096,
                frame_count == (if end_frame >= base_frame {
                    end_frame - base_frame
                } else {
                    0
                }),
                start <= usize::MAX,
                end <= usize::MAX,
                PAGE_SIZE == 4096,
        ;
    }
}

/// Frame usage; `NotInitialized` before the allocator is set up.
pub fn stats(a: &BootFrameAllocator) -> (r: Result<FrameStats, FrameError>)
    requires
        wf(a),
    ensures
        !a.initialized ==> r == Err::<FrameStats, FrameError>(FrameError::NotInitialized),
        a.initialized ==> r == Ok::<FrameStats, FrameError>(
            FrameStats {
                total: a.frame_count,
                used: a.used_count,
                free: (a.frame_count - a.used_count) as usize,
            },
        ),
{
    if !a.initialized {
        return Err(FrameError::NotInitialized);
    }
    proof {
        lemma_used_finite(a);
    }
    Ok(
        FrameStats {
            total: a.frame_count,
            used: a.used_count,
            free: a.frame_count.saturating_sub(a.used_count),
        },
    )
}

/// Allocates the lowest free frame of the region. `Exhausted` when every
/// frame is in use, and also before the allocator is set up.
pub fn allocate_frame(a: &mut BootFrameAllocator) -> (r: Result<Frame, FrameError>)
    requires
        wf(old(a)),
    ensures
        wf(final(a)),
        final(a).initialized == old(a).initialized,
        final(a).base_frame == old(a).base_frame,
        final(a).frame_count == old(a).frame_count,
        match r {
            Ok(f) => {
                let i = f.number - old(a).base_frame;
                &&& old(a).initialized
                &&& 0 <= i < old(a).frame_count
                &&& !used_set(old(a)).contains(i)
                &&& forall|j: int| 0 <= j < i ==> used_set(old(a)).contains(j)
                &&& used_set(final(a)) == used_set(old(a)).insert(i)
                &&& final(a).used_count == old(a).used_count + 1
            },
            Err(e) => {
                &&& e == FrameError::Exhausted
                &&& (old(a).initialized ==> used_set(old(a)) == all_frames(old(a)))
                &&& used_set(final(a)) == used_set(old(a))
                &&& final(a).used_count == old(a).used_count
            },
        },
{
    if !a.initialized {
        return Err(FrameError::Exhausted);
    }
    let mut idx: usize = 0;
    while idx < a.frame_count
        invariant
            wf(a),
            *a == *old(a),
            a.initialized,
            idx <= a.frame_count,
            forall|j: int| 0 <= j < idx ==> frame_bit(a.bitmap@, j),
        decreases a.frame_count - idx,
    {
        if is_free(&a.bitmap, idx) {
            let ghost before = used_set(a);
            set_used(&mut a.bitmap, idx, true);
            proof {
                assert(used_set(a) =~= before.insert(idx as int));
                lemma_used_finite(old(a));
                lemma_used_finite(a);
            }
            a.used_count = a.used_count + 1;
            proof {
                assert(used_set(a) =~= before.insert(idx as int));
            }
            return Ok(Frame { number: a.base_frame + idx });
        }
        idx = idx + 1;
    }
    proof {
        lemma_full(a);
    }
    Err(FrameError::Exhausted)
}

/// Gives frame `frame` back. `NotInitialized` before set-up, `OutOfRange`
/// for a frame outside the region, `DoubleFree` for a frame not in use.
pub fn deallocate_frame(a: &mut BootFrameAllocator, frame: Frame) -> (r: Result<(), FrameError>)
    requires
        wf(old(a)),
    ensures
        wf(final(a)),
        final(a).initialized == old(a).initialized,
        final(a).base_frame == old(a).base_frame,
        final(a).frame_count == old(a).frame_count,
        ({
            let i = frame.number - old(a).base_frame;
            if !old(a).initialized {
                r == Err::<(), FrameError>(FrameError::NotInitialized)
            } else if !(0 <= i < old(a).frame_count) {
                r == Err::<(), FrameError>(FrameError::OutOfRange)
            } else if !used_set(old(a)).contains(i) {
                r == Err::<(), FrameError>(FrameError::DoubleFree)
            } else {
                &&& r == Ok::<(), FrameError>(())
                &&& used_set(final(a)) == used_set(old(a)).remove(i)
                &&& final(a).used_count == old(a).used_count - 1
            }
        }),
        r is Err ==> *final(a) == *old(a),
{
    if !a.initialized {
        return Err(FrameError::NotInitialized);
    }
    let idx = match frame_index(a, frame) {
        Some(i) => i,
        None => {
            return Err(FrameError::OutOfRange);
        },
    };
    if idx >= a.frame_count {
        return Err(FrameError::OutOfRange);
    }
    if is_free(&a.bitmap, idx) {
        return Err(FrameError::DoubleFree);
    }
    let ghost before = used_set(a);
    proof {
        lemma_used_finite(a);
        assert(before.contains(idx as int));
    }
    set_used(&mut a.bitmap, idx, false);
    a.used_count = a.used_count - 1;
    proof {
        assert(used_set(a) =~= before.remove(idx as int));
    }
    Ok(())
}

/// The frame indices `idxs[j]` for `lo <= j < hi`.
pub open spec fn seg_set(idxs: Seq<int>, lo: int, hi: int) -> Set<int> {
    Set::new(|i: int| exists|j: int| lo <= j < hi && #[trigger] idxs[j] == i)
}

/// The number of frames `self_test` cycles for a requested round count.
pub open spec fn self_test_rounds(rounds: usize) -> usize {
    if rounds < 64 {
        rounds
    } else {
        64
    }
}

/// Allocates `min(rounds, 64)` frames and gives them all back; returns the
/// number of frames cycled. Set-up state and usage are unchanged on
/// success. When fewer frames are free than requested, the allocation
/// fails with `Exhausted` after taking every free frame (the frames already
/// taken are not given back).
pub fn self_test(a: &mut BootFrameAllocator, rounds: usize) -> (r: Result<usize, FrameError>)
    requires
        wf(old(a)),
    ensures
        wf(final(a)),
        final(a).initialized == old(a).initialized,
        final(a).base_frame == old(a).base_frame,
        final(a).frame_count == old(a).frame_count,
        !old(a).initialized ==> r == Err::<usize, FrameError>(FrameError::NotInitialized)
            && *final(a) == *old(a),
        old(a).initialized && old(a).frame_count - old(a).used_count >= self_test_rounds(rounds)
            ==> r == Ok::<usize, FrameError>(self_test_rounds(rounds)) && used_set(final(a))
            == used_set(old(a)) && final(a).used_count == old(a).used_count,
        old(a).initialized && old(a).frame_count - old(a).used_count < self_test_rounds(rounds)
            ==> r == Err::<usize, FrameError>(FrameError::Exhausted) && used_set(final(a))
            == all_frames(old(a)) && final(a).used_count == old(a).frame_count,
{
    let n_rounds = if rounds < 64 {
        rounds
    } else {
        64
    };
    let before = match stats(a) {
        Ok(s) => s.used,
        Err(e) => {
            return Err(e);
        },
    };
    let ghost orig = used_set(a);
    let ghost base = a.base_frame as int;
    let ghost mut idxs: Seq<int> = Seq::empty();
    proof {
        lemma_used_finite(a);
        assert(orig.union(seg_set(idxs, 0, 0)) =~= orig);
    }
    let mut frames: Vec<Frame> = Vec::new();
    let mut k: usize = 0;
    while k < n_rounds
        invariant
            wf(a),
            a.initialized,
            old(a).initialized,
            a.base_frame == old(a).base_frame,
            a.frame_count == old(a).frame_count,
            base == a.base_frame,
            orig == used_set(old(a)),
            old(a).used_count == orig.len(),
            k <= n_rounds,
            n_rounds == self_test_rounds(rounds),
            frames@.len() == k,
            idxs.len() == k,
            forall|j: int| 0 <= j < k ==> #[trigger] idxs[j] == frames@[j].number - base,
            forall|j: int| 0 <= j < k ==> 0 <= #[trigger] idxs[j] < a.frame_count,
            forall|j: int| 0 <= j < k ==> !orig.contains(#[trigger] idxs[j]),
            forall|j1: int, j2: int| 0 <= j1 < j2 < k ==> idxs[j1] != idxs[j2],
            used_set(a) == orig.union(seg_set(idxs, 0, k as int)),
            a.used_count == old(a).used_count + k,
        decreases n_rounds - k,
    {
        let ghost prev = used_set(a);
        match allocate_frame(a) {
            Ok(f) => {
                proof {
                    let i = f.number - base;
                    assert forall|j: int| 0 <= j < k implies idxs[j] != i by {
                        assert(seg_set(idxs, 0, k as int).contains(idxs[j]));
                    }
                    assert(!orig.contains(i));
                    let old_idxs = idxs;
                    idxs = idxs.push(i);
                    assert(idxs.drop_last() =~= old_idxs);
                    assert(idxs[k as int] == i);
                    assert(used_set(a) =~= orig.union(seg_set(idxs, 0, k + 1))) by {
                        assert forall|x: int| seg_set(idxs, 0, k + 1).contains(x) implies x == i
                            || seg_set(idxs.drop_last(), 0, k as int).contains(x) by {
                            let j = choose|j: int| 0 <= j < k + 1 && #[trigger] idxs[j] == x;
                            if j < k {
                                assert(idxs.drop_last()[j] == x);
                            }
                        }
                        assert forall|x: int| seg_set(idxs.drop_last(), 0, k as int).contains(
                            x,
                        ) implies seg_set(idxs, 0, k + 1).contains(x) by {
                            let j = choose|j: int|
                                0 <= j < k && #[trigger] idxs.drop_last()[j] == x;
                            assert(idxs[j] == x);
                        }
                        assert(seg_set(idxs, 0, k + 1).contains(i));
                    }
                }
                frames.push(f);
            },
            Err(e) => {
                proof {
                    lemma_used_finite(old(a));
                    lemma_used_finite(a);
                    // Everything was in use after `k` allocations, so fewer than
                    // `n_rounds` frames were free.
                    vstd::set_lib::lemma_int_range(0, a.frame_count as int);
                    assert(used_set(a) == prev);
                    assert(prev == all_frames(a));
                    assert(a.used_count == a.frame_count);
                    assert(old(a).frame_count - old(a).used_count == k);
                }
                return Err(e);
            },
        }
        k = k + 1;
    }
    proof {
        lemma_used_finite(a);
    }
    let mut k2: usize = 0;
    while k2 < n_rounds
        invariant
            wf(a),
            a.initialized,
            old(a).initialized,
            a.base_frame == old(a).base_frame,
            a.frame_count == old(a).frame_count,
            base == a.base_frame,
            orig == used_set(old(a)),
            k2 <= n_rounds,
            frames@.len() == n_rounds,
            idxs.len() == n_rounds,
            forall|j: int| 0 <= j < n_rounds ==> #[trigger] idxs[j] == frames@[j].number - base,
            forall|j: int| 0 <= j < n_rounds ==> 0 <= #[trigger] idxs[j] < a.frame_count,
            forall|j: int| 0 <= j < n_rounds ==> !orig.contains(#[trigger] idxs[j]),
            forall|j1: int, j2: int| 0 <= j1 < j2 < n_rounds ==> idxs[j1] != idxs[j2],
            used_set(a) == orig.union(seg_set(idxs, k2 as int, n_rounds as int)),
            a.used_count == old(a).used_count + n_rounds - k2,
        decreases n_rounds - k2,
    {
        let ghost i = idxs[k2 as int];
        proof {
            assert(seg_set(idxs, k2 as int, n_rounds as int).contains(i));
        }
        match deallocate_frame(a, frames[k2]) {
            Ok(()) => {},
            Err(e) => {
                return Err(e);
            },
        }
        proof {
            assert(used_set(a) =~= orig.union(seg_set(idxs, k2 + 1, n_rounds as int))) by {
                assert forall|x: int| seg_set(idxs, k2 as int, n_rounds as int).contains(x) && x != i
                    implies seg_set(idxs, k2 + 1, n_rounds as int).contains(x) by {
                    let j = choose|j: int| k2 <= j < n_rounds && #[trigger] idxs[j] == x;
                    assert(j != k2);
                }
                assert forall|x: int| seg_set(idxs, k2 + 1, n_rounds as int).contains(x) implies x
                    != i && seg_set(idxs, k2 as int, n_rounds as int).contains(x) by {
                    let j = choose|j: int| k2 + 1 <= j < n_rounds && #[trigger] idxs[j] == x;
                    assert(idxs[k2 as int] != idxs[j]);
                }
            }
        }
        k2 = k2 + 1;
    }
    proof {
        assert(orig.union(seg_set(idxs, n_rounds as int, n_rounds as int)) =~= orig);
    }
    let after = match stats(a) {
        Ok(s) => s.used,
        Err(e) => {
            return Err(e);
        },
    };
    if after != before {
        return Err(FrameError::SelfTestFailed);
    }
    Ok(n_rounds)
}

} // verus!
