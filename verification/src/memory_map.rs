//! The physical memory map handed over by the boot loader, and the
//! usable regions the frame allocator draws from.
use vstd::prelude::*;
use vstd::string::StringSliceAdditionalSpecFns;
use crate::format::{decimal_spec, hex18_spec, push_decimal, push_hex18, push_str};

verus! {

/// What a region of physical memory is used for.
#[derive(Debug, Clone, Copy, PartialEq, Eq, Structural)]
pub enum MemoryRegionKind {
    /// Free for the kernel to use.
    Usable,
    /// Used by the boot loader (kernel image, page tables, boot information).
    Bootloader,
    /// A firmware memory type of UEFI, by its number.
    UnknownUefi(u32),
    /// A firmware memory type of the BIOS E820 map, by its number.
    UnknownBios(u32),
    /// Any kind the boot loader adds later.
    Other,
}

/// A region `[start, end)` of physical memory.
#[derive(Debug, Clone, Copy, PartialEq, Eq, Structural)]
pub struct MemoryRegion {
    pub start: u64,
    pub end: u64,
    pub kind: MemoryRegionKind,
}

/// Text naming a region kind in the boot log.
pub open spec fn region_kind_label_spec(kind: MemoryRegionKind) -> &'static str {
    match kind {
        MemoryRegionKind::Usable => "usable",
        MemoryRegionKind::Bootloader => "bootloader",
        MemoryRegionKind::UnknownUefi(_) => "unknown-uefi",
        MemoryRegionKind::UnknownBios(_) => "unknown-bios",
        MemoryRegionKind::Other => "unknown",
    }
}

/// Text naming a region kind in the boot log.
pub fn region_kind_label(kind: MemoryRegionKind) -> (label: &'static str)
    ensures
        label == region_kind_label_spec(kind),
{
    match kind {
        MemoryRegionKind::Usable => "usable",
        MemoryRegionKind::Bootloader => "bootloader",
        MemoryRegionKind::UnknownUefi(_) => "unknown-uefi",
        MemoryRegionKind::UnknownBios(_) => "unknown-bios",
        MemoryRegionKind::Other => "unknown",
    }
}

/// A region of this kind can be used freely by the kernel allocator.
pub fn is_usable(kind: MemoryRegionKind) -> (b: bool)
    ensures
        b == (kind == MemoryRegionKind::Usable),
{
    match kind {
        MemoryRegionKind::Usable => true,
        _ => false,
    }
}

/// Size in bytes of a region (zero if its end lies before its start).
pub open spec fn region_size_spec(r: MemoryRegion) -> u64 {
    if r.end >= r.start {
        (r.end - r.start) as u64
    } else {
        0
    }
}

/// Size in bytes of a region (zero if its end lies before its start).
pub fn region_size(r: &MemoryRegion) -> (size: u64)
    ensures
        size == region_size_spec(*r),
{
    r.end.saturating_sub(r.start)
}

/// Bytes in usable regions, summed with saturation.
pub open spec fn usable_bytes_spec(regions: Seq<MemoryRegion>) -> u64
    decreases regions.len(),
{
    if regions.len() == 0 {
        0
    } else {
        let before = usable_bytes_spec(regions.drop_last());
        if regions.last().kind == MemoryRegionKind::Usable {
            if before + region_size_spec(regions.last()) > u64::MAX {
                u64::MAX
            } else {
                (before + region_size_spec(regions.last())) as u64
            }
        } else {
            before
        }
    }
}

/// Total bytes of usable memory, as the boot log reports it.
pub fn usable_bytes(regions: &[MemoryRegion]) -> (total: u64)
    ensures
        total == usable_bytes_spec(regions@),
{
    let mut total: u64 = 0;
    let mut i: usize = 0;
    while i < regions.len()
        invariant
            i <= regions@.len(),
            total == usable_bytes_spec(regions@.take(i as int)),
        decreases regions@.len() - i,
    {
        let r = regions[i];
        proof {
            assert(regions@.take(i + 1).drop_last() =~= regions@.take(i as int));
        }
        if is_usable(r.kind) {
            total = total.saturating_add(region_size(&r));
        }
        i = i + 1;
    }
    proof {
        assert(regions@.take(i as int) =~= regions@);
    }
    total
}

/// The usable regions as `(start, end)` address pairs, in map order.
pub open spec fn usable_regions_spec(regions: Seq<MemoryRegion>) -> Seq<(usize, usize)>
    decreases regions.len(),
{
    if regions.len() == 0 {
        Seq::empty()
    } else {
        let before = usable_regions_spec(regions.drop_last());
        let r = regions.last();
        if r.kind == MemoryRegionKind::Usable {
            before.push((r.start as usize, r.end as usize))
        } else {
            before
        }
    }
}

/// The usable regions as `(start, end)` address pairs, in map order.
pub fn usable_regions(regions: &[MemoryRegion]) -> (out: Vec<(usize, usize)>)
    ensures
        out@ == usable_regions_spec(regions@),
{
    let mut out: Vec<(usize, usize)> = Vec::new();
    let mut i: usize = 0;
    while i < regions.len()
        invariant
            i <= regions@.len(),
            out@ == usable_regions_spec(regions@.take(i as int)),
        decreases regions@.len() - i,
    {
        let r = regions[i];
        proof {
            assert(regions@.take(i + 1).drop_last() =~= regions@.take(i as int));
        }
        if is_usable(r.kind) {
            out.push((r.start as usize, r.end as usize));
        }
        i = i + 1;
    }
    proof {
        assert(regions@.take(i as int) =~= regions@);
    }
    out
}

/// Length of an address range, zero if it is reversed.
pub open spec fn span_len(r: (usize, usize)) -> usize {
    if r.1 >= r.0 {
        (r.1 - r.0) as usize
    } else {
        0
    }
}

/// The longest range; of several equally long ones, the last.
pub open spec fn largest_spec(ranges: Seq<(usize, usize)>) -> Option<(usize, usize)>
    decreases ranges.len(),
{
    if ranges.len() == 0 {
        None
    } else {
        match largest_spec(ranges.drop_last()) {
            None => Some(ranges.last()),
            Some(best) => if span_len(ranges.last()) >= span_len(best) {
                Some(ranges.last())
            } else {
                Some(best)
            },
        }
    }
}

/// The address pair of region `r`.
pub open spec fn span_of(r: MemoryRegion) -> (usize, usize) {
    (r.start as usize, r.end as usize)
}

proof fn lemma_usable_regions_members(regions: Seq<MemoryRegion>)
    ensures
        forall|i: int|
            0 <= i < regions.len() && regions[i].kind == MemoryRegionKind::Usable ==> usable_regions_spec(
                regions,
            ).contains(#[trigger] span_of(regions[i])),
        forall|j: int|
            0 <= j < usable_regions_spec(regions).len() ==> exists|i: int|
                0 <= i < regions.len() && regions[i].kind == MemoryRegionKind::Usable
                    && #[trigger] usable_regions_spec(regions)[j] == #[trigger] span_of(regions[i]),
    decreases regions.len(),
{
    if regions.len() > 0 {
        let init = regions.drop_last();
        lemma_usable_regions_members(init);
        let before = usable_regions_spec(init);
        let u = usable_regions_spec(regions);
        assert forall|i: int|
            0 <= i < regions.len() && regions[i].kind == MemoryRegionKind::Usable implies u.contains(
            #[trigger] span_of(regions[i]),
        ) by {
            if i < regions.len() - 1 {
                assert(init[i] == regions[i]);
                assert(before.contains(span_of(init[i])));
                let k = choose|k: int| 0 <= k < before.len() && before[k] == span_of(init[i]);
                assert(u[k] == before[k]);
            } else {
                assert(u[u.len() - 1] == span_of(regions[i]));
            }
        }
        assert forall|j: int| 0 <= j < u.len() implies exists|i: int|
            0 <= i < regions.len() && regions[i].kind == MemoryRegionKind::Usable && #[trigger] u[j]
                == #[trigger] span_of(regions[i]) by {
            if j < before.len() {
                assert(u[j] == before[j]);
                let i = choose|i: int|
                    0 <= i < init.len() && init[i].kind == MemoryRegionKind::Usable && before[j]
                        == span_of(init[i]);
                assert(init[i] == regions[i]);
                assert(regions[i].kind == MemoryRegionKind::Usable);
                assert(u[j] == span_of(regions[i]));
            } else {
                let i = regions.len() - 1;
                assert(regions.last().kind == MemoryRegionKind::Usable);
                assert(regions[i].kind == MemoryRegionKind::Usable);
                assert(u[j] == span_of(regions[i]));
            }
        }
    } else {
        assert(usable_regions_spec(regions).len() == 0);
    }
}

proof fn lemma_largest_of_ranges(ranges: Seq<(usize, usize)>)
    ensures
        largest_spec(ranges) is None <==> ranges.len() == 0,
        largest_spec(ranges) matches Some(b) ==> ranges.contains(b) && forall|i: int|
            0 <= i < ranges.len() ==> span_len(#[trigger] ranges[i]) <= span_len(b),
        largest_spec(ranges) matches Some(b) ==> exists|k: int|
            0 <= k < ranges.len() && #[trigger] ranges[k] == b && forall|i: int|
                k < i < ranges.len() ==> span_len(#[trigger] ranges[i]) < span_len(b),
    decreases ranges.len(),
{
    if ranges.len() > 0 {
        let init = ranges.drop_last();
        lemma_largest_of_ranges(init);
        let b = largest_spec(ranges)->0;
        assert forall|i: int| 0 <= i < ranges.len() implies span_len(#[trigger] ranges[i])
            <= span_len(b) by {
            if i < ranges.len() - 1 {
                assert(ranges[i] == init[i]);
            }
        }
        if largest_spec(init) is Some && b == largest_spec(init)->0 && span_len(ranges.last())
            < span_len(b) {
            let k = choose|k: int|
                0 <= k < init.len() && #[trigger] init[k] == b && forall|i: int|
                    k < i < init.len() ==> span_len(#[trigger] init[i]) < span_len(b);
            assert(ranges[k] == b);
            assert forall|i: int| k < i < ranges.len() implies span_len(#[trigger] ranges[i])
                < span_len(b) by {
                if i < ranges.len() - 1 {
                    assert(ranges[i] == init[i]);
                }
            }
        } else {
            assert(ranges[ranges.len() - 1] == b);
        }
    }
}

/// The region the frame allocator is set up over is one of the usable
/// regions of the map, and no usable region is longer (of equally long
/// ones it is the last, in map order); there is none exactly when no
/// region is usable.
pub proof fn lemma_largest_usable_region(regions: Seq<MemoryRegion>)
    ensures
        largest_spec(usable_regions_spec(regions)) is None <==> forall|i: int|
            0 <= i < regions.len() ==> (#[trigger] regions[i]).kind != MemoryRegionKind::Usable,
        largest_spec(usable_regions_spec(regions)) matches Some(b) ==> (exists|i: int|
            0 <= i < regions.len() && regions[i].kind == MemoryRegionKind::Usable && b == span_of(
                #[trigger] regions[i],
            )) && forall|i: int|
            0 <= i < regions.len() && regions[i].kind == MemoryRegionKind::Usable ==> span_len(
                span_of(#[trigger] regions[i]),
            ) <= span_len(b),
        largest_spec(usable_regions_spec(regions)) matches Some(b) ==> exists|k: int|
            0 <= k < usable_regions_spec(regions).len() && #[trigger] usable_regions_spec(
                regions,
            )[k] == b && forall|i: int|
                k < i < usable_regions_spec(regions).len() ==> span_len(
                    #[trigger] usable_regions_spec(regions)[i],
                ) < span_len(b),
{
    let u = usable_regions_spec(regions);
    lemma_usable_regions_members(regions);
    lemma_largest_of_ranges(u);
    if largest_spec(u) is None {
        assert forall|i: int| 0 <= i < regions.len() implies (#[trigger] regions[i]).kind
            != MemoryRegionKind::Usable by {
            if regions[i].kind == MemoryRegionKind::Usable {
                assert(u.contains(span_of(regions[i])));
            }
        }
    } else {
        let b = largest_spec(u)->0;
        let j = choose|j: int| 0 <= j < u.len() && u[j] == b;
        assert(u.len() > 0);
        assert forall|i: int|
            0 <= i < regions.len() && regions[i].kind == MemoryRegionKind::Usable implies span_len(
            span_of(#[trigger] regions[i]),
        ) <= span_len(b) by {
            assert(u.contains(span_of(regions[i])));
            let k = choose|k: int| 0 <= k < u.len() && u[k] == span_of(regions[i]);
            assert(span_len(u[k]) <= span_len(b));
        }
        assert(exists|i: int|
            0 <= i < regions.len() && regions[i].kind == MemoryRegionKind::Usable && u[j] == span_of(
                regions[i],
            ));
    }
}

/// The longest usable region (the last of several equally long ones), as
/// an address pair; `None` when no region is usable. It allocates nothing,
/// so it can run before the heap exists.
pub fn largest_usable_region(regions: &[MemoryRegion]) -> (best: Option<(usize, usize)>)
    ensures
        best == largest_spec(usable_regions_spec(regions@)),
{
    let mut best: Option<(usize, usize)> = None;
    let mut i: usize = 0;
    while i < regions.len()
        invariant
            i <= regions@.len(),
            best == largest_spec(usable_regions_spec(regions@.take(i as int))),
        decreases regions@.len() - i,
    {
        let region = regions[i];
        proof {
            assert(regions@.take(i + 1).drop_last() =~= regions@.take(i as int));
        }
        if is_usable(region.kind) {
            let r = (region.start as usize, region.end as usize);
            let ghost prev = usable_regions_spec(regions@.take(i as int));
            proof {
                assert(prev.push(r).drop_last() =~= prev);
            }
            let len = r.1.saturating_sub(r.0);
            match best {
                None => {
                    best = Some(r);
                },
                Some(b) => {
                    if len >= b.1.saturating_sub(b.0) {
                        best = Some(r);
                    }
                },
            }
        }
        i = i + 1;
    }
    proof {
        assert(regions@.take(i as int) =~= regions@);
    }
    best
}

/// The boot-log line of one region: its kind, its bounds in hex, and its
/// size in bytes.
pub open spec fn region_line(r: MemoryRegion) -> Seq<u8> {
    "  ".spec_bytes() + region_kind_label_spec(r.kind).spec_bytes() + ": ".spec_bytes()
        + hex18_spec(r.start) + "..".spec_bytes() + hex18_spec(r.end) + " (".spec_bytes()
        + decimal_spec(region_size_spec(r) as nat) + " bytes)\n".spec_bytes()
}

/// The lines of all regions, in order.
pub open spec fn region_lines(regions: Seq<MemoryRegion>) -> Seq<u8>
    decreases regions.len(),
{
    if regions.len() == 0 {
        Seq::empty()
    } else {
        region_lines(regions.drop_last()) + region_line(regions.last())
    }
}

/// The boot log of the memory map: the number of regions, a line per
/// region, and the usable total.
pub open spec fn memory_map_text(regions: Seq<MemoryRegion>) -> Seq<u8> {
    "[boot] memory map received (".spec_bytes() + decimal_spec(regions.len()) + " regions)\n".spec_bytes()
        + region_lines(regions) + "[boot] usable RAM: ".spec_bytes() + decimal_spec(
        usable_bytes_spec(regions) as nat,
    ) + " bytes\n".spec_bytes()
}

/// The boot log of the memory map (see `memory_map_text`).
pub fn memory_map_report(regions: &[MemoryRegion]) -> (out: Vec<u8>)
    ensures
        out@ == memory_map_text(regions@),
{
    let mut out: Vec<u8> = Vec::new();
    push_str(&mut out, "[boot] memory map received (");
    push_decimal(&mut out, regions.len() as u64);
    push_str(&mut out, " regions)\n");
    let ghost head = out@;
    proof {
        assert(head =~= "[boot] memory map received (".spec_bytes() + decimal_spec(regions@.len())
            + " regions)\n".spec_bytes());
        assert(regions@.take(0) =~= Seq::<MemoryRegion>::empty());
        assert(out@ =~= head + region_lines(regions@.take(0)));
    }
    let mut i: usize = 0;
    while i < regions.len()
        invariant
            i <= regions@.len(),
            out@ == head + region_lines(regions@.take(i as int)),
        decreases regions@.len() - i,
    {
        let r = regions[i];
        let ghost before = out@;
        push_str(&mut out, "  ");
        push_str(&mut out, region_kind_label(r.kind));
        push_str(&mut out, ": ");
        push_hex18(&mut out, r.start);
        push_str(&mut out, "..");
        push_hex18(&mut out, r.end);
        push_str(&mut out, " (");
        push_decimal(&mut out, region_size(&r));
        push_str(&mut out, " bytes)\n");
        proof {
            assert(out@ =~= before + region_line(r));
            assert(regions@.take(i + 1).drop_last() =~= regions@.take(i as int));
            assert(regions@.take(i + 1).last() == r);
        }
        i = i + 1;
    }
    let ghost mid = out@;
    push_str(&mut out, "[boot] usable RAM: ");
    push_decimal(&mut out, usable_bytes(regions));
    push_str(&mut out, " bytes\n");
    proof {
        assert(regions@.take(i as int) =~= regions@);
        assert(out@ =~= memory_map_text(regions@));
    }
    out
}

} // verus!
