use flynn_kernel::frame::Frame;
use flynn_kernel::frame_allocator::{
    allocate_frame, deallocate_frame, init_frame_allocator, self_test, stats, BootFrameAllocator,
    FrameError, FrameStats,
};
use flynn_kernel::memory_map::{
    is_usable, largest_usable_region, region_kind_label, usable_bytes, usable_regions,
    MemoryRegion, MemoryRegionKind,
};

fn region(start: u64, end: u64, kind: MemoryRegionKind) -> MemoryRegion {
    MemoryRegion { start, end, kind }
}

fn sample_map() -> Vec<MemoryRegion> {
    vec![
        region(0x0, 0x1000, MemoryRegionKind::Bootloader),
        region(0x1000, 0x9000, MemoryRegionKind::Usable),
        region(0x9000, 0xA000, MemoryRegionKind::UnknownBios(2)),
        region(0x10_0000, 0x10_4000, MemoryRegionKind::Usable),
    ]
}

fn ready_allocator() -> BootFrameAllocator {
    let mut a = BootFrameAllocator::new();
    init_frame_allocator(&mut a, &sample_map());
    a
}

#[test]
fn frame_addresses() {
    assert_eq!(Frame::containing_address(0x1fff).number, 1);
    assert_eq!(Frame::containing_address(0x2000).number, 2);
    assert_eq!(Frame { number: 3 }.start_address(), 0x3000);
    let f = Frame { number: 77 };
    assert_eq!(Frame::containing_address(f.start_address()), f);
}

#[test]
fn region_kinds() {
    assert!(is_usable(MemoryRegionKind::Usable));
    assert!(!is_usable(MemoryRegionKind::Bootloader));
    assert_eq!(region_kind_label(MemoryRegionKind::UnknownUefi(7)), "unknown-uefi");
    assert_eq!(region_kind_label(MemoryRegionKind::UnknownBios(1)), "unknown-bios");
    assert_eq!(region_kind_label(MemoryRegionKind::Usable), "usable");
    assert_eq!(region_kind_label(MemoryRegionKind::Bootloader), "bootloader");
    assert_eq!(region_kind_label(MemoryRegionKind::Other), "unknown");
}

#[test]
fn usable_regions_and_bytes() {
    let map = sample_map();
    assert_eq!(usable_regions(&map), vec![(0x1000, 0x9000), (0x10_0000, 0x10_4000)]);
    assert_eq!(usable_bytes(&map), 0x8000 + 0x4000);
    let huge = vec![
        region(0, u64::MAX, MemoryRegionKind::Usable),
        region(0, 5, MemoryRegionKind::Usable),
    ];
    assert_eq!(usable_bytes(&huge), u64::MAX);
}

#[test]
fn largest_region_prefers_last_on_tie() {
    let map = vec![
        region(0x1000, 0x3000, MemoryRegionKind::Usable),
        region(0x8000, 0xA000, MemoryRegionKind::Usable),
        region(0x20000, 0x21000, MemoryRegionKind::Usable),
    ];
    assert_eq!(largest_usable_region(&map), Some((0x8000, 0xA000)));
    assert_eq!(largest_usable_region(&[region(0, 10, MemoryRegionKind::Bootloader)]), None);
}

#[test]
fn uninitialized_allocator() {
    let mut a = BootFrameAllocator::new();
    assert_eq!(stats(&a), Err(FrameError::NotInitialized));
    assert_eq!(allocate_frame(&mut a), Err(FrameError::Exhausted));
    assert_eq!(deallocate_frame(&mut a, Frame { number: 1 }), Err(FrameError::NotInitialized));
    assert_eq!(self_test(&mut a, 4), Err(FrameError::NotInitialized));
}

#[test]
fn init_uses_largest_region() {
    let a = ready_allocator();
    assert!(a.initialized);
    assert_eq!(a.base_frame, 1);
    assert_eq!(a.frame_count, 8);
    assert_eq!(stats(&a), Ok(FrameStats { total: 8, used: 0, free: 8 }));
}

#[test]
fn allocation_takes_lowest_free_frame() {
    let mut a = ready_allocator();
    assert_eq!(allocate_frame(&mut a), Ok(Frame { number: 1 }));
    assert_eq!(allocate_frame(&mut a), Ok(Frame { number: 2 }));
    assert_eq!(allocate_frame(&mut a), Ok(Frame { number: 3 }));
    assert_eq!(deallocate_frame(&mut a, Frame { number: 2 }), Ok(()));
    assert_eq!(allocate_frame(&mut a), Ok(Frame { number: 2 }));
    assert_eq!(stats(&a), Ok(FrameStats { total: 8, used: 3, free: 5 }));
}

#[test]
fn deallocation_errors() {
    let mut a = ready_allocator();
    assert_eq!(deallocate_frame(&mut a, Frame { number: 0 }), Err(FrameError::OutOfRange));
    assert_eq!(deallocate_frame(&mut a, Frame { number: 9 }), Err(FrameError::OutOfRange));
    assert_eq!(deallocate_frame(&mut a, Frame { number: 4 }), Err(FrameError::DoubleFree));
    let f = allocate_frame(&mut a).unwrap();
    assert_eq!(deallocate_frame(&mut a, f), Ok(()));
    assert_eq!(deallocate_frame(&mut a, f), Err(FrameError::DoubleFree));
}

#[test]
fn exhaustion() {
    let mut a = ready_allocator();
    for n in 1..=8 {
        assert_eq!(allocate_frame(&mut a), Ok(Frame { number: n }));
    }
    assert_eq!(allocate_frame(&mut a), Err(FrameError::Exhausted));
    assert_eq!(stats(&a), Ok(FrameStats { total: 8, used: 8, free: 0 }));
}

#[test]
fn self_test_restores_usage() {
    let mut a = ready_allocator();
    allocate_frame(&mut a).unwrap();
    assert_eq!(self_test(&mut a, 5), Ok(5));
    assert_eq!(stats(&a), Ok(FrameStats { total: 8, used: 1, free: 7 }));
    assert_eq!(self_test(&mut a, 7), Ok(7));
    assert_eq!(allocate_frame(&mut a), Ok(Frame { number: 2 }));
}

#[test]
fn self_test_caps_rounds_at_64() {
    let map = vec![region(0, 0x100_000, MemoryRegionKind::Usable)];
    let mut a = BootFrameAllocator::new();
    init_frame_allocator(&mut a, &map);
    assert_eq!(a.frame_count, 256);
    assert_eq!(self_test(&mut a, 1000), Ok(64));
    assert_eq!(stats(&a), Ok(FrameStats { total: 256, used: 0, free: 256 }));
}

#[test]
fn self_test_exhausted_takes_every_frame() {
    let mut a = ready_allocator();
    assert_eq!(self_test(&mut a, 9), Err(FrameError::Exhausted));
    assert_eq!(stats(&a), Ok(FrameStats { total: 8, used: 8, free: 0 }));
}
