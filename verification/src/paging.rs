//! Which pages a region of virtual memory covers, as the kernel maps its
//! heap and its thread stacks page by page.
use vstd::prelude::*;
use x86_64::structures::paging::{Page, Size4KiB};
use x86_64::VirtAddr;

verus! {

/// A canonical x86_64 virtual address: bits 48 to 63 copy bit 47.
pub open spec fn canonical(addr: u64) -> bool {
    addr < 0x0000_8000_0000_0000 || addr >= 0xFFFF_8000_0000_0000
}

/// `Page::<Size4KiB>::containing_address(VirtAddr::new(addr))`: the 4 KiB
/// page holding `addr`, by its start address (the address rounded down to
/// a multiple of 4096). `VirtAddr::new` panics on a non-canonical address.
#[verifier::external_body]
fn page_containing(addr: u64) -> (start: u64)
    requires
        canonical(addr),
    ensures
        start == addr - addr % 4096,
{
    Page::<Size4KiB>::containing_address(VirtAddr::new(addr)).start_address().as_u64()
}

/// The first and the last page of the region of `size` bytes at
/// `virt_start`, by start address; the caller maps every page from the
/// first to the last. The last byte is `virt_start + size - 1`, and every
/// address involved must be canonical and free of overflow, as address
/// arithmetic on `VirtAddr` demands.
pub fn region_pages(virt_start: u64, size: u64) -> (pages: (u64, u64))
    requires
        canonical(virt_start),
        virt_start + size <= u64::MAX,
        virt_start + size >= 1,
        canonical((virt_start + size - 1) as u64),
    ensures
        pages.0 == virt_start - virt_start % 4096,
        pages.1 == (virt_start + size - 1) - (virt_start + size - 1) % 4096,
{
    let start_page = page_containing(virt_start);
    let end_addr = virt_start + size - 1;
    let end_page = page_containing(end_addr);
    (start_page, end_page)
}

/// Number of pages from `first` to `last` inclusive (none if `last` lies
/// below `first`).
pub open spec fn page_count(first: u64, last: u64) -> nat {
    if last >= first {
        ((last - first) / 4096 + 1) as nat
    } else {
        0
    }
}

/// A region of `size >= 1` bytes needs pages from the one holding its
/// first byte to the one holding its last, and at least one page.
pub proof fn lemma_region_pages_cover(virt_start: u64, size: u64)
    requires
        size >= 1,
        virt_start + size <= u64::MAX,
    ensures
        ({
            let first = virt_start - virt_start % 4096;
            let last = (virt_start + size - 1) - (virt_start + size - 1) % 4096;
            &&& first <= virt_start
            &&& last <= virt_start + size - 1 < last + 4096
            &&& first <= last
            &&& page_count(first as u64, last as u64) >= 1
        }),
{
}

} // verus!
