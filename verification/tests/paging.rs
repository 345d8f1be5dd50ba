use kernel::mem::paging::allocate::alloc_pages;
use kernel::mem::paging::clone_tables::clone_uefi;
use kernel::mem::paging::free::{pages_buffer, ptr_pages};
use kernel::mem::paging::level4::{
    allocate_page, canonical_address, check_mapped, check_path, free_page, get_lin_hole, is_mapped, leaf_frame,
    remove_page,
};
use kernel::mem::paging::phy::PhysPageMap;
use kernel::mem::paging::realloc;
use kernel::mem::paging::{copy_page, zero_page, PageUse, Pager, PagingType};
use kernel::mem::MemPageBuffer;

const PAGES: usize = 64;
const MASK: u64 = 0xF_F000;
const KERNEL_BASE: u64 = 0xFFFF_8000_0000_0000;
const KERNEL_PAGE: u64 = 1 << 35;

/// 64 pages of memory, page 0 in use and the rest free; 20 physical and
/// 48 linear address bits.
fn machine() -> (Pager, Vec<u64>) {
    let mut phys = PhysPageMap::new_all_used(PAGES);
    for i in 1..PAGES {
        phys.set(i, PageUse::Free);
    }
    let pager = Pager::new(phys, PagingType::Level4, 20, 48).unwrap();
    (pager, vec![0u64; PAGES * 512])
}

/// A machine with an empty PML4, and its address.
fn machine_with_tables() -> (Pager, Vec<u64>, u64) {
    let (mut pager, mut mem) = machine();
    let pml4 = pager.phys.allocate_page_addr(&mut mem, true).unwrap();
    (pager, mem, pml4)
}

#[test]
fn pager_masks() {
    let (pager, _) = machine();
    assert_eq!(pager.phy_page_mask, MASK);
    assert_eq!(pager.lin_addr_mask, 0xFFFF_FFFF_FFFF);
    assert_eq!(pager.to_high_mask, 0xFFFF_8000_0000_0000);
    assert_eq!(pager.phy_addr_bits, 20);
}

#[test]
fn pager_rejects_bad_widths() {
    assert!(Pager::new(PhysPageMap::new_all_used(4), PagingType::Level4, 0, 48).is_none());
    assert!(Pager::new(PhysPageMap::new_all_used(4), PagingType::Level4, 20, 64).is_none());
    // 300 pages do not fit below 2^20 bytes.
    assert!(Pager::new(PhysPageMap::new_all_used(300), PagingType::Level4, 20, 48).is_none());
    assert!(Pager::new(PhysPageMap::new_all_used(256), PagingType::Level4, 20, 48).is_some());
}

#[test]
fn physical_pages_are_taken_in_order_and_freed() {
    let (mut pager, mut mem) = machine();
    assert_eq!(pager.phys.free_count(), PAGES - 1);
    mem[512 + 3] = 77;
    let first = pager.phys.allocate_page_index(&mut mem, true).unwrap();
    assert_eq!(first, 1);
    assert_eq!(mem[512 + 3], 0);
    assert_eq!(pager.phys.get(1), PageUse::Used);
    assert_eq!(pager.phys.allocate_page_addr(&mut mem, false), Some(0x2000));
    assert_eq!(pager.phys.free_count(), PAGES - 3);
    pager.phys.free_page(1);
    assert_eq!(pager.phys.get(1), PageUse::Free);
    assert_eq!(pager.phys.free_count(), PAGES - 2);
    // The search goes on from the last page taken and wraps around.
    assert_eq!(pager.phys.allocate_page_index(&mut mem, false), Some(3));
}

#[test]
fn no_free_page_left() {
    let mut phys = PhysPageMap::new_all_used(4);
    let mut mem = vec![0u64; 4 * 512];
    assert_eq!(phys.allocate_page_index(&mut mem, true), None);
    assert_eq!(phys.allocate_page_addr(&mut mem, true), None);
}

#[test]
fn contiguous_runs() {
    let (mut pager, mut mem) = machine();
    pager.phys.set(3, PageUse::Used);
    // Pages 1 and 2 are too few for 3 pages; 4..7 is the lowest run.
    assert_eq!(pager.phys.contiguous_alloc_pages(&mut mem, true, 3, None), Some(0x4000));
    for i in 4..7 {
        assert_eq!(pager.phys.get(i), PageUse::Used);
    }
    assert_eq!(pager.phys.get(7), PageUse::Free);
    // At a given address: the run must be free.
    assert_eq!(pager.phys.contiguous_alloc_pages(&mut mem, true, 2, Some(0x2000)), None);
    assert_eq!(pager.phys.contiguous_alloc_pages(&mut mem, true, 2, Some(0x1000)), Some(0x1000));
    assert_eq!(pager.phys.contiguous_alloc_pages(&mut mem, true, 100, None), None);
}

#[test]
fn zero_and_copy_pages() {
    let (_, mut mem) = machine();
    for w in 0..512 {
        mem[2 * 512 + w] = w as u64 + 1;
    }
    copy_page(&mut mem, 2, 5);
    assert_eq!(mem[5 * 512], 1);
    assert_eq!(mem[5 * 512 + 511], 512);
    zero_page(&mut mem, 2);
    assert!(mem[2 * 512..3 * 512].iter().all(|&w| w == 0));
    assert_eq!(mem[5 * 512 + 10], 11);
}

#[test]
fn kernel_allocation_starts_the_upper_half() {
    let (mut pager, mut mem, pml4) = machine_with_tables();
    let free = pager.phys.free_count();
    let p = alloc_pages(&mut pager, &mut mem, 1, true, pml4).unwrap();
    assert_eq!(p, KERNEL_BASE);
    assert!(is_mapped(&mem, pml4, MASK, KERNEL_PAGE));
    // One page and the PDPT, page directory and page table on its path.
    assert_eq!(pager.phys.free_count(), free - 4);
    let q = alloc_pages(&mut pager, &mut mem, 2, true, pml4).unwrap();
    assert_eq!(q, KERNEL_BASE + 0x1000);
    assert_eq!(pager.phys.free_count(), free - 6);
    assert!(is_mapped(&mem, pml4, MASK, KERNEL_PAGE + 2));
    assert!(!is_mapped(&mem, pml4, MASK, KERNEL_PAGE + 3));
}

#[test]
fn user_allocation_starts_at_zero() {
    let (mut pager, mut mem, pml4) = machine_with_tables();
    let p = alloc_pages(&mut pager, &mut mem, 3, false, pml4).unwrap();
    assert_eq!(p, 0);
    for page in 0..3 {
        assert!(is_mapped(&mem, pml4, MASK, page));
    }
    // User entries are present, writable and user accessible.
    let pdpt = mem[(pml4 / 8) as usize] & MASK;
    let pd = mem[(pdpt / 8) as usize] & MASK;
    let pt = mem[(pd / 8) as usize] & MASK;
    assert_eq!(mem[(pt / 8) as usize] & 0xFFF, 7);
}

#[test]
fn allocation_fails_when_memory_runs_out() {
    let (mut pager, mut mem, pml4) = machine_with_tables();
    assert_eq!(alloc_pages(&mut pager, &mut mem, 200, true, pml4), None);
}

#[test]
fn lin_hole_skips_mapped_pages() {
    let (mut pager, mut mem, pml4) = machine_with_tables();
    assert_eq!(get_lin_hole(&mem, pml4, MASK, 4, true), Ok(Some(KERNEL_PAGE)));
    alloc_pages(&mut pager, &mut mem, 2, true, pml4).unwrap();
    assert_eq!(get_lin_hole(&mem, pml4, MASK, 4, true), Ok(Some(KERNEL_PAGE + 2)));
    assert_eq!(get_lin_hole(&mem, pml4, MASK, 0, false), Ok(Some(0)));
}

#[test]
fn lin_hole_reports_tables_outside_memory() {
    let (_, mut mem, pml4) = machine_with_tables();
    // The first user PML4 entry points far outside memory.
    mem[(pml4 / 8) as usize] = 0xF_0000 | 3;
    assert_eq!(get_lin_hole(&mem, pml4, MASK, 1, false), Err(()));
}

#[test]
fn map_then_remove_gives_back_the_frame() {
    let (mut pager, mut mem, pml4) = machine_with_tables();
    let frame = pager.phys.allocate_page_addr(&mut mem, true).unwrap();
    assert!(check_path(&mem, &pager.phys, pml4, MASK, 5));
    allocate_page(&mut mem, &mut pager.phys, 5, frame, pml4, MASK, 3);
    assert!(is_mapped(&mem, pml4, MASK, 5));
    assert!(check_mapped(&mem, &pager.phys, pml4, MASK, 5));
    assert_eq!(leaf_frame(&mem, pml4, MASK, 5), (frame / 4096) as usize);
    // A mapped page cannot be mapped again.
    assert!(!check_path(&mem, &pager.phys, pml4, MASK, 5));
    assert_eq!(remove_page(&mut mem, 5, pml4, MASK), frame);
    assert!(!is_mapped(&mem, pml4, MASK, 5));
    // The frame stays allocated after remove_page.
    assert_eq!(pager.phys.get((frame / 4096) as usize), PageUse::Used);
}

#[test]
fn new_tables_are_the_next_free_pages() {
    let (mut pager, mut mem, pml4) = machine_with_tables();
    let frame = pager.phys.allocate_page_addr(&mut mem, true).unwrap();
    pager.phys.set(4, PageUse::Used);
    allocate_page(&mut mem, &mut pager.phys, 5, frame, pml4, MASK, 3);
    let pdpt = mem[(pml4 / 8) as usize] & MASK;
    let pd = mem[(pdpt / 8) as usize] & MASK;
    let pt = mem[(pd / 8) as usize] & MASK;
    assert_eq!((pml4, frame, pdpt, pd, pt), (0x1000, 0x2000, 0x3000, 0x5000, 0x6000));
    // The search goes on from the last table taken.
    assert_eq!(pager.phys.allocate_page_addr(&mut mem, true), Some(0x7000));
}

#[test]
fn free_page_unmaps_and_frees_the_frame() {
    let (mut pager, mut mem, pml4) = machine_with_tables();
    let frame = pager.phys.allocate_page_addr(&mut mem, true).unwrap();
    allocate_page(&mut mem, &mut pager.phys, 9, frame, pml4, MASK, 3);
    free_page(&mut mem, &mut pager.phys, 9, pml4, MASK);
    assert!(!is_mapped(&mem, pml4, MASK, 9));
    assert_eq!(pager.phys.get((frame / 4096) as usize), PageUse::Free);
}

#[test]
fn canonical_addresses() {
    assert_eq!(canonical_address(0), 0);
    assert_eq!(canonical_address(1), 0x1000);
    assert_eq!(canonical_address((1 << 35) - 1), 0x7FFF_FFFF_F000);
    assert_eq!(canonical_address(1 << 35), 0xFFFF_8000_0000_0000);
}

#[test]
fn freeing_pages_unmaps_them() {
    let (mut pager, mut mem, pml4) = machine_with_tables();
    let p = alloc_pages(&mut pager, &mut mem, 3, true, pml4).unwrap();
    let free = pager.phys.free_count();
    assert_eq!(ptr_pages(&mut pager, &mut mem, p, 3, pml4), Ok(()));
    for page in 0..3 {
        assert!(!is_mapped(&mem, pml4, MASK, KERNEL_PAGE + page));
    }
    assert_eq!(pager.phys.free_count(), free + 3);
    // Freeing them again stops at the first page that is not mapped.
    assert_eq!(ptr_pages(&mut pager, &mut mem, p, 3, pml4), Err(KERNEL_PAGE));
}

#[test]
fn freeing_a_buffer_stops_at_a_hole() {
    let (mut pager, mut mem, pml4) = machine_with_tables();
    alloc_pages(&mut pager, &mut mem, 2, false, pml4).unwrap();
    let r = pages_buffer(&mut pager, &mut mem, MemPageBuffer::new(0, 4), pml4);
    assert_eq!(r, Err(2));
    assert!(!is_mapped(&mem, pml4, MASK, 0));
    assert!(!is_mapped(&mem, pml4, MASK, 1));
}

#[test]
fn reallocation_moves_the_contents() {
    let (mut pager, mut mem, pml4) = machine_with_tables();
    let p = alloc_pages(&mut pager, &mut mem, 1, true, pml4).unwrap();
    let frame = leaf_frame(&mem, pml4, MASK, KERNEL_PAGE);
    mem[frame * 512 + 7] = 0xDEAD_BEEF;
    let q = realloc::pages(&mut pager, &mut mem, p, 1, 2, pml4, pml4).unwrap();
    // The old page stays mapped until the copy is made, so the new run
    // starts after it.
    assert_eq!(q, KERNEL_BASE + 0x1000);
    assert!(!is_mapped(&mem, pml4, MASK, KERNEL_PAGE));
    let new_frame = leaf_frame(&mem, pml4, MASK, KERNEL_PAGE + 1);
    assert_eq!(mem[new_frame * 512 + 7], 0xDEAD_BEEF);
    assert!(is_mapped(&mem, pml4, MASK, KERNEL_PAGE + 2));
}

/// Old tables in pages 1 to 4 (loader pages): PML4 entry 0 points to a
/// PDPT holding a 1 GiB page and a page directory; that one holds a 2 MiB
/// page and a page table with two present entries.
fn firmware_tables() -> (Pager, Vec<u64>) {
    let mut phys = PhysPageMap::new_all_used(PAGES);
    for i in 1..5 {
        phys.set(i, PageUse::Loader);
    }
    for i in 5..PAGES {
        phys.set(i, PageUse::Free);
    }
    let pager = Pager::new(phys, PagingType::Level4, 20, 48).unwrap();
    let mut mem = vec![0u64; PAGES * 512];
    let (pml4, pdpt, pd, pt) = (512, 1024, 1536, 2048);
    mem[pml4] = 0x2000 | 3;
    mem[pdpt] = 0x4000_0083;
    mem[pdpt + 1] = 0x3000 | 3;
    mem[pd + 5] = 0x0020_0083;
    mem[pd + 6] = 0x4000 | 3;
    mem[pt] = 0x9003;
    mem[pt + 7] = 0xA003;
    (pager, mem)
}

#[test]
fn clone_copies_the_firmware_tables() {
    let (mut pager, mut mem) = firmware_tables();
    let n = clone_uefi(&mut pager, &mut mem, 0x1000).unwrap();
    assert_eq!(n, 0x5000);
    let w = |addr: u64, i: usize| (addr / 8) as usize + i;
    assert_eq!(mem[w(n, 0)], 0x6000 | 3);
    assert_eq!(mem[w(n, 1)], 0);
    assert_eq!(mem[w(n, 256)], mem[w(n, 0)]);
    // PDPT: the 1 GiB page keeps only its frame bits, the other link is new.
    assert_eq!(mem[w(0x6000, 0)], 0x83);
    assert_eq!(mem[w(0x6000, 1)], 0x7000 | 3);
    assert_eq!(mem[w(0x6000, 2)], 0);
    // Page directory: the 2 MiB page, then the copied page table.
    assert_eq!(mem[w(0x7000, 5)], 0x83);
    assert_eq!(mem[w(0x7000, 6)], 0x8000 | 3);
    // Every present page-table entry maps the frame of the directory
    // entry above it.
    assert_eq!(mem[w(0x8000, 0)], 0x4003);
    assert_eq!(mem[w(0x8000, 7)], 0x4003);
    assert_eq!(mem[w(0x8000, 1)], 0);
    // The old tables are untouched.
    assert_eq!(mem[512], 0x2000 | 3);
    assert_eq!(mem[2048], 0x9003);
    for i in 5..9 {
        assert_eq!(pager.phys.get(i), PageUse::Used);
    }
    for i in 9..PAGES {
        assert_eq!(pager.phys.get(i), PageUse::Free);
    }
}

#[test]
fn clone_gives_each_link_its_own_tables() {
    let (mut pager, mut mem) = firmware_tables();
    // A second PML4 entry links to the same PDPT as the first.
    mem[513] = 0x2000 | 3;
    let n = clone_uefi(&mut pager, &mut mem, 0x1000).unwrap();
    let w = |addr: u64, i: usize| (addr / 8) as usize + i;
    assert_eq!(mem[w(n, 0)], 0x6000 | 3);
    assert_eq!(mem[w(n, 1)], 0x9000 | 3);
    assert_eq!(mem[w(0x9000, 1)], 0xA000 | 3);
    assert_eq!(mem[w(0xA000, 6)], 0xB000 | 3);
    assert_eq!(mem[w(0xB000, 7)], 0x4003);
    for i in 5..12 {
        assert_eq!(pager.phys.get(i), PageUse::Used);
    }
    for i in 12..PAGES {
        assert_eq!(pager.phys.get(i), PageUse::Free);
    }
}

#[test]
fn clone_refuses_tables_in_free_pages() {
    let (mut pager, mut mem) = firmware_tables();
    pager.phys.set(3, PageUse::Free);
    let before = mem.clone();
    assert_eq!(clone_uefi(&mut pager, &mut mem, 0x1000), None);
    assert_eq!(mem, before);
    assert_eq!(pager.phys.get(5), PageUse::Free);
}
