use kernel::mem::paging::init::{MemDescriptor, UEFIMemData, CONVENTIONAL_MEMORY, MEMORY_MAPPED_IO};
use kernel::mem::paging::level4::{is_mapped, leaf_frame};
use kernel::mem::paging::mmio::{alloc_io, free, PhysRanges};
use kernel::mem::paging::phy::PhysPageMap;
use kernel::mem::paging::{PageUse, Pager, PagingType};
use kernel::mem::MemPageBuffer;

fn desc(mem_type: u32, physical_start: u64, number_of_pages: u64) -> MemDescriptor {
    MemDescriptor { mem_type, physical_start, number_of_pages }
}

fn starts_and_lengths(r: &PhysRanges) -> Vec<(usize, usize)> {
    r.ranges().iter().map(|b| (b.start, b.pages)).collect()
}

#[test]
fn page_buffers() {
    let b = MemPageBuffer::new(5, 3);
    assert_eq!(b.start, 5);
    assert_eq!(b.pages, 3);
    assert_eq!(b.exclusive_end(), 8);
    assert_eq!(b.inclusive_end(), 7);
}

#[test]
fn ranges_cover_ram_and_io_beyond_it() {
    let data = UEFIMemData::new(vec![
        desc(MEMORY_MAPPED_IO, 512 * 4096, 16),
        // Inside RAM: not a range of its own.
        desc(CONVENTIONAL_MEMORY, 50 * 4096, 10),
        // Touching the end of RAM: merged with it.
        desc(MEMORY_MAPPED_IO, 100 * 4096, 4),
        desc(MEMORY_MAPPED_IO, 520 * 4096, 1),
    ]);
    let r = PhysRanges::init(100, &data);
    assert_eq!(starts_and_lengths(&r), vec![(0, 104), (512, 16)]);
}

#[test]
fn reserve_at_the_first_gap_and_release() {
    let data = UEFIMemData::new(vec![desc(MEMORY_MAPPED_IO, 512 * 4096, 16)]);
    let mut r = PhysRanges::init(100, &data);
    assert_eq!(r.alloc_phy(10, None, 1 << 20), Some(100 * 4096));
    assert_eq!(starts_and_lengths(&r), vec![(0, 100), (100, 10), (512, 16)]);
    // The next gap that holds 500 pages is after the last range.
    assert_eq!(r.alloc_phy(500, None, 1 << 20), Some(528 * 4096));
    assert_eq!(r.free_phy(100), Some(10));
    assert_eq!(starts_and_lengths(&r), vec![(0, 100), (512, 16), (528, 500)]);
    assert_eq!(r.free_phy(100), None);
    // Past the limit there is no room.
    assert_eq!(r.alloc_phy(2000, None, 2000), None);
}

#[test]
fn reserve_at_an_address() {
    let data = UEFIMemData::new(vec![desc(MEMORY_MAPPED_IO, 512 * 4096, 16)]);
    let mut r = PhysRanges::init(100, &data);
    assert_eq!(r.alloc_phy(4, Some(200 * 4096), 1 << 20), Some(200 * 4096));
    assert_eq!(starts_and_lengths(&r), vec![(0, 100), (200, 4), (512, 16)]);
    // Overlapping a reserved range.
    assert_eq!(r.alloc_phy(4, Some(98 * 4096), 1 << 20), None);
    assert_eq!(r.alloc_phy(20, Some(500 * 4096), 1 << 20), None);
    assert_eq!(r.alloc_phy(2, Some(202 * 4096), 1 << 20), None);
    // Ending at the limit.
    assert_eq!(r.alloc_phy(4, Some(1000 * 4096), 1004), None);
    assert_eq!(r.alloc_phy(4, Some(1000 * 4096), 1005), Some(1000 * 4096));
}

#[test]
fn io_windows_are_mapped_and_unmapped() {
    let mut phys = PhysPageMap::new_all_used(64);
    for i in 1..64 {
        phys.set(i, PageUse::Free);
    }
    let mut pager = Pager::new(phys, PagingType::Level4, 20, 48).unwrap();
    let mut mem = vec![0u64; 64 * 512];
    let pml4 = pager.phys.allocate_page_addr(&mut mem, true).unwrap();
    let data = UEFIMemData::new(vec![desc(MEMORY_MAPPED_IO, 0xF0000, 2)]);
    let mut ranges = PhysRanges::init(64, &data);
    let (lin, phy) = alloc_io(&mut pager, &mut ranges, &mut mem, 2, true, pml4, None).unwrap();
    assert_eq!(lin, 0xFFFF_8000_0000_0000);
    assert_eq!(phy, 64 * 4096);
    let page = 1u64 << 35;
    assert_eq!(leaf_frame(&mem, pml4, 0xF_F000, page), 64);
    assert_eq!(leaf_frame(&mem, pml4, 0xF_F000, page + 1), 65);
    // At a given address.
    let (lin2, phy2) = alloc_io(&mut pager, &mut ranges, &mut mem, 1, false, pml4, Some(0x80000)).unwrap();
    assert_eq!((lin2, phy2), (0, 0x80000));
    assert_eq!(alloc_io(&mut pager, &mut ranges, &mut mem, 1, false, pml4, Some(0x80000)), None);
    // The range is found by its first page; the pages by their index.
    assert_eq!(free(&pager, &mut ranges, &mut mem, page, 64, pml4), Ok(()));
    assert!(!is_mapped(&mem, pml4, 0xF_F000, page));
    assert!(!is_mapped(&mem, pml4, 0xF_F000, page + 1));
    assert_eq!(free(&pager, &mut ranges, &mut mem, page, 64, pml4), Err(None));
    assert_eq!(free(&pager, &mut ranges, &mut mem, 5, 128, pml4), Err(Some(5)));
}

#[test]
fn release_undoes_reserve() {
    let data = UEFIMemData::new(vec![desc(MEMORY_MAPPED_IO, 512 * 4096, 16)]);
    let mut r = PhysRanges::init(100, &data);
    let before = starts_and_lengths(&r);
    let a = r.alloc_phy(7, None, 1 << 20).unwrap();
    assert_eq!(r.free_phy(a / 4096), Some(7));
    assert_eq!(starts_and_lengths(&r), before);
    let b = r.alloc_phy(3, Some(300 * 4096), 1 << 20).unwrap();
    assert_eq!(r.free_phy(b / 4096), Some(3));
    assert_eq!(starts_and_lengths(&r), before);
}
