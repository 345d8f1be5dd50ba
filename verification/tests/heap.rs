use kernel::mem::heap::{BigBufferVec, BufferEntry, ChunkBufferVec, FreeError, Heap};
use kernel::mem::paging::free::ptr_pages;
use kernel::mem::paging::level4::is_mapped;
use kernel::mem::paging::phy::PhysPageMap;
use kernel::mem::paging::{PageUse, Pager, PagingType};

const PAGES: usize = 64;
const MASK: u64 = 0xF_F000;
const KERNEL_BASE: u64 = 0xFFFF_8000_0000_0000;
const KERNEL_PAGE: u64 = 1 << 35;

fn machine() -> (Pager, Vec<u64>, u64) {
    let mut phys = PhysPageMap::new_all_used(PAGES);
    for i in 1..PAGES {
        phys.set(i, PageUse::Free);
    }
    let mut pager = Pager::new(phys, PagingType::Level4, 20, 48).unwrap();
    let mut mem = vec![0u64; PAGES * 512];
    let pml4 = pager.phys.allocate_page_addr(&mut mem, true).unwrap();
    (pager, mem, pml4)
}

#[test]
fn slots_are_taken_lowest_first() {
    let mut e = BufferEntry::<4> { ptr: 0x10000, usage: 0b0101 };
    assert_eq!(e.take_slot(), Some(0x10000 + 1024));
    assert_eq!(e.usage, 0b0111);
    assert_eq!(e.take_slot(), Some(0x10000 + 3 * 1024));
    assert_eq!(e.usage, 0b1111);
    // All four slots are taken.
    assert_eq!(e.take_slot(), None);
    assert_eq!(e.usage, 0b1111);
}

#[test]
fn a_full_usage_word_refuses_at_once() {
    // For 64 slots the full word wraps to 0.
    let mut e = BufferEntry::<64> { ptr: 0x20000, usage: 0 };
    assert_eq!(e.take_slot(), None);
    let mut e = BufferEntry::<64> { ptr: 0x20000, usage: u64::MAX };
    assert_eq!(e.take_slot(), None);
    let mut e = BufferEntry::<64> { ptr: 0x20000, usage: 1 };
    assert_eq!(e.take_slot(), Some(0x20000 + 64));
}

#[test]
fn releasing_measures_from_the_entry_address_down() {
    let mut e = BufferEntry::<4> { ptr: 0x10000, usage: 0b1111 };
    // The entry's own address is slot 0.
    assert!(e.dealloc(0x10000));
    assert_eq!(e.usage, 0b1110);
    // An address above the entry's does not belong to it.
    assert!(!e.dealloc(0x10000 + 1024));
    assert_eq!(e.usage, 0b1110);
    // 0x10000 - 0xF800 = 0x800: slot 2.
    assert!(e.dealloc(0xF800));
    assert_eq!(e.usage, 0b1010);
    assert!(!e.dealloc(0x10000 - 4096));
}

#[test]
fn new_entry_takes_a_kernel_page() {
    let (mut pager, mut mem, pml4) = machine();
    let (e, p) = BufferEntry::<8>::new(&mut pager, &mut mem, pml4).unwrap();
    assert_eq!(p, KERNEL_BASE);
    assert_eq!(e.ptr, p);
    assert_eq!(e.usage, 1);
    assert!(is_mapped(&mem, pml4, MASK, KERNEL_PAGE));
}

#[test]
fn chunk_buffer_fills_pages_in_order() {
    let (mut pager, mut mem, pml4) = machine();
    let mut v = ChunkBufferVec::<2>::new();
    // The first call takes a page for the table, then one for the entry.
    let a = v.allocate(&mut pager, &mut mem, pml4).unwrap();
    assert_eq!(v.pages, 1);
    assert_eq!(v.capacity, 256);
    assert_eq!(v.table, KERNEL_BASE);
    assert_eq!(a, KERNEL_BASE + 0x1000);
    let b = v.allocate(&mut pager, &mut mem, pml4).unwrap();
    assert_eq!(b, KERNEL_BASE + 0x1000 + 2048);
    // Both slots of that page are taken: a new page follows.
    let c = v.allocate(&mut pager, &mut mem, pml4).unwrap();
    assert_eq!(c, KERNEL_BASE + 0x2000);
    assert_eq!(v.entries.len(), 2);
    assert!(v.dealloc(a));
    assert_eq!(v.entries[0].usage, 0b10);
    // The freed slot is handed out again.
    assert_eq!(v.allocate(&mut pager, &mut mem, pml4), Some(a));
}

#[test]
fn chunk_buffer_does_not_find_later_slots() {
    let (mut pager, mut mem, pml4) = machine();
    let mut v = ChunkBufferVec::<4>::new();
    let _a = v.allocate(&mut pager, &mut mem, pml4).unwrap();
    let b = v.allocate(&mut pager, &mut mem, pml4).unwrap();
    // A slot past the page's first lies above the entry's address, which
    // the release does not look at.
    assert!(!v.dealloc(b));
    assert_eq!(v.entries[0].usage, 0b11);
}

#[test]
fn big_blocks_round_trip() {
    let (mut pager, mut mem, pml4) = machine();
    let mut v = BigBufferVec::new();
    let p = v.allocate(3, &mut pager, &mut mem, pml4).unwrap();
    // One page for the table, then the block.
    assert_eq!(v.table, KERNEL_BASE);
    assert_eq!(p, KERNEL_BASE + 0x1000);
    assert_eq!(v.entries.len(), 1);
    assert_eq!(v.entries[0].start as u64, p);
    assert_eq!(v.entries[0].size, 3 * 4096);
    for i in 1..4 {
        assert!(is_mapped(&mem, pml4, MASK, KERNEL_PAGE + i));
    }
    assert_eq!(v.dealloc(p, 2, &mut pager, &mut mem, pml4), Err(FreeError::WrongSize));
    assert_eq!(v.dealloc(p + 4096, 3, &mut pager, &mut mem, pml4), Err(FreeError::NotAllocated));
    assert_eq!(v.dealloc(p, 3, &mut pager, &mut mem, pml4), Ok(()));
    assert_eq!(v.entries.len(), 0);
    for i in 1..4 {
        assert!(!is_mapped(&mem, pml4, MASK, KERNEL_PAGE + i));
    }
    assert_eq!(v.dealloc(p, 3, &mut pager, &mut mem, pml4), Err(FreeError::NotAllocated));
}

#[test]
fn big_block_records_move_on_removal() {
    let (mut pager, mut mem, pml4) = machine();
    let mut v = BigBufferVec::new();
    let p = v.allocate(1, &mut pager, &mut mem, pml4).unwrap();
    let q = v.allocate(1, &mut pager, &mut mem, pml4).unwrap();
    let r = v.allocate(1, &mut pager, &mut mem, pml4).unwrap();
    assert_eq!(v.dealloc(p, 1, &mut pager, &mut mem, pml4), Ok(()));
    // The last record takes the freed one's place.
    assert_eq!(v.entries[0].start as u64, r);
    assert_eq!(v.entries[1].start as u64, q);
}

#[test]
fn block_pages_round_up() {
    assert_eq!(Heap::block_pages(0), 0);
    assert_eq!(Heap::block_pages(1), 1);
    assert_eq!(Heap::block_pages(4096), 1);
    assert_eq!(Heap::block_pages(4097), 2);
    assert_eq!(Heap::block_pages(usize::MAX), (usize::MAX / 4096 + 1) as u64);
}

#[test]
fn heap_dispatches_by_size() {
    let (mut pager, mut mem, pml4) = machine();
    let mut heap = Heap::new();
    let small = heap.allocate(0, &mut pager, &mut mem, pml4).unwrap();
    assert_eq!(heap.b64.entries.len(), 1);
    let mid = heap.allocate(300, &mut pager, &mut mem, pml4).unwrap();
    assert_eq!(heap.b512.entries.len(), 1);
    let big = heap.allocate(2049, &mut pager, &mut mem, pml4).unwrap();
    assert_eq!(heap.big.entries.len(), 1);
    assert_eq!(heap.big.entries[0].size, 4096);
    assert_eq!(heap.b128.entries.len(), 0);
    assert_ne!(small, mid);
    assert_eq!(heap.dealloc(small, 64, &mut pager, &mut mem, pml4), Ok(()));
    assert_eq!(heap.b64.entries[0].usage, 0);
    // Freed with the size of another class: not found there.
    assert_eq!(heap.dealloc(mid, 100, &mut pager, &mut mem, pml4), Err(FreeError::NotAllocated));
    assert_eq!(heap.dealloc(mid, 512, &mut pager, &mut mem, pml4), Ok(()));
    assert_eq!(heap.dealloc(big, 4000, &mut pager, &mut mem, pml4), Ok(()));
    assert_eq!(heap.big.entries.len(), 0);
}

#[test]
fn heap_size_classes() {
    let (mut pager, mut mem, pml4) = machine();
    let mut heap = Heap::new();
    for size in [64usize, 65, 128, 129, 256, 257, 512, 513, 1024, 1025, 2048] {
        heap.allocate(size, &mut pager, &mut mem, pml4).unwrap();
    }
    assert_eq!(heap.b64.entries.len(), 1);
    assert_eq!(heap.b128.entries[0].usage, 0b11);
    assert_eq!(heap.b256.entries[0].usage, 0b11);
    assert_eq!(heap.b512.entries[0].usage, 0b11);
    assert_eq!(heap.b1024.entries[0].usage, 0b11);
    assert_eq!(heap.b2048.entries[0].usage, 0b11);
    assert_eq!(heap.big.entries.len(), 0);
}

#[test]
fn heap_runs_out_of_pages() {
    let (mut pager, mut mem, pml4) = machine();
    let mut heap = Heap::new();
    assert_eq!(heap.allocate(200 * 4096, &mut pager, &mut mem, pml4), None);
    assert_eq!(heap.big.entries.len(), 0);
}

#[test]
fn freeing_a_block_whose_pages_are_gone() {
    let (mut pager, mut mem, pml4) = machine();
    let mut v = BigBufferVec::new();
    let p = v.allocate(2, &mut pager, &mut mem, pml4).unwrap();
    assert_eq!(ptr_pages(&mut pager, &mut mem, p, 2, pml4), Ok(()));
    assert_eq!(v.dealloc(p, 2, &mut pager, &mut mem, pml4), Err(FreeError::Unmapped(KERNEL_PAGE + 1)));
    // The record stays when the pages cannot be freed.
    assert_eq!(v.entries.len(), 1);
}
