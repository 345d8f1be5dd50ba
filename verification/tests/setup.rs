use kernel::mem::paging::clone_tables::clear_lower_half;
use kernel::mem::paging::init::{
    address_masks, apply_memory_map, classify, gdt, gdt_pointer, memory_size, next_map_pages,
    page_use_table_pages, paging_type, post_exit_setup, reclaim_loader_pages, to_high_mask, total_pages,
    MemDescriptor, SetupError, UEFIMemData, BOOT_SERVICES_DATA, CONVENTIONAL_MEMORY, LOADER_DATA,
    MEMORY_MAPPED_IO, RESERVED_MEMORY_TYPE, RUNTIME_SERVICES_CODE,
};
use kernel::mem::paging::level4::is_mapped;
use kernel::mem::paging::phy::PhysPageMap;
use kernel::mem::paging::{PageUse, PagingType};

fn desc(mem_type: u32, physical_start: u64, number_of_pages: u64) -> MemDescriptor {
    MemDescriptor { mem_type, physical_start, number_of_pages }
}

#[test]
fn memory_types() {
    assert_eq!(classify(CONVENTIONAL_MEMORY), PageUse::Free);
    assert_eq!(classify(14), PageUse::Free);
    assert_eq!(classify(LOADER_DATA), PageUse::Used);
    assert_eq!(classify(RESERVED_MEMORY_TYPE), PageUse::Invalid);
    assert_eq!(classify(MEMORY_MAPPED_IO), PageUse::Invalid);
    assert_eq!(classify(BOOT_SERVICES_DATA), PageUse::Loader);
    assert_eq!(classify(RUNTIME_SERVICES_CODE), PageUse::Loader);
    assert_eq!(classify(16), PageUse::Unknown);
    assert_eq!(classify(0x7000_0000), PageUse::Unknown);
}

#[test]
fn memory_size_skips_reserved_and_mmio() {
    let data = UEFIMemData::new(vec![
        desc(CONVENTIONAL_MEMORY, 0x1000, 15),
        desc(MEMORY_MAPPED_IO, 0xFEE0_0000, 1),
        desc(BOOT_SERVICES_DATA, 0x10_0000, 0x100),
        desc(RESERVED_MEMORY_TYPE, 0x8000_0000, 16),
        desc(LOADER_DATA, 0x2000, 1),
    ]);
    assert_eq!(memory_size(&data), 0x20_0000);
    assert_eq!(memory_size(&UEFIMemData::new(vec![])), 0);
    assert_eq!(data.len(), 5);
    assert_eq!(data.get(1).mem_type, MEMORY_MAPPED_IO);
}

#[test]
fn page_counts() {
    assert_eq!(total_pages(512 << 20), 131072);
    assert_eq!(total_pages(4095), 0);
    assert_eq!(page_use_table_pages(131072), 32);
    assert_eq!(page_use_table_pages(131073), 33);
    assert_eq!(next_map_pages(4096), 2);
    assert_eq!(next_map_pages(4097), 3);
    assert_eq!(next_map_pages(0), 1);
    assert_eq!(UEFIMemData::descriptor_count(4800, 48), 100);
    assert_eq!(UEFIMemData::descriptor_count(4799, 48), 99);
}

#[test]
fn memory_map_sets_page_uses() {
    let mut phys = PhysPageMap::new_all_used(16);
    let data = UEFIMemData::new(vec![
        desc(CONVENTIONAL_MEMORY, 0, 8),
        desc(BOOT_SERVICES_DATA, 0x6000, 4),
        // Reaches past the end of the map: cut at its end.
        desc(MEMORY_MAPPED_IO, 0xE000, 100),
    ]);
    apply_memory_map(&mut phys, &data);
    assert_eq!(phys.get(0), PageUse::Null);
    for i in 1..6 {
        assert_eq!(phys.get(i), PageUse::Free);
    }
    for i in 6..10 {
        assert_eq!(phys.get(i), PageUse::Loader);
    }
    for i in 10..14 {
        assert_eq!(phys.get(i), PageUse::Used);
    }
    for i in 14..16 {
        assert_eq!(phys.get(i), PageUse::Invalid);
    }
    assert_eq!(phys.free_count(), 5);
    assert_eq!(reclaim_loader_pages(&mut phys), 4);
    for i in 6..10 {
        assert_eq!(phys.get(i), PageUse::Free);
    }
    assert_eq!(phys.free_count(), 9);
    assert_eq!(reclaim_loader_pages(&mut phys), 0);
}

#[test]
fn masks_from_cpuid() {
    assert_eq!(address_masks(0x3024), (0xF_FFFF_F000, 0xFFFF_FFFF_FFFF));
    assert_eq!(address_masks(0x3027), (0x7F_FFFF_F000, 0xFFFF_FFFF_FFFF));
    assert_eq!(to_high_mask(48), 0xFFFF_8000_0000_0000);
    assert_eq!(to_high_mask(57), 0xFF00_0000_0000_0000);
    assert_eq!(paging_type(0), PagingType::Level4);
    assert_eq!(paging_type(1 << 12), PagingType::Level5);
    assert_eq!(paging_type(0xFFFF_EFFF), PagingType::Level4);
}

#[test]
fn descriptor_table() {
    let table = gdt();
    assert_eq!(table[0], 0);
    assert_eq!(table[1], 0x00AF_9A00_0000_FFFF);
    assert_eq!(table[2], 0x00CF_9200_0000_FFFF);
    assert_eq!(table[3], 0x00AF_FA00_0000_FFFF);
    assert_eq!(table[4], 0x00CF_F200_0000_FFFF);
    let p = gdt_pointer(0x1234);
    let limit = p.limit;
    let ptr = p.ptr;
    assert_eq!(limit, 39);
    assert_eq!(ptr, 0x1234);
}

/// 64 pages: the firmware's tables in pages 1 to 4 (boot-services data),
/// conventional memory from page 5 on. The old PML4 maps one PDPT whose
/// first entry is a 1 GiB page.
fn firmware() -> (PhysPageMap, UEFIMemData, Vec<u64>) {
    let phys = PhysPageMap::new_all_used(64);
    let data = UEFIMemData::new(vec![
        desc(BOOT_SERVICES_DATA, 0x1000, 4),
        desc(CONVENTIONAL_MEMORY, 0x5000, 59),
    ]);
    let mut mem = vec![0u64; 64 * 512];
    mem[512] = 0x2000 | 3;
    mem[1024] = 0x83;
    (phys, data, mem)
}

#[test]
fn setup_copies_tables_and_maps_a_stack() {
    let (phys, data, mut mem) = firmware();
    let (pager, cr3, top) = post_exit_setup(phys, &data, 0x3014, 0x1000, 0, &mut mem).unwrap();
    assert_eq!(cr3, 0x5000);
    assert_eq!(pager.phy_page_mask, 0xF_F000);
    assert_eq!(pager.to_high_mask, 0xFFFF_8000_0000_0000);
    assert_eq!(pager.paging_type, PagingType::Level4);
    assert_eq!(pager.phys.get(0), PageUse::Null);
    assert_eq!(pager.phys.get(2), PageUse::Loader);
    // The upper half repeats the lower: its first GiB is the large page,
    // so the stack goes right after it.
    assert_eq!(mem[(0x5000 / 8) + 256], mem[0x5000 / 8]);
    assert_eq!(top, 0xFFFF_8000_4001_0000);
    let first = (1u64 << 35) + (1 << 18);
    for page in first..first + 16 {
        assert!(is_mapped(&mem, cr3, 0xF_F000, page));
    }
    assert!(!is_mapped(&mem, cr3, 0xF_F000, first + 16));
    // The old tables are untouched.
    assert_eq!(mem[512], 0x2000 | 3);
}

#[test]
fn setup_errors() {
    let (phys, data, mut mem) = firmware();
    assert_eq!(post_exit_setup(phys, &data, 0x3000, 0x1000, 0, &mut mem).err(), Some(SetupError::AddressWidths));
    let (phys, data, mut mem) = firmware();
    assert_eq!(post_exit_setup(phys, &data, 0x3014, 0x1000, 1 << 12, &mut mem).err(), Some(SetupError::FiveLevelPaging));
    let (phys, data, mut mem) = firmware();
    // The old PML4 in a free page.
    assert_eq!(post_exit_setup(phys, &data, 0x3014, 0x6000, 0, &mut mem).err(), Some(SetupError::TablesNotCopied));
    let (phys, data, mut mem) = firmware();
    assert_eq!(post_exit_setup(phys, &data, 0x2714, 0x1000, 0, &mut mem).err(), Some(SetupError::LinearWidth));
}

#[test]
fn lower_half_cleared() {
    let mut mem = vec![7u64; 3 * 512];
    clear_lower_half(&mut mem, 0x1000);
    assert!(mem[512..768].iter().all(|&w| w == 0));
    assert!(mem[768..1024].iter().all(|&w| w == 7));
    assert_eq!(mem[511], 7);
    assert_eq!(mem[1024], 7);
}

#[test]
fn setup_runs_out_of_pages_for_the_stack() {
    let phys = PhysPageMap::new_all_used(64);
    let data = UEFIMemData::new(vec![
        desc(BOOT_SERVICES_DATA, 0x1000, 4),
        desc(CONVENTIONAL_MEMORY, 0x5000, 6),
    ]);
    let mut mem = vec![0u64; 64 * 512];
    mem[512] = 0x2000 | 3;
    mem[1024] = 0x83;
    assert_eq!(post_exit_setup(phys, &data, 0x3014, 0x1000, 0, &mut mem).err(), Some(SetupError::OutOfMemory));
}
