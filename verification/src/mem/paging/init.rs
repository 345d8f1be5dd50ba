//! Setting up physical memory bookkeeping from the firmware's memory map.

use vstd::prelude::*;
use super::{PageUse, Pager, PagingType, phy_page_mask_for};
use super::phy::{PhysPageMap, count_use};
use super::allocate::{alloc_inv, alloc_pages, alloc_ready, entry_flags, fresh_mapping, taken_for_run};
use super::clone_tables::{clone_size, clone_uefi, kept, pml4_cloned, pml4_safe};
use super::level4::{canonical, lin_hole, mapped, only_taken};
use crate::utils::DescTablePtr;

verus! {

pub const RESERVED_MEMORY_TYPE: u32 = 0;
pub const LOADER_CODE: u32 = 1;
pub const LOADER_DATA: u32 = 2;
pub const BOOT_SERVICES_CODE: u32 = 3;
pub const BOOT_SERVICES_DATA: u32 = 4;
pub const RUNTIME_SERVICES_CODE: u32 = 5;
pub const RUNTIME_SERVICES_DATA: u32 = 6;
pub const CONVENTIONAL_MEMORY: u32 = 7;
pub const UNUSABLE_MEMORY: u32 = 8;
pub const ACPI_RECLAIM_MEMORY: u32 = 9;
pub const ACPI_MEMORY_NVS: u32 = 10;
pub const MEMORY_MAPPED_IO: u32 = 11;
pub const MEMORY_MAPPED_IO_PORT_SPACE: u32 = 12;
pub const PAL_CODE: u32 = 13;
pub const PERSISTENT_MEMORY: u32 = 14;
pub const UNACCEPTED_MEMORY_TYPE: u32 = 15;

/// What the kernel reads of a firmware memory descriptor.
#[derive(Clone, Copy)]
pub struct MemDescriptor {
    pub mem_type: u32,
    pub physical_start: u64,
    pub number_of_pages: u64,
}

/// The descriptors of the firmware's memory map.
pub struct UEFIMemData {
    descs: Vec<MemDescriptor>,
}

impl View for UEFIMemData {
    type V = Seq<MemDescriptor>;

    closed spec fn view(&self) -> Seq<MemDescriptor> {
        self.descs@
    }
}

impl UEFIMemData {
    pub fn new(descs: Vec<MemDescriptor>) -> (r: Self)
        ensures
            r@ == descs@,
    {
        UEFIMemData { descs }
    }

    /// The number of descriptors in a map of `buffer_size` bytes whose
    /// descriptors are `desc_size` bytes apart.
    pub fn descriptor_count(buffer_size: usize, desc_size: usize) -> (r: usize)
        requires
            desc_size > 0,
        ensures
            r == buffer_size / desc_size,
    {
        buffer_size / desc_size
    }

    /// Descriptor `i`.
    pub fn get(&self, i: usize) -> (r: MemDescriptor)
        requires
            i < self@.len(),
        ensures
            r == self@[i as int],
    {
        self.descs[i]
    }

    pub fn len(&self) -> (r: usize)
        ensures
            r == self@.len(),
    {
        self.descs.len()
    }
}

/// The page use the kernel gives memory of firmware type `t`.
pub open spec fn classify_spec(t: u32) -> PageUse {
    if t == CONVENTIONAL_MEMORY || t == PERSISTENT_MEMORY {
        PageUse::Free
    } else if t == LOADER_CODE || t == LOADER_DATA {
        PageUse::Used
    } else if t == RESERVED_MEMORY_TYPE || t == UNUSABLE_MEMORY || t == UNACCEPTED_MEMORY_TYPE || t
        == ACPI_RECLAIM_MEMORY || t == ACPI_MEMORY_NVS || t == MEMORY_MAPPED_IO || t
        == MEMORY_MAPPED_IO_PORT_SPACE || t == PAL_CODE {
        PageUse::Invalid
    } else if t == BOOT_SERVICES_CODE || t == BOOT_SERVICES_DATA || t == RUNTIME_SERVICES_CODE || t
        == RUNTIME_SERVICES_DATA {
        PageUse::Loader
    } else {
        PageUse::Unknown
    }
}

/// The page use for memory of firmware type `t`.
pub fn classify(t: u32) -> (r: PageUse)
    ensures
        r == classify_spec(t),
{
    match t {
        CONVENTIONAL_MEMORY | PERSISTENT_MEMORY => PageUse::Free,
        LOADER_CODE | LOADER_DATA => PageUse::Used,
        RESERVED_MEMORY_TYPE | UNUSABLE_MEMORY | UNACCEPTED_MEMORY_TYPE | ACPI_RECLAIM_MEMORY
        | ACPI_MEMORY_NVS | MEMORY_MAPPED_IO | MEMORY_MAPPED_IO_PORT_SPACE | PAL_CODE => PageUse::Invalid,
        BOOT_SERVICES_CODE | BOOT_SERVICES_DATA | RUNTIME_SERVICES_CODE | RUNTIME_SERVICES_DATA => {
            PageUse::Loader
        },
        _ => PageUse::Unknown,
    }
}

/// The use each firmware memory type gets, by its number: conventional
/// (7) and persistent (14) memory is free; the loader's code and data (1,
/// 2), the kernel's own image, stay in use and are never reclaimed; only
/// boot- and runtime-services code and data (3 to 6) become reclaimable
/// loader pages; reserved (0), unusable (8), ACPI (9, 10), I/O (11, 12),
/// PAL code (13) and unaccepted (15) memory is invalid; any other type is
/// unknown.
pub proof fn lemma_classify_table(t: u32)
    ensures
        (classify_spec(t) == PageUse::Free) == (t == 7 || t == 14),
        (classify_spec(t) == PageUse::Used) == (t == 1 || t == 2),
        (classify_spec(t) == PageUse::Loader) == (3 <= t <= 6),
        (classify_spec(t) == PageUse::Invalid) == (t == 0 || 8 <= t <= 13 || t == 15),
        (classify_spec(t) == PageUse::Unknown) == (t > 15),
{
}

/// The descriptor counts towards the size of memory: it is neither
/// reserved nor memory-mapped I/O.
pub open spec fn counts_as_ram(d: MemDescriptor) -> bool {
    d.mem_type != RESERVED_MEMORY_TYPE && d.mem_type != MEMORY_MAPPED_IO
}

/// The first byte after the descriptor's memory.
pub open spec fn desc_end(d: MemDescriptor) -> int {
    d.number_of_pages * 4096 + d.physical_start
}

/// The largest end of a descriptor counted as memory, 0 when there is none.
pub open spec fn memory_size_spec(descs: Seq<MemDescriptor>) -> int
    decreases descs.len(),
{
    if descs.len() == 0 {
        0
    } else {
        let rest = memory_size_spec(descs.drop_last());
        let d = descs.last();
        if counts_as_ram(d) && desc_end(d) > rest {
            desc_end(d)
        } else {
            rest
        }
    }
}

/// The size of memory in bytes: the highest end address of the descriptors
/// that are neither reserved nor memory-mapped I/O.
pub fn memory_size(data: &UEFIMemData) -> (r: u64)
    requires
        forall|i: int|
            0 <= i < data@.len() && counts_as_ram(#[trigger] data@[i]) ==> desc_end(data@[i])
                <= u64::MAX,
    ensures
        r == memory_size_spec(data@),
{
    let mut mem_size: u64 = 0;
    let mut i: usize = 0;
    while i < data.descs.len()
        invariant
            0 <= i <= data@.len(),
            mem_size == memory_size_spec(data@.subrange(0, i as int)),
            forall|j: int|
                0 <= j < data@.len() && counts_as_ram(#[trigger] data@[j]) ==> desc_end(data@[j])
                    <= u64::MAX,
        decreases data@.len() - i,
    {
        let desc = data.descs[i];
        assert(data@.subrange(0, i + 1).drop_last() =~= data@.subrange(0, i as int));
        if desc.mem_type != RESERVED_MEMORY_TYPE && desc.mem_type != MEMORY_MAPPED_IO {
            assert(desc_end(data@[i as int]) <= u64::MAX);
            let end = desc.number_of_pages * 4096 + desc.physical_start;
            if end > mem_size {
                mem_size = end;
            }
        }
        i = i + 1;
    }
    assert(data@.subrange(0, data@.len() as int) =~= data@);
    mem_size
}

/// Pages of physical memory for a memory size in bytes.
pub fn total_pages(mem_size: u64) -> (r: u64)
    ensures
        r == mem_size / 4096,
{
    mem_size / 4096
}

/// Pages needed for a table of one byte per physical page.
pub fn page_use_table_pages(total_pages: usize) -> (r: usize)
    requires
        total_pages + 0xFFF <= usize::MAX,
    ensures
        r == (total_pages + 0xFFF) / 4096,
{
    (total_pages + 0xFFF) / 4096
}

/// Pages to ask for when a memory-map buffer proved too small for
/// `memory_map_size` bytes: enough for that size, rounded up, plus one.
pub fn next_map_pages(memory_map_size: usize) -> (r: usize)
    requires
        memory_map_size + 0x1FFF <= usize::MAX,
    ensures
        r == (memory_map_size + 0x1FFF) / 4096,
{
    (memory_map_size + 0x1FFF) / 4096
}

/// `s` with pages `[start, start + n)` that exist set to `u`.
pub open spec fn set_range_clamped(s: Seq<PageUse>, start: int, n: int, u: PageUse) -> Seq<PageUse> {
    Seq::new(s.len(), |j: int| if start <= j < start + n { u } else { s[j] })
}

/// The first page of a descriptor.
pub open spec fn desc_first_page(d: MemDescriptor) -> int {
    d.physical_start as int / 4096
}

/// Page uses after applying the descriptors in order, each one setting
/// the pages it covers to the use of its type.
pub open spec fn apply_descs(s: Seq<PageUse>, descs: Seq<MemDescriptor>) -> Seq<PageUse>
    decreases descs.len(),
{
    if descs.len() == 0 {
        s
    } else {
        let d = descs.last();
        set_range_clamped(
            apply_descs(s, descs.drop_last()),
            desc_first_page(d),
            d.number_of_pages as int,
            classify_spec(d.mem_type),
        )
    }
}

/// Applying descriptors keeps the number of pages.
pub proof fn lemma_apply_len(s: Seq<PageUse>, descs: Seq<MemDescriptor>)
    ensures
        apply_descs(s, descs).len() == s.len(),
    decreases descs.len(),
{
    if descs.len() > 0 {
        lemma_apply_len(s, descs.drop_last());
    }
}

/// Sets the use of every page a descriptor covers from its type, in the
/// order of the map, then marks page 0 as the null page.
pub fn apply_memory_map(phys: &mut PhysPageMap, data: &UEFIMemData)
    requires
        old(phys).wf(),
        old(phys)@.len() > 0,
        forall|i: int|
            0 <= i < data@.len() ==> desc_first_page(#[trigger] data@[i]) + data@[i].number_of_pages
                <= usize::MAX,
    ensures
        final(phys).wf(),
        final(phys)@ == apply_descs(old(phys)@, data@).update(0, PageUse::Null),
        final(phys).search_index() == old(phys).search_index(),
{
    let total = phys.len();
    let mut i: usize = 0;
    while i < data.descs.len()
        invariant
            0 <= i <= data@.len(),
            phys.wf(),
            phys@.len() == total,
            total > 0,
            phys.search_index() == old(phys).search_index(),
            phys@ == apply_descs(old(phys)@, data@.subrange(0, i as int)),
            forall|k: int|
                0 <= k < data@.len() ==> desc_first_page(#[trigger] data@[k]) + data@[k].number_of_pages
                    <= usize::MAX,
        decreases data@.len() - i,
    {
        let desc = data.descs[i];
        let usage = classify(desc.mem_type);
        assert(desc_first_page(data@[i as int]) + data@[i as int].number_of_pages <= usize::MAX);
        let start = (desc.physical_start / 4096) as usize;
        let end_raw = start + desc.number_of_pages as usize;
        let end = if end_raw < total { end_raw } else { total };
        let ghost before = phys@;
        if start < end {
            let mut j: usize = start;
            while j < end
                invariant
                    start <= j <= end <= total,
                    phys.wf(),
                    phys@.len() == total,
                    phys.search_index() == old(phys).search_index(),
                    forall|k: int|
                        0 <= k < total ==> #[trigger] phys@[k] == if start <= k < j {
                            usage
                        } else {
                            before[k]
                        },
                decreases end - j,
            {
                phys.set(j, usage);
                j = j + 1;
            }
        }
        proof {
            assert(data@.subrange(0, i + 1).drop_last() =~= data@.subrange(0, i as int));
            assert(phys@ =~= set_range_clamped(
                before,
                desc_first_page(desc),
                desc.number_of_pages as int,
                classify_spec(desc.mem_type),
            ));
        }
        i = i + 1;
    }
    assert(data@.subrange(0, data@.len() as int) =~= data@);
    phys.set(0, PageUse::Null);
}

/// Marks every page the firmware's loader services used as free and
/// returns how many there were.
pub fn reclaim_loader_pages(phys: &mut PhysPageMap) -> (r: usize)
    requires
        old(phys).wf(),
    ensures
        final(phys).wf(),
        r == count_use(old(phys)@, PageUse::Loader),
        final(phys)@ == old(phys)@.map_values(
            |u: PageUse| if u == PageUse::Loader { PageUse::Free } else { u },
        ),
        final(phys).search_index() == old(phys).search_index(),
{
    let total = phys.len();
    let mut freed: usize = 0;
    let mut page: usize = 0;
    while page < total
        invariant
            0 <= page <= total,
            total == old(phys)@.len(),
            phys.wf(),
            phys@.len() == total,
            phys.search_index() == old(phys).search_index(),
            freed == count_use(old(phys)@.subrange(0, page as int), PageUse::Loader),
            freed <= page,
            forall|k: int|
                0 <= k < total ==> #[trigger] phys@[k] == if k < page && old(phys)@[k]
                    == PageUse::Loader {
                    PageUse::Free
                } else {
                    old(phys)@[k]
                },
        decreases total - page,
    {
        assert(old(phys)@.subrange(0, page + 1).drop_last() =~= old(phys)@.subrange(0, page as int));
        if phys.get(page) == PageUse::Loader {
            freed = freed + 1;
            phys.set(page, PageUse::Free);
        }
        page = page + 1;
    }
    assert(old(phys)@.subrange(0, total as int) =~= old(phys)@);
    assert(phys@ =~= old(phys)@.map_values(
        |u: PageUse| if u == PageUse::Loader { PageUse::Free } else { u },
    ));
    freed
}

/// `((1 << bits) - 1) & !0xFFF`: the physical page mask for `bits`
/// physical address bits.
pub open spec fn phy_page_mask_spec(bits: u64) -> u64 {
    (((1u64 << bits) - 1) as u64) & !0xFFFu64
}

/// The physical page mask and the linear address mask from the `eax`
/// that CPUID leaf 0x8000_0008 returns (bits 0..8: physical address
/// width, bits 8..16: linear address width).
pub fn address_masks(eax: u32) -> (r: (u64, u64))
    requires
        1 <= (eax & 0xFF) < 64,
        1 <= ((eax >> 8u32) & 0xFF) < 64,
    ensures
        r.0 == phy_page_mask_spec((eax & 0xFF) as u64),
        r.1 == ((1u64 << (((eax >> 8u32) & 0xFF) as u64)) - 1) as u64,
{
    let phy_addr_bits = (eax & 0xFF) as u64;
    let lin_addr_bits = ((eax >> 8) & 0xFF) as u64;
    assert(1u64 << phy_addr_bits >= 1) by (bit_vector)
        requires phy_addr_bits < 64;
    assert(1u64 << lin_addr_bits >= 1) by (bit_vector)
        requires lin_addr_bits < 64;
    (((1u64 << phy_addr_bits) - 1) & !0xFFF, (1u64 << lin_addr_bits) - 1)
}

/// The mask that moves an address into the upper half of a
/// `lin_addr_bits`-bit linear address space: all bits from
/// `lin_addr_bits - 1` up.
pub fn to_high_mask(lin_addr_bits: u64) -> (r: u64)
    requires
        1 <= lin_addr_bits <= 64,
    ensures
        r == !(((1u64 << ((lin_addr_bits - 1) as u64)) - 1) as u64),
{
    let shift = lin_addr_bits - 1;
    assert(1u64 << shift >= 1) by (bit_vector)
        requires shift < 64;
    !((1u64 << shift) - 1)
}

/// The global descriptor table: null, kernel code, kernel data, user code,
/// user data.
pub fn gdt() -> (r: [u64; 5])
    ensures
        r@ == seq![
            0x0000_0000_0000_0000u64,
            0x00AF_9A00_0000_FFFFu64,
            0x00CF_9200_0000_FFFFu64,
            0x00AF_FA00_0000_FFFFu64,
            0x00CF_F200_0000_FFFFu64,
        ],
{
    [
        0x0000_0000_0000_0000,
        0x00AF_9A00_0000_FFFF,
        0x00CF_9200_0000_FFFF,
        0x00AF_FA00_0000_FFFF,
        0x00CF_F200_0000_FFFF,
    ]
}

/// The `lgdt` operand for the table of `gdt()` at `ptr`.
pub fn gdt_pointer(ptr: usize) -> (r: DescTablePtr)
    ensures
        r.limit == 39,
        r.ptr == ptr,
{
    DescTablePtr { limit: (5 * 8 - 1) as u16, ptr }
}


/// The paging mode that CR4 selects: five levels when LA57 (bit 12) is
/// set.
pub fn paging_type(cr4: u64) -> (r: PagingType)
    ensures
        r == (if (cr4 >> 12u64) & 1 == 0 {
            PagingType::Level4
        } else {
            PagingType::Level5
        }),
{
    if (cr4 >> 12) & 1 == 0 {
        PagingType::Level4
    } else {
        PagingType::Level5
    }
}

/// Pages of the kernel stack mapped after boot services.
pub const KERNEL_STACK_PAGES: u64 = 16;

/// Why the kernel's own address space could not be set up.
#[derive(Clone, Copy, PartialEq, Eq, Structural, Debug)]
pub enum SetupError {
    /// An address width is 0 or 64 or more, or the physical width cannot
    /// reach every page.
    AddressWidths,
    /// The CPU runs five-level paging.
    FiveLevelPaging,
    /// The firmware's tables could not be copied.
    TablesNotCopied,
    /// No pages were left for the kernel stack.
    OutOfMemory,
    /// The linear address width is not 48 bits.
    LinearWidth,
}

/// The page uses after the firmware's map: `phys` with the descriptors
/// applied and page 0 the null page.
pub open spec fn setup_pages(phys: Seq<PageUse>, descs: Seq<MemDescriptor>) -> Seq<PageUse> {
    apply_descs(phys, descs).update(0, PageUse::Null)
}

/// The physical address width in CPUID leaf 0x8000_0008's `eax`.
pub open spec fn phy_bits_of(eax: u32) -> u64 {
    (eax & 0xFF) as u64
}

/// The linear address width in CPUID leaf 0x8000_0008's `eax`.
pub open spec fn lin_bits_of(eax: u32) -> u64 {
    ((eax >> 8u32) & 0xFF) as u64
}

/// Both widths lie in `1..64` and the physical width reaches all `n`
/// pages.
pub open spec fn widths_ok(n: int, eax: u32) -> bool {
    &&& 1 <= phy_bits_of(eax) < 64
    &&& 1 <= lin_bits_of(eax) < 64
    &&& n * 4096 <= (1u64 << phy_bits_of(eax))
}

/// `m1`, `ph2` and `ncr3` are what copying the firmware's tables at `cr3`
/// in `m0`, with page uses `ph1`, leaves: the copy at `ncr3`, the words of
/// pages in use kept, and exactly `clone_size` pages taken, all of them
/// free before.
pub open spec fn tables_copied(
    m1: Seq<u64>,
    ph2: Seq<PageUse>,
    ph1: Seq<PageUse>,
    ncr3: u64,
    m0: Seq<u64>,
    cr3: u64,
    mask: u64,
) -> bool {
    &&& pml4_cloned(m1, ph2, ph1, ncr3, m0, cr3, mask)
    &&& only_taken(ph1, ph2)
    &&& kept(m0, m1, ph1)
    &&& m1.len() == m0.len()
    &&& count_use(ph2, PageUse::Free) + clone_size(m0, cr3, mask) == count_use(ph1, PageUse::Free)
}

/// The kernel stack can be mapped (`alloc_ready`) in whatever copy of the
/// firmware's tables `clone_uefi` may leave.
pub open spec fn stack_ready(m0: Seq<u64>, ph1: Seq<PageUse>, cr3: u64, mask: u64) -> bool {
    forall|m1: Seq<u64>, ph2: Seq<PageUse>, ncr3: u64|
        #[trigger] tables_copied(m1, ph2, ph1, ncr3, m0, cr3, mask) ==> alloc_ready(
            m1,
            ph2,
            ncr3 & mask,
            mask,
            KERNEL_STACK_PAGES as int,
            true,
        )
}

/// From `m0` to `m`, and from page uses `ph1` to `phf`, the firmware's
/// tables at `cr3` were copied to `ncr3` and a kernel stack of fresh pages
/// was mapped in the copy at the lowest hole of the kernel half, with `top`
/// its end (wrapping); the only pages taken after the copy are the stack's
/// pages and the tables created for it.
pub open spec fn stack_set_up(
    m0: Seq<u64>,
    m: Seq<u64>,
    ph1: Seq<PageUse>,
    phf: Seq<PageUse>,
    cr3: u64,
    ncr3: u64,
    top: u64,
    mask: u64,
) -> bool {
    exists|m1: Seq<u64>, ph2: Seq<PageUse>, s: int|
        {
            &&& #[trigger] tables_copied(m1, ph2, ph1, ncr3, m0, cr3, mask)
            &&& #[trigger] lin_hole(m1, ncr3 & mask, mask, KERNEL_STACK_PAGES as int, true, s)
            &&& forall|t: int|
                t < s ==> !#[trigger] lin_hole(m1, ncr3 & mask, mask, KERNEL_STACK_PAGES as int, true, t)
            &&& top == (canonical(s) as u64).wrapping_add(0x10000u64)
            &&& forall|k: int| s <= k < s + KERNEL_STACK_PAGES ==> #[trigger] mapped(m, ncr3 & mask, mask, k)
            &&& only_taken(ph2, phf)
            &&& taken_for_run(ph2, phf, m, ncr3 & mask, mask, s, s + KERNEL_STACK_PAGES)
        }
}

/// Sets up the kernel's memory after boot services: the use of every page
/// from the firmware's map (`phys` starts all used), a pager with the
/// address widths in `eax` (CPUID leaf 0x8000_0008) and the paging mode of
/// `cr4`, a copy of the firmware's tables at `cr3`, and a kernel stack of
/// `KERNEL_STACK_PAGES` fresh pages mapped in the copy; the linear width
/// must be 48 bits. Returns the pager, the copy's address (the new CR3) and
/// the stack's top (its end, wrapping).
pub fn post_exit_setup(phys: PhysPageMap, data: &UEFIMemData, eax: u32, cr3: u64, cr4: u64, mem: &mut [u64]) -> (r: Result<
    (Pager, u64, u64),
    SetupError,
>)
    requires
        phys.wf(),
        phys@.len() > 0,
        old(mem)@.len() >= phys@.len() * 512,
        forall|i: int|
            0 <= i < data@.len() ==> desc_first_page(#[trigger] data@[i]) + data@[i].number_of_pages
                <= usize::MAX,
    ensures
        final(mem)@.len() == old(mem)@.len(),
        (r == Err::<(Pager, u64, u64), SetupError>(SetupError::AddressWidths)) == !widths_ok(
            setup_pages(phys@, data@).len() as int,
            eax,
        ),
        widths_ok(setup_pages(phys@, data@).len() as int, eax) ==> ((r == Err::<(Pager, u64, u64), SetupError>(
            SetupError::FiveLevelPaging,
        )) == ((cr4 >> 12u64) & 1 != 0)),
        widths_ok(setup_pages(phys@, data@).len() as int, eax) && (cr4 >> 12u64) & 1 == 0 ==> ((r == Err::<
            (Pager, u64, u64),
            SetupError,
        >(SetupError::TablesNotCopied)) == !(pml4_safe(
            old(mem)@,
            setup_pages(phys@, data@),
            cr3,
            phy_page_mask_for(phy_bits_of(eax)),
        ) && count_use(setup_pages(phys@, data@), PageUse::Free) >= clone_size(
            old(mem)@,
            cr3,
            phy_page_mask_for(phy_bits_of(eax)),
        ))),
        r == Err::<(Pager, u64, u64), SetupError>(SetupError::OutOfMemory) ==> exists|
            m1: Seq<u64>,
            ph2: Seq<PageUse>,
            ncr3: u64,
        |
            #[trigger] tables_copied(
                m1,
                ph2,
                setup_pages(phys@, data@),
                ncr3,
                old(mem)@,
                cr3,
                phy_page_mask_for(phy_bits_of(eax)),
            ) && !alloc_ready(
                m1,
                ph2,
                ncr3 & phy_page_mask_for(phy_bits_of(eax)),
                phy_page_mask_for(phy_bits_of(eax)),
                KERNEL_STACK_PAGES as int,
                true,
            ),
        widths_ok(setup_pages(phys@, data@).len() as int, eax) && (cr4 >> 12u64) & 1 == 0 && pml4_safe(
            old(mem)@,
            setup_pages(phys@, data@),
            cr3,
            phy_page_mask_for(phy_bits_of(eax)),
        ) && count_use(setup_pages(phys@, data@), PageUse::Free) >= clone_size(
            old(mem)@,
            cr3,
            phy_page_mask_for(phy_bits_of(eax)),
        ) && stack_ready(old(mem)@, setup_pages(phys@, data@), cr3, phy_page_mask_for(phy_bits_of(eax)))
            && lin_bits_of(eax) == 48 ==> r is Ok,
        r == Err::<(Pager, u64, u64), SetupError>(SetupError::LinearWidth) ==> lin_bits_of(eax) != 48,
        r matches Ok((p, ncr3, top)) ==> {
            &&& widths_ok(setup_pages(phys@, data@).len() as int, eax)
            &&& (cr4 >> 12u64) & 1 == 0
            &&& lin_bits_of(eax) == 48
            &&& p.wf()
            &&& p.paging_type == PagingType::Level4
            &&& p.phy_addr_bits == phy_bits_of(eax)
            &&& p.phy_page_mask == phy_page_mask_for(phy_bits_of(eax))
            &&& p.lin_addr_mask == 0xFFFF_FFFF_FFFF
            &&& p.to_high_mask == 0xFFFF_8000_0000_0000
            &&& p.phys@.len() == setup_pages(phys@, data@).len()
            &&& only_taken(setup_pages(phys@, data@), p.phys@)
            &&& pml4_safe(old(mem)@, setup_pages(phys@, data@), cr3, p.phy_page_mask)
            &&& stack_set_up(
                old(mem)@,
                final(mem)@,
                setup_pages(phys@, data@),
                p.phys@,
                cr3,
                ncr3,
                top,
                p.phy_page_mask,
            )
        },
{
    let ghost ph_in = phys@;
    let mut phys = phys;
    apply_memory_map(&mut phys, data);
    proof {
        lemma_apply_len(ph_in, data@);
    }
    let phy_bits = (eax & 0xFF) as u64;
    let lin_bits = ((eax >> 8) & 0xFF) as u64;
    let kind = paging_type(cr4);
    let mut pager = match Pager::new(phys, kind, phy_bits, lin_bits) {
        Some(p) => p,
        None => return Err(SetupError::AddressWidths),
    };
    match pager.paging_type {
        PagingType::Level4 => {},
        PagingType::Level5 => return Err(SetupError::FiveLevelPaging),
    }
    let ghost m0 = mem@;
    let ghost ph1 = pager.phys@;
    let ncr3 = match clone_uefi(&mut pager, mem, cr3) {
        Some(n) => n,
        None => return Err(SetupError::TablesNotCopied),
    };
    let ghost m1 = mem@;
    let ghost ph2 = pager.phys@;
    let ghost mask = pager.phy_page_mask;
    assert(tables_copied(m1, ph2, ph1, ncr3, m0, cr3, mask));
    let stack = match alloc_pages(&mut pager, mem, KERNEL_STACK_PAGES, true, ncr3) {
        Some(p) => p,
        None => {
            proof {
                assert(tables_copied(m1, ph2, ph1, ncr3, m0, cr3, mask));
                assert(!alloc_ready(m1, ph2, ncr3 & mask, mask, KERNEL_STACK_PAGES as int, true));
            }
            return Err(SetupError::OutOfMemory);
        },
    };
    if lin_bits != 48 {
        return Err(SetupError::LinearWidth);
    }
    assert(pager.lin_addr_mask == 0xFFFF_FFFF_FFFF && pager.to_high_mask == 0xFFFF_8000_0000_0000) by {
        assert(((1u64 << 48u64) - 1) as u64 == 0xFFFF_FFFF_FFFFu64) by (bit_vector);
        assert(!(((1u64 << 47u64) - 1) as u64) == 0xFFFF_8000_0000_0000u64) by (bit_vector);
    }
    let top = stack.wrapping_add(0x10000);
    proof {
        let s = choose|s: int|
            #[trigger] lin_hole(m1, ncr3 & mask, mask, 16, true, s) && (forall|t: int|
                t < s ==> !#[trigger] lin_hole(m1, ncr3 & mask, mask, 16, true, t)) && stack == canonical(s)
                && alloc_inv(mem@, ph2, pager.phys@, ncr3 & mask, mask, entry_flags(true), s, s + 16)
                && taken_for_run(ph2, pager.phys@, mem@, ncr3 & mask, mask, s, s + 16);
        assert forall|k: int| s <= k < s + 16 implies #[trigger] mapped(mem@, ncr3 & mask, mask, k) by {
            assert(fresh_mapping(mem@, ph2, pager.phys@, ncr3 & mask, mask, entry_flags(true), k));
            reveal(fresh_mapping);
        }
        assert(top == (canonical(s) as u64).wrapping_add(0x10000u64));
        assert forall|i: int| 0 <= i < ph1.len() implies #[trigger] pager.phys@[i] == ph1[i] || (ph1[i] == PageUse::Free
            && pager.phys@[i] == PageUse::Used) by {
            assert(ph2[i] == ph1[i] || (ph1[i] == PageUse::Free && ph2[i] == PageUse::Used));
            assert(pager.phys@[i] == ph2[i] || (ph2[i] == PageUse::Free && pager.phys@[i] == PageUse::Used));
        }
        assert(only_taken(ph1, pager.phys@));
        assert(stack_set_up(m0, mem@, ph1, pager.phys@, cr3, ncr3, top, mask)) by {
            assert(tables_copied(m1, ph2, ph1, ncr3, m0, cr3, mask));
            assert(lin_hole(m1, ncr3 & mask, mask, KERNEL_STACK_PAGES as int, true, s));
        }
    }
    Ok((pager, ncr3, top))
}

} // verus!
