//! Physical page bookkeeping and four-level page tables.
//!
//! Physical memory is seen as a slice of machine words: the word at index
//! `w` holds the eight bytes at physical address `8 * w`.

pub mod allocate;
pub mod clone_tables;
pub mod free;
pub mod init;
pub mod level4;
pub mod mappable;
pub mod mmio;
pub mod phy;
pub mod realloc;

use vstd::prelude::*;
use phy::PhysPageMap;
use level4::mask_ok;

verus! {

/// Bytes in a page.
pub const PAGE_SIZE: usize = 4096;

/// Words in a page (and entries in a page table).
pub const PAGE_WORDS: usize = 512;

/// What a physical page is used for.
#[derive(Clone, Copy, PartialEq, Eq, Structural, Debug)]
pub enum PageUse {
    Free,
    Used,
    Null,
    Invalid,
    Unknown,
    Loader,
}

/// The words of physical page `page` all hold zero.
pub open spec fn page_zeroed(mem: Seq<u64>, page: int) -> bool {
    forall|w: int| page * 512 <= w < page * 512 + 512 ==> #[trigger] mem[w] == 0
}

/// Word `j` of physical page `f`.
pub open spec fn page_word(m: Seq<u64>, f: int, j: int) -> u64 {
    m[f * 512 + j]
}

/// Writes zero to every word of physical page `page`.
pub fn zero_page(mem: &mut [u64], page: usize)
    requires
        (page + 1) * 512 <= old(mem)@.len(),
    ensures
        final(mem)@.len() == old(mem)@.len(),
        page_zeroed(final(mem)@, page as int),
        forall|w: int|
            0 <= w < old(mem)@.len() && !(page * 512 <= w < page * 512 + 512) ==> #[trigger] final(mem)@[w] == old(mem)@[w],
{
    let ghost len = mem@.len();
    assert(len <= usize::MAX) by { let n = mem.len(); }
    let base = page * 512;
    let mut i: usize = 0;
    while i < 512
        invariant
            base == page * 512,
            (page + 1) * 512 <= mem@.len(),
            mem@.len() == old(mem)@.len(),
            0 <= i <= 512,
            forall|w: int| base <= w < base + i ==> #[trigger] mem@[w] == 0,
            forall|w: int|
                0 <= w < old(mem)@.len() && !(base <= w < base + i) ==> #[trigger] mem@[w] == old(mem)@[w],
        decreases 512 - i,
    {
        mem[base + i] = 0;
        i = i + 1;
    }
}

/// Copies the words of physical page `src` into physical page `dst`.
pub fn copy_page(mem: &mut [u64], src: usize, dst: usize)
    requires
        (src + 1) * 512 <= old(mem)@.len(),
        (dst + 1) * 512 <= old(mem)@.len(),
    ensures
        final(mem)@.len() == old(mem)@.len(),
        src != dst ==> forall|k: int| 0 <= k < 512 ==> #[trigger] final(mem)@[dst * 512 + k] == old(mem)@[src * 512 + k],
        forall|w: int|
            0 <= w < old(mem)@.len() && !(dst * 512 <= w < dst * 512 + 512) ==> #[trigger] final(mem)@[w] == old(mem)@[w],
{
    let ghost len = mem@.len();
    assert(len <= usize::MAX) by { let n = mem.len(); }
    let s = src * 512;
    let d = dst * 512;
    let mut i: usize = 0;
    while i < 512
        invariant
            s == src * 512,
            d == dst * 512,
            (src + 1) * 512 <= mem@.len(),
            (dst + 1) * 512 <= mem@.len(),
            mem@.len() == old(mem)@.len(),
            0 <= i <= 512,
            src != dst ==> forall|k: int| 0 <= k < i ==> #[trigger] mem@[d + k] == old(mem)@[s + k],
            forall|w: int|
                0 <= w < old(mem)@.len() && !(d <= w < d + i) ==> #[trigger] mem@[w] == old(mem)@[w],
        decreases 512 - i,
    {
        let v = mem[s + i];
        mem[d + i] = v;
        proof {
            if src != dst {
                assert(!(d <= s + i < d + i)) by (nonlinear_arith)
                    requires s == src * 512, d == dst * 512, src != dst, 0 <= i < 512;
            }
        }
        i = i + 1;
    }
}

/// The paging mode the CPU runs in.
#[derive(Clone, Copy, PartialEq, Eq, Structural, Debug)]
pub enum PagingType {
    Level4,
    Level5,
}

/// `((1 << bits) - 1) & !0xFFF`: the physical page mask for `bits`
/// physical address bits.
pub open spec fn phy_page_mask_for(bits: u64) -> u64 {
    (((1u64 << bits) - 1) as u64) & !0xFFFu64
}

proof fn lemma_low_mask_keeps(a: u64, b: u64)
    requires
        b < 64,
        a & 0xFFF == 0,
        a < (1u64 << b),
    ensures
        a & phy_page_mask_for(b) == a,
{
    assert(a & ((((1u64 << b) - 1) as u64) & !0xFFFu64) == a) by (bit_vector)
        requires
            b < 64,
            a & 0xFFF == 0,
            a < (1u64 << b),
    ;
}

/// The physical page mask for `b` bits keeps every frame address below
/// `2^b`.
pub proof fn lemma_mask_ok(b: u64, n: int)
    requires
        b < 64,
        0 <= n,
        n * 4096 <= (1u64 << b),
    ensures
        mask_ok(phy_page_mask_for(b), n),
{
    assert(phy_page_mask_for(b) & 0xFFF == 0) by (bit_vector)
        requires b < 64;
    assert forall|a: u64| a % 4096 == 0 && a < n * 4096 implies #[trigger] (a & phy_page_mask_for(b)) == a by {
        assert(a & 0xFFF == 0) by (bit_vector)
            requires a % 4096 == 0;
        lemma_low_mask_keeps(a, b);
    }
}

/// What the kernel keeps about paging: the use of every physical page,
/// the paging mode, and the address masks the CPU's address widths give.
pub struct Pager {
    pub phys: PhysPageMap,
    pub paging_type: PagingType,
    pub phy_addr_bits: u64,
    pub phy_page_mask: u64,
    pub lin_addr_mask: u64,
    pub to_high_mask: u64,
}

impl Pager {
    pub open spec fn wf(&self) -> bool {
        &&& self.phys.wf()
        &&& mask_ok(self.phy_page_mask, self.phys@.len() as int)
    }

    /// A pager for `phys`, with the masks for `phy_addr_bits` physical and
    /// `lin_addr_bits` linear address bits. `None` when a width is 0 or 64
    /// or more, or when the physical address width cannot reach every page
    /// of `phys`.
    pub fn new(phys: PhysPageMap, paging_type: PagingType, phy_addr_bits: u64, lin_addr_bits: u64) -> (r: Option<Pager>)
        requires
            phys.wf(),
        ensures
            match r {
                Some(p) => {
                    &&& p.wf()
                    &&& p.phys == phys
                    &&& p.paging_type == paging_type
                    &&& p.phy_addr_bits == phy_addr_bits
                    &&& p.phy_page_mask == phy_page_mask_for(phy_addr_bits)
                    &&& p.lin_addr_mask == ((1u64 << lin_addr_bits) - 1) as u64
                    &&& p.to_high_mask == !(((1u64 << ((lin_addr_bits - 1) as u64)) - 1) as u64)
                },
                None => true,
            },
            r is Some == (1 <= phy_addr_bits < 64 && 1 <= lin_addr_bits < 64 && phys@.len() * 4096 <= (1u64
                << phy_addr_bits)),
    {
        if phy_addr_bits == 0 || phy_addr_bits >= 64 || lin_addr_bits == 0 || lin_addr_bits >= 64 {
            return None;
        }
        let n = phys.len();
        assert(1u64 << phy_addr_bits >= 1) by (bit_vector)
            requires phy_addr_bits < 64;
        assert(1u64 << lin_addr_bits >= 1) by (bit_vector)
            requires lin_addr_bits < 64;
        let shift = lin_addr_bits - 1;
        assert(1u64 << shift >= 1) by (bit_vector)
            requires shift < 64;
        if (n as u128) * 4096 > (1u64 << phy_addr_bits) as u128 {
            return None;
        }
        proof {
            lemma_mask_ok(phy_addr_bits, n as int);
        }
        Some(Pager {
            phys,
            paging_type,
            phy_addr_bits,
            phy_page_mask: ((1u64 << phy_addr_bits) - 1) & !0xFFF,
            lin_addr_mask: (1u64 << lin_addr_bits) - 1,
            to_high_mask: !((1u64 << shift) - 1),
        })
    }
}

} // verus!
