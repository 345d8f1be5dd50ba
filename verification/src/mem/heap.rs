//! The kernel heap: small objects share pages split into equal slots,
//! large ones get whole pages.

use vstd::prelude::*;
use crate::mem::MemByteBuffer;
use crate::mem::paging::{PageUse, Pager, PagingType};
use crate::mem::paging::allocate::{alloc_pages, alloc_inv, alloc_ready, entry_flags, fresh_mapping};
use crate::mem::paging::free::{freeable, freed_run, ptr_pages};
use crate::mem::paging::level4::{canonical, lin_hole, mapped};
use crate::mem::paging::realloc;

verus! {

/// What the heap keeps of the pager across a call: it stays well formed,
/// in the same mode, with the same masks.
pub open spec fn pager_kept(p0: Pager, p1: Pager) -> bool {
    &&& p1.wf()
    &&& p1.paging_type == p0.paging_type
    &&& p1.phy_page_mask == p0.phy_page_mask
    &&& p1.lin_addr_mask == p0.lin_addr_mask
    &&& p1.phys@.len() == p0.phys@.len()
}

/// The canonical address of a page below 2^36 is page aligned and fits in
/// 64 bits.
pub proof fn lemma_canonical_aligned(s: int)
    requires
        0 <= s < 0x10_0000_0000,
    ensures
        canonical(s) % 4096 == 0,
        0 <= canonical(s) <= u64::MAX - 4095,
{
    if s < 34359738368 {
        assert((s * 4096) % 4096 == 0) by (nonlinear_arith);
    } else {
        assert((s * 4096 + 0xFFFF_0000_0000_0000) % 4096 == 0) by (nonlinear_arith);
    }
}

/// Bit `i` of `u` is set.
pub open spec fn bit(u: u64, i: int) -> bool {
    (u >> (i as u64)) & 1 == 1
}

/// The usage word of a page with `s` slots that are all taken. For 64
/// slots the shift by 64 wraps to a shift by 0, so the word compared with
/// is 0.
pub open spec fn full_usage(s: int) -> u64 {
    if s >= 64 {
        0
    } else {
        ((1u64 << (s as u64)) - 1) as u64
    }
}

/// The lowest clear bit of `u` among bits `0..s`, if any.
pub open spec fn lowest_clear(u: u64, s: int, i: int) -> bool {
    &&& 0 <= i < s
    &&& !bit(u, i)
    &&& forall|j: int| 0 <= j < i ==> bit(u, j)
}

proof fn lemma_bit_mask(u: u64, i: u64)
    requires
        i < 64,
    ensures
        (u & (1u64 << i) == 0) == !bit(u, i as int),
        bit(u | (1u64 << i), i as int),
        forall|j: u64| j < 64 && j != i ==> #[trigger] bit(u | (1u64 << i), j as int) == bit(u, j as int),
{
    assert((u & (1u64 << i) == 0) == !((u >> i) & 1 == 1)) by (bit_vector)
        requires i < 64;
    assert(((u | (1u64 << i)) >> i) & 1 == 1) by (bit_vector)
        requires i < 64;
    assert forall|j: u64| j < 64 && j != i implies #[trigger] bit(u | (1u64 << i), j as int) == bit(u, j as int) by {
        assert((((u | (1u64 << i)) >> j) & 1 == 1) == ((u >> j) & 1 == 1)) by (bit_vector)
            requires i < 64, j < 64, j != i;
    }
}

/// One page split into `S` equal slots, with a usage bit per slot.
#[derive(Clone, Copy)]
pub struct BufferEntry<const S: usize> {
    pub ptr: u64,
    pub usage: u64,
}

impl<const S: usize> BufferEntry<S> {
    /// Bytes in a slot.
    pub open spec fn slot_size() -> int {
        4096int / (S as int)
    }

    /// Some slot of the entry can be taken by `take_slot`.
    pub open spec fn can_take(&self) -> bool {
        &&& self.usage != full_usage(S as int)
        &&& exists|j: int| 0 <= j < S && !bit(self.usage, j)
    }

    /// Takes a fresh zeroed kernel page for a new entry whose first slot
    /// is taken, and returns the entry and the page's address. `None` when
    /// no page can be had.
    pub fn new(pager: &mut Pager, mem: &mut [u64], cr3: u64) -> (r: Option<(Self, u64)>)
        requires
            old(pager).wf(),
            old(pager).paging_type == PagingType::Level4,
            old(mem)@.len() >= old(pager).phys@.len() * 512,
        ensures
            pager_kept(*old(pager), *final(pager)),
            final(mem)@.len() == old(mem)@.len(),
            alloc_ready(old(mem)@, old(pager).phys@, cr3 & old(pager).phy_page_mask, old(pager).phy_page_mask, 1, true)
                ==> r is Some,
            r matches Some((e, p)) ==> {
                &&& e.ptr == p
                &&& e.usage == 1
                &&& p % 4096 == 0
                &&& exists|s: int|
                    #[trigger] lin_hole(old(mem)@, cr3 & old(pager).phy_page_mask, old(pager).phy_page_mask, 1, true, s)
                    && (forall|t: int| t < s ==> !#[trigger] lin_hole(old(mem)@, cr3 & old(pager).phy_page_mask, old(pager).phy_page_mask, 1, true, t))
                    && p == canonical(s)
                    && mapped(final(mem)@, cr3 & old(pager).phy_page_mask, old(pager).phy_page_mask, s)
            },
    {
        let ptr = match alloc_pages(pager, mem, 1, true, cr3) {
            Some(p) => p,
            None => return None,
        };
        proof {
            let mask = old(pager).phy_page_mask;
            let s = choose|s: int|
                #[trigger] lin_hole(old(mem)@, cr3 & mask, mask, 1, true, s)
                && (forall|t: int| t < s ==> !#[trigger] lin_hole(old(mem)@, cr3 & mask, mask, 1, true, t))
                && ptr == canonical(s) && alloc_inv(
                    mem@,
                    old(pager).phys@,
                    pager.phys@,
                    cr3 & mask,
                    mask,
                    entry_flags(true),
                    s,
                    s + 1,
                );
            assert(fresh_mapping(mem@, old(pager).phys@, pager.phys@, cr3 & mask, mask, entry_flags(true), s));
            reveal(fresh_mapping);
            lemma_canonical_aligned(s);
        }
        Some((BufferEntry { ptr, usage: 1 }, ptr))
    }

    /// Takes the lowest free slot and returns its address; `None` when the
    /// usage word equals `full_usage(S)` or no slot is free.
    pub fn take_slot(&mut self) -> (r: Option<u64>)
        requires
            1 <= S <= 64,
            old(self).ptr % 4096 == 0,
        ensures
            final(self).ptr == old(self).ptr,
            match r {
                None => final(self).usage == old(self).usage && (old(self).usage == full_usage(S as int)
                    || forall|j: int| 0 <= j < S ==> bit(old(self).usage, j)),
                Some(p) => exists|i: int|
                    {
                        &&& #[trigger] lowest_clear(old(self).usage, S as int, i)
                        &&& old(self).usage != full_usage(S as int)
                        &&& p == old(self).ptr + i * Self::slot_size()
                        &&& final(self).usage == old(self).usage | (1u64 << (i as u64))
                    },
            },
    {
        let slots: u64 = S as u64;
        let full: u64 = if slots >= 64 {
            0
        } else {
            assert(1u64 << slots >= 1) by (bit_vector)
                requires slots < 64;
            (1u64 << slots) - 1
        };
        if self.usage == full {
            return None;
        }
        let mut i: usize = 0;
        while i < S
            invariant
                1 <= S <= 64,
                0 <= i <= S,
                self.ptr == old(self).ptr,
                self.usage == old(self).usage,
                old(self).usage != full_usage(S as int),
                old(self).ptr % 4096 == 0,
                forall|j: int| 0 <= j < i ==> bit(self.usage, j),
            decreases S - i,
        {
            let mask: u64 = 1u64 << (i as u64);
            proof {
                lemma_bit_mask(self.usage, i as u64);
            }
            if self.usage & mask == 0 {
                self.usage = self.usage | mask;
                let slot = 4096 / S;
                proof {
                    assert(i * slot + slot <= 4096) by (nonlinear_arith)
                        requires i < S, slot == 4096usize / S, 1 <= S;
                    assert(slot >= 64) by (nonlinear_arith)
                        requires slot == 4096usize / S, 1 <= S <= 64;
                    let pp = self.ptr;
                    assert(pp <= u64::MAX - 4095) by (nonlinear_arith)
                        requires pp % 4096 == 0, pp <= u64::MAX;
                    assert(lowest_clear(old(self).usage, S as int, i as int));
                }
                return Some(self.ptr + (i * slot) as u64);
            }
            i = i + 1;
        }
        None
    }

    /// Releases the slot holding `ptr` when `self.ptr - ptr` (wrapping)
    /// is below 4096: clears bit `(self.ptr - ptr) / slot_size` and returns
    /// `true`; otherwise returns `false` and changes nothing. The difference
    /// is taken in this order, so of the slots this entry hands out only
    /// the first one (`ptr == self.ptr`) is found again.
    pub fn dealloc(&mut self, ptr: u64) -> (r: bool)
        requires
            1 <= S <= 64,
        ensures
            final(self).ptr == old(self).ptr,
            r == (wrapping_diff(old(self).ptr, ptr) < 4096),
            r ==> final(self).usage == old(self).usage & !(1u64 << (wrapping_diff(old(self).ptr, ptr) / (
            Self::slot_size() as u64))),
            !r ==> final(self).usage == old(self).usage,
    {
        let diff = self.ptr.wrapping_sub(ptr);
        if diff >= 4096 {
            return false;
        }
        let slot = (4096 / S) as u64;
        assert(slot >= 64) by (nonlinear_arith)
            requires slot == 4096int / (S as int), 1 <= S <= 64;
        let i = diff / slot;
        proof {
            assert(i < 64) by (nonlinear_arith)
                requires i == diff / slot, diff < 4096, slot >= 64;
        }
        self.usage = self.usage & !(1u64 << i);
        true
    }
}

/// `a - b` wrapping around 2^64.
pub open spec fn wrapping_diff(a: u64, b: u64) -> u64 {
    if a >= b {
        (a - b) as u64
    } else {
        (a - b + 0x1_0000_0000_0000_0000) as u64
    }
}


/// Bytes of one heap record: an address and a usage word, or an address
/// and a length.
pub const RECORD_BYTES: u64 = 16;

/// Pages of a record table after it grows from `pages` pages.
pub open spec fn grown_pages(pages: int) -> int {
    if pages == 0 { 1 } else { 2 * pages }
}

/// Grows the record table of `pages` pages at `table`: one fresh kernel
/// page when it has none, else twice as many pages, with the old ones
/// moved over and freed (in the tables at `cr3`). Returns the new address
/// and page count; `None` when the pages cannot be had.
#[verifier::spinoff_prover]
fn grow_table(pager: &mut Pager, mem: &mut [u64], table: u64, pages: u64, cr3: u64) -> (r: Option<(u64, u64)>)
    requires
        old(pager).wf(),
        old(pager).paging_type == PagingType::Level4,
        old(mem)@.len() >= old(pager).phys@.len() * 512,
        pages <= 0x10_0000_0000,
    ensures
        pager_kept(*old(pager), *final(pager)),
        final(mem)@.len() == old(mem)@.len(),
        r matches Some((t, n)) ==> {
            &&& n == grown_pages(pages as int)
            &&& n <= 0x10_0000_0000
            &&& pages == 0 ==> exists|s: int|
                #[trigger] lin_hole(old(mem)@, cr3 & old(pager).phy_page_mask, old(pager).phy_page_mask, 1, true, s)
                    && t == canonical(s)
            &&& pages != 0 ==> exists|s: int|
                #[trigger] lin_hole(
                    old(mem)@,
                    cr3 & old(pager).phy_page_mask,
                    old(pager).phy_page_mask,
                    2 * pages,
                    realloc::in_kernel_half(table),
                    s,
                ) && t == canonical(s)
        },
        pages == 0 && alloc_ready(
            old(mem)@,
            old(pager).phys@,
            cr3 & old(pager).phy_page_mask,
            old(pager).phy_page_mask,
            1,
            true,
        ) ==> r is Some,
        pages != 0 && pages <= usize::MAX && (table & old(pager).lin_addr_mask) / 4096 <= usize::MAX
            && realloc::realloc_ready(
            old(mem)@,
            old(pager).phys@,
            table,
            pages as int,
            2 * pages,
            cr3,
            cr3,
            old(pager).phy_page_mask,
            old(pager).lin_addr_mask,
        ) ==> r is Some,
{
    if pages == 0 {
        match alloc_pages(pager, mem, 1, true, cr3) {
            Some(t) => {
                proof {
                    let mask = old(pager).phy_page_mask;
                    let s = choose|s: int| #[trigger] lin_hole(old(mem)@, cr3 & mask, mask, 1, true, s) && t == canonical(s);
                    assert(lin_hole(old(mem)@, cr3 & mask, mask, 1, true, s) && t == canonical(s));
                    assert(pager_kept(*old(pager), *pager));
                    assert(1 == grown_pages(pages as int));
                }
                Some((t, 1u64))
            },
            None => None,
        }
    } else {
        let new_pages = pages * 2;
        let start = (table & pager.lin_addr_mask) / 4096;
        // Targets whose addresses cannot index these pages get none.
        if pages > usize::MAX as u64 || start > usize::MAX as u64 {
            return None;
        }
        match realloc::pages(pager, mem, table, pages, new_pages, cr3, cr3) {
            Some(t) => {
                proof {
                    let mask = old(pager).phy_page_mask;
                    let k = realloc::in_kernel_half(table);
                    let s = choose|s: int| #[trigger] lin_hole(old(mem)@, cr3 & mask, mask, new_pages as int, k, s) && t == canonical(s);
                    assert(lin_hole(old(mem)@, cr3 & mask, mask, new_pages as int, k, s) && t == canonical(s));
                    assert(pager_kept(*old(pager), *pager));
                    assert(new_pages == grown_pages(pages as int));
                }
                Some((t, new_pages))
            },
            None => None,
        }
    }
}

/// The first entry of `s` with a slot that `take_slot` can take is `i`.
pub open spec fn first_open<const S: usize>(s: Seq<BufferEntry<S>>, i: int) -> bool {
    &&& 0 <= i < s.len()
    &&& s[i].can_take()
    &&& forall|k: int| 0 <= k < i ==> !#[trigger] s[k].can_take()
}

/// Entry `e` holds the slot of `ptr`: `e.ptr - ptr`, wrapping, is below
/// 4096.
pub open spec fn owns<const S: usize>(e: BufferEntry<S>, ptr: u64) -> bool {
    wrapping_diff(e.ptr, ptr) < 4096
}

/// The first entry of `s` that holds the slot of `ptr` is `i`.
pub open spec fn first_owner<const S: usize>(s: Seq<BufferEntry<S>>, ptr: u64, i: int) -> bool {
    &&& 0 <= i < s.len()
    &&& owns(s[i], ptr)
    &&& forall|k: int| 0 <= k < i ==> !#[trigger] owns(s[k], ptr)
}

/// When `ChunkBufferVec::allocate` cannot fail on `v`: an entry has a free
/// slot, or the table has room for one more entry and a fresh page can be
/// mapped (`alloc_ready`) in the tables at `pml4`.
pub open spec fn chunk_ready<const S: usize>(
    v: ChunkBufferVec<S>,
    mem: Seq<u64>,
    phys: Seq<PageUse>,
    pml4: u64,
    mask: u64,
) -> bool {
    ||| exists|i: int| first_open(v.entries@, i)
    ||| v.entries@.len() < v.capacity && alloc_ready(mem, phys, pml4, mask, 1, true)
}

/// The pages of equal slots of one size: an entry per page. The entries
/// are held in `entries`; the table that reserves room for them, `pages`
/// pages mapped at `table` with room for `capacity` entries of
/// `RECORD_BYTES` bytes, is grown when it is full.
pub struct ChunkBufferVec<const S: usize> {
    pub table: u64,
    pub pages: u64,
    pub capacity: u64,
    pub entries: Vec<BufferEntry<S>>,
}

/// What `ChunkBufferVec::allocate` does, from `v0`, `p0`, `m0` to `v1`,
/// `p1`, `m1`, returning `r`: an entry with a free slot gives its lowest
/// one and nothing else changes; when there is none, the table grows if
/// full and a new entry is appended for a fresh page, mapped at the end,
/// whose first slot is returned.
pub open spec fn chunk_allocated<const S: usize>(
    v0: ChunkBufferVec<S>,
    v1: ChunkBufferVec<S>,
    p0: Pager,
    p1: Pager,
    m0: Seq<u64>,
    m1: Seq<u64>,
    cr3: u64,
    r: Option<u64>,
) -> bool {
    &&& forall|i: int|
        #[trigger] first_open(v0.entries@, i) ==> {
            &&& p1 == p0
            &&& m1 == m0
            &&& v1.table == v0.table
            &&& v1.pages == v0.pages
            &&& v1.capacity == v0.capacity
            &&& exists|j: int|
                #[trigger] lowest_clear(v0.entries@[i].usage, S as int, j)
                && r == Some((v0.entries@[i].ptr + j * BufferEntry::<S>::slot_size()) as u64)
                && v1.entries@ == v0.entries@.update(
                    i,
                    BufferEntry::<S> { ptr: v0.entries@[i].ptr, usage: v0.entries@[i].usage | (1u64 << (j as u64)) },
                )
        }
    &&& (forall|i: int| !#[trigger] first_open(v0.entries@, i)) ==> (r matches Some(p) ==> {
        &&& v1.entries@ == v0.entries@.push(BufferEntry::<S> { ptr: p, usage: 1 })
        &&& v0.entries@.len() < v0.capacity ==> v1.table == v0.table && v1.pages == v0.pages
            && v1.capacity == v0.capacity
        &&& v0.entries@.len() >= v0.capacity ==> v1.pages == grown_pages(v0.pages as int)
        &&& exists|s: int| p == canonical(s) && #[trigger] mapped(m1, cr3 & p0.phy_page_mask, p0.phy_page_mask, s)
        &&& v0.entries@.len() < v0.capacity ==> exists|s: int|
            #[trigger] lin_hole(m0, cr3 & p0.phy_page_mask, p0.phy_page_mask, 1, true, s) && (forall|t: int|
                t < s ==> !#[trigger] lin_hole(m0, cr3 & p0.phy_page_mask, p0.phy_page_mask, 1, true, t))
                && p == canonical(s)
    })
}

/// What `ChunkBufferVec::dealloc` does, from `v0` to `v1`, returning `r`:
/// the first entry that holds the slot of `ptr` has that slot's bit
/// cleared; `r` says whether there was one.
pub open spec fn chunk_released<const S: usize>(v0: ChunkBufferVec<S>, v1: ChunkBufferVec<S>, ptr: u64, r: bool) -> bool {
    &&& v1.table == v0.table
    &&& v1.pages == v0.pages
    &&& v1.capacity == v0.capacity
    &&& r == exists|i: int| 0 <= i < v0.entries@.len() && owns(#[trigger] v0.entries@[i], ptr)
    &&& r ==> exists|i: int|
        #[trigger] first_owner(v0.entries@, ptr, i) && v1.entries@ == v0.entries@.update(
            i,
            BufferEntry::<S> {
                ptr: v0.entries@[i].ptr,
                usage: v0.entries@[i].usage & !(1u64 << (wrapping_diff(v0.entries@[i].ptr, ptr) / (
                BufferEntry::<S>::slot_size() as u64))),
            },
        )
    &&& !r ==> v1.entries@ == v0.entries@
}

impl<const S: usize> ChunkBufferVec<S> {
    pub open spec fn wf(&self) -> bool {
        &&& 1 <= S <= 64
        &&& self.pages <= 0x10_0000_0000
        &&& self.capacity == self.pages * 4096 / (RECORD_BYTES as int)
        &&& self.entries@.len() <= self.capacity
        &&& forall|i: int| 0 <= i < self.entries@.len() ==> #[trigger] self.entries@[i].ptr % 4096 == 0
    }

    /// An empty buffer, with no table.
    pub fn new() -> (r: Self)
        requires
            1 <= S <= 64,
        ensures
            r.wf(),
            r.table == 0,
            r.pages == 0,
            r.entries@.len() == 0,
    {
        ChunkBufferVec { table: 0, pages: 0, capacity: 0, entries: Vec::new() }
    }

    /// Takes a slot: the lowest free one of the first entry that has one,
    /// else the first of a new page, growing the table when it is full.
    /// `None` when a page cannot be had.
    pub fn allocate(&mut self, pager: &mut Pager, mem: &mut [u64], cr3: u64) -> (r: Option<u64>)
        requires
            old(self).wf(),
            old(pager).wf(),
            old(pager).paging_type == PagingType::Level4,
            old(mem)@.len() >= old(pager).phys@.len() * 512,
        ensures
            final(self).wf(),
            pager_kept(*old(pager), *final(pager)),
            final(mem)@.len() == old(mem)@.len(),
            chunk_allocated(*old(self), *final(self), *old(pager), *final(pager), old(mem)@, final(mem)@, cr3, r),
            chunk_ready(
                *old(self),
                old(mem)@,
                old(pager).phys@,
                cr3 & old(pager).phy_page_mask,
                old(pager).phy_page_mask,
            ) ==> r is Some,
            r is None ==> final(self).entries@ == old(self).entries@,
    {
        let n = self.entries.len();
        let mut i: usize = 0;
        while i < n
            invariant
                self.wf(),
                *self == *old(self),
                *pager == *old(pager),
                pager.wf(),
                mem@ == old(mem)@,
                n == self.entries@.len(),
                0 <= i <= n,
                forall|k: int| 0 <= k < i ==> !#[trigger] self.entries@[k].can_take(),
            decreases n - i,
        {
            let mut e = self.entries[i];
            assert(e.ptr % 4096 == 0);
            match e.take_slot() {
                Some(p) => {
                    proof {
                        let j = choose|j: int| #[trigger] lowest_clear(self.entries@[i as int].usage, S as int, j)
                            && old(self).entries@[i as int].usage != full_usage(S as int)
                            && p == self.entries@[i as int].ptr + j * BufferEntry::<S>::slot_size()
                            && e.usage == self.entries@[i as int].usage | (1u64 << (j as u64));
                        assert(self.entries@[i as int].can_take());
                        assert(first_open(old(self).entries@, i as int));
                    }
                    self.entries.set(i, e);
                    return Some(p);
                },
                None => {},
            }
            i = i + 1;
        }
        assert(forall|k: int| !#[trigger] first_open(old(self).entries@, k));
        if n as u64 >= self.capacity {
            match grow_table(pager, mem, self.table, self.pages, cr3) {
                Some((t, np)) => {
                    self.table = t;
                    self.pages = np;
                    self.capacity = np * 4096 / RECORD_BYTES;
                },
                None => return None,
            }
        }
        let (e, p) = match BufferEntry::<S>::new(pager, mem, cr3) {
            Some(ep) => ep,
            None => return None,
        };
        self.entries.push(e);
        Some(p)
    }

    /// Releases the slot of `ptr` in the first entry that holds it;
    /// `false` when no entry does.
    pub fn dealloc(&mut self, ptr: u64) -> (r: bool)
        requires
            old(self).wf(),
        ensures
            final(self).wf(),
            chunk_released(*old(self), *final(self), ptr, r),
    {
        let n = self.entries.len();
        let mut i: usize = 0;
        while i < n
            invariant
                self.wf(),
                *self == *old(self),
                n == self.entries@.len(),
                0 <= i <= n,
                forall|k: int| 0 <= k < i ==> !#[trigger] owns(self.entries@[k], ptr),
            decreases n - i,
        {
            let mut e = self.entries[i];
            if e.dealloc(ptr) {
                proof {
                    assert(first_owner(old(self).entries@, ptr, i as int));
                }
                self.entries.set(i, e);
                return true;
            }
            i = i + 1;
        }
        false
    }
}


/// Why a heap block could not be freed.
#[derive(Clone, Copy, PartialEq, Eq, Structural, Debug)]
pub enum FreeError {
    /// No block starts at the address.
    NotAllocated,
    /// The block at the address has another length.
    WrongSize,
    /// The page with this index is the first of the block that is not
    /// mapped to an allocated physical page.
    Unmapped(u64),
}

/// The first block of `s` that starts at `start` is `i`.
pub open spec fn first_block(s: Seq<MemByteBuffer>, start: u64, i: int) -> bool {
    &&& 0 <= i < s.len()
    &&& s[i].start == start
    &&& forall|k: int| 0 <= k < i ==> #[trigger] s[k].start != start
}

/// The blocks of whole pages: one record per block. The records are held
/// in `entries`; the table that reserves room for them, `pages` pages
/// mapped at `table` with room for `capacity` records of `RECORD_BYTES`
/// bytes, is grown when it is full.
pub struct BigBufferVec {
    pub table: u64,
    pub pages: u64,
    pub capacity: u64,
    pub entries: Vec<MemByteBuffer>,
}

/// What `BigBufferVec::allocate` does, from `v0` to `v1` with pager `p0`
/// before and memory `m1` after, returning `r`: on success a record of the
/// new block is appended, the table grown first if it was full, and the
/// block's pages are mapped at the end.
pub open spec fn big_allocated(
    v0: BigBufferVec,
    v1: BigBufferVec,
    pages: u64,
    p0: Pager,
    m0: Seq<u64>,
    m1: Seq<u64>,
    cr3: u64,
    r: Option<u64>,
) -> bool {
    &&& r is None ==> v1.entries@ == v0.entries@
    &&& r matches Some(p) ==> {
        &&& v1.entries@ == v0.entries@.push(MemByteBuffer { start: p as usize, size: (pages * 4096) as usize })
        &&& p <= usize::MAX
        &&& pages * 4096 <= usize::MAX
        &&& v0.entries@.len() < v0.capacity ==> v1.table == v0.table && v1.pages == v0.pages && v1.capacity
            == v0.capacity
        &&& v0.entries@.len() >= v0.capacity ==> v1.pages == grown_pages(v0.pages as int)
        &&& exists|s: int|
            p == canonical(s) && forall|k: int|
                s <= k < s + pages ==> #[trigger] mapped(m1, cr3 & p0.phy_page_mask, p0.phy_page_mask, k)
        &&& v0.entries@.len() < v0.capacity ==> exists|s: int|
            #[trigger] lin_hole(m0, cr3 & p0.phy_page_mask, p0.phy_page_mask, pages as int, true, s) && (forall|t: int|
                t < s ==> !#[trigger] lin_hole(m0, cr3 & p0.phy_page_mask, p0.phy_page_mask, pages as int, true, t))
                && p == canonical(s)
    }
}

/// What `BigBufferVec::dealloc` does, from `v0` to `v1` with pager `p0`
/// before and memory `m1` after, returning `r`.
pub open spec fn big_released(
    v0: BigBufferVec,
    v1: BigBufferVec,
    start: u64,
    pages: u64,
    p0: Pager,
    m1: Seq<u64>,
    cr3: u64,
    r: Result<(), FreeError>,
) -> bool {
    let first = (start & p0.lin_addr_mask) / 4096;
    &&& v1.table == v0.table
    &&& v1.pages == v0.pages
    &&& v1.capacity == v0.capacity
    &&& (r == Err::<(), FreeError>(FreeError::NotAllocated)) == (forall|i: int|
        0 <= i < v0.entries@.len() ==> #[trigger] v0.entries@[i].start != start)
    &&& forall|i: int|
        #[trigger] first_block(v0.entries@, start, i) ==> {
            &&& (r == Err::<(), FreeError>(FreeError::WrongSize)) == (v0.entries@[i].size != pages * 4096)
            &&& r is Ok ==> v1.entries@ == v0.entries@.update(i, v0.entries@.last()).drop_last() && forall|k: int|
                first <= k < first + pages ==> !#[trigger] mapped(m1, cr3 & p0.phy_page_mask, p0.phy_page_mask, k)
            &&& r matches Err(FreeError::Unmapped(p)) ==> first <= p < first + pages
        }
    &&& r is Err ==> v1.entries@ == v0.entries@
}

/// When `BigBufferVec::allocate` cannot fail on `v` for `pages` pages:
/// `usize` has 64 bits, the block's length fits in it, the table has room
/// for one more record, and the block can be mapped (`alloc_ready`) in the
/// tables at `pml4`.
pub open spec fn big_ready(v: BigBufferVec, pages: u64, mem: Seq<u64>, phys: Seq<PageUse>, pml4: u64, mask: u64) -> bool {
    &&& usize::MAX == u64::MAX
    &&& pages <= 0xF_FFFF_FFFF_FFFF
    &&& v.entries@.len() < v.capacity
    &&& alloc_ready(mem, phys, pml4, mask, pages as int, true)
}

impl BigBufferVec {
    pub open spec fn wf(&self) -> bool {
        &&& self.pages <= 0x10_0000_0000
        &&& self.capacity == self.pages * 4096 / (RECORD_BYTES as int)
        &&& self.entries@.len() <= self.capacity
    }

    /// An empty buffer, with no table.
    pub fn new() -> (r: Self)
        ensures
            r.wf(),
            r.table == 0,
            r.pages == 0,
            r.entries@.len() == 0,
    {
        BigBufferVec { table: 0, pages: 0, capacity: 0, entries: Vec::new() }
    }

    /// Maps a block of `pages` fresh kernel pages, growing the table when
    /// it is full, records it and returns its address. `None` when pages
    /// cannot be had, or when the target's `usize` cannot hold the block's
    /// address or length.
    pub fn allocate(&mut self, pages: u64, pager: &mut Pager, mem: &mut [u64], cr3: u64) -> (r: Option<u64>)
        requires
            old(self).wf(),
            old(pager).wf(),
            old(pager).paging_type == PagingType::Level4,
            old(mem)@.len() >= old(pager).phys@.len() * 512,
        ensures
            final(self).wf(),
            pager_kept(*old(pager), *final(pager)),
            final(mem)@.len() == old(mem)@.len(),
            big_allocated(*old(self), *final(self), pages, *old(pager), old(mem)@, final(mem)@, cr3, r),
            big_ready(
                *old(self),
                pages,
                old(mem)@,
                old(pager).phys@,
                cr3 & old(pager).phy_page_mask,
                old(pager).phy_page_mask,
            ) ==> r is Some,
    {
        // Records hold addresses and lengths as usize.
        if usize::MAX as u64 != u64::MAX || pages > 0xF_FFFF_FFFF_FFFF {
            return None;
        }
        if self.entries.len() as u64 >= self.capacity {
            match grow_table(pager, mem, self.table, self.pages, cr3) {
                Some((t, np)) => {
                    self.table = t;
                    self.pages = np;
                    self.capacity = np * 4096 / RECORD_BYTES;
                },
                None => return None,
            }
        }
        let ghost m1 = mem@;
        let ghost ph1 = pager.phys@;
        let ptr = match alloc_pages(pager, mem, pages, true, cr3) {
            Some(p) => p,
            None => return None,
        };
        proof {
            let mask = old(pager).phy_page_mask;
            let s = choose|s: int|
                #[trigger] lin_hole(m1, cr3 & mask, mask, pages as int, true, s)
                && (forall|t: int| t < s ==> !#[trigger] lin_hole(m1, cr3 & mask, mask, pages as int, true, t))
                && ptr == canonical(s) && alloc_inv(
                    mem@,
                    ph1,
                    pager.phys@,
                    cr3 & mask,
                    mask,
                    entry_flags(true),
                    s,
                    s + pages,
                );
            assert forall|k: int| s <= k < s + pages implies #[trigger] mapped(mem@, cr3 & mask, mask, k) by {
                assert(fresh_mapping(mem@, ph1, pager.phys@, cr3 & mask, mask, entry_flags(true), k));
                reveal(fresh_mapping);
            }
        }
        self.entries.push(MemByteBuffer { start: ptr as usize, size: (pages * 4096) as usize });
        Some(ptr)
    }

    /// Unmaps and frees the block of `pages` pages at `start` and drops
    /// its record, moving the last record into its place. The block is the
    /// first recorded at `start`. `Err(NotAllocated)` when no block starts
    /// there, `Err(WrongSize)` when its length is not `pages` pages, and
    /// `Err(Unmapped(p))` when page `p` is the first not mapped to an
    /// allocated page (the pages before it are freed; the record stays).
    pub fn dealloc(&mut self, start: u64, pages: u64, pager: &mut Pager, mem: &mut [u64], cr3: u64) -> (r: Result<
        (),
        FreeError,
    >)
        requires
            old(self).wf(),
            old(pager).wf(),
            old(pager).paging_type == PagingType::Level4,
        ensures
            final(self).wf(),
            pager_kept(*old(pager), *final(pager)),
            final(mem)@.len() == old(mem)@.len(),
            big_released(*old(self), *final(self), start, pages, *old(pager), final(mem)@, cr3, r),
            freeable(
                old(mem)@,
                old(pager).phys@,
                cr3 & old(pager).phy_page_mask,
                old(pager).phy_page_mask,
                ((start & old(pager).lin_addr_mask) / 4096) as int,
                (start & old(pager).lin_addr_mask) / 4096 + pages,
            ) ==> !(r matches Err(FreeError::Unmapped(_))) && (r is Ok ==> freed_run(
                old(mem)@,
                final(pager).phys@,
                cr3 & old(pager).phy_page_mask,
                old(pager).phy_page_mask,
                ((start & old(pager).lin_addr_mask) / 4096) as int,
                (start & old(pager).lin_addr_mask) / 4096 + pages,
            )),
    {
        let n = self.entries.len();
        let mut i: usize = 0;
        while i < n
            invariant
                self.wf(),
                *self == *old(self),
                *pager == *old(pager),
                pager.wf(),
                pager.paging_type == PagingType::Level4,
                mem@ == old(mem)@,
                n == self.entries@.len(),
                0 <= i <= n,
                forall|k: int| 0 <= k < i ==> #[trigger] self.entries@[k].start != start,
            decreases n - i,
        {
            if self.entries[i].start as u64 == start {
                assert(first_block(old(self).entries@, start, i as int));
                let size = self.entries[i].size as u64;
                if pages > 0xF_FFFF_FFFF_FFFF || size != pages * 4096 {
                    return Err(FreeError::WrongSize);
                }
                let mask = pager.lin_addr_mask;
                assert(start & mask <= start) by (bit_vector);
                match ptr_pages(pager, mem, start, pages as usize, cr3) {
                    Ok(()) => {},
                    Err(p) => return Err(FreeError::Unmapped(p)),
                }
                self.entries.swap_remove(i);
                return Ok(());
            }
            i = i + 1;
        }
        Err(FreeError::NotAllocated)
    }
}


/// The size class of a request of `size` bytes: 0 to 5 for slots of 64,
/// 128, 256, 512, 1024 and 2048 bytes, 6 for blocks of whole pages.
pub open spec fn size_class(size: int) -> int {
    if size <= 64 {
        0
    } else if size <= 128 {
        1
    } else if size <= 256 {
        2
    } else if size <= 512 {
        3
    } else if size <= 1024 {
        4
    } else if size <= 2048 {
        5
    } else {
        6
    }
}

/// Pages of a block of `size` bytes.
pub open spec fn block_pages(size: int) -> int {
    (size + 4095) / 4096
}

/// The kernel heap: a buffer of slots for each of six sizes (64 slots of
/// 64 bytes a page, 32 of 128, 16 of 256, 8 of 512, 4 of 1024, 2 of 2048)
/// and one of blocks of whole pages.
pub struct Heap {
    pub b64: ChunkBufferVec<64>,
    pub b128: ChunkBufferVec<32>,
    pub b256: ChunkBufferVec<16>,
    pub b512: ChunkBufferVec<8>,
    pub b1024: ChunkBufferVec<4>,
    pub b2048: ChunkBufferVec<2>,
    pub big: BigBufferVec,
}

impl Heap {
    pub open spec fn wf(&self) -> bool {
        &&& self.b64.wf()
        &&& self.b128.wf()
        &&& self.b256.wf()
        &&& self.b512.wf()
        &&& self.b1024.wf()
        &&& self.b2048.wf()
        &&& self.big.wf()
    }

    /// When `allocate` cannot fail for `size` bytes: the buffer of `size`'s
    /// class is ready (`chunk_ready` or `big_ready`).
    pub open spec fn ready(&self, size: int, mem: Seq<u64>, phys: Seq<PageUse>, pml4: u64, mask: u64) -> bool {
        let c = size_class(size);
        &&& c == 0 ==> chunk_ready(self.b64, mem, phys, pml4, mask)
        &&& c == 1 ==> chunk_ready(self.b128, mem, phys, pml4, mask)
        &&& c == 2 ==> chunk_ready(self.b256, mem, phys, pml4, mask)
        &&& c == 3 ==> chunk_ready(self.b512, mem, phys, pml4, mask)
        &&& c == 4 ==> chunk_ready(self.b1024, mem, phys, pml4, mask)
        &&& c == 5 ==> chunk_ready(self.b2048, mem, phys, pml4, mask)
        &&& c == 6 ==> big_ready(self.big, block_pages(size) as u64, mem, phys, pml4, mask)
    }

    /// Every buffer but that of class `c` is the same in `self` and `h`.
    pub open spec fn same_but(&self, h: Heap, c: int) -> bool {
        &&& c != 0 ==> h.b64 == self.b64
        &&& c != 1 ==> h.b128 == self.b128
        &&& c != 2 ==> h.b256 == self.b256
        &&& c != 3 ==> h.b512 == self.b512
        &&& c != 4 ==> h.b1024 == self.b1024
        &&& c != 5 ==> h.b2048 == self.b2048
        &&& c != 6 ==> h.big == self.big
    }

    /// An empty heap.
    pub fn new() -> (r: Self)
        ensures
            r.wf(),
            r.b64.entries@.len() == 0,
            r.b128.entries@.len() == 0,
            r.b256.entries@.len() == 0,
            r.b512.entries@.len() == 0,
            r.b1024.entries@.len() == 0,
            r.b2048.entries@.len() == 0,
            r.big.entries@.len() == 0,
            r.b64.table == 0 && r.b64.pages == 0,
            r.b128.table == 0 && r.b128.pages == 0,
            r.b256.table == 0 && r.b256.pages == 0,
            r.b512.table == 0 && r.b512.pages == 0,
            r.b1024.table == 0 && r.b1024.pages == 0,
            r.b2048.table == 0 && r.b2048.pages == 0,
            r.big.table == 0 && r.big.pages == 0,
    {
        Heap {
            b64: ChunkBufferVec::new(),
            b128: ChunkBufferVec::new(),
            b256: ChunkBufferVec::new(),
            b512: ChunkBufferVec::new(),
            b1024: ChunkBufferVec::new(),
            b2048: ChunkBufferVec::new(),
            big: BigBufferVec::new(),
        }
    }

    /// Pages of a block of `size` bytes: `size` rounded up to pages.
    pub fn block_pages(size: usize) -> (r: u64)
        ensures
            r == block_pages(size as int),
    {
        let whole = size / 4096;
        let rest: usize = if size % 4096 != 0 { 1 } else { 0 };
        assert(whole + rest == (size + 4095) / 4096) by (nonlinear_arith)
            requires
                whole == size / 4096,
                rest == (if size % 4096 != 0 { 1int } else { 0int }),
        ;
        (whole + rest) as u64
    }

    /// Allocates `size` bytes: a slot of the smallest size class that holds
    /// them, or, above 2048 bytes, a block of whole pages. `None` when
    /// pages cannot be had.
    pub fn allocate(&mut self, size: usize, pager: &mut Pager, mem: &mut [u64], cr3: u64) -> (r: Option<u64>)
        requires
            old(self).wf(),
            old(pager).wf(),
            old(pager).paging_type == PagingType::Level4,
            old(mem)@.len() >= old(pager).phys@.len() * 512,
        ensures
            final(self).wf(),
            pager_kept(*old(pager), *final(pager)),
            final(mem)@.len() == old(mem)@.len(),
            old(self).same_but(*final(self), size_class(size as int)),
            size_class(size as int) == 0 ==> chunk_allocated(old(self).b64, final(self).b64, *old(pager), *final(pager), old(mem)@, final(mem)@, cr3, r),
            size_class(size as int) == 1 ==> chunk_allocated(old(self).b128, final(self).b128, *old(pager), *final(pager), old(mem)@, final(mem)@, cr3, r),
            size_class(size as int) == 2 ==> chunk_allocated(old(self).b256, final(self).b256, *old(pager), *final(pager), old(mem)@, final(mem)@, cr3, r),
            size_class(size as int) == 3 ==> chunk_allocated(old(self).b512, final(self).b512, *old(pager), *final(pager), old(mem)@, final(mem)@, cr3, r),
            size_class(size as int) == 4 ==> chunk_allocated(old(self).b1024, final(self).b1024, *old(pager), *final(pager), old(mem)@, final(mem)@, cr3, r),
            size_class(size as int) == 5 ==> chunk_allocated(old(self).b2048, final(self).b2048, *old(pager), *final(pager), old(mem)@, final(mem)@, cr3, r),
            size_class(size as int) == 6 ==> big_allocated(old(self).big, final(self).big, block_pages(size as int) as u64, *old(pager), old(mem)@, final(mem)@, cr3, r),
            old(self).ready(size as int, old(mem)@, old(pager).phys@, cr3 & old(pager).phy_page_mask, old(pager).phy_page_mask)
                ==> r is Some,
    {
        if size <= 64 {
            self.b64.allocate(pager, mem, cr3)
        } else if size <= 128 {
            self.b128.allocate(pager, mem, cr3)
        } else if size <= 256 {
            self.b256.allocate(pager, mem, cr3)
        } else if size <= 512 {
            self.b512.allocate(pager, mem, cr3)
        } else if size <= 1024 {
            self.b1024.allocate(pager, mem, cr3)
        } else if size <= 2048 {
            self.b2048.allocate(pager, mem, cr3)
        } else {
            let pages = Self::block_pages(size);
            self.big.allocate(pages, pager, mem, cr3)
        }
    }

    /// Frees the `size` bytes at `ptr`: releases its slot in the buffer of
    /// `size`'s class, or, above 2048 bytes, unmaps and frees its block.
    /// `Err(FreeError::NotAllocated)` when no slot or block of the class
    /// holds `ptr`.
    pub fn dealloc(&mut self, ptr: u64, size: usize, pager: &mut Pager, mem: &mut [u64], cr3: u64) -> (r: Result<
        (),
        FreeError,
    >)
        requires
            old(self).wf(),
            old(pager).wf(),
            old(pager).paging_type == PagingType::Level4,
        ensures
            final(self).wf(),
            pager_kept(*old(pager), *final(pager)),
            final(mem)@.len() == old(mem)@.len(),
            old(self).same_but(*final(self), size_class(size as int)),
            size_class(size as int) < 6 ==> *final(pager) == *old(pager) && final(mem)@ == old(mem)@ && (r is Ok
                || r == Err::<(), FreeError>(FreeError::NotAllocated)),
            size_class(size as int) == 0 ==> chunk_released(old(self).b64, final(self).b64, ptr, r is Ok),
            size_class(size as int) == 1 ==> chunk_released(old(self).b128, final(self).b128, ptr, r is Ok),
            size_class(size as int) == 2 ==> chunk_released(old(self).b256, final(self).b256, ptr, r is Ok),
            size_class(size as int) == 3 ==> chunk_released(old(self).b512, final(self).b512, ptr, r is Ok),
            size_class(size as int) == 4 ==> chunk_released(old(self).b1024, final(self).b1024, ptr, r is Ok),
            size_class(size as int) == 5 ==> chunk_released(old(self).b2048, final(self).b2048, ptr, r is Ok),
            size_class(size as int) == 6 ==> big_released(old(self).big, final(self).big, ptr, block_pages(size as int) as u64, *old(pager), final(mem)@, cr3, r),
            size_class(size as int) == 6 && freeable(
                old(mem)@,
                old(pager).phys@,
                cr3 & old(pager).phy_page_mask,
                old(pager).phy_page_mask,
                ((ptr & old(pager).lin_addr_mask) / 4096) as int,
                (ptr & old(pager).lin_addr_mask) / 4096 + block_pages(size as int),
            ) ==> !(r matches Err(FreeError::Unmapped(_))) && (r is Ok ==> freed_run(
                old(mem)@,
                final(pager).phys@,
                cr3 & old(pager).phy_page_mask,
                old(pager).phy_page_mask,
                ((ptr & old(pager).lin_addr_mask) / 4096) as int,
                (ptr & old(pager).lin_addr_mask) / 4096 + block_pages(size as int),
            )),
    {
        let found = if size <= 64 {
            self.b64.dealloc(ptr)
        } else if size <= 128 {
            self.b128.dealloc(ptr)
        } else if size <= 256 {
            self.b256.dealloc(ptr)
        } else if size <= 512 {
            self.b512.dealloc(ptr)
        } else if size <= 1024 {
            self.b1024.dealloc(ptr)
        } else if size <= 2048 {
            self.b2048.dealloc(ptr)
        } else {
            let pages = Self::block_pages(size);
            return self.big.dealloc(ptr, pages, pager, mem, cr3);
        };
        if found {
            Ok(())
        } else {
            Err(FreeError::NotAllocated)
        }
    }
}


/// Taking the lowest free slot `j` of an entry and then releasing the
/// address handed out: the entry claims that address exactly when `j` is
/// its page's first slot (the release measures the entry's address minus
/// the freed one), and then the usage word is back to what it was.
pub proof fn lemma_slot_round_trip<const S: usize>(e: BufferEntry<S>, j: int)
    requires
        1 <= S <= 64,
        e.ptr % 4096 == 0,
        lowest_clear(e.usage, S as int, j),
    ensures
        ({
            let p = (e.ptr + j * BufferEntry::<S>::slot_size()) as u64;
            let e1 = BufferEntry::<S> { ptr: e.ptr, usage: e.usage | (1u64 << (j as u64)) };
            &&& owns(e1, p) == (j == 0)
            &&& j == 0 ==> e1.usage & !(1u64 << (wrapping_diff(e.ptr, p) / (BufferEntry::<S>::slot_size()
                as u64))) == e.usage
        }),
{
    let slot = BufferEntry::<S>::slot_size();
    assert(slot >= 64) by (nonlinear_arith)
        requires slot == 4096int / (S as int), 1 <= S <= 64;
    assert(j * slot + slot <= 4096) by (nonlinear_arith)
        requires 0 <= j < S, slot == 4096int / (S as int), 1 <= S;
    let pp = e.ptr;
    assert(pp <= u64::MAX - 4095) by (nonlinear_arith)
        requires pp % 4096 == 0, pp <= u64::MAX;
    let p = (e.ptr + j * slot) as u64;
    if j == 0 {
        assert(j * slot == 0) by (nonlinear_arith)
            requires j == 0;
        assert(wrapping_diff(e.ptr, p) == 0);
        let u = e.usage;
        assert(!bit(u, 0));
        let sl = slot as u64;
        assert(0u64 / sl == 0u64);
        assert((u | (1u64 << 0u64)) & !(1u64 << 0u64) == u) by (bit_vector)
            requires (u >> 0u64) & 1 != 1;
    } else {
        assert(j * slot >= 64) by (nonlinear_arith)
            requires j >= 1, slot >= 64;
        assert(wrapping_diff(e.ptr, p) >= 4096);
    }
}

/// A block handed out by `BigBufferVec::allocate` at an address where no
/// earlier block starts, then freed with the same length: the record is
/// found and its length agrees, and when the pages are freed the records
/// are back to what they were.
pub proof fn lemma_block_round_trip(
    v0: BigBufferVec,
    v1: BigBufferVec,
    v2: BigBufferVec,
    pages: u64,
    p0: Pager,
    p1: Pager,
    m0: Seq<u64>,
    m1: Seq<u64>,
    m2: Seq<u64>,
    cr3: u64,
    p: u64,
    r: Result<(), FreeError>,
)
    requires
        big_allocated(v0, v1, pages, p0, m0, m1, cr3, Some(p)),
        forall|i: int| 0 <= i < v0.entries@.len() ==> #[trigger] v0.entries@[i].start != p,
        big_released(v1, v2, p, pages, p1, m2, cr3, r),
    ensures
        r != Err::<(), FreeError>(FreeError::NotAllocated),
        r != Err::<(), FreeError>(FreeError::WrongSize),
        r is Ok ==> v2.entries@ == v0.entries@,
{
    let n = v0.entries@.len() as int;
    assert(v1.entries@[n].start == p);
    assert(first_block(v1.entries@, p, n));
    if r is Ok {
        assert(v1.entries@.update(n, v1.entries@.last()).drop_last() =~= v0.entries@);
    }
}

} // verus!
