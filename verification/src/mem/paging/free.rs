//! Unmapping linear pages and freeing the physical pages behind them.

use vstd::prelude::*;
use super::{PageUse, Pager, PagingType};
use crate::mem::MemPageBuffer;
use super::level4::{
    check_mapped, frame_in_use, frame_of, free_page, l1_index, l2_index, l3_index, l4_index, leaf_of,
    lemma_zero_write_unmaps, mapped, next_table, pd_of, pdpt_of, pt_of, slot, word,
};

verus! {

/// Between `ph0` and `ph1` pages only became free.
pub open spec fn only_freed(ph0: Seq<PageUse>, ph1: Seq<PageUse>) -> bool {
    &&& ph1.len() == ph0.len()
    &&& forall|i: int| 0 <= i < ph0.len() ==> #[trigger] ph1[i] == ph0[i] || ph1[i] == PageUse::Free
}

/// The word holding the page-table entry of page `k`.
pub open spec fn leaf_slot(mem: Seq<u64>, pml4: u64, mask: u64, k: int) -> int {
    slot(pt_of(mem, pml4, mask, k), l1_index(k))
}

/// The physical page that page `k` is mapped to.
pub open spec fn leaf_frame_of(mem: Seq<u64>, pml4: u64, mask: u64, k: int) -> int {
    frame_of(next_table(leaf_of(mem, pml4, mask, k), mask))
}

/// Word `w` is one of the four entries on the path of page `k`.
pub open spec fn reads_slot(mem: Seq<u64>, pml4: u64, mask: u64, k: int, w: int) -> bool {
    ||| w == slot(pml4, l4_index(k))
    ||| w == slot(pdpt_of(mem, pml4, mask, k), l3_index(k))
    ||| w == slot(pd_of(mem, pml4, mask, k), l2_index(k))
    ||| w == leaf_slot(mem, pml4, mask, k)
}

/// Pages `[a, b)` can be unmapped and freed one after another: each is
/// mapped to an allocated page, no two to the same page, and the entry of
/// one is not on the path of another.
pub open spec fn freeable(mem: Seq<u64>, phys: Seq<PageUse>, pml4: u64, mask: u64, a: int, b: int) -> bool {
    &&& forall|k: int| a <= k < b ==> #[trigger] frame_in_use(mem, phys, pml4, mask, k)
    &&& forall|k1: int, k2: int|
        a <= k1 < b && a <= k2 < b && k1 != k2 ==> #[trigger] leaf_frame_of(mem, pml4, mask, k1)
            != #[trigger] leaf_frame_of(mem, pml4, mask, k2) && !reads_slot(
            mem,
            pml4,
            mask,
            k2,
            leaf_slot(mem, pml4, mask, k1),
        )
}

/// Writing one word that is not on the path of mapped page `k` leaves its
/// path and entry as they were.
pub(crate) proof fn lemma_walk_unwritten(m: Seq<u64>, w: int, v: u64, pml4: u64, mask: u64, k: int)
    requires
        mapped(m, pml4, mask, k),
        !reads_slot(m, pml4, mask, k, w),
        0 <= w < m.len(),
    ensures
        pdpt_of(m.update(w, v), pml4, mask, k) == pdpt_of(m, pml4, mask, k),
        pd_of(m.update(w, v), pml4, mask, k) == pd_of(m, pml4, mask, k),
        pt_of(m.update(w, v), pml4, mask, k) == pt_of(m, pml4, mask, k),
        leaf_of(m.update(w, v), pml4, mask, k) == leaf_of(m, pml4, mask, k),
        mapped(m.update(w, v), pml4, mask, k),
        leaf_slot(m.update(w, v), pml4, mask, k) == leaf_slot(m, pml4, mask, k),
        leaf_frame_of(m.update(w, v), pml4, mask, k) == leaf_frame_of(m, pml4, mask, k),
{
    vstd::arithmetic::div_mod::lemma_mod_bound(k / 134217728, 512);
    vstd::arithmetic::div_mod::lemma_mod_bound(k / 262144, 512);
    vstd::arithmetic::div_mod::lemma_mod_bound(k / 512, 512);
    vstd::arithmetic::div_mod::lemma_mod_bound(k, 512);
    let m2 = m.update(w, v);
    assert(word(m2, pml4, l4_index(k)) == word(m, pml4, l4_index(k)));
    let t3 = pdpt_of(m, pml4, mask, k);
    assert(word(m2, t3, l3_index(k)) == word(m, t3, l3_index(k)));
    let t2 = pd_of(m, pml4, mask, k);
    assert(word(m2, t2, l2_index(k)) == word(m, t2, l2_index(k)));
    let t1 = pt_of(m, pml4, mask, k);
    assert(word(m2, t1, l1_index(k)) == word(m, t1, l1_index(k)));
}

/// The entry of a mapped page lies in `mem`.
pub(crate) proof fn lemma_leaf_slot_in(m: Seq<u64>, pml4: u64, mask: u64, k: int)
    requires
        mapped(m, pml4, mask, k),
    ensures
        0 <= leaf_slot(m, pml4, mask, k) < m.len(),
{
    vstd::arithmetic::div_mod::lemma_mod_bound(k, 512);
}

/// Unmapping and freeing page `a` leaves page `k` as it was, when their
/// frames differ and `a`'s entry is not on `k`'s path.
proof fn lemma_other_kept(m: Seq<u64>, ph: Seq<PageUse>, pml4: u64, mask: u64, a: int, k: int)
    requires
        frame_in_use(m, ph, pml4, mask, a),
        frame_in_use(m, ph, pml4, mask, k),
        leaf_frame_of(m, pml4, mask, a) != leaf_frame_of(m, pml4, mask, k),
        !reads_slot(m, pml4, mask, k, leaf_slot(m, pml4, mask, a)),
    ensures
        ({
            let m2 = m.update(leaf_slot(m, pml4, mask, a), 0);
            let ph2 = ph.update(leaf_frame_of(m, pml4, mask, a), PageUse::Free);
            &&& frame_in_use(m2, ph2, pml4, mask, k)
            &&& leaf_frame_of(m2, pml4, mask, k) == leaf_frame_of(m, pml4, mask, k)
            &&& leaf_slot(m2, pml4, mask, k) == leaf_slot(m, pml4, mask, k)
            &&& pdpt_of(m2, pml4, mask, k) == pdpt_of(m, pml4, mask, k)
            &&& pd_of(m2, pml4, mask, k) == pd_of(m, pml4, mask, k)
        }),
{
    lemma_leaf_slot_in(m, pml4, mask, a);
    lemma_walk_unwritten(m, leaf_slot(m, pml4, mask, a), 0, pml4, mask, k);
}

/// Freeing the first page of a freeable run leaves the rest freeable.
proof fn lemma_freeable_step(
    m: Seq<u64>,
    ph: Seq<PageUse>,
    pml4: u64,
    mask: u64,
    a: int,
    b: int,
)
    requires
        freeable(m, ph, pml4, mask, a, b),
        a < b,
    ensures
        freeable(
            m.update(leaf_slot(m, pml4, mask, a), 0),
            ph.update(leaf_frame_of(m, pml4, mask, a), PageUse::Free),
            pml4,
            mask,
            a + 1,
            b,
        ),
{
    let m2 = m.update(leaf_slot(m, pml4, mask, a), 0);
    let ph2 = ph.update(leaf_frame_of(m, pml4, mask, a), PageUse::Free);
    assert(frame_in_use(m, ph, pml4, mask, a));
    assert forall|k: int| a + 1 <= k < b implies #[trigger] frame_in_use(m2, ph2, pml4, mask, k) by {
        assert(frame_in_use(m, ph, pml4, mask, k));
        assert(leaf_frame_of(m, pml4, mask, a) != leaf_frame_of(m, pml4, mask, k));
        lemma_other_kept(m, ph, pml4, mask, a, k);
    }
    assert forall|k1: int, k2: int|
        a + 1 <= k1 < b && a + 1 <= k2 < b && k1 != k2 implies #[trigger] leaf_frame_of(m2, pml4, mask, k1)
        != #[trigger] leaf_frame_of(m2, pml4, mask, k2) && !reads_slot(m2, pml4, mask, k2, leaf_slot(m2, pml4, mask, k1)) by {
        assert(frame_in_use(m, ph, pml4, mask, k1));
        assert(frame_in_use(m, ph, pml4, mask, k2));
        assert(leaf_frame_of(m, pml4, mask, a) != leaf_frame_of(m, pml4, mask, k1));
        assert(leaf_frame_of(m, pml4, mask, a) != leaf_frame_of(m, pml4, mask, k2));
        lemma_other_kept(m, ph, pml4, mask, a, k1);
        lemma_other_kept(m, ph, pml4, mask, a, k2);
        assert(!reads_slot(m, pml4, mask, k2, leaf_slot(m, pml4, mask, k1)));
    }
}

/// The pages that the pages `[a, b)` were mapped to in `mem` are free in
/// `phys`.
pub open spec fn freed_run(mem: Seq<u64>, phys: Seq<PageUse>, pml4: u64, mask: u64, a: int, b: int) -> bool {
    forall|k: int|
        a <= k < b ==> 0 <= #[trigger] leaf_frame_of(mem, pml4, mask, k) < phys.len() && phys[leaf_frame_of(
            mem,
            pml4,
            mask,
            k,
        )] == PageUse::Free
}

/// Freeing the page that page `b` was mapped to extends the freed run.
proof fn lemma_freed_step(
    mem: Seq<u64>,
    ph0: Seq<PageUse>,
    ph1: Seq<PageUse>,
    pml4: u64,
    mask: u64,
    a: int,
    b: int,
    f: int,
)
    requires
        freed_run(mem, ph0, pml4, mask, a, b),
        0 <= f < ph0.len(),
        ph1 == ph0.update(f, PageUse::Free),
        f == leaf_frame_of(mem, pml4, mask, b),
    ensures
        freed_run(mem, ph1, pml4, mask, a, b + 1),
{
}

/// Unmaps the `buffer.pages` linear pages from `buffer.start` on in the
/// tables at `cr3` and frees the physical page behind each. `Err(p)` when
/// page `p` is the first that is not mapped to an allocated physical page
/// (the pages before it are already freed).
pub fn pages_buffer(pager: &mut Pager, mem: &mut [u64], buffer: MemPageBuffer, cr3: u64) -> (r: Result<(), u64>)
    requires
        old(pager).wf(),
        old(pager).paging_type == PagingType::Level4,
        buffer.start + buffer.pages <= u64::MAX,
    ensures
        final(pager).wf(),
        final(pager).phy_page_mask == old(pager).phy_page_mask,
        final(pager).paging_type == old(pager).paging_type,
        final(pager).lin_addr_mask == old(pager).lin_addr_mask,
        final(pager).to_high_mask == old(pager).to_high_mask,
        final(pager).phy_addr_bits == old(pager).phy_addr_bits,
        final(mem)@.len() == old(mem)@.len(),
        only_freed(old(pager).phys@, final(pager).phys@),
        freeable(
            old(mem)@,
            old(pager).phys@,
            cr3 & old(pager).phy_page_mask,
            old(pager).phy_page_mask,
            buffer.start as int,
            buffer.start + buffer.pages,
        ) ==> r is Ok,
        forall|w: int| 0 <= w < old(mem)@.len() && #[trigger] final(mem)@[w] != old(mem)@[w] ==> final(mem)@[w] == 0,
        freeable(
            old(mem)@,
            old(pager).phys@,
            cr3 & old(pager).phy_page_mask,
            old(pager).phy_page_mask,
            buffer.start as int,
            buffer.start + buffer.pages,
        ) ==> forall|w: int|
            0 <= w < old(mem)@.len() && #[trigger] final(mem)@[w] != old(mem)@[w] ==> exists|k: int|
                buffer.start <= k < buffer.start + buffer.pages && w == #[trigger] leaf_slot(
                    old(mem)@,
                    cr3 & old(pager).phy_page_mask,
                    old(pager).phy_page_mask,
                    k,
                ),
        freeable(
            old(mem)@,
            old(pager).phys@,
            cr3 & old(pager).phy_page_mask,
            old(pager).phy_page_mask,
            buffer.start as int,
            buffer.start + buffer.pages,
        ) ==> (r is Ok ==> freed_run(
            old(mem)@,
            final(pager).phys@,
            cr3 & old(pager).phy_page_mask,
            old(pager).phy_page_mask,
            buffer.start as int,
            buffer.start + buffer.pages,
        )),
        match r {
            Ok(()) => forall|k: int|
                buffer.start <= k < buffer.start + buffer.pages ==> !#[trigger] mapped(
                    final(mem)@,
                    cr3 & old(pager).phy_page_mask,
                    old(pager).phy_page_mask,
                    k,
                ),
            Err(p) => {
                &&& buffer.start <= p < buffer.start + buffer.pages
                &&& !frame_in_use(
                    final(mem)@,
                    final(pager).phys@,
                    cr3 & old(pager).phy_page_mask,
                    old(pager).phy_page_mask,
                    p as int,
                )
                &&& forall|k: int|
                    buffer.start <= k < p ==> !#[trigger] mapped(
                        final(mem)@,
                        cr3 & old(pager).phy_page_mask,
                        old(pager).phy_page_mask,
                        k,
                    )
            },
        },
{
    let mask = pager.phy_page_mask;
    let pml4 = cr3 & mask;
    let start = buffer.start as u64;
    let end = start + buffer.pages as u64;
    let mut page = start;
    let ghost ok = freeable(mem@, pager.phys@, pml4, mask, start as int, end as int);
    while page < end
        invariant
            ok == freeable(old(mem)@, old(pager).phys@, pml4, mask, start as int, end as int),
            ok ==> freeable(mem@, pager.phys@, pml4, mask, page as int, end as int),
            ok ==> forall|k: int| page <= k < end ==> #[trigger] leaf_slot(mem@, pml4, mask, k) == leaf_slot(
                old(mem)@,
                pml4,
                mask,
                k,
            ),
            ok ==> forall|k: int| page <= k < end ==> #[trigger] leaf_frame_of(mem@, pml4, mask, k) == leaf_frame_of(
                old(mem)@,
                pml4,
                mask,
                k,
            ),
            ok ==> freed_run(old(mem)@, pager.phys@, pml4, mask, start as int, page as int),
            ok ==> forall|w: int|
                0 <= w < old(mem)@.len() && #[trigger] mem@[w] != old(mem)@[w] ==> exists|k: int|
                    start <= k < page && w == #[trigger] leaf_slot(old(mem)@, pml4, mask, k),
            forall|w: int| 0 <= w < old(mem)@.len() && #[trigger] mem@[w] != old(mem)@[w] ==> mem@[w] == 0,
            pager.wf(),
            pager.phy_page_mask == mask,
            mask == old(pager).phy_page_mask,
            pager.paging_type == old(pager).paging_type,
            pager.lin_addr_mask == old(pager).lin_addr_mask,
            pager.to_high_mask == old(pager).to_high_mask,
            pager.phy_addr_bits == old(pager).phy_addr_bits,
            pml4 == cr3 & mask,
            start == buffer.start,
            end == buffer.start + buffer.pages,
            start <= page <= end,
            mem@.len() == old(mem)@.len(),
            only_freed(old(pager).phys@, pager.phys@),
            forall|k: int| start <= k < page ==> !#[trigger] mapped(mem@, pml4, mask, k),
        decreases end - page,
    {
        if !check_mapped(mem, &pager.phys, pml4, mask, page) {
            return Err(page);
        }
        let ghost m0 = mem@;
        let ghost ph0 = pager.phys@;
        free_page(mem, &mut pager.phys, page, pml4, mask);
        proof {
            if ok {
                assert(frame_in_use(m0, ph0, pml4, mask, page as int));
                lemma_leaf_slot_in(m0, pml4, mask, page as int);
                lemma_freeable_step(m0, ph0, pml4, mask, page as int, end as int);
                let ws = leaf_slot(m0, pml4, mask, page as int);
                assert(ws == leaf_slot(old(mem)@, pml4, mask, page as int));
                assert forall|k: int| page + 1 <= k < end implies #[trigger] leaf_slot(mem@, pml4, mask, k) == leaf_slot(
                    old(mem)@,
                    pml4,
                    mask,
                    k,
                ) by {
                    assert(frame_in_use(m0, ph0, pml4, mask, k));
                    assert(leaf_frame_of(m0, pml4, mask, page as int) != leaf_frame_of(m0, pml4, mask, k));
                    lemma_other_kept(m0, ph0, pml4, mask, page as int, k);
                    assert(leaf_slot(m0, pml4, mask, k) == leaf_slot(old(mem)@, pml4, mask, k));
                }
                assert forall|k: int| page + 1 <= k < end implies #[trigger] leaf_frame_of(mem@, pml4, mask, k)
                    == leaf_frame_of(old(mem)@, pml4, mask, k) by {
                    assert(frame_in_use(m0, ph0, pml4, mask, k));
                    assert(leaf_frame_of(m0, pml4, mask, page as int) != leaf_frame_of(m0, pml4, mask, k));
                    lemma_other_kept(m0, ph0, pml4, mask, page as int, k);
                    assert(leaf_frame_of(m0, pml4, mask, k) == leaf_frame_of(old(mem)@, pml4, mask, k));
                }
                lemma_freed_step(
                    old(mem)@,
                    ph0,
                    pager.phys@,
                    pml4,
                    mask,
                    start as int,
                    page as int,
                    leaf_frame_of(m0, pml4, mask, page as int),
                );
                assert forall|w: int|
                    0 <= w < old(mem)@.len() && #[trigger] mem@[w] != old(mem)@[w] implies exists|k: int|
                        start <= k < page + 1 && w == #[trigger] leaf_slot(old(mem)@, pml4, mask, k) by {
                    if w == ws {
                        assert(leaf_slot(old(mem)@, pml4, mask, page as int) == w);
                    } else {
                        assert(m0[w] != old(mem)@[w]);
                    }
                }
            }
            assert forall|w: int| 0 <= w < old(mem)@.len() && #[trigger] mem@[w] != old(mem)@[w] implies mem@[w] == 0 by {
                if mem@[w] != m0[w] {
                } else {
                    assert(m0[w] != old(mem)@[w]);
                }
            }
            let w = super::level4::slot(
                super::level4::pt_of(m0, pml4, mask, page as int),
                super::level4::l1_index(page as int),
            );
            assert forall|k: int| start <= k < page + 1 implies !#[trigger] mapped(mem@, pml4, mask, k) by {
                if mapped(mem@, pml4, mask, k) {
                    lemma_zero_write_unmaps(m0, w, pml4, mask, k);
                }
            }
            assert forall|i: int| 0 <= i < old(pager).phys@.len() implies #[trigger] pager.phys@[i]
                == old(pager).phys@[i] || pager.phys@[i] == PageUse::Free by {
                assert(ph0[i] == old(pager).phys@[i] || ph0[i] == PageUse::Free);
            }
        }
        page = page + 1;
    }
    Ok(())
}

/// Unmaps and frees the `pages` pages from linear address `ptr` on.
pub fn ptr_pages(pager: &mut Pager, mem: &mut [u64], ptr: u64, pages: usize, cr3: u64) -> (r: Result<(), u64>)
    requires
        old(pager).wf(),
        old(pager).paging_type == PagingType::Level4,
        pages <= u64::MAX - 0x0010_0000_0000_0000,
        (ptr & old(pager).lin_addr_mask) / 4096 <= usize::MAX,
    ensures
        final(pager).wf(),
        final(pager).phy_page_mask == old(pager).phy_page_mask,
        final(pager).paging_type == old(pager).paging_type,
        final(pager).lin_addr_mask == old(pager).lin_addr_mask,
        final(pager).to_high_mask == old(pager).to_high_mask,
        final(pager).phy_addr_bits == old(pager).phy_addr_bits,
        final(mem)@.len() == old(mem)@.len(),
        only_freed(old(pager).phys@, final(pager).phys@),
        ({
            let start = (ptr & old(pager).lin_addr_mask) / 4096;
            freeable(
                old(mem)@,
                old(pager).phys@,
                cr3 & old(pager).phy_page_mask,
                old(pager).phy_page_mask,
                start as int,
                start + pages,
            ) ==> r is Ok
        }),
        forall|w: int| 0 <= w < old(mem)@.len() && #[trigger] final(mem)@[w] != old(mem)@[w] ==> final(mem)@[w] == 0,
        ({
            let start = (ptr & old(pager).lin_addr_mask) / 4096;
            freeable(
                old(mem)@,
                old(pager).phys@,
                cr3 & old(pager).phy_page_mask,
                old(pager).phy_page_mask,
                start as int,
                start + pages,
            ) ==> forall|w: int|
                0 <= w < old(mem)@.len() && #[trigger] final(mem)@[w] != old(mem)@[w] ==> exists|k: int|
                    start <= k < start + pages && w == #[trigger] leaf_slot(
                        old(mem)@,
                        cr3 & old(pager).phy_page_mask,
                        old(pager).phy_page_mask,
                        k,
                    )
        }),
        ({
            let start = (ptr & old(pager).lin_addr_mask) / 4096;
            freeable(
                old(mem)@,
                old(pager).phys@,
                cr3 & old(pager).phy_page_mask,
                old(pager).phy_page_mask,
                start as int,
                start + pages,
            ) ==> (r is Ok ==> freed_run(
                old(mem)@,
                final(pager).phys@,
                cr3 & old(pager).phy_page_mask,
                old(pager).phy_page_mask,
                start as int,
                start + pages,
            ))
        }),
        ({
            let start = (ptr & old(pager).lin_addr_mask) / 4096;
            match r {
                Ok(()) => forall|k: int|
                    start <= k < start + pages ==> !#[trigger] mapped(
                        final(mem)@,
                        cr3 & old(pager).phy_page_mask,
                        old(pager).phy_page_mask,
                        k,
                    ),
                Err(p) => {
                    &&& start <= p < start + pages
                    &&& !frame_in_use(
                        final(mem)@,
                        final(pager).phys@,
                        cr3 & old(pager).phy_page_mask,
                        old(pager).phy_page_mask,
                        p as int,
                    )
                    &&& forall|k: int|
                        start <= k < p ==> !#[trigger] mapped(
                            final(mem)@,
                            cr3 & old(pager).phy_page_mask,
                            old(pager).phy_page_mask,
                            k,
                        )
                },
            }
        }),
{
    let start = (ptr & pager.lin_addr_mask) / 4096;
    assert(start <= 0x0010_0000_0000_0000);
    assert(start as usize as u64 == start);
    pages_buffer(pager, mem, MemPageBuffer { start: start as usize, pages }, cr3)
}

} // verus!
