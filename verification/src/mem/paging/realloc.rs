//! Moving a run of linear pages to a new, larger or smaller, run.

use vstd::prelude::*;
use super::{PageUse, Pager, PagingType, copy_page, page_word};
use super::allocate::{
    alloc_inv, alloc_pages, alloc_ready, alloc_writes, data_apart, entry_flags, fresh_mapping, present_kept, run_frame,
};
use super::free::{freeable, leaf_frame_of, leaf_slot, ptr_pages, reads_slot};
use super::level4::{
    lemma_zero_absent,
    check_mapped, frame_in_use, leaf_of, lin_hole, mapped, canonical, frame_of, l1_index, l2_index,
    l3_index, l4_index, lemma_slot_page, only_taken, path_tables_used, pd_of, pdpt_of, pt_of, slot, table_at,
    table_ok, word,
};

verus! {

/// Bit 63 of `ptr` is set: the address lies in the kernel half.
pub open spec fn in_kernel_half(ptr: u64) -> bool {
    (ptr >> 63u64) & 1 == 1
}

/// From `m1` to `m`, only the pages that the first `i` pages of the run
/// from `s` are mapped to (in `m1`) were written.
pub open spec fn copied_into(m1: Seq<u64>, m: Seq<u64>, pml4: u64, mask: u64, s: int, i: int) -> bool {
    &&& m.len() == m1.len()
    &&& forall|w: int|
        0 <= w < m1.len() && #[trigger] m[w] != m1[w] ==> exists|j: int|
            0 <= j < i && #[trigger] leaf_frame_of(m1, pml4, mask, s + j) == w / 512
}

/// A word of a table in use in `ph0` holding a present entry in `m0` still
/// holds it in `m`, when `m1` kept the present entries of pages in use and
/// `m` only differs from `m1` in pages free in `ph0`.
proof fn lemma_word_stays(
    m0: Seq<u64>,
    m1: Seq<u64>,
    m: Seq<u64>,
    ph0: Seq<PageUse>,
    pml4: u64,
    mask: u64,
    s: int,
    i: int,
    t: u64,
    j: int,
)
    requires
        present_kept(m0, m1, ph0),
        copied_into(m1, m, pml4, mask, s, i),
        forall|k: int|
            0 <= k < i ==> 0 <= #[trigger] leaf_frame_of(m1, pml4, mask, s + k) < ph0.len() && ph0[leaf_frame_of(
                m1,
                pml4,
                mask,
                s + k,
            )] == PageUse::Free,
        table_ok(m0, ph0, t),
        0 <= j < 512,
        super::level4::present(word(m0, t, j)),
    ensures
        word(m, t, j) == word(m0, t, j),
{
    lemma_slot_page(t, j);
    let w = slot(t, j);
    assert(m1[w] == m0[w]);
    if m[w] != m1[w] {
        let k = choose|k: int| 0 <= k < i && #[trigger] leaf_frame_of(m1, pml4, mask, s + k) == w / 512;
        assert(ph0[leaf_frame_of(m1, pml4, mask, s + k)] == PageUse::Free);
    }
}

/// A page of the old run walks in `m` as it did in `m0`, to a page that
/// is still in use.
proof fn lemma_src_walk(
    m0: Seq<u64>,
    m1: Seq<u64>,
    m: Seq<u64>,
    ph0: Seq<PageUse>,
    ph1: Seq<PageUse>,
    pml4: u64,
    mask: u64,
    s: int,
    i: int,
    k: int,
)
    requires
        present_kept(m0, m1, ph0),
        only_taken(ph0, ph1),
        copied_into(m1, m, pml4, mask, s, i),
        forall|j: int|
            0 <= j < i ==> 0 <= #[trigger] leaf_frame_of(m1, pml4, mask, s + j) < ph0.len() && ph0[leaf_frame_of(
                m1,
                pml4,
                mask,
                s + j,
            )] == PageUse::Free,
        frame_in_use(m0, ph0, pml4, mask, k),
        path_tables_used(m0, ph0, pml4, mask, k),
    ensures
        frame_in_use(m, ph1, pml4, mask, k),
        pdpt_of(m, pml4, mask, k) == pdpt_of(m0, pml4, mask, k),
        pd_of(m, pml4, mask, k) == pd_of(m0, pml4, mask, k),
        pt_of(m, pml4, mask, k) == pt_of(m0, pml4, mask, k),
        leaf_of(m, pml4, mask, k) == leaf_of(m0, pml4, mask, k),
        leaf_slot(m, pml4, mask, k) == leaf_slot(m0, pml4, mask, k),
        leaf_frame_of(m, pml4, mask, k) == leaf_frame_of(m0, pml4, mask, k),
{
    vstd::arithmetic::div_mod::lemma_mod_bound(k / 134217728, 512);
    vstd::arithmetic::div_mod::lemma_mod_bound(k / 262144, 512);
    vstd::arithmetic::div_mod::lemma_mod_bound(k / 512, 512);
    vstd::arithmetic::div_mod::lemma_mod_bound(k, 512);
    lemma_word_stays(m0, m1, m, ph0, pml4, mask, s, i, pml4, l4_index(k));
    lemma_word_stays(m0, m1, m, ph0, pml4, mask, s, i, pdpt_of(m0, pml4, mask, k), l3_index(k));
    lemma_word_stays(m0, m1, m, ph0, pml4, mask, s, i, pd_of(m0, pml4, mask, k), l2_index(k));
    lemma_word_stays(m0, m1, m, ph0, pml4, mask, s, i, pt_of(m0, pml4, mask, k), l1_index(k));
    let f = leaf_frame_of(m0, pml4, mask, k);
    assert(ph1[f] == ph0[f] || ph0[f] == PageUse::Free);
}

/// A page of the new run is still mapped, through the same entries, after
/// other pages of the run were written.
proof fn lemma_dst_walk(
    m0: Seq<u64>,
    m1: Seq<u64>,
    m: Seq<u64>,
    ph0: Seq<PageUse>,
    ph1: Seq<PageUse>,
    pml4: u64,
    mask: u64,
    s: int,
    n: int,
    i: int,
    k: int,
)
    requires
        alloc_inv(m1, ph0, ph1, pml4, mask, entry_flags(true), s, s + n)
            || alloc_inv(m1, ph0, ph1, pml4, mask, entry_flags(false), s, s + n),
        data_apart(m1, pml4, mask, s, s + n),
        copied_into(m1, m, pml4, mask, s, i),
        0 <= i <= n,
        s <= k < s + n,
    ensures
        frame_in_use(m, ph1, pml4, mask, k),
        leaf_frame_of(m, pml4, mask, k) == leaf_frame_of(m1, pml4, mask, k),
        pdpt_of(m, pml4, mask, k) == pdpt_of(m1, pml4, mask, k),
        pd_of(m, pml4, mask, k) == pd_of(m1, pml4, mask, k),
        pt_of(m, pml4, mask, k) == pt_of(m1, pml4, mask, k),
        leaf_slot(m, pml4, mask, k) == leaf_slot(m1, pml4, mask, k),
{
    let em = if alloc_inv(m1, ph0, ph1, pml4, mask, entry_flags(true), s, s + n) { entry_flags(true) } else {
        entry_flags(false)
    };
    assert(fresh_mapping(m1, ph0, ph1, pml4, mask, em, k));
    reveal(fresh_mapping);
    vstd::arithmetic::div_mod::lemma_mod_bound(k / 134217728, 512);
    vstd::arithmetic::div_mod::lemma_mod_bound(k / 262144, 512);
    vstd::arithmetic::div_mod::lemma_mod_bound(k / 512, 512);
    vstd::arithmetic::div_mod::lemma_mod_bound(k, 512);
    assert forall|t: u64, j: int|
        table_ok(m1, ph1, t) && 0 <= j < 512 && (t == pml4 || t == table_at(m1, pml4, mask, k, 3) || t == table_at(
            m1,
            pml4,
            mask,
            k,
            2,
        ) || t == table_at(m1, pml4, mask, k, 1)) implies #[trigger] word(m, t, j) == word(m1, t, j) by {
        lemma_slot_page(t, j);
        let w = slot(t, j);
        if m[w] != m1[w] {
            let jj = choose|jj: int| 0 <= jj < i && #[trigger] leaf_frame_of(m1, pml4, mask, s + jj) == w / 512;
            assert(leaf_frame_of(m1, pml4, mask, s + jj) != frame_of(table_at(m1, pml4, mask, k, 3)));
            assert(leaf_frame_of(m1, pml4, mask, s + jj) != frame_of(table_at(m1, pml4, mask, k, 2)));
            assert(leaf_frame_of(m1, pml4, mask, s + jj) != frame_of(table_at(m1, pml4, mask, k, 1)));
        }
    }
    assert(word(m, pml4, l4_index(k)) == word(m1, pml4, l4_index(k)));
    assert(word(m, pdpt_of(m1, pml4, mask, k), l3_index(k)) == word(m1, pdpt_of(m1, pml4, mask, k), l3_index(k)));
    assert(word(m, pd_of(m1, pml4, mask, k), l2_index(k)) == word(m1, pd_of(m1, pml4, mask, k), l2_index(k)));
    assert(word(m, pt_of(m1, pml4, mask, k), l1_index(k)) == word(m1, pt_of(m1, pml4, mask, k), l1_index(k)));
}

/// The pages that the run `[s, s + n)` is mapped to were free in `ph0`.
proof fn lemma_dst_frames_free(
    m1: Seq<u64>,
    ph0: Seq<PageUse>,
    ph1: Seq<PageUse>,
    pml4: u64,
    mask: u64,
    em: u64,
    s: int,
    n: int,
)
    requires
        alloc_inv(m1, ph0, ph1, pml4, mask, em, s, s + n),
        ph1.len() == ph0.len(),
    ensures
        forall|j: int|
            0 <= j < n ==> 0 <= #[trigger] leaf_frame_of(m1, pml4, mask, s + j) < ph0.len() && ph0[leaf_frame_of(
                m1,
                pml4,
                mask,
                s + j,
            )] == PageUse::Free,
{
    assert forall|j: int| 0 <= j < n implies 0 <= #[trigger] leaf_frame_of(m1, pml4, mask, s + j) < ph0.len()
        && ph0[leaf_frame_of(m1, pml4, mask, s + j)] == PageUse::Free by {
        assert(fresh_mapping(m1, ph0, ph1, pml4, mask, em, s + j));
        reveal(fresh_mapping);
    }
}

/// The old run stays freeable while only pages free in `ph0` are
/// written.
proof fn lemma_src_freeable(
    m0: Seq<u64>,
    m1: Seq<u64>,
    m: Seq<u64>,
    ph0: Seq<PageUse>,
    ph1: Seq<PageUse>,
    pml4: u64,
    mask: u64,
    s: int,
    i: int,
    a: int,
    b: int,
)
    requires
        freeable(m0, ph0, pml4, mask, a, b),
        forall|k: int| a <= k < b ==> #[trigger] path_tables_used(m0, ph0, pml4, mask, k),
        present_kept(m0, m1, ph0),
        only_taken(ph0, ph1),
        copied_into(m1, m, pml4, mask, s, i),
        forall|j: int|
            0 <= j < i ==> 0 <= #[trigger] leaf_frame_of(m1, pml4, mask, s + j) < ph0.len() && ph0[leaf_frame_of(
                m1,
                pml4,
                mask,
                s + j,
            )] == PageUse::Free,
    ensures
        freeable(m, ph1, pml4, mask, a, b),
{
    assert forall|k: int| a <= k < b implies #[trigger] frame_in_use(m, ph1, pml4, mask, k) by {
        assert(frame_in_use(m0, ph0, pml4, mask, k));
        assert(path_tables_used(m0, ph0, pml4, mask, k));
        lemma_src_walk(m0, m1, m, ph0, ph1, pml4, mask, s, i, k);
    }
    assert forall|k1: int, k2: int|
        a <= k1 < b && a <= k2 < b && k1 != k2 implies #[trigger] leaf_frame_of(m, pml4, mask, k1)
        != #[trigger] leaf_frame_of(m, pml4, mask, k2) && !reads_slot(m, pml4, mask, k2, leaf_slot(m, pml4, mask, k1)) by {
        assert(frame_in_use(m0, ph0, pml4, mask, k1));
        assert(path_tables_used(m0, ph0, pml4, mask, k1));
        assert(frame_in_use(m0, ph0, pml4, mask, k2));
        assert(path_tables_used(m0, ph0, pml4, mask, k2));
        lemma_src_walk(m0, m1, m, ph0, ph1, pml4, mask, s, i, k1);
        lemma_src_walk(m0, m1, m, ph0, ph1, pml4, mask, s, i, k2);
        assert(leaf_frame_of(m0, pml4, mask, k1) != leaf_frame_of(m0, pml4, mask, k2));
    }
}

/// The page index that a 48-bit linear address mask gives back from the
/// canonical address of page `s`.
proof fn lemma_canonical_index(s: int)
    requires
        0 <= s < 68719476736,
    ensures
        ((canonical(s) as u64) & 0xFFFF_FFFF_FFFF) / 4096 == s,
{
    let x = s as u64;
    if s < 34359738368 {
        assert(x < 0x8_0000_0000 ==> ((x * 4096) as u64 & 0xFFFF_FFFF_FFFF) / 4096 == x) by (bit_vector);
    } else {
        assert(x < 0x10_0000_0000 ==> ((x * 4096 + 0xFFFF_0000_0000_0000) as u64 & 0xFFFF_FFFF_FFFF) / 4096 == x)
            by (bit_vector);
    }
}

/// While the old run is copied into the new one: what the allocation left
/// (the new run `[s, s + n)` freshly mapped to pages free in `ph0`, apart
/// from its tables, the present entries kept), the old run `[a, a + o)`
/// freeable in `m0` with its tables in use, and the first `i` pages copied.
#[verifier::opaque]
pub open spec fn copy_state(
    m0: Seq<u64>,
    m1: Seq<u64>,
    m: Seq<u64>,
    ph0: Seq<PageUse>,
    ph1: Seq<PageUse>,
    pml4: u64,
    mask: u64,
    em: u64,
    s: int,
    n: int,
    a: int,
    o: int,
    i: int,
) -> bool {
    &&& 0 <= i <= n
    &&& ph1.len() == ph0.len()
    &&& (em == entry_flags(true) || em == entry_flags(false))
    &&& alloc_inv(m1, ph0, ph1, pml4, mask, em, s, s + n)
    &&& data_apart(m1, pml4, mask, s, s + n)
    &&& present_kept(m0, m1, ph0)
    &&& only_taken(ph0, ph1)
    &&& freeable(m0, ph0, pml4, mask, a, a + o)
    &&& forall|k: int| a <= k < a + o ==> #[trigger] path_tables_used(m0, ph0, pml4, mask, k)
    &&& copied_into(m1, m, pml4, mask, s, i)
    &&& forall|j: int|
        0 <= j < n ==> 0 <= #[trigger] leaf_frame_of(m1, pml4, mask, s + j) < ph0.len() && ph0[leaf_frame_of(
            m1,
            pml4,
            mask,
            s + j,
        )] == PageUse::Free
}

/// Before copying page `i`, both pages are mapped to pages in use.
proof fn lemma_copy_check(
    m0: Seq<u64>,
    m1: Seq<u64>,
    m: Seq<u64>,
    ph0: Seq<PageUse>,
    ph1: Seq<PageUse>,
    pml4: u64,
    mask: u64,
    em: u64,
    s: int,
    n: int,
    a: int,
    o: int,
    i: int,
)
    requires
        copy_state(m0, m1, m, ph0, ph1, pml4, mask, em, s, n, a, o, i),
        i < n,
        i < o,
    ensures
        frame_in_use(m, ph1, pml4, mask, a + i),
        frame_in_use(m, ph1, pml4, mask, s + i),
        leaf_frame_of(m, pml4, mask, s + i) == leaf_frame_of(m1, pml4, mask, s + i),
        leaf_frame_of(m, pml4, mask, a + i) == leaf_frame_of(m0, pml4, mask, a + i),
        leaf_frame_of(m0, pml4, mask, a + i) != leaf_frame_of(m1, pml4, mask, s + i),
{
    reveal(copy_state);
    assert(frame_in_use(m0, ph0, pml4, mask, a + i));
    assert(path_tables_used(m0, ph0, pml4, mask, a + i));
    lemma_src_walk(m0, m1, m, ph0, ph1, pml4, mask, s, i, a + i);
    lemma_dst_walk(m0, m1, m, ph0, ph1, pml4, mask, s, n, i, s + i);
    assert(ph0[leaf_frame_of(m1, pml4, mask, s + i)] == PageUse::Free);
}

/// Copying page `a + i` of the old run into page `s + i` of the new one
/// extends what was copied.
proof fn lemma_copy_contents(
    m0: Seq<u64>,
    m1: Seq<u64>,
    mb: Seq<u64>,
    ma: Seq<u64>,
    ph0: Seq<PageUse>,
    ph1: Seq<PageUse>,
    pml4: u64,
    mask: u64,
    em: u64,
    s: int,
    n: int,
    a: int,
    o: int,
    i: int,
)
    requires
        copy_state(m0, m1, mb, ph0, ph1, pml4, mask, em, s, n, a, o, i),
        copied(m0, m1, mb, pml4, mask, a, s, i),
        src_kept(m0, m1, pml4, mask, a, o),
        m0.len() >= ph0.len() * 512,
        i < n,
        i < o,
        ({
            let fs = leaf_frame_of(m0, pml4, mask, a + i);
            let fd = leaf_frame_of(m1, pml4, mask, s + i);
            &&& ma.len() == mb.len()
            &&& forall|k: int| 0 <= k < 512 ==> #[trigger] ma[fd * 512 + k] == mb[fs * 512 + k]
            &&& forall|w: int| 0 <= w < mb.len() && !(fd * 512 <= w < fd * 512 + 512) ==> #[trigger] ma[w] == mb[w]
        }),
    ensures
        copied(m0, m1, ma, pml4, mask, a, s, i + 1),
{
    reveal(copy_state);
    let fs = leaf_frame_of(m0, pml4, mask, a + i);
    let fd = leaf_frame_of(m1, pml4, mask, s + i);
    assert(frame_in_use(m0, ph0, pml4, mask, a + i));
    assert forall|k: int, j: int| 0 <= k < i + 1 && 0 <= j < 512 implies #[trigger] page_word(
        ma,
        leaf_frame_of(m1, pml4, mask, s + k),
        j,
    ) == page_word(m0, leaf_frame_of(m0, pml4, mask, a + k), j) by {
        if k < i {
            let fk = leaf_frame_of(m1, pml4, mask, s + k);
            assert(fk != fd);
            assert(0 <= fk < ph0.len());
            let w = fk * 512 + j;
            assert(w < mb.len()) by (nonlinear_arith)
                requires w == fk * 512 + j, 0 <= j < 512, 0 <= fk < ph0.len(), mb.len() >= ph0.len() * 512;
            assert(!(fd * 512 <= w < fd * 512 + 512));
            assert(ma[w] == mb[w]);
            assert(page_word(mb, fk, j) == page_word(m0, leaf_frame_of(m0, pml4, mask, a + k), j));
        } else {
            let w = fs * 512 + j;
            assert(ma[fd * 512 + j] == mb[w]);
            assert(w / 512 == fs);
            assert(w < m1.len()) by (nonlinear_arith)
                requires w == fs * 512 + j, 0 <= j < 512, 0 <= fs < ph0.len(), m1.len() >= ph0.len() * 512;
            if mb[w] != m1[w] {
                let jj = choose|jj: int| 0 <= jj < i && #[trigger] leaf_frame_of(m1, pml4, mask, s + jj) == w / 512;
                assert(ph0[leaf_frame_of(m1, pml4, mask, s + jj)] == PageUse::Free);
            }
            assert(page_word(m1, fs, j) == page_word(m0, fs, j));
        }
    }
}

/// Copying into the page that page `s + i` is mapped to moves on to
/// `i + 1`.
proof fn lemma_copy_step(
    m0: Seq<u64>,
    m1: Seq<u64>,
    m: Seq<u64>,
    m2: Seq<u64>,
    ph0: Seq<PageUse>,
    ph1: Seq<PageUse>,
    pml4: u64,
    mask: u64,
    em: u64,
    s: int,
    n: int,
    a: int,
    o: int,
    i: int,
    dst: int,
)
    requires
        copy_state(m0, m1, m, ph0, ph1, pml4, mask, em, s, n, a, o, i),
        i < n,
        dst == leaf_frame_of(m1, pml4, mask, s + i),
        m2.len() == m.len(),
        forall|w: int| 0 <= w < m.len() && !(dst * 512 <= w < dst * 512 + 512) ==> #[trigger] m2[w] == m[w],
    ensures
        copy_state(m0, m1, m2, ph0, ph1, pml4, mask, em, s, n, a, o, i + 1),
{
    reveal(copy_state);
    assert forall|w: int| 0 <= w < m1.len() && #[trigger] m2[w] != m1[w] implies exists|j: int|
        0 <= j < i + 1 && #[trigger] leaf_frame_of(m1, pml4, mask, s + j) == w / 512 by {
        if m2[w] != m[w] {
            assert(w / 512 == dst);
            assert(leaf_frame_of(m1, pml4, mask, s + i) == w / 512);
        } else {
            let j = choose|j: int| 0 <= j < i && #[trigger] leaf_frame_of(m1, pml4, mask, s + j) == w / 512;
            assert(leaf_frame_of(m1, pml4, mask, s + j) == w / 512);
        }
    }
}

/// After the copies the old run can still be freed.
proof fn lemma_copy_done(
    m0: Seq<u64>,
    m1: Seq<u64>,
    m: Seq<u64>,
    ph0: Seq<PageUse>,
    ph1: Seq<PageUse>,
    pml4: u64,
    mask: u64,
    em: u64,
    s: int,
    n: int,
    a: int,
    o: int,
    i: int,
)
    requires
        copy_state(m0, m1, m, ph0, ph1, pml4, mask, em, s, n, a, o, i),
    ensures
        freeable(m, ph1, pml4, mask, a, a + o),
{
    reveal(copy_state);
    lemma_src_freeable(m0, m1, m, ph0, ph1, pml4, mask, s, i, a, a + o);
}

/// The old run `[a, a + o)` and the lowest hole of `n` pages in the
/// chosen half keep apart in `mem`: no old page is mapped to the page of
/// the PML4 or of a table that a path of the hole reaches (so mapping the
/// new run writes no word of the old pages), and the entry of no old page
/// lies on the path of a page of the hole (so unmapping the old run leaves
/// the new one mapped).
pub open spec fn moves_apart(mem: Seq<u64>, pml4: u64, mask: u64, a: int, o: int, n: int, kernel: bool) -> bool {
    forall|s: int|
        #[trigger] lin_hole(mem, pml4, mask, n, kernel, s) && (forall|t: int|
            t < s ==> !#[trigger] lin_hole(mem, pml4, mask, n, kernel, t)) ==> {
            &&& forall|k: int|
                a <= k < a + o ==> !run_frame(mem, pml4, mask, s, s + n, #[trigger] leaf_frame_of(mem, pml4, mask, k))
            &&& forall|q: int, k: int|
                s <= q < s + n && a <= k < a + o ==> !#[trigger] reads_slot(
                    mem,
                    pml4,
                    mask,
                    q,
                    leaf_slot(mem, pml4, mask, k),
                )
        }
}

/// The first `i` pages of the new run from `s` (as mapped in `m1`) hold in
/// `m` what the first `i` pages of the old run from `a` held in `m0`.
pub open spec fn copied(m0: Seq<u64>, m1: Seq<u64>, m: Seq<u64>, pml4: u64, mask: u64, a: int, s: int, i: int) -> bool {
    forall|k: int, j: int|
        0 <= k < i && 0 <= j < 512 ==> #[trigger] page_word(m, leaf_frame_of(m1, pml4, mask, s + k), j) == page_word(
            m0,
            leaf_frame_of(m0, pml4, mask, a + k),
            j,
        )
}

/// The pages of the old run hold in `m1` what they held in `m0`.
pub open spec fn src_kept(m0: Seq<u64>, m1: Seq<u64>, pml4: u64, mask: u64, a: int, o: int) -> bool {
    forall|k: int, j: int|
        a <= k < a + o && 0 <= j < 512 ==> #[trigger] page_word(m1, leaf_frame_of(m0, pml4, mask, k), j) == page_word(
            m0,
            leaf_frame_of(m0, pml4, mask, k),
            j,
        )
}

/// The allocation kept the old run's pages when none of them holds a
/// table of the new run.
proof fn lemma_src_kept(
    m0: Seq<u64>,
    m1: Seq<u64>,
    ph0: Seq<PageUse>,
    pml4: u64,
    mask: u64,
    a: int,
    o: int,
    s: int,
    n: int,
)
    requires
        alloc_writes(m0, m1, ph0, pml4, mask, s, s + n),
        freeable(m0, ph0, pml4, mask, a, a + o),
        forall|k: int| a <= k < a + o ==> !run_frame(m0, pml4, mask, s, s + n, #[trigger] leaf_frame_of(m0, pml4, mask, k)),
        m0.len() >= ph0.len() * 512,
        m1.len() == m0.len(),
    ensures
        src_kept(m0, m1, pml4, mask, a, o),
{
    assert forall|k: int, j: int| a <= k < a + o && 0 <= j < 512 implies #[trigger] page_word(
        m1,
        leaf_frame_of(m0, pml4, mask, k),
        j,
    ) == page_word(m0, leaf_frame_of(m0, pml4, mask, k), j) by {
        let f = leaf_frame_of(m0, pml4, mask, k);
        assert(frame_in_use(m0, ph0, pml4, mask, k));
        let w = f * 512 + j;
        assert(w / 512 == f);
        assert(w < m0.len()) by (nonlinear_arith)
            requires w == f * 512 + j, 0 <= j < 512, 0 <= f < ph0.len(), m0.len() >= ph0.len() * 512;
        assert(!run_frame(m0, pml4, mask, s, s + n, f));
    }
}

/// A change that only wrote zeros leaves a page that is still mapped
/// mapped to the same page.
proof fn lemma_zeroed_walk(mc: Seq<u64>, mf: Seq<u64>, pml4: u64, mask: u64, q: int)
    requires
        mf.len() == mc.len(),
        forall|w: int| 0 <= w < mc.len() && #[trigger] mf[w] != mc[w] ==> mf[w] == 0,
        mapped(mf, pml4, mask, q),
    ensures
        leaf_frame_of(mf, pml4, mask, q) == leaf_frame_of(mc, pml4, mask, q),
{
    vstd::arithmetic::div_mod::lemma_mod_bound(q / 134217728, 512);
    vstd::arithmetic::div_mod::lemma_mod_bound(q / 262144, 512);
    vstd::arithmetic::div_mod::lemma_mod_bound(q / 512, 512);
    vstd::arithmetic::div_mod::lemma_mod_bound(q, 512);
    lemma_zero_absent();
    assert(word(mf, pml4, l4_index(q)) == word(mc, pml4, l4_index(q)));
    let t3 = pdpt_of(mf, pml4, mask, q);
    assert(word(mf, t3, l3_index(q)) == word(mc, t3, l3_index(q)));
    let t2 = pd_of(mf, pml4, mask, q);
    assert(word(mf, t2, l2_index(q)) == word(mc, t2, l2_index(q)));
    let t1 = pt_of(mf, pml4, mask, q);
    assert(word(mf, t1, l1_index(q)) == word(mc, t1, l1_index(q)));
}

/// After the old run was unmapped (words of its entries set to zero), the
/// pages of the new run that are mapped hold the copies.
proof fn lemma_contents_final(
    m0: Seq<u64>,
    m1: Seq<u64>,
    mc: Seq<u64>,
    mf: Seq<u64>,
    ph0: Seq<PageUse>,
    ph1: Seq<PageUse>,
    pml4: u64,
    mask: u64,
    em: u64,
    s: int,
    n: int,
    a: int,
    o: int,
    count: int,
)
    requires
        copy_state(m0, m1, mc, ph0, ph1, pml4, mask, em, s, n, a, o, count),
        copied(m0, m1, mc, pml4, mask, a, s, count),
        count <= n,
        count <= o,
        m0.len() >= ph0.len() * 512,
        mf.len() == mc.len(),
        forall|w: int| 0 <= w < mc.len() && #[trigger] mf[w] != mc[w] ==> mf[w] == 0,
        forall|w: int|
            0 <= w < mc.len() && #[trigger] mf[w] != mc[w] ==> exists|k: int|
                a <= k < a + o && w == #[trigger] leaf_slot(mc, pml4, mask, k),
    ensures
        forall|i: int, j: int|
            0 <= i < count && 0 <= j < 512 && mapped(mf, pml4, mask, s + i) ==> #[trigger] page_word(
                mf,
                leaf_frame_of(mf, pml4, mask, s + i),
                j,
            ) == page_word(m0, leaf_frame_of(m0, pml4, mask, a + i), j),
{
    reveal(copy_state);
    assert forall|i: int, j: int|
        0 <= i < count && 0 <= j < 512 && mapped(mf, pml4, mask, s + i) implies #[trigger] page_word(
        mf,
        leaf_frame_of(mf, pml4, mask, s + i),
        j,
    ) == page_word(m0, leaf_frame_of(m0, pml4, mask, a + i), j) by {
        lemma_zeroed_walk(mc, mf, pml4, mask, s + i);
        lemma_dst_walk(m0, m1, mc, ph0, ph1, pml4, mask, s, n, count, s + i);
        let fd = leaf_frame_of(m1, pml4, mask, s + i);
        assert(ph0[fd] == PageUse::Free);
        let w = fd * 512 + j;
        assert(w / 512 == fd);
        assert(w < mc.len()) by (nonlinear_arith)
            requires w == fd * 512 + j, 0 <= j < 512, 0 <= fd < ph0.len(), mc.len() >= ph0.len() * 512;
        if mf[w] != mc[w] {
            let k = choose|k: int| a <= k < a + o && w == #[trigger] leaf_slot(mc, pml4, mask, k);
            assert(frame_in_use(m0, ph0, pml4, mask, k));
            assert(path_tables_used(m0, ph0, pml4, mask, k));
            lemma_src_walk(m0, m1, mc, ph0, ph1, pml4, mask, s, count, k);
            vstd::arithmetic::div_mod::lemma_mod_bound(k, 512);
            lemma_slot_page(pt_of(m0, pml4, mask, k), l1_index(k));
        }
        assert(page_word(mc, fd, j) == page_word(m0, leaf_frame_of(m0, pml4, mask, a + i), j));
    }
}

/// After the old run was unmapped, a page of the new run is still mapped
/// to the page it was mapped to, when no old page's entry lies on its path
/// in `m0`.
proof fn lemma_dst_final(
    m0: Seq<u64>,
    m1: Seq<u64>,
    mc: Seq<u64>,
    mf: Seq<u64>,
    ph0: Seq<PageUse>,
    ph1: Seq<PageUse>,
    pml4: u64,
    mask: u64,
    em: u64,
    s: int,
    n: int,
    a: int,
    o: int,
    count: int,
    q: int,
)
    requires
        copy_state(m0, m1, mc, ph0, ph1, pml4, mask, em, s, n, a, o, count),
        super::allocate::walk_origin(m0, m1, ph0, pml4, mask, s, s + n),
        forall|q2: int, k: int|
            s <= q2 < s + n && a <= k < a + o ==> !#[trigger] reads_slot(m0, pml4, mask, q2, leaf_slot(m0, pml4, mask, k)),
        count <= n,
        s <= q < s + n,
        mf.len() == mc.len(),
        forall|w: int|
            0 <= w < mc.len() && #[trigger] mf[w] != mc[w] ==> exists|k: int|
                a <= k < a + o && w == #[trigger] leaf_slot(mc, pml4, mask, k),
    ensures
        mapped(mf, pml4, mask, q),
        leaf_frame_of(mf, pml4, mask, q) == leaf_frame_of(m1, pml4, mask, q),
{
    reveal(copy_state);
    lemma_dst_walk(m0, m1, mc, ph0, ph1, pml4, mask, s, n, count, q);
    assert(fresh_mapping(m1, ph0, ph1, pml4, mask, em, q));
    reveal(fresh_mapping);
    vstd::arithmetic::div_mod::lemma_mod_bound(q / 134217728, 512);
    vstd::arithmetic::div_mod::lemma_mod_bound(q / 262144, 512);
    vstd::arithmetic::div_mod::lemma_mod_bound(q / 512, 512);
    vstd::arithmetic::div_mod::lemma_mod_bound(q, 512);
    assert forall|w: int|
        0 <= w < mc.len() && (w == slot(pml4, l4_index(q)) || w == slot(pdpt_of(m1, pml4, mask, q), l3_index(q))
            || w == slot(pd_of(m1, pml4, mask, q), l2_index(q)) || w == leaf_slot(m1, pml4, mask, q)) implies #[trigger] mf[w]
        == mc[w] by {
        if mf[w] != mc[w] {
            let k = choose|k: int| a <= k < a + o && w == #[trigger] leaf_slot(mc, pml4, mask, k);
            assert(frame_in_use(m0, ph0, pml4, mask, k));
            assert(path_tables_used(m0, ph0, pml4, mask, k));
            lemma_src_walk(m0, m1, mc, ph0, ph1, pml4, mask, s, count, k);
            vstd::arithmetic::div_mod::lemma_mod_bound(k, 512);
            lemma_slot_page(pt_of(m0, pml4, mask, k), l1_index(k));
            assert(w == leaf_slot(m0, pml4, mask, k));
            assert(!reads_slot(m0, pml4, mask, q, leaf_slot(m0, pml4, mask, k)));
            assert forall|l: int| 1 <= l <= 3 implies w != #[trigger] slot(
                table_at(m1, pml4, mask, q, l),
                super::mappable::entry_index(q, l),
            ) by {
                let t = table_at(m1, pml4, mask, q, l);
                assert(super::level4::reaches(m1, pml4, mask, q, l));
                assert(table_ok(m1, ph1, t));
                if w == slot(t, super::mappable::entry_index(q, l)) {
                    lemma_slot_page(t, super::mappable::entry_index(q, l));
                    if super::level4::reaches(m0, pml4, mask, q, l) && t == table_at(m0, pml4, mask, q, l) {
                    } else {
                        assert(ph0[frame_of(t)] == PageUse::Free);
                    }
                }
            }
            assert(w != slot(table_at(m1, pml4, mask, q, 3), super::mappable::entry_index(q, 3)));
            assert(w != slot(table_at(m1, pml4, mask, q, 2), super::mappable::entry_index(q, 2)));
            assert(w != slot(table_at(m1, pml4, mask, q, 1), super::mappable::entry_index(q, 1)));
        }
    }
    assert(word(mf, pml4, l4_index(q)) == word(mc, pml4, l4_index(q)));
    assert(word(mf, pdpt_of(mc, pml4, mask, q), l3_index(q)) == word(mc, pdpt_of(mc, pml4, mask, q), l3_index(q)));
    assert(word(mf, pd_of(mc, pml4, mask, q), l2_index(q)) == word(mc, pd_of(mc, pml4, mask, q), l2_index(q)));
    assert(word(mf, pt_of(mc, pml4, mask, q), l1_index(q)) == word(mc, pt_of(mc, pml4, mask, q), l1_index(q)));
}

/// When `pages` cannot fail: both tables are the same, the address mask
/// has 48 bits, the new run can be mapped (`alloc_ready`) in the half of
/// `ptr`, and the old run is freeable with its tables in use.
pub open spec fn realloc_ready(
    mem: Seq<u64>,
    phys: Seq<PageUse>,
    ptr: u64,
    old_pages: int,
    new_pages: int,
    cr3: u64,
    current_cr3: u64,
    mask: u64,
    lin_mask: u64,
) -> bool {
    let a = (ptr & lin_mask) / 4096;
    &&& cr3 & mask == current_cr3 & mask
    &&& lin_mask == 0xFFFF_FFFF_FFFF
    &&& alloc_ready(mem, phys, cr3 & mask, mask, new_pages, in_kernel_half(ptr))
    &&& freeable(mem, phys, cr3 & mask, mask, a as int, a + old_pages)
    &&& forall|k: int| a <= k < a + old_pages ==> #[trigger] path_tables_used(mem, phys, cr3 & mask, mask, k)
}

/// Allocates `new_pages` pages in the half that `ptr`'s bit 63 selects of
/// the tables at `cr3`, copies the first `min(old_pages, new_pages)` pages
/// from `ptr` (their frames looked up in the tables at `current_cr3`),
/// then unmaps and frees the `old_pages` pages at `ptr` in the tables at
/// `current_cr3`. Returns the new address; `None` when the allocation, a
/// lookup (an old or new page not mapped to an allocated frame) or the
/// freeing fails. It cannot fail when `realloc_ready` holds; when besides
/// the two runs keep apart (`moves_apart`), the new run stays mapped and
/// each of its first `min(old_pages, new_pages)` pages holds what the old
/// page at the same offset held.
#[verifier::rlimit(40)]
pub fn pages(
    pager: &mut Pager,
    mem: &mut [u64],
    ptr: u64,
    old_pages: u64,
    new_pages: u64,
    cr3: u64,
    current_cr3: u64,
) -> (r: Option<u64>)
    requires
        old(pager).wf(),
        old(pager).paging_type == PagingType::Level4,
        old(mem)@.len() >= old(pager).phys@.len() * 512,
        old_pages <= usize::MAX,
        old_pages <= u64::MAX - 0x0010_0000_0000_0000,
        (ptr & old(pager).lin_addr_mask) / 4096 <= usize::MAX,
    ensures
        final(pager).wf(),
        final(pager).phy_page_mask == old(pager).phy_page_mask,
        final(pager).lin_addr_mask == old(pager).lin_addr_mask,
        final(pager).paging_type == old(pager).paging_type,
        final(pager).phys@.len() == old(pager).phys@.len(),
        final(mem)@.len() == old(mem)@.len(),
        realloc_ready(
            old(mem)@,
            old(pager).phys@,
            ptr,
            old_pages as int,
            new_pages as int,
            cr3,
            current_cr3,
            old(pager).phy_page_mask,
            old(pager).lin_addr_mask,
        ) ==> r is Some,
        r matches Some(p) ==> {
            &&& exists|s: int|
                #[trigger] lin_hole(
                    old(mem)@,
                    cr3 & old(pager).phy_page_mask,
                    old(pager).phy_page_mask,
                    new_pages as int,
                    in_kernel_half(ptr),
                    s,
                ) && p == canonical(s) && forall|t: int|
                    t < s ==> !#[trigger] lin_hole(
                        old(mem)@,
                        cr3 & old(pager).phy_page_mask,
                        old(pager).phy_page_mask,
                        new_pages as int,
                        in_kernel_half(ptr),
                        t,
                    )
            &&& exists|s: int|
                #[trigger] canonical(s) == p && ((ptr >> 63u64) & 1 == 0 ==> 0 <= s && s + new_pages
                    <= 0x8_0000_0000 && s < 0x8_0000_0000) && ((ptr >> 63u64) & 1 == 1 ==> 0x8_0000_0000 <= s
                    && s + new_pages <= 0x10_0000_0000)
            &&& forall|k: int|
                (ptr & old(pager).lin_addr_mask) / 4096 <= k < (ptr & old(pager).lin_addr_mask) / 4096
                    + old_pages ==> !#[trigger] mapped(
                    final(mem)@,
                    current_cr3 & old(pager).phy_page_mask,
                    old(pager).phy_page_mask,
                    k,
                )
            &&& realloc_ready(
                old(mem)@,
                old(pager).phys@,
                ptr,
                old_pages as int,
                new_pages as int,
                cr3,
                current_cr3,
                old(pager).phy_page_mask,
                old(pager).lin_addr_mask,
            ) && moves_apart(
                old(mem)@,
                cr3 & old(pager).phy_page_mask,
                old(pager).phy_page_mask,
                ((ptr & old(pager).lin_addr_mask) / 4096) as int,
                old_pages as int,
                new_pages as int,
                in_kernel_half(ptr),
            ) ==> (forall|i: int|
                0 <= i < new_pages ==> #[trigger] mapped(
                    final(mem)@,
                    cr3 & old(pager).phy_page_mask,
                    old(pager).phy_page_mask,
                    (p & old(pager).lin_addr_mask) / 4096 + i,
                )) && forall|i: int, j: int|
                0 <= i < old_pages && 0 <= i < new_pages && 0 <= j < 512 ==> #[trigger] page_word(
                    final(mem)@,
                    leaf_frame_of(
                        final(mem)@,
                        cr3 & old(pager).phy_page_mask,
                        old(pager).phy_page_mask,
                        (p & old(pager).lin_addr_mask) / 4096 + i,
                    ),
                    j,
                ) == page_word(
                    old(mem)@,
                    leaf_frame_of(
                        old(mem)@,
                        cr3 & old(pager).phy_page_mask,
                        old(pager).phy_page_mask,
                        (ptr & old(pager).lin_addr_mask) / 4096 + i,
                    ),
                    j,
                )
        },
{
    let kernel = (ptr >> 63) & 1 == 1;
    assert(kernel == in_kernel_half(ptr));
    let ghost m0 = mem@;
    let ghost ph0 = pager.phys@;
    let ghost ok = realloc_ready(
        m0,
        ph0,
        ptr,
        old_pages as int,
        new_pages as int,
        cr3,
        current_cr3,
        pager.phy_page_mask,
        pager.lin_addr_mask,
    );
    let ghost apart = ok && moves_apart(
        m0,
        cr3 & pager.phy_page_mask,
        pager.phy_page_mask,
        ((ptr & pager.lin_addr_mask) / 4096) as int,
        old_pages as int,
        new_pages as int,
        kernel,
    );
    let new_ptr = match alloc_pages(pager, mem, new_pages, kernel, cr3) {
        Some(p) => p,
        None => return None,
    };
    let ghost m1 = mem@;
    let ghost ph1 = pager.phys@;
    let mask = pager.phy_page_mask;
    let cur = current_cr3 & mask;
    let src_start = (ptr & pager.lin_addr_mask) / 4096;
    let dst_start = (new_ptr & pager.lin_addr_mask) / 4096;
    let count = if old_pages < new_pages { old_pages } else { new_pages };
    let ghost em = entry_flags(kernel);
    let ghost s: int = choose|s: int|
        {
            &&& #[trigger] lin_hole(m0, cr3 & mask, mask, new_pages as int, kernel, s)
            &&& (forall|t: int| t < s ==> !#[trigger] lin_hole(m0, cr3 & mask, mask, new_pages as int, kernel, t))
            &&& new_ptr == canonical(s)
            &&& alloc_inv(m1, ph0, ph1, cr3 & mask, mask, em, s, s + new_pages)
            &&& alloc_ready(m0, ph0, cr3 & mask, mask, new_pages as int, kernel) ==> data_apart(
                m1,
                cr3 & mask,
                mask,
                s,
                s + new_pages,
            ) && alloc_writes(m0, m1, ph0, cr3 & mask, mask, s, s + new_pages) && super::allocate::walk_origin(
                m0,
                m1,
                ph0,
                cr3 & mask,
                mask,
                s,
                s + new_pages,
            )
        };
    proof {
        if ok {
            assert(lin_hole(m0, cr3 & mask, mask, new_pages as int, kernel, s));
            lemma_canonical_index(s);
            lemma_dst_frames_free(m1, ph0, ph1, cur, mask, em, s, new_pages as int);
            assert(copied_into(m1, m1, cur, mask, s, 0));
            reveal(copy_state);
            assert(copy_state(m0, m1, m1, ph0, ph1, cur, mask, em, s, new_pages as int, src_start as int, old_pages as int, 0));
            if apart {
                lemma_src_kept(m0, m1, ph0, cur, mask, src_start as int, old_pages as int, s, new_pages as int);
            }
        }
    }
    let mut i: u64 = 0;
    while i < count
        invariant
            ok == realloc_ready(
                old(mem)@,
                old(pager).phys@,
                ptr,
                old_pages as int,
                new_pages as int,
                cr3,
                current_cr3,
                old(pager).phy_page_mask,
                old(pager).lin_addr_mask,
            ),
            ok ==> dst_start == s,
            apart ==> ok,
            apart ==> src_kept(m0, m1, cur, mask, src_start as int, old_pages as int),
            apart ==> copied(m0, m1, mem@, cur, mask, src_start as int, s, i as int),
            m0 == old(mem)@,
            m0.len() >= ph0.len() * 512,
            ok ==> cur == cr3 & mask,
            ok ==> copy_state(m0, m1, mem@, ph0, ph1, cur, mask, em, s, new_pages as int, src_start as int, old_pages as int, i as int),
            count <= new_pages,
            pager.phys@ == ph1,
            ph1.len() == ph0.len(),
            pager.wf(),
            pager.phy_page_mask == mask,
            mask == old(pager).phy_page_mask,
            pager.lin_addr_mask == old(pager).lin_addr_mask,
            pager.paging_type == old(pager).paging_type,
            src_start == (ptr & pager.lin_addr_mask) / 4096,
            src_start <= 0x0010_0000_0000_0000,
            dst_start <= 0x0010_0000_0000_0000,
            count <= old_pages,
            old_pages <= u64::MAX - 0x0010_0000_0000_0000,
            0 <= i <= count,
            mem@.len() == old(mem)@.len(),
            mem@.len() >= pager.phys@.len() * 512,
            pager.phys@.len() == old(pager).phys@.len(),
        decreases count - i,
    {
        proof {
            if ok {
                lemma_copy_check(m0, m1, mem@, ph0, ph1, cur, mask, em, s, new_pages as int, src_start as int, old_pages as int, i as int);
            }
        }
        if !check_mapped(mem, &pager.phys, cur, mask, src_start + i) || !check_mapped(
            mem,
            &pager.phys,
            cur,
            mask,
            dst_start + i,
        ) {
            return None;
        }
        let total = pager.phys.len();
        let src = super::level4::leaf_frame(mem, cur, mask, src_start + i);
        let dst = super::level4::leaf_frame(mem, cur, mask, dst_start + i);
        proof {
            assert((src + 1) * 512 <= pager.phys@.len() * 512) by (nonlinear_arith)
                requires src < pager.phys@.len();
            assert((dst + 1) * 512 <= pager.phys@.len() * 512) by (nonlinear_arith)
                requires dst < pager.phys@.len();
        }
        let ghost mb = mem@;
        copy_page(mem, src, dst);
        proof {
            if ok {
                lemma_copy_step(m0, m1, mb, mem@, ph0, ph1, cur, mask, em, s, new_pages as int, src_start as int, old_pages as int, i as int, dst as int);
            }
            if apart {
                lemma_copy_contents(m0, m1, mb, mem@, ph0, ph1, cur, mask, em, s, new_pages as int, src_start as int, old_pages as int, i as int);
            }
        }
        i = i + 1;
    }
    proof {
        if ok {
            lemma_copy_done(m0, m1, mem@, ph0, ph1, cur, mask, em, s, new_pages as int, src_start as int, old_pages as int, i as int);
        }
    }
    let ghost mc = mem@;
    match ptr_pages(pager, mem, ptr, old_pages as usize, current_cr3) {
        Ok(()) => {
            proof {
                if apart {
                    assert forall|q: int| s <= q < s + new_pages implies #[trigger] mapped(mem@, cur, mask, q)
                        && leaf_frame_of(mem@, cur, mask, q) == leaf_frame_of(m1, cur, mask, q) by {
                        lemma_dst_final(
                            m0,
                            m1,
                            mc,
                            mem@,
                            ph0,
                            ph1,
                            cur,
                            mask,
                            em,
                            s,
                            new_pages as int,
                            src_start as int,
                            old_pages as int,
                            count as int,
                            q,
                        );
                    }
                    lemma_contents_final(
                        m0,
                        m1,
                        mc,
                        mem@,
                        ph0,
                        ph1,
                        cur,
                        mask,
                        em,
                        s,
                        new_pages as int,
                        src_start as int,
                        old_pages as int,
                        count as int,
                    );
                }
            }
            Some(new_ptr)
        },
        Err(_) => None,
    }
}

} // verus!
