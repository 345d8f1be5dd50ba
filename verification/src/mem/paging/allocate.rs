//! Allocating linear pages backed by fresh physical pages.

use vstd::prelude::*;
use super::{PageUse, Pager, PagingType};
use super::phy::count_use;
use super::phy::{lemma_count_update, lemma_no_free_count};
use super::level4::{
    allocate_page, canonical, canonical_address, changed_within, check_path, get_lin_hole, half_start, leaf_of,
    lemma_path_kept, lemma_zero_step, lin_hole, mapped, only_taken, path_tables_used, frame_of, walk_readable,
};
use super::mappable::{
    lemma_class, lemma_class_use, lemma_mappable_map, lemma_mappable_take, lemma_reached_in_use, lemma_walk_same,
    map_step, mappable,
};
use super::level4::{in_taken_page, path_ok, pd_of, pdpt_of, present, pt_of, reaches, table_at, table_ok, tables_taken};
use super::free::leaf_frame_of;

verus! {

/// The flags of the entries mapping a kernel (3: present, writable) or a
/// user (7: also user-accessible) allocation.
pub open spec fn entry_flags(kernel: bool) -> u64 {
    if kernel { 3 } else { 7 }
}

/// Page `k` is mapped through tables in use, with flags `entry_mask`, to
/// a page that was free in `ph0` and is used in `ph`.
#[verifier::opaque]
pub open spec fn fresh_mapping(
    m: Seq<u64>,
    ph0: Seq<PageUse>,
    ph: Seq<PageUse>,
    pml4: u64,
    mask: u64,
    entry_mask: u64,
    k: int,
) -> bool {
    &&& mapped(m, pml4, mask, k)
    &&& path_tables_used(m, ph, pml4, mask, k)
    &&& leaf_of(m, pml4, mask, k) & 0xFFF == entry_mask
    &&& 0 <= frame_of(leaf_of(m, pml4, mask, k) & mask) < ph.len()
    &&& ph0[frame_of(leaf_of(m, pml4, mask, k) & mask)] == PageUse::Free
    &&& ph[frame_of(leaf_of(m, pml4, mask, k) & mask)] == PageUse::Used
}

/// Pages `[lo, hi)` are mapped through tables in use, with flags
/// `entry_mask`, to pages that were free in `ph0` and are used in `ph`.
pub open spec fn alloc_inv(
    m: Seq<u64>,
    ph0: Seq<PageUse>,
    ph: Seq<PageUse>,
    pml4: u64,
    mask: u64,
    entry_mask: u64,
    lo: int,
    hi: int,
) -> bool {
    forall|k: int| lo <= k < hi ==> #[trigger] fresh_mapping(m, ph0, ph, pml4, mask, entry_mask, k)
}

/// Taking and zeroing the page for the next mapping keeps the earlier
/// mappings.
#[verifier::rlimit(60)]
proof fn lemma_alloc_taken(
    m1: Seq<u64>,
    m2: Seq<u64>,
    ph0: Seq<PageUse>,
    ph1: Seq<PageUse>,
    ph2: Seq<PageUse>,
    pml4: u64,
    mask: u64,
    entry_mask: u64,
    lo: int,
    page: int,
    frame: u64,
)
    requires
        alloc_inv(m1, ph0, ph1, pml4, mask, entry_mask, lo, page),
        only_taken(ph0, ph1),
        exists|j: int|
            #![trigger ph1[j]]
            {
                &&& frame == j * 4096
                &&& 0 <= j < ph1.len()
                &&& ph1[j] == PageUse::Free
                &&& ph2 == ph1.update(j, PageUse::Used)
                &&& super::phy::pages_written(m1, m2, j, 1, true)
            },
    ensures
        alloc_inv(m2, ph0, ph2, pml4, mask, entry_mask, lo, page),
        only_taken(ph0, ph2),
        only_taken(ph1, ph2),
        0 <= frame_of(frame) < ph1.len(),
        frame % 4096 == 0,
        ph1[frame_of(frame)] == PageUse::Free,
        ph2 == ph1.update(frame_of(frame), PageUse::Used),
        changed_within(m1, m2, ph1, ph2, Set::empty()),
        super::page_zeroed(m2, frame_of(frame)),
{
    let j = choose|j: int|
        #![trigger ph1[j]]
        {
            &&& frame == j * 4096
            &&& 0 <= j < ph1.len()
            &&& ph1[j] == PageUse::Free
            &&& ph2 == ph1.update(j, PageUse::Used)
            &&& super::phy::pages_written(m1, m2, j, 1, true)
        };
    super::phy::lemma_page_addr(j);
    assert(frame_of(frame) == j);
    lemma_zero_step(m1, m2, ph1, j);
    assert forall|k: int| lo <= k < page implies #[trigger] fresh_mapping(m2, ph0, ph2, pml4, mask, entry_mask, k) by {
        assert(fresh_mapping(m1, ph0, ph1, pml4, mask, entry_mask, k));
        reveal(fresh_mapping);
        lemma_path_kept(m1, m2, ph1, ph2, Set::empty(), pml4, mask, k);
        let f = frame_of(leaf_of(m1, pml4, mask, k) & mask);
        assert(ph1[f] == PageUse::Used);
    }
    assert forall|i: int| 0 <= i < ph0.len() implies #[trigger] ph2[i] == ph0[i] || (ph0[i] == PageUse::Free
        && ph2[i] == PageUse::Used) by {
        assert(ph1[i] == ph0[i] || (ph0[i] == PageUse::Free && ph1[i] == PageUse::Used));
    }
}

/// Mapping the next page keeps the earlier mappings.
#[verifier::rlimit(60)]
proof fn lemma_alloc_kept(
    m2: Seq<u64>,
    m3: Seq<u64>,
    ph0: Seq<PageUse>,
    ph2: Seq<PageUse>,
    ph3: Seq<PageUse>,
    pml4: u64,
    mask: u64,
    entry_mask: u64,
    lo: int,
    page: int,
    slots: Set<int>,
)
    requires
        alloc_inv(m2, ph0, ph2, pml4, mask, entry_mask, lo, page),
        only_taken(ph0, ph2),
        only_taken(ph2, ph3),
        super::level4::changed_within(m2, m3, ph2, ph3, slots),
    ensures
        alloc_inv(m3, ph0, ph3, pml4, mask, entry_mask, lo, page),
        only_taken(ph0, ph3),
{
    assert forall|k: int| lo <= k < page implies #[trigger] fresh_mapping(m3, ph0, ph3, pml4, mask, entry_mask, k) by {
        assert(fresh_mapping(m2, ph0, ph2, pml4, mask, entry_mask, k));
        reveal(fresh_mapping);
        lemma_path_kept(m2, m3, ph2, ph3, slots, pml4, mask, k);
        let f = frame_of(leaf_of(m2, pml4, mask, k) & mask);
        assert(ph2[f] == PageUse::Used);
        assert(ph3[f] == ph2[f] || (ph2[f] == PageUse::Free && ph3[f] == PageUse::Used));
    }
    assert forall|i: int| 0 <= i < ph0.len() implies #[trigger] ph3[i] == ph0[i] || (ph0[i] == PageUse::Free
        && ph3[i] == PageUse::Used) by {
        assert(ph2[i] == ph0[i] || (ph0[i] == PageUse::Free && ph2[i] == PageUse::Used));
        assert(ph3[i] == ph2[i] || (ph2[i] == PageUse::Free && ph3[i] == PageUse::Used));
    }
}

/// Adding page `page`, now mapped, extends the allocation invariant.
proof fn lemma_alloc_extend(
    m3: Seq<u64>,
    ph0: Seq<PageUse>,
    ph3: Seq<PageUse>,
    pml4: u64,
    mask: u64,
    entry_mask: u64,
    lo: int,
    page: int,
)
    requires
        alloc_inv(m3, ph0, ph3, pml4, mask, entry_mask, lo, page),
        fresh_mapping(m3, ph0, ph3, pml4, mask, entry_mask, page),
    ensures
        alloc_inv(m3, ph0, ph3, pml4, mask, entry_mask, lo, page + 1),
{
}

/// The page just mapped satisfies the allocation invariant.
proof fn lemma_new_mapping(
    m3: Seq<u64>,
    ph0: Seq<PageUse>,
    ph1: Seq<PageUse>,
    ph2: Seq<PageUse>,
    ph3: Seq<PageUse>,
    pml4: u64,
    mask: u64,
    entry_mask: u64,
    page: int,
    frame: u64,
)
    requires
        0 <= frame_of(frame) < ph1.len(),
        frame % 4096 == 0,
        ph1[frame_of(frame)] == PageUse::Free,
        ph2 == ph1.update(frame_of(frame), PageUse::Used),
        only_taken(ph0, ph1),
        only_taken(ph2, ph3),
        super::level4::mask_ok(mask, ph1.len() as int),
        entry_mask & mask == 0,
        entry_mask == 3 || entry_mask == 7,
        leaf_of(m3, pml4, mask, page) == frame | entry_mask,
        mapped(m3, pml4, mask, page),
        path_tables_used(m3, ph3, pml4, mask, page),
    ensures
        fresh_mapping(m3, ph0, ph3, pml4, mask, entry_mask, page),
        leaf_frame_of(m3, pml4, mask, page) == frame_of(frame),
{
    reveal(fresh_mapping);
    let fi = frame_of(frame);
    assert(frame < ph1.len() * 4096);
    assert(frame & mask == frame);
    assert(frame & 0xFFF == 0) by (bit_vector)
        requires frame % 4096 == 0;
    assert((frame | entry_mask) & 0xFFF == entry_mask && (frame | entry_mask) & mask == frame) by (bit_vector)
        requires
            frame & 0xFFF == 0,
            frame & mask == frame,
            entry_mask & mask == 0,
            entry_mask == 3 || entry_mask == 7,
    ;
    assert(ph1[fi] == ph0[fi] || (ph0[fi] == PageUse::Free && ph1[fi] == PageUse::Used));
    assert(ph3[fi] == ph2[fi] || (ph2[fi] == PageUse::Free && ph3[fi] == PageUse::Used));
}

/// The words of `m0` that hold present entries in pages in use in `ph0`
/// are unchanged in `m`.
pub open spec fn present_kept(m0: Seq<u64>, m: Seq<u64>, ph0: Seq<PageUse>) -> bool {
    &&& m.len() == m0.len()
    &&& forall|w: int|
        0 <= w < m0.len() && 0 <= w / 512 < ph0.len() && ph0[w / 512] != PageUse::Free && present(#[trigger] m0[w])
            ==> m[w] == m0[w]
}

/// A change that only wrote non-present entries and newly taken pages
/// keeps the present entries of pages in use.
proof fn lemma_present_kept_step(
    m0: Seq<u64>,
    m1: Seq<u64>,
    m2: Seq<u64>,
    ph0: Seq<PageUse>,
    ph1: Seq<PageUse>,
    ph2: Seq<PageUse>,
    slots: Set<int>,
)
    requires
        present_kept(m0, m1, ph0),
        only_taken(ph0, ph1),
        changed_within(m1, m2, ph1, ph2, slots),
    ensures
        present_kept(m0, m2, ph0),
{
    assert forall|w: int|
        0 <= w < m0.len() && 0 <= w / 512 < ph0.len() && ph0[w / 512] != PageUse::Free && present(
            #[trigger] m0[w],
        ) implies m2[w] == m0[w] by {
        assert(ph1[w / 512] == ph0[w / 512] || ph0[w / 512] == PageUse::Free);
        assert(m1[w] == m0[w]);
        if m2[w] != m1[w] {
            assert(!in_taken_page(ph1, ph2, w));
        }
    }
}

/// The pages of the run `[a, b)` are mapped to different pages, none of
/// which holds the PML4 or a table on a path of the run.
pub open spec fn data_apart(mem: Seq<u64>, pml4: u64, mask: u64, a: int, b: int) -> bool {
    &&& forall|k1: int, k2: int, l: int|
        a <= k1 < b && a <= k2 < b && 1 <= l <= 3 ==> {
            &&& #[trigger] leaf_frame_of(mem, pml4, mask, k1) != frame_of(#[trigger] table_at(mem, pml4, mask, k2, l))
            &&& leaf_frame_of(mem, pml4, mask, k1) != frame_of(pml4)
        }
    &&& forall|k1: int, k2: int|
        a <= k1 < b && a <= k2 < b && k1 != k2 ==> #[trigger] leaf_frame_of(mem, pml4, mask, k1)
            != #[trigger] leaf_frame_of(mem, pml4, mask, k2)
}

/// While a run is mapped: `data` holds the pages taken for the run, which
/// were free in `ph0` and are used in `ph`, the pages mapped so far go to
/// pages of `data`, and no table on a path of the run lies in one.
spec fn apart_inv(
    mem: Seq<u64>,
    ph0: Seq<PageUse>,
    ph: Seq<PageUse>,
    pml4: u64,
    mask: u64,
    s: int,
    page: int,
    end: int,
    data: Set<int>,
) -> bool {
    &&& forall|k: int| s <= k < page ==> data.contains(#[trigger] leaf_frame_of(mem, pml4, mask, k))
    &&& forall|i: int|
        #[trigger] data.contains(i) ==> 0 <= i < ph0.len() && ph0[i] == PageUse::Free && ph[i] == PageUse::Used
    &&& forall|q: int, l: int|
        s <= q < end && 1 <= l <= 3 && reaches(mem, pml4, mask, q, l) ==> !data.contains(
            frame_of(#[trigger] table_at(mem, pml4, mask, q, l)),
        )
    &&& !data.contains(frame_of(pml4))
    &&& forall|k1: int, k2: int|
        s <= k1 < page && s <= k2 < page && k1 != k2 ==> #[trigger] leaf_frame_of(mem, pml4, mask, k1)
            != #[trigger] leaf_frame_of(mem, pml4, mask, k2)
}

/// Taking a free page for the next mapping keeps the data pages apart.
proof fn lemma_apart_take(
    m1: Seq<u64>,
    m2: Seq<u64>,
    ph0: Seq<PageUse>,
    ph1: Seq<PageUse>,
    ph2: Seq<PageUse>,
    pml4: u64,
    mask: u64,
    entry_mask: u64,
    s: int,
    page: int,
    end: int,
    data: Set<int>,
    fi: int,
)
    requires
        apart_inv(m1, ph0, ph1, pml4, mask, s, page, end, data),
        mappable(m1, ph1, pml4, mask, page, end),
        alloc_inv(m1, ph0, ph1, pml4, mask, entry_mask, s, page),
        changed_within(m1, m2, ph1, ph2, Set::empty()),
        only_taken(ph0, ph1),
        0 <= fi < ph1.len(),
        ph1[fi] == PageUse::Free,
        ph2 == ph1.update(fi, PageUse::Used),
        s <= page < end,
    ensures
        apart_inv(m2, ph0, ph2, pml4, mask, s, page, end, data.insert(fi)),
        forall|k: int| s <= k < page ==> #[trigger] leaf_frame_of(m2, pml4, mask, k) != fi,
{
    let d2 = data.insert(fi);
    assert(only_taken(ph1, ph2));
    assert(path_ok(m1, ph1, pml4, mask, page));
    assert forall|k: int| s <= k < page implies d2.contains(#[trigger] leaf_frame_of(m2, pml4, mask, k))
        && leaf_frame_of(m2, pml4, mask, k) != fi && leaf_frame_of(m2, pml4, mask, k) == leaf_frame_of(m1, pml4, mask, k) by {
        assert(fresh_mapping(m1, ph0, ph1, pml4, mask, entry_mask, k));
        reveal(fresh_mapping);
        lemma_path_kept(m1, m2, ph1, ph2, Set::empty(), pml4, mask, k);
        assert(data.contains(leaf_frame_of(m1, pml4, mask, k)));
    }
    assert forall|i: int| #[trigger] d2.contains(i) implies 0 <= i < ph0.len() && ph0[i] == PageUse::Free && ph2[i]
        == PageUse::Used by {
        assert(ph1[i] == ph0[i] || (ph0[i] == PageUse::Free && ph1[i] == PageUse::Used));
    }
    assert forall|q: int, l: int|
        s <= q < end && 1 <= l <= 3 && reaches(m2, pml4, mask, q, l) implies !d2.contains(
        frame_of(#[trigger] table_at(m2, pml4, mask, q, l)),
    ) by {
        if q < page {
            assert(fresh_mapping(m1, ph0, ph1, pml4, mask, entry_mask, q));
            reveal(fresh_mapping);
            lemma_path_kept(m1, m2, ph1, ph2, Set::empty(), pml4, mask, q);
            assert(reaches(m1, pml4, mask, q, l));
            assert(table_ok(m1, ph1, table_at(m1, pml4, mask, q, l)));
        } else {
            assert(path_ok(m1, ph1, pml4, mask, q));
            lemma_walk_same(m1, m2, ph1, ph2, pml4, mask, q);
            assert(reaches(m1, pml4, mask, q, l));
            lemma_reached_in_use(m1, ph1, pml4, mask, q, l);
        }
    }
}

/// Mapping the next page to the page just taken keeps the data pages
/// apart.
proof fn lemma_apart_map(
    m2: Seq<u64>,
    m3: Seq<u64>,
    ph0: Seq<PageUse>,
    ph2: Seq<PageUse>,
    ph3: Seq<PageUse>,
    pml4: u64,
    mask: u64,
    entry_mask: u64,
    s: int,
    page: int,
    end: int,
    data: Set<int>,
    fi: int,
)
    requires
        apart_inv(m2, ph0, ph2, pml4, mask, s, page, end, data),
        data.contains(fi),
        map_step(m2, m3, ph2, ph3, pml4, mask, page),
        mappable(m2, ph2, pml4, mask, page, end),
        alloc_inv(m2, ph0, ph2, pml4, mask, entry_mask, s, page),
        leaf_frame_of(m3, pml4, mask, page) == fi,
        forall|k: int| s <= k < page ==> #[trigger] leaf_frame_of(m2, pml4, mask, k) != fi,
        only_taken(ph0, ph2),
        0 <= s <= page < end,
        end <= 68719476736,
    ensures
        apart_inv(m3, ph0, ph3, pml4, mask, s, page + 1, end, data),
{
    assert forall|k: int| s <= k < page + 1 implies data.contains(#[trigger] leaf_frame_of(m3, pml4, mask, k))
        && (k < page ==> leaf_frame_of(m3, pml4, mask, k) == leaf_frame_of(m2, pml4, mask, k)) by {
        if k < page {
            assert(fresh_mapping(m2, ph0, ph2, pml4, mask, entry_mask, k));
            reveal(fresh_mapping);
            lemma_path_kept(m2, m3, ph2, ph3, super::mappable::map_slots(m3, pml4, mask, page), pml4, mask, k);
            assert(data.contains(leaf_frame_of(m2, pml4, mask, k)));
        }
    }
    assert forall|k1: int, k2: int|
        s <= k1 < page + 1 && s <= k2 < page + 1 && k1 != k2 implies #[trigger] leaf_frame_of(m3, pml4, mask, k1)
        != #[trigger] leaf_frame_of(m3, pml4, mask, k2) by {
        if k1 < page && k2 < page {
            assert(leaf_frame_of(m2, pml4, mask, k1) != leaf_frame_of(m2, pml4, mask, k2));
        }
    }
    assert forall|i: int| #[trigger] data.contains(i) implies 0 <= i < ph0.len() && ph0[i] == PageUse::Free && ph3[i]
        == PageUse::Used by {
        assert(ph3[i] == ph2[i] || (ph2[i] == PageUse::Free && ph3[i] == PageUse::Used));
    }
    assert forall|q: int, l: int|
        s <= q < end && 1 <= l <= 3 && reaches(m3, pml4, mask, q, l) implies !data.contains(
        frame_of(#[trigger] table_at(m3, pml4, mask, q, l)),
    ) by {
        if q < page {
            assert(fresh_mapping(m2, ph0, ph2, pml4, mask, entry_mask, q));
            reveal(fresh_mapping);
            lemma_path_kept(m2, m3, ph2, ph3, super::mappable::map_slots(m3, pml4, mask, page), pml4, mask, q);
            assert(reaches(m2, pml4, mask, q, l));
            assert(table_at(m3, pml4, mask, q, l) == table_at(m2, pml4, mask, q, l));
            assert(!data.contains(frame_of(table_at(m2, pml4, mask, q, l))));
        } else {
            lemma_class(m2, m3, ph2, ph3, pml4, mask, page, q, page, end);
            lemma_class_use(m2, m3, ph2, ph3, pml4, mask, page, q, page, end, l);
            let t = table_at(m3, pml4, mask, q, l);
            if !reaches(m2, pml4, mask, q, l) {
                if data.contains(frame_of(t)) {
                    assert(ph2[frame_of(t)] == PageUse::Used);
                }
            } else {
                assert(!data.contains(frame_of(table_at(m2, pml4, mask, q, l))));
            }
        }
    }
}

/// Page `f` holds the PML4 or a table that the path of a page of
/// `[s, e)` reaches in `m0`.
pub open spec fn run_frame(m0: Seq<u64>, pml4: u64, mask: u64, s: int, e: int, f: int) -> bool {
    ||| f == frame_of(pml4)
    ||| exists|q: int, l: int|
        s <= q < e && 1 <= l <= 3 && reaches(m0, pml4, mask, q, l) && f == frame_of(
            #[trigger] table_at(m0, pml4, mask, q, l),
        )
}

/// From `m0` to `m` only words of pages free in `ph0` and of tables of the
/// run `[s, e)` (`run_frame`) changed.
pub open spec fn alloc_writes(m0: Seq<u64>, m: Seq<u64>, ph0: Seq<PageUse>, pml4: u64, mask: u64, s: int, e: int) -> bool {
    forall|w: int|
        0 <= w < m0.len() && #[trigger] m[w] != m0[w] ==> (0 <= w / 512 < ph0.len() && ph0[w / 512] == PageUse::Free)
            || run_frame(m0, pml4, mask, s, e, w / 512)
}

/// Every table that a path of the run reaches in `m` lies in a page free
/// in `ph0`, or is the one that path reached in `m0`.
pub open spec fn walk_origin(m0: Seq<u64>, m: Seq<u64>, ph0: Seq<PageUse>, pml4: u64, mask: u64, s: int, e: int) -> bool {
    forall|q: int, l: int|
        s <= q < e && 1 <= l <= 3 && reaches(m, pml4, mask, q, l) ==> {
            ||| 0 <= frame_of(table_at(m, pml4, mask, q, l)) < ph0.len() && ph0[frame_of(
                #[trigger] table_at(m, pml4, mask, q, l),
            )] == PageUse::Free
            ||| reaches(m0, pml4, mask, q, l) && table_at(m, pml4, mask, q, l) == table_at(m0, pml4, mask, q, l)
        }
}

/// Taking a free page keeps the origin of the run's tables and of the
/// words written.
proof fn lemma_origin_take(
    m0: Seq<u64>,
    m1: Seq<u64>,
    m2: Seq<u64>,
    ph0: Seq<PageUse>,
    ph1: Seq<PageUse>,
    ph2: Seq<PageUse>,
    pml4: u64,
    mask: u64,
    entry_mask: u64,
    s: int,
    page: int,
    end: int,
)
    requires
        walk_origin(m0, m1, ph0, pml4, mask, s, end),
        alloc_writes(m0, m1, ph0, pml4, mask, s, end),
        changed_within(m1, m2, ph1, ph2, Set::empty()),
        only_taken(ph0, ph1),
        only_taken(ph1, ph2),
        mappable(m1, ph1, pml4, mask, page, end),
        alloc_inv(m1, ph0, ph1, pml4, mask, entry_mask, s, page),
        m1.len() == m0.len(),
        s <= page,
    ensures
        walk_origin(m0, m2, ph0, pml4, mask, s, end),
        alloc_writes(m0, m2, ph0, pml4, mask, s, end),
{
    assert forall|w: int| 0 <= w < m0.len() && #[trigger] m2[w] != m0[w] implies (0 <= w / 512 < ph0.len()
        && ph0[w / 512] == PageUse::Free) || run_frame(m0, pml4, mask, s, end, w / 512) by {
        if m2[w] != m1[w] {
            assert(in_taken_page(ph1, ph2, w));
            assert(ph1[w / 512] == ph0[w / 512] || ph0[w / 512] == PageUse::Free);
        }
    }
    assert forall|q: int, l: int| s <= q < end && 1 <= l <= 3 && reaches(m2, pml4, mask, q, l) implies {
        ||| 0 <= frame_of(table_at(m2, pml4, mask, q, l)) < ph0.len() && ph0[frame_of(
            #[trigger] table_at(m2, pml4, mask, q, l),
        )] == PageUse::Free
        ||| reaches(m0, pml4, mask, q, l) && table_at(m2, pml4, mask, q, l) == table_at(m0, pml4, mask, q, l)
    } by {
        if q < page {
            assert(fresh_mapping(m1, ph0, ph1, pml4, mask, entry_mask, q));
            reveal(fresh_mapping);
            lemma_path_kept(m1, m2, ph1, ph2, Set::empty(), pml4, mask, q);
            assert(reaches(m1, pml4, mask, q, l));
            assert(table_at(m2, pml4, mask, q, l) == table_at(m1, pml4, mask, q, l));
        } else {
            assert(path_ok(m1, ph1, pml4, mask, q));
            lemma_walk_same(m1, m2, ph1, ph2, pml4, mask, q);
            assert(reaches(m1, pml4, mask, q, l));
            assert(table_at(m2, pml4, mask, q, l) == table_at(m1, pml4, mask, q, l));
        }
    }
}

/// Mapping the next page keeps the origin of the run's tables and of the
/// words written.
proof fn lemma_origin_map(
    m0: Seq<u64>,
    m2: Seq<u64>,
    m3: Seq<u64>,
    ph0: Seq<PageUse>,
    ph2: Seq<PageUse>,
    ph3: Seq<PageUse>,
    pml4: u64,
    mask: u64,
    entry_mask: u64,
    s: int,
    page: int,
    end: int,
)
    requires
        walk_origin(m0, m2, ph0, pml4, mask, s, end),
        alloc_writes(m0, m2, ph0, pml4, mask, s, end),
        map_step(m2, m3, ph2, ph3, pml4, mask, page),
        only_taken(ph0, ph2),
        mappable(m2, ph2, pml4, mask, page, end),
        alloc_inv(m2, ph0, ph2, pml4, mask, entry_mask, s, page),
        m2.len() == m0.len(),
        s <= page < end,
    ensures
        walk_origin(m0, m3, ph0, pml4, mask, s, end),
        alloc_writes(m0, m3, ph0, pml4, mask, s, end),
{
    assert forall|q: int, l: int| s <= q < end && 1 <= l <= 3 && reaches(m3, pml4, mask, q, l) implies {
        ||| 0 <= frame_of(table_at(m3, pml4, mask, q, l)) < ph0.len() && ph0[frame_of(
            #[trigger] table_at(m3, pml4, mask, q, l),
        )] == PageUse::Free
        ||| reaches(m0, pml4, mask, q, l) && table_at(m3, pml4, mask, q, l) == table_at(m0, pml4, mask, q, l)
    } by {
        if q < page {
            assert(fresh_mapping(m2, ph0, ph2, pml4, mask, entry_mask, q));
            reveal(fresh_mapping);
            lemma_path_kept(m2, m3, ph2, ph3, super::mappable::map_slots(m3, pml4, mask, page), pml4, mask, q);
            assert(reaches(m2, pml4, mask, q, l));
            assert(table_at(m3, pml4, mask, q, l) == table_at(m2, pml4, mask, q, l));
        } else {
            lemma_class(m2, m3, ph2, ph3, pml4, mask, page, q, page, end);
            lemma_class_use(m2, m3, ph2, ph3, pml4, mask, page, q, page, end, l);
            let t = table_at(m3, pml4, mask, q, l);
            if reaches(m2, pml4, mask, q, l) {
                assert(table_at(m2, pml4, mask, q, l) == t);
            } else {
                assert(ph2[frame_of(t)] == ph0[frame_of(t)] || ph0[frame_of(t)] == PageUse::Free);
            }
        }
    }
    super::mappable::lemma_index_bounds(page);
    assert forall|w: int| 0 <= w < m0.len() && #[trigger] m3[w] != m0[w] implies (0 <= w / 512 < ph0.len()
        && ph0[w / 512] == PageUse::Free) || run_frame(m0, pml4, mask, s, end, w / 512) by {
        if m3[w] != m2[w] {
            if in_taken_page(ph2, ph3, w) {
                assert(ph2[w / 512] == ph0[w / 512] || ph0[w / 512] == PageUse::Free);
            } else {
                let sl = super::mappable::map_slots(m3, pml4, mask, page);
                assert(sl.contains(w));
                assert(table_ok(m3, ph3, pml4));
                if w == super::level4::slot(pml4, super::level4::l4_index(page)) {
                    super::level4::lemma_slot_page(pml4, super::level4::l4_index(page));
                } else {
                    assert forall|l: int| 1 <= l <= 3 && w == #[trigger] super::level4::slot(
                        table_at(m3, pml4, mask, page, l),
                        super::mappable::entry_index(page, l),
                    ) implies (0 <= w / 512 < ph0.len() && ph0[w / 512] == PageUse::Free) || run_frame(
                        m0,
                        pml4,
                        mask,
                        s,
                        end,
                        w / 512,
                    ) by {
                        let t = table_at(m3, pml4, mask, page, l);
                        assert(table_ok(m3, ph3, t));
                        super::level4::lemma_slot_page(t, super::mappable::entry_index(page, l));
                        assert(reaches(m3, pml4, mask, page, l));
                    }
                    assert(w == super::level4::slot(table_at(m3, pml4, mask, page, 3), super::mappable::entry_index(page, 3))
                        || w == super::level4::slot(table_at(m3, pml4, mask, page, 2), super::mappable::entry_index(page, 2))
                        || w == super::level4::slot(table_at(m3, pml4, mask, page, 1), super::mappable::entry_index(page, 1)));
                }
            }
        }
    }
}

/// The pages that the run `[a, b)` is mapped to hold zeros.
pub open spec fn zeroed_run(mem: Seq<u64>, pml4: u64, mask: u64, a: int, b: int) -> bool {
    forall|k: int, j: int|
        a <= k < b && 0 <= j < 512 ==> #[trigger] super::page_word(mem, leaf_frame_of(mem, pml4, mask, k), j) == 0
}

/// Taking and zeroing a free page keeps the pages mapped so far zero.
proof fn lemma_zero_take(
    m1: Seq<u64>,
    m2: Seq<u64>,
    ph0: Seq<PageUse>,
    ph1: Seq<PageUse>,
    ph2: Seq<PageUse>,
    pml4: u64,
    mask: u64,
    entry_mask: u64,
    s: int,
    page: int,
    end: int,
    data: Set<int>,
    fi: int,
)
    requires
        zeroed_run(m1, pml4, mask, s, page),
        apart_inv(m1, ph0, ph1, pml4, mask, s, page, end, data),
        alloc_inv(m1, ph0, ph1, pml4, mask, entry_mask, s, page),
        changed_within(m1, m2, ph1, ph2, Set::empty()),
        only_taken(ph1, ph2),
        0 <= fi < ph1.len(),
        ph1[fi] == PageUse::Free,
        super::page_zeroed(m2, fi),
        m1.len() >= ph1.len() * 512,
    ensures
        zeroed_run(m2, pml4, mask, s, page),
        forall|j: int| 0 <= j < 512 ==> #[trigger] super::page_word(m2, fi, j) == 0,
{
    assert forall|k: int, j: int| s <= k < page && 0 <= j < 512 implies #[trigger] super::page_word(
        m2,
        leaf_frame_of(m2, pml4, mask, k),
        j,
    ) == 0 by {
        assert(fresh_mapping(m1, ph0, ph1, pml4, mask, entry_mask, k));
        reveal(fresh_mapping);
        lemma_path_kept(m1, m2, ph1, ph2, Set::empty(), pml4, mask, k);
        let f = leaf_frame_of(m1, pml4, mask, k);
        assert(data.contains(f));
        assert(ph1[f] == PageUse::Used);
        let w = f * 512 + j;
        assert(w / 512 == f);
        assert(w < m1.len()) by (nonlinear_arith)
            requires w == f * 512 + j, 0 <= j < 512, 0 <= f < ph1.len(), m1.len() >= ph1.len() * 512;
        assert(super::page_word(m1, f, j) == 0);
        if m2[w] != m1[w] {
            assert(in_taken_page(ph1, ph2, w));
        }
    }
    assert forall|j: int| 0 <= j < 512 implies #[trigger] super::page_word(m2, fi, j) == 0 by {
        assert(fi * 512 <= fi * 512 + j < fi * 512 + 512);
    }
}

/// A word that mapping page `page` may write lies in a page that holds a
/// table of the run, not in one the run is mapped to.
proof fn lemma_slot_not_data(
    m3: Seq<u64>,
    ph0: Seq<PageUse>,
    ph3: Seq<PageUse>,
    pml4: u64,
    mask: u64,
    s: int,
    page: int,
    end: int,
    data: Set<int>,
    w: int,
)
    requires
        apart_inv(m3, ph0, ph3, pml4, mask, s, page + 1, end, data),
        mapped(m3, pml4, mask, page),
        path_tables_used(m3, ph3, pml4, mask, page),
        super::mappable::map_slots(m3, pml4, mask, page).contains(w),
        s <= page < end,
    ensures
        !data.contains(w / 512),
{
    super::mappable::lemma_index_bounds(page);
    if w == super::level4::slot(pml4, super::level4::l4_index(page)) {
        super::level4::lemma_slot_page(pml4, super::level4::l4_index(page));
    } else {
        assert forall|l: int| 1 <= l <= 3 && w == #[trigger] super::level4::slot(
            table_at(m3, pml4, mask, page, l),
            super::mappable::entry_index(page, l),
        ) implies !data.contains(w / 512) by {
            let t = table_at(m3, pml4, mask, page, l);
            assert(table_ok(m3, ph3, t));
            assert(reaches(m3, pml4, mask, page, l));
            assert(!data.contains(frame_of(t)));
            super::level4::lemma_slot_page(t, super::mappable::entry_index(page, l));
        }
        assert(w == super::level4::slot(table_at(m3, pml4, mask, page, 3), super::mappable::entry_index(page, 3))
            || w == super::level4::slot(table_at(m3, pml4, mask, page, 2), super::mappable::entry_index(page, 2))
            || w == super::level4::slot(table_at(m3, pml4, mask, page, 1), super::mappable::entry_index(page, 1)));
    }
}

/// Mapping the next page to the page just zeroed keeps the pages mapped
/// so far zero.
proof fn lemma_zero_map(
    m2: Seq<u64>,
    m3: Seq<u64>,
    ph0: Seq<PageUse>,
    ph2: Seq<PageUse>,
    ph3: Seq<PageUse>,
    pml4: u64,
    mask: u64,
    entry_mask: u64,
    s: int,
    page: int,
    end: int,
    data: Set<int>,
    fi: int,
)
    requires
        zeroed_run(m2, pml4, mask, s, page),
        forall|j: int| 0 <= j < 512 ==> #[trigger] super::page_word(m2, fi, j) == 0,
        apart_inv(m2, ph0, ph2, pml4, mask, s, page, end, data),
        apart_inv(m3, ph0, ph3, pml4, mask, s, page + 1, end, data),
        data.contains(fi),
        map_step(m2, m3, ph2, ph3, pml4, mask, page),
        alloc_inv(m2, ph0, ph2, pml4, mask, entry_mask, s, page),
        leaf_frame_of(m3, pml4, mask, page) == fi,
        only_taken(ph0, ph2),
        m2.len() >= ph2.len() * 512,
        s <= page < end,
    ensures
        zeroed_run(m3, pml4, mask, s, page + 1),
{
    assert forall|k: int, j: int| s <= k < page + 1 && 0 <= j < 512 implies #[trigger] super::page_word(
        m3,
        leaf_frame_of(m3, pml4, mask, k),
        j,
    ) == 0 by {
        let f = leaf_frame_of(m3, pml4, mask, k);
        if k < page {
            assert(fresh_mapping(m2, ph0, ph2, pml4, mask, entry_mask, k));
            reveal(fresh_mapping);
            lemma_path_kept(m2, m3, ph2, ph3, super::mappable::map_slots(m3, pml4, mask, page), pml4, mask, k);
            assert(leaf_frame_of(m2, pml4, mask, k) == f);
            assert(super::page_word(m2, leaf_frame_of(m2, pml4, mask, k), j) == 0);
        } else {
            assert(super::page_word(m2, fi, j) == 0);
        }
        assert(super::page_word(m2, f, j) == 0);
        assert(data.contains(f));
        assert(0 <= f < ph0.len() && ph2[f] == PageUse::Used);
        let w = f * 512 + j;
        assert(w / 512 == f);
        assert(w < m2.len()) by (nonlinear_arith)
            requires w == f * 512 + j, 0 <= j < 512, 0 <= f < ph2.len(), m2.len() >= ph2.len() * 512;
        if m3[w] != m2[w] {
            if !in_taken_page(ph2, ph3, w) {
                lemma_slot_not_data(m3, ph0, ph3, pml4, mask, s, page, end, data, w);
            }
        }
    }
}

/// Page `i` is the page that linear page `k` is mapped to, or holds one of
/// the tables on its path.
pub open spec fn serves_page(mem: Seq<u64>, pml4: u64, mask: u64, k: int, i: int) -> bool {
    ||| i == leaf_frame_of(mem, pml4, mask, k)
    ||| i == frame_of(pdpt_of(mem, pml4, mask, k))
    ||| i == frame_of(pd_of(mem, pml4, mask, k))
    ||| i == frame_of(pt_of(mem, pml4, mask, k))
}

/// Every page whose use changed from `ph0` to `ph` serves a page of the
/// run `[s, e)` in `mem`: the pages taken are those the run is mapped to
/// and the tables created for it.
pub open spec fn taken_for_run(
    ph0: Seq<PageUse>,
    ph: Seq<PageUse>,
    mem: Seq<u64>,
    pml4: u64,
    mask: u64,
    s: int,
    e: int,
) -> bool {
    forall|i: int|
        0 <= i < ph0.len() && #[trigger] ph[i] != ph0[i] ==> exists|k: int|
            s <= k < e && #[trigger] serves_page(mem, pml4, mask, k, i)
}

/// Taking a page and mapping the next page of the run to it takes only
/// pages that serve the run.
proof fn lemma_taken_step(
    m1: Seq<u64>,
    m2: Seq<u64>,
    m3: Seq<u64>,
    ph0: Seq<PageUse>,
    ph1: Seq<PageUse>,
    ph2: Seq<PageUse>,
    ph3: Seq<PageUse>,
    pml4: u64,
    mask: u64,
    entry_mask: u64,
    s: int,
    page: int,
    fi: int,
)
    requires
        taken_for_run(ph0, ph1, m1, pml4, mask, s, page),
        alloc_inv(m1, ph0, ph1, pml4, mask, entry_mask, s, page),
        alloc_inv(m2, ph0, ph2, pml4, mask, entry_mask, s, page),
        changed_within(m1, m2, ph1, ph2, Set::empty()),
        only_taken(ph1, ph2),
        only_taken(ph0, ph1),
        ph2 == ph1.update(fi, PageUse::Used),
        0 <= fi < ph1.len(),
        changed_within(m2, m3, ph2, ph3, super::mappable::map_slots(m3, pml4, mask, page)),
        only_taken(ph2, ph3),
        tables_taken(m2, m3, ph2, ph3, pml4, mask, page),
        leaf_frame_of(m3, pml4, mask, page) == fi,
        s <= page,
    ensures
        taken_for_run(ph0, ph3, m3, pml4, mask, s, page + 1),
{
    assert forall|i: int| 0 <= i < ph0.len() && #[trigger] ph3[i] != ph0[i] implies exists|k: int|
        s <= k < page + 1 && #[trigger] serves_page(m3, pml4, mask, k, i) by {
        assert(ph1.len() == ph0.len() && ph2.len() == ph0.len());
        if ph3[i] != ph2[i] {
            assert(serves_page(m3, pml4, mask, page, i));
        } else if ph2[i] != ph1[i] {
            assert(i == fi);
            assert(serves_page(m3, pml4, mask, page, i));
        } else {
            assert(ph1[i] != ph0[i]);
            let k = choose|k: int| s <= k < page && #[trigger] serves_page(m1, pml4, mask, k, i);
            assert(fresh_mapping(m1, ph0, ph1, pml4, mask, entry_mask, k));
            assert(fresh_mapping(m2, ph0, ph2, pml4, mask, entry_mask, k));
            reveal(fresh_mapping);
            lemma_path_kept(m1, m2, ph1, ph2, Set::empty(), pml4, mask, k);
            lemma_path_kept(m2, m3, ph2, ph3, super::mappable::map_slots(m3, pml4, mask, page), pml4, mask, k);
            assert(serves_page(m3, pml4, mask, k, i));
        }
    }
}

/// At the end of the run, its pages are mapped apart from its tables.
proof fn lemma_apart_final(
    m: Seq<u64>,
    ph0: Seq<PageUse>,
    ph: Seq<PageUse>,
    pml4: u64,
    mask: u64,
    entry_mask: u64,
    s: int,
    end: int,
    data: Set<int>,
)
    requires
        apart_inv(m, ph0, ph, pml4, mask, s, end, end, data),
        alloc_inv(m, ph0, ph, pml4, mask, entry_mask, s, end),
    ensures
        data_apart(m, pml4, mask, s, end),
{
    assert forall|k1: int, k2: int, l: int| s <= k1 < end && s <= k2 < end && 1 <= l <= 3 implies {
        &&& #[trigger] leaf_frame_of(m, pml4, mask, k1) != frame_of(#[trigger] table_at(m, pml4, mask, k2, l))
        &&& leaf_frame_of(m, pml4, mask, k1) != frame_of(pml4)
    } by {
        assert(fresh_mapping(m, ph0, ph, pml4, mask, entry_mask, k2));
        reveal(fresh_mapping);
        assert(reaches(m, pml4, mask, k2, l));
        assert(data.contains(leaf_frame_of(m, pml4, mask, k1)));
    }
}

/// When `alloc_pages` cannot fail: every table read while looking for a
/// hole in the half lies in `mem`, the half has a hole, the lowest hole is
/// `mappable`, and four free pages per page (one for the page, three for
/// tables that may be missing) are at hand.
pub open spec fn alloc_ready(
    mem: Seq<u64>,
    phys: Seq<PageUse>,
    pml4: u64,
    mask: u64,
    pages: int,
    kernel: bool,
) -> bool {
    &&& forall|q: int|
        half_start(kernel) <= q < half_start(kernel) + 256 * 134217728 ==> #[trigger] walk_readable(
            mem,
            pml4,
            mask,
            q,
        )
    &&& exists|t: int| #[trigger] lin_hole(mem, pml4, mask, pages, kernel, t)
    &&& forall|s: int|
        #[trigger] lin_hole(mem, pml4, mask, pages, kernel, s) && (forall|t: int|
            t < s ==> !#[trigger] lin_hole(mem, pml4, mask, pages, kernel, t)) ==> mappable(
            mem,
            phys,
            pml4,
            mask,
            s,
            s + pages,
        )
    &&& count_use(phys, PageUse::Free) >= 4 * pages
}

/// Maps `pages` linear pages at the lowest hole of the kernel or user half
/// of the tables at `cr3`, each to a freshly taken zeroed physical page,
/// and returns the canonical address of the first. `None` when the half
/// has no such hole, when its tables do not lie in `mem`, or when a page
/// or table cannot be had on the way; never when `alloc_ready` holds, and
/// then the pages mapped are distinct, hold no table of the run and still
/// hold zeros at the end, and only words of free pages and of the run's
/// tables were written.
pub fn alloc_pages(pager: &mut Pager, mem: &mut [u64], pages: u64, kernel: bool, cr3: u64) -> (r: Option<u64>)
    requires
        old(pager).wf(),
        old(pager).paging_type == PagingType::Level4,
        old(mem)@.len() >= old(pager).phys@.len() * 512,
    ensures
        final(pager).wf(),
        final(pager).paging_type == old(pager).paging_type,
        final(pager).phy_page_mask == old(pager).phy_page_mask,
        final(pager).lin_addr_mask == old(pager).lin_addr_mask,
        final(pager).to_high_mask == old(pager).to_high_mask,
        final(pager).phy_addr_bits == old(pager).phy_addr_bits,
        final(mem)@.len() == old(mem)@.len(),
        only_taken(old(pager).phys@, final(pager).phys@),
        present_kept(old(mem)@, final(mem)@, old(pager).phys@),
        alloc_ready(
            old(mem)@,
            old(pager).phys@,
            cr3 & old(pager).phy_page_mask,
            old(pager).phy_page_mask,
            pages as int,
            kernel,
        ) ==> r is Some,
        (forall|t: int|
            !#[trigger] lin_hole(
                old(mem)@,
                cr3 & old(pager).phy_page_mask,
                old(pager).phy_page_mask,
                pages as int,
                kernel,
                t,
            )) ==> r is None,
        r matches Some(ptr) ==> exists|s: int|
            {
                &&& #[trigger] lin_hole(
                    old(mem)@,
                    cr3 & old(pager).phy_page_mask,
                    old(pager).phy_page_mask,
                    pages as int,
                    kernel,
                    s,
                )
                &&& (forall|t: int|
                    t < s ==> !#[trigger] lin_hole(
                        old(mem)@,
                        cr3 & old(pager).phy_page_mask,
                        old(pager).phy_page_mask,
                        pages as int,
                        kernel,
                        t,
                    ))
                &&& ptr == canonical(s)
                &&& alloc_inv(
                    final(mem)@,
                    old(pager).phys@,
                    final(pager).phys@,
                    cr3 & old(pager).phy_page_mask,
                    old(pager).phy_page_mask,
                    entry_flags(kernel),
                    s,
                    s + pages,
                )
                &&& taken_for_run(
                    old(pager).phys@,
                    final(pager).phys@,
                    final(mem)@,
                    cr3 & old(pager).phy_page_mask,
                    old(pager).phy_page_mask,
                    s,
                    s + pages,
                )
                &&& alloc_ready(
                    old(mem)@,
                    old(pager).phys@,
                    cr3 & old(pager).phy_page_mask,
                    old(pager).phy_page_mask,
                    pages as int,
                    kernel,
                ) ==> data_apart(
                    final(mem)@,
                    cr3 & old(pager).phy_page_mask,
                    old(pager).phy_page_mask,
                    s,
                    s + pages,
                ) && alloc_writes(
                    old(mem)@,
                    final(mem)@,
                    old(pager).phys@,
                    cr3 & old(pager).phy_page_mask,
                    old(pager).phy_page_mask,
                    s,
                    s + pages,
                ) && walk_origin(
                    old(mem)@,
                    final(mem)@,
                    old(pager).phys@,
                    cr3 & old(pager).phy_page_mask,
                    old(pager).phy_page_mask,
                    s,
                    s + pages,
                ) && zeroed_run(final(mem)@, cr3 & old(pager).phy_page_mask, old(pager).phy_page_mask, s, s + pages)
            },
{
    let mask = pager.phy_page_mask;
    let pml4 = cr3 & mask;
    let ghost ok = alloc_ready(mem@, pager.phys@, pml4, mask, pages as int, kernel);
    let lin_start = match get_lin_hole(mem, pml4, mask, pages, kernel) {
        Ok(Some(s)) => s,
        Ok(None) => return None,
        Err(_) => return None,
    };
    let entry_mask: u64 = if kernel { 3 } else { 7 };
    proof {
        assert(mask & 0xFFF == 0);
        assert(entry_mask & mask == 0 && entry_mask & 1 == 1) by (bit_vector)
            requires mask & 0xFFF == 0, entry_mask == 3 || entry_mask == 7;
    }
    let ghost m0 = mem@;
    let ghost ph0 = pager.phys@;
    let ghost need: int = if pages >= 1 { pages as int } else { 1 };
    assert(lin_start + need <= 68719476736) by {
        assert(lin_hole(m0, pml4, mask, pages as int, kernel, lin_start as int));
    }
    let end = lin_start + pages;
    let mut page = lin_start;
    let ghost mut data: Set<int> = Set::empty();
    proof {
        if ok {
            assert(walk_origin(m0, m0, ph0, pml4, mask, lin_start as int, end as int));
        }
    }
    while page < end
        invariant
            pager.wf(),
            pager.phy_page_mask == mask,
            mask == old(pager).phy_page_mask,
            pager.paging_type == old(pager).paging_type,
            pager.lin_addr_mask == old(pager).lin_addr_mask,
            pager.to_high_mask == old(pager).to_high_mask,
            pager.phy_addr_bits == old(pager).phy_addr_bits,
            pml4 == cr3 & mask,
            mask & 0xFFF == 0,
            entry_mask == entry_flags(kernel),
            entry_mask & mask == 0,
            entry_mask & 1 == 1,
            lin_start <= page <= end,
            end == lin_start + pages,
            end <= 68719476736,
            m0 == old(mem)@,
            ph0 == old(pager).phys@,
            mem@.len() == m0.len(),
            m0.len() >= ph0.len() * 512,
            pager.phys@.len() == ph0.len(),
            only_taken(ph0, pager.phys@),
            alloc_inv(mem@, ph0, pager.phys@, pml4, mask, entry_mask, lin_start as int, page as int),
            ok == alloc_ready(m0, ph0, pml4, mask, pages as int, kernel),
            ok ==> mappable(mem@, pager.phys@, pml4, mask, page as int, end as int),
            ok ==> count_use(pager.phys@, PageUse::Free) >= 4 * (end - page),
            ok ==> apart_inv(mem@, ph0, pager.phys@, pml4, mask, lin_start as int, page as int, end as int, data),
            ok ==> walk_origin(m0, mem@, ph0, pml4, mask, lin_start as int, end as int),
            ok ==> zeroed_run(mem@, pml4, mask, lin_start as int, page as int),
            ok ==> alloc_writes(m0, mem@, ph0, pml4, mask, lin_start as int, end as int),
            present_kept(m0, mem@, ph0),
            taken_for_run(ph0, pager.phys@, mem@, pml4, mask, lin_start as int, page as int),
        decreases end - page,
    {
        let ghost m1 = mem@;
        let ghost ph1 = pager.phys@;
        let frame = match pager.phys.allocate_page_addr(mem, true) {
            Some(f) => f,
            None => {
                proof {
                    lemma_no_free_count(ph1);
                }
                return None;
            },
        };
        let ghost m2 = mem@;
        let ghost ph2 = pager.phys@;
        proof {
            lemma_alloc_taken(m1, m2, ph0, ph1, ph2, pml4, mask, entry_mask, lin_start as int, page as int, frame);
            lemma_count_update(ph1, frame_of(frame), PageUse::Used, PageUse::Free);
            lemma_present_kept_step(m0, m1, m2, ph0, ph1, ph2, Set::empty());
            if ok {
                lemma_mappable_take(m1, m2, ph1, ph2, pml4, mask, page as int, end as int);
                assert(super::level4::path_ok(m2, ph2, pml4, mask, page as int));
                lemma_origin_take(
                    m0,
                    m1,
                    m2,
                    ph0,
                    ph1,
                    ph2,
                    pml4,
                    mask,
                    entry_mask,
                    lin_start as int,
                    page as int,
                    end as int,
                );
                lemma_zero_take(
                    m1,
                    m2,
                    ph0,
                    ph1,
                    ph2,
                    pml4,
                    mask,
                    entry_mask,
                    lin_start as int,
                    page as int,
                    end as int,
                    data,
                    frame_of(frame),
                );
                lemma_apart_take(
                    m1,
                    m2,
                    ph0,
                    ph1,
                    ph2,
                    pml4,
                    mask,
                    entry_mask,
                    lin_start as int,
                    page as int,
                    end as int,
                    data,
                    frame_of(frame),
                );
            }
            data = data.insert(frame_of(frame));
        }
        if !check_path(mem, &pager.phys, pml4, mask, page) {
            return None;
        }
        allocate_page(mem, &mut pager.phys, page, frame, pml4, mask, entry_mask);
        proof {
            let m3 = mem@;
            let ph3 = pager.phys@;
            lemma_present_kept_step(
                m0,
                m2,
                m3,
                ph0,
                ph2,
                ph3,
                super::mappable::map_slots(m3, pml4, mask, page as int),
            );
            if ok {
                assert(map_step(m2, m3, ph2, ph3, pml4, mask, page as int));
                lemma_origin_map(m0, m2, m3, ph0, ph2, ph3, pml4, mask, entry_mask, lin_start as int, page as int, end as int);
                lemma_mappable_map(m2, m3, ph2, ph3, pml4, mask, page as int, end as int);
            }
            lemma_alloc_kept(
                m2,
                m3,
                ph0,
                ph2,
                ph3,
                pml4,
                mask,
                entry_mask,
                lin_start as int,
                page as int,
                set![
                    super::level4::slot(pml4, super::level4::l4_index(page as int)),
                    super::level4::slot(super::level4::pdpt_of(m3, pml4, mask, page as int), super::level4::l3_index(page as int)),
                    super::level4::slot(super::level4::pd_of(m3, pml4, mask, page as int), super::level4::l2_index(page as int)),
                    super::level4::slot(super::level4::pt_of(m3, pml4, mask, page as int), super::level4::l1_index(page as int)),
                ],
            );
            lemma_new_mapping(m3, ph0, ph1, ph2, ph3, pml4, mask, entry_mask, page as int, frame);
            lemma_taken_step(
                m1,
                m2,
                m3,
                ph0,
                ph1,
                ph2,
                ph3,
                pml4,
                mask,
                entry_mask,
                lin_start as int,
                page as int,
                frame_of(frame),
            );
            if ok {
                lemma_apart_map(
                    m2,
                    m3,
                    ph0,
                    ph2,
                    ph3,
                    pml4,
                    mask,
                    entry_mask,
                    lin_start as int,
                    page as int,
                    end as int,
                    data,
                    frame_of(frame),
                );
                lemma_zero_map(
                    m2,
                    m3,
                    ph0,
                    ph2,
                    ph3,
                    pml4,
                    mask,
                    entry_mask,
                    lin_start as int,
                    page as int,
                    end as int,
                    data,
                    frame_of(frame),
                );
            }
            lemma_alloc_extend(m3, ph0, ph3, pml4, mask, entry_mask, lin_start as int, page as int);
        }
        page = page + 1;
    }
    proof {
        if ok {
            lemma_apart_final(mem@, ph0, pager.phys@, pml4, mask, entry_mask, lin_start as int, end as int, data);
        }
    }
    Some(canonical_address(lin_start))
}

} // verus!
