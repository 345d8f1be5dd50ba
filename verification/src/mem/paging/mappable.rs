//! When a run of linear pages can be mapped page after page without fail.
//!
//! `allocate_page` refuses nothing once `check_path` passed; these lemmas
//! show that what `check_path` asks of the next page of a run still holds
//! after the pages before it were mapped, as long as the tables of the run
//! form a tree: a table met on two paths sits at the same level under the
//! same entries on both.

use vstd::prelude::*;
use super::PageUse;
use super::level4::{
    lemma_zero_absent,
    changed_within, frame_of, in_taken_page, l1_index, l2_index, l3_index, l4_index, lemma_slot_page,
    linked_table, mapped, next_table, only_taken, path_distinct, path_ok, path_tables_used, pd_of,
    pdpt_of, present, pt_of, reaches, same_prefix, slot, table_at, table_in, table_ok, word,
};

verus! {

/// Pages `[lo, hi)` can be mapped one after another: the present tables on
/// each path are distinct, in use and in `mem`, no page of the run is
/// mapped, and a table met on two paths sits at the same level under the
/// same entries on both.
pub open spec fn mappable(mem: Seq<u64>, phys: Seq<PageUse>, pml4: u64, mask: u64, lo: int, hi: int) -> bool {
    &&& forall|q: int| lo <= q < hi ==> #[trigger] path_ok(mem, phys, pml4, mask, q)
    &&& forall|q1: int, q2: int, l1: int, l2: int|
        lo <= q1 < hi && lo <= q2 < hi && 1 <= l1 <= 3 && 1 <= l2 <= 3 && reaches(mem, pml4, mask, q1, l1)
            && reaches(mem, pml4, mask, q2, l2) && #[trigger] table_at(mem, pml4, mask, q1, l1)
            == #[trigger] table_at(mem, pml4, mask, q2, l2) ==> l1 == l2 && same_prefix(q1, q2, l1)
}

/// Two entries of page-aligned tables share a word only when they are the
/// same entry of the same table.
proof fn lemma_slot_eq(t1: u64, j1: int, t2: u64, j2: int)
    requires
        t1 % 4096 == 0,
        t2 % 4096 == 0,
        0 <= j1 < 512,
        0 <= j2 < 512,
        slot(t1, j1) == slot(t2, j2),
    ensures
        t1 == t2,
        j1 == j2,
{
    lemma_slot_page(t1, j1);
    lemma_slot_page(t2, j2);
    vstd::arithmetic::div_mod::lemma_fundamental_div_mod(t1 as int, 4096);
    vstd::arithmetic::div_mod::lemma_fundamental_div_mod(t2 as int, 4096);
}

/// The four indices of a page below 2^36 determine it.
proof fn lemma_indices_determine(p: int, q: int)
    requires
        0 <= p < 68719476736,
        0 <= q < 68719476736,
        same_prefix(p, q, 1),
        l1_index(p) == l1_index(q),
    ensures
        p == q,
{
    let a = p as u64;
    let b = q as u64;
    assert(a < 0x10_0000_0000 && b < 0x10_0000_0000 && (a / 134217728) % 512 == (b / 134217728) % 512 && (a
        / 262144) % 512 == (b / 262144) % 512 && (a / 512) % 512 == (b / 512) % 512 && a % 512 == b % 512
        ==> a == b) by (bit_vector);
}

/// A word of a table in use survives a change that did not write it.
proof fn lemma_word_kept(
    m1: Seq<u64>,
    m2: Seq<u64>,
    ph1: Seq<PageUse>,
    ph2: Seq<PageUse>,
    slots: Set<int>,
    t: u64,
    j: int,
)
    requires
        changed_within(m1, m2, ph1, ph2, slots),
        table_ok(m1, ph1, t),
        0 <= j < 512,
        !slots.contains(slot(t, j)),
    ensures
        word(m2, t, j) == word(m1, t, j),
{
    lemma_slot_page(t, j);
    assert(!in_taken_page(ph1, ph2, slot(t, j)));
}

/// A word of a newly taken table that was not written is zero, so not
/// present.
proof fn lemma_word_zero(
    m1: Seq<u64>,
    m2: Seq<u64>,
    ph1: Seq<PageUse>,
    ph2: Seq<PageUse>,
    slots: Set<int>,
    t: u64,
    j: int,
)
    requires
        changed_within(m1, m2, ph1, ph2, slots),
        t % 4096 == 0,
        table_in(m1, t),
        0 <= frame_of(t) < ph1.len(),
        ph1[frame_of(t)] == PageUse::Free,
        ph2[frame_of(t)] == PageUse::Used,
        0 <= j < 512,
        !slots.contains(slot(t, j)),
    ensures
        !present(word(m2, t, j)),
{
    lemma_slot_page(t, j);
    assert(in_taken_page(ph1, ph2, slot(t, j)));
    assert(word(m2, t, j) == 0);
    lemma_zero_absent();
}

/// The words `allocate_page` may write while mapping page `p`.
pub open spec fn map_slots(mem: Seq<u64>, pml4: u64, mask: u64, p: int) -> Set<int> {
    set![
        slot(pml4, l4_index(p)),
        slot(pdpt_of(mem, pml4, mask, p), l3_index(p)),
        slot(pd_of(mem, pml4, mask, p), l2_index(p)),
        slot(pt_of(mem, pml4, mask, p), l1_index(p)),
    ]
}

/// What `allocate_page` leaves behind after mapping page `p` of a run
/// that was mappable in `m1`.
pub open spec fn map_step(
    m1: Seq<u64>,
    m2: Seq<u64>,
    ph1: Seq<PageUse>,
    ph2: Seq<PageUse>,
    pml4: u64,
    mask: u64,
    p: int,
) -> bool {
    &&& m2.len() == m1.len()
    &&& changed_within(m1, m2, ph1, ph2, map_slots(m2, pml4, mask, p))
    &&& only_taken(ph1, ph2)
    &&& mapped(m2, pml4, mask, p)
    &&& path_tables_used(m2, ph2, pml4, mask, p)
    &&& path_distinct(m2, pml4, mask, p)
    &&& linked_table(m1, m2, ph1, pml4, mask, p, 3)
    &&& linked_table(m1, m2, ph1, pml4, mask, p, 2)
    &&& linked_table(m1, m2, ph1, pml4, mask, p, 1)
    &&& path_ok(m1, ph1, pml4, mask, p)
}

/// After mapping `p`, the table of level `l` on the path of `q` is either
/// the one of before, or a new table of `p`'s path that `q` shares.
pub open spec fn walk_class(m1: Seq<u64>, m2: Seq<u64>, pml4: u64, mask: u64, p: int, q: int, l: int) -> bool {
    reaches(m2, pml4, mask, q, l) ==> {
        ||| reaches(m1, pml4, mask, q, l) && table_at(m2, pml4, mask, q, l) == table_at(m1, pml4, mask, q, l)
        ||| same_prefix(p, q, l) && !reaches(m1, pml4, mask, p, l) && table_at(m2, pml4, mask, q, l)
            == table_at(m2, pml4, mask, p, l)
    }
}

/// A table of level `l` of a path in `m1` is in use there.
pub(crate) proof fn lemma_reached_in_use(m1: Seq<u64>, ph1: Seq<PageUse>, pml4: u64, mask: u64, q: int, l: int)
    requires
        path_ok(m1, ph1, pml4, mask, q),
        1 <= l <= 3,
        reaches(m1, pml4, mask, q, l),
    ensures
        table_ok(m1, ph1, table_at(m1, pml4, mask, q, l)),
{
}

pub(crate) proof fn lemma_index_bounds(q: int)
    ensures
        0 <= l4_index(q) < 512,
        0 <= l3_index(q) < 512,
        0 <= l2_index(q) < 512,
        0 <= l1_index(q) < 512,
{
    vstd::arithmetic::div_mod::lemma_mod_bound(q / 134217728, 512);
    vstd::arithmetic::div_mod::lemma_mod_bound(q / 262144, 512);
    vstd::arithmetic::div_mod::lemma_mod_bound(q / 512, 512);
    vstd::arithmetic::div_mod::lemma_mod_bound(q, 512);
}

/// The index, within the table of level `l`, of the entry on the path of
/// page `q`.
pub open spec fn entry_index(q: int, l: int) -> int {
    if l >= 3 {
        l3_index(q)
    } else if l == 2 {
        l2_index(q)
    } else {
        l1_index(q)
    }
}

/// One level down the path of page `q`.
proof fn lemma_level_down(m: Seq<u64>, pml4: u64, mask: u64, p: int, q: int, l: int)
    requires
        2 <= l <= 3,
    ensures
        table_at(m, pml4, mask, q, l - 1) == next_table(
            word(m, table_at(m, pml4, mask, q, l), entry_index(q, l)),
            mask,
        ),
        reaches(m, pml4, mask, q, l - 1) == (reaches(m, pml4, mask, q, l) && present(
            word(m, table_at(m, pml4, mask, q, l), entry_index(q, l)),
        )),
        same_prefix(p, q, l - 1) == (same_prefix(p, q, l) && entry_index(p, l) == entry_index(q, l)),
{
}

/// Pages with the same entries down to level `l` reach the same table
/// there.
proof fn lemma_same_prefix_walk(m: Seq<u64>, pml4: u64, mask: u64, p: int, q: int, l: int)
    requires
        1 <= l <= 3,
        same_prefix(p, q, l),
    ensures
        reaches(m, pml4, mask, q, l) == reaches(m, pml4, mask, p, l),
        table_at(m, pml4, mask, q, l) == table_at(m, pml4, mask, p, l),
{
}

/// A table stays in use, and in `mem`, when pages only go from free to
/// used and `mem` keeps its length.
proof fn lemma_table_ok_kept(m1: Seq<u64>, m2: Seq<u64>, ph1: Seq<PageUse>, ph2: Seq<PageUse>, t: u64)
    requires
        table_ok(m1, ph1, t),
        only_taken(ph1, ph2),
        m2.len() == m1.len(),
    ensures
        table_ok(m2, ph2, t),
{
    assert(ph2[frame_of(t)] == ph1[frame_of(t)] || ph1[frame_of(t)] == PageUse::Free);
}

/// A word the mapping of `p` wrote in a table reached by `q` before lies
/// on `p`'s path at the same level, below the same entries.
proof fn lemma_old_slot(
    m1: Seq<u64>,
    m2: Seq<u64>,
    ph1: Seq<PageUse>,
    ph2: Seq<PageUse>,
    pml4: u64,
    mask: u64,
    p: int,
    q: int,
    lo: int,
    hi: int,
    l: int,
    j: int,
)
    requires
        map_step(m1, m2, ph1, ph2, pml4, mask, p),
        mappable(m1, ph1, pml4, mask, lo, hi),
        lo <= p < hi,
        lo <= q < hi,
        1 <= l <= 3,
        reaches(m1, pml4, mask, q, l),
        0 <= j < 512,
    ensures
        table_ok(m1, ph1, table_at(m1, pml4, mask, q, l)),
        map_slots(m2, pml4, mask, p).contains(slot(table_at(m1, pml4, mask, q, l), j)) ==> {
            &&& same_prefix(p, q, l)
            &&& j == entry_index(p, l)
            &&& reaches(m1, pml4, mask, p, l)
            &&& table_at(m2, pml4, mask, p, l) == table_at(m1, pml4, mask, q, l)
        },
{
    let t = table_at(m1, pml4, mask, q, l);
    assert(path_ok(m1, ph1, pml4, mask, q));
    lemma_reached_in_use(m1, ph1, pml4, mask, q, l);
    lemma_index_bounds(p);
    assert(t != pml4);
    if map_slots(m2, pml4, mask, p).contains(slot(t, j)) {
        assert(table_ok(m1, ph1, pml4));
        if slot(t, j) == slot(pml4, l4_index(p)) {
            lemma_slot_eq(t, j, pml4, l4_index(p));
        }
        assert forall|k: int|
            1 <= k <= 3 && slot(t, j) == #[trigger] slot(table_at(m2, pml4, mask, p, k), entry_index(p, k)) implies k
            == l && same_prefix(p, q, l) && j == entry_index(p, l) && reaches(m1, pml4, mask, p, l) && table_at(
            m2,
            pml4,
            mask,
            p,
            l,
        ) == t by {
            let tk = table_at(m2, pml4, mask, p, k);
            assert(table_ok(m2, ph2, tk));
            lemma_slot_eq(t, j, tk, entry_index(p, k));
            assert(linked_table(m1, m2, ph1, pml4, mask, p, k));
            if reaches(m1, pml4, mask, p, k) {
                assert(table_at(m1, pml4, mask, q, l) == table_at(m1, pml4, mask, p, k));
            } else {
                assert(ph1[frame_of(t)] != PageUse::Free);
            }
        }
        assert(slot(t, j) == slot(table_at(m2, pml4, mask, p, 3), entry_index(p, 3)) || slot(t, j) == slot(
            table_at(m2, pml4, mask, p, 2),
            entry_index(p, 2),
        ) || slot(t, j) == slot(table_at(m2, pml4, mask, p, 1), entry_index(p, 1)));
    }
}

/// A word the mapping of `p` wrote in one of the new tables of its path
/// is the entry of that path.
proof fn lemma_new_slot(
    m1: Seq<u64>,
    m2: Seq<u64>,
    ph1: Seq<PageUse>,
    ph2: Seq<PageUse>,
    pml4: u64,
    mask: u64,
    p: int,
    l: int,
    j: int,
)
    requires
        map_step(m1, m2, ph1, ph2, pml4, mask, p),
        1 <= l <= 3,
        0 <= j < 512,
    ensures
        map_slots(m2, pml4, mask, p).contains(slot(table_at(m2, pml4, mask, p, l), j)) ==> j == entry_index(p, l),
{
    let t = table_at(m2, pml4, mask, p, l);
    lemma_index_bounds(p);
    assert(table_ok(m2, ph2, t));
    assert(table_ok(m2, ph2, pml4));
    if map_slots(m2, pml4, mask, p).contains(slot(t, j)) {
        if slot(t, j) == slot(pml4, l4_index(p)) {
            lemma_slot_eq(t, j, pml4, l4_index(p));
        }
        assert forall|k: int|
            1 <= k <= 3 && slot(t, j) == #[trigger] slot(table_at(m2, pml4, mask, p, k), entry_index(p, k)) implies j
            == entry_index(p, l) by {
            let tk = table_at(m2, pml4, mask, p, k);
            assert(table_ok(m2, ph2, tk));
            lemma_slot_eq(t, j, tk, entry_index(p, k));
        }
        assert(slot(t, j) == slot(table_at(m2, pml4, mask, p, 3), entry_index(p, 3)) || slot(t, j) == slot(
            table_at(m2, pml4, mask, p, 2),
            entry_index(p, 2),
        ) || slot(t, j) == slot(table_at(m2, pml4, mask, p, 1), entry_index(p, 1)));
    }
}

/// The PDPT on the path of `q` after mapping `p`.
proof fn lemma_class_top(
    m1: Seq<u64>,
    m2: Seq<u64>,
    ph1: Seq<PageUse>,
    ph2: Seq<PageUse>,
    pml4: u64,
    mask: u64,
    p: int,
    q: int,
)
    requires
        map_step(m1, m2, ph1, ph2, pml4, mask, p),
    ensures
        walk_class(m1, m2, pml4, mask, p, q, 3),
{
    lemma_index_bounds(p);
    lemma_index_bounds(q);
    if same_prefix(p, q, 3) {
        lemma_same_prefix_walk(m1, pml4, mask, p, q, 3);
        lemma_same_prefix_walk(m2, pml4, mask, p, q, 3);
    } else {
        let w = slot(pml4, l4_index(q));
        assert(table_ok(m1, ph1, pml4));
        assert(!map_slots(m2, pml4, mask, p).contains(w)) by {
            if w == slot(pml4, l4_index(p)) {
                lemma_slot_eq(pml4, l4_index(q), pml4, l4_index(p));
            }
            assert forall|k: int| 1 <= k <= 3 implies w != #[trigger] slot(
                table_at(m2, pml4, mask, p, k),
                entry_index(p, k),
            ) by {
                let tk = table_at(m2, pml4, mask, p, k);
                assert(table_ok(m2, ph2, tk));
                if w == slot(tk, entry_index(p, k)) {
                    lemma_slot_eq(pml4, l4_index(q), tk, entry_index(p, k));
                }
            }
            assert(w != slot(table_at(m2, pml4, mask, p, 3), entry_index(p, 3)));
            assert(w != slot(table_at(m2, pml4, mask, p, 2), entry_index(p, 2)));
            assert(w != slot(table_at(m2, pml4, mask, p, 1), entry_index(p, 1)));
        }
        lemma_word_kept(m1, m2, ph1, ph2, map_slots(m2, pml4, mask, p), pml4, l4_index(q));
    }
}

/// From the table of level `l` on the path of `q` to the one of level
/// `l - 1`, after mapping `p`.
proof fn lemma_class_down(
    m1: Seq<u64>,
    m2: Seq<u64>,
    ph1: Seq<PageUse>,
    ph2: Seq<PageUse>,
    pml4: u64,
    mask: u64,
    p: int,
    q: int,
    lo: int,
    hi: int,
    l: int,
)
    requires
        map_step(m1, m2, ph1, ph2, pml4, mask, p),
        mappable(m1, ph1, pml4, mask, lo, hi),
        lo <= p < hi,
        lo <= q < hi,
        2 <= l <= 3,
        walk_class(m1, m2, pml4, mask, p, q, l),
    ensures
        walk_class(m1, m2, pml4, mask, p, q, l - 1),
{
    lemma_index_bounds(p);
    lemma_index_bounds(q);
    lemma_level_down(m1, pml4, mask, p, q, l);
    lemma_level_down(m2, pml4, mask, p, q, l);
    lemma_level_down(m1, pml4, mask, p, p, l);
    lemma_level_down(m2, pml4, mask, p, p, l);
    let tq = table_at(m2, pml4, mask, q, l);
    let e = entry_index(q, l);
    if reaches(m2, pml4, mask, q, l - 1) {
        if same_prefix(p, q, l - 1) {
            lemma_same_prefix_walk(m1, pml4, mask, p, q, l);
            lemma_same_prefix_walk(m2, pml4, mask, p, q, l);
            lemma_same_prefix_walk(m1, pml4, mask, p, q, l - 1);
            lemma_same_prefix_walk(m2, pml4, mask, p, q, l - 1);
            assert(linked_table(m1, m2, ph1, pml4, mask, p, l - 1));
        } else if reaches(m1, pml4, mask, q, l) && tq == table_at(m1, pml4, mask, q, l) {
            lemma_old_slot(m1, m2, ph1, ph2, pml4, mask, p, q, lo, hi, l, e);
            lemma_word_kept(m1, m2, ph1, ph2, map_slots(m2, pml4, mask, p), tq, e);
        } else {
            let tp = table_at(m2, pml4, mask, p, l);
            assert(linked_table(m1, m2, ph1, pml4, mask, p, l));
            assert(table_ok(m2, ph2, tp));
            assert(ph2[frame_of(tp)] == ph1[frame_of(tp)] || (ph1[frame_of(tp)] == PageUse::Free
                && ph2[frame_of(tp)] == PageUse::Used));
            lemma_new_slot(m1, m2, ph1, ph2, pml4, mask, p, l, e);
            lemma_word_zero(m1, m2, ph1, ph2, map_slots(m2, pml4, mask, p), tp, e);
        }
    }
}

/// The classification at every level of the path of `q`.
pub(crate) proof fn lemma_class(
    m1: Seq<u64>,
    m2: Seq<u64>,
    ph1: Seq<PageUse>,
    ph2: Seq<PageUse>,
    pml4: u64,
    mask: u64,
    p: int,
    q: int,
    lo: int,
    hi: int,
)
    requires
        map_step(m1, m2, ph1, ph2, pml4, mask, p),
        mappable(m1, ph1, pml4, mask, lo, hi),
        lo <= p < hi,
        lo <= q < hi,
    ensures
        walk_class(m1, m2, pml4, mask, p, q, 3),
        walk_class(m1, m2, pml4, mask, p, q, 2),
        walk_class(m1, m2, pml4, mask, p, q, 1),
{
    lemma_class_top(m1, m2, ph1, ph2, pml4, mask, p, q);
    lemma_class_down(m1, m2, ph1, ph2, pml4, mask, p, q, lo, hi, 3);
    lemma_class_down(m1, m2, ph1, ph2, pml4, mask, p, q, lo, hi, 2);
}

/// What the classification says of a table reached after mapping `p`: a
/// table in use before, or a new table of `p`'s path.
pub(crate) proof fn lemma_class_use(
    m1: Seq<u64>,
    m2: Seq<u64>,
    ph1: Seq<PageUse>,
    ph2: Seq<PageUse>,
    pml4: u64,
    mask: u64,
    p: int,
    q: int,
    lo: int,
    hi: int,
    l: int,
)
    requires
        map_step(m1, m2, ph1, ph2, pml4, mask, p),
        mappable(m1, ph1, pml4, mask, lo, hi),
        lo <= p < hi,
        lo <= q < hi,
        1 <= l <= 3,
        walk_class(m1, m2, pml4, mask, p, q, l),
        reaches(m2, pml4, mask, q, l),
    ensures
        table_ok(m2, ph2, table_at(m2, pml4, mask, q, l)),
        0 <= frame_of(table_at(m2, pml4, mask, q, l)) < ph1.len(),
        reaches(m1, pml4, mask, q, l) ==> {
            &&& table_at(m2, pml4, mask, q, l) == table_at(m1, pml4, mask, q, l)
            &&& ph1[frame_of(table_at(m2, pml4, mask, q, l))] != PageUse::Free
        },
        !reaches(m1, pml4, mask, q, l) ==> {
            &&& same_prefix(p, q, l)
            &&& table_at(m2, pml4, mask, q, l) == table_at(m2, pml4, mask, p, l)
            &&& ph1[frame_of(table_at(m2, pml4, mask, q, l))] == PageUse::Free
        },
{
    let t = table_at(m2, pml4, mask, q, l);
    if reaches(m1, pml4, mask, q, l) && t == table_at(m1, pml4, mask, q, l) {
        assert(path_ok(m1, ph1, pml4, mask, q));
        lemma_reached_in_use(m1, ph1, pml4, mask, q, l);
        lemma_table_ok_kept(m1, m2, ph1, ph2, t);
    } else {
        lemma_same_prefix_walk(m1, pml4, mask, p, q, l);
        assert(linked_table(m1, m2, ph1, pml4, mask, p, l));
        assert(table_ok(m2, ph2, t));
    }
}

/// After mapping `p`, every later page of the run still passes
/// `check_path`'s test on its path.
proof fn lemma_path_ok_after(
    m1: Seq<u64>,
    m2: Seq<u64>,
    ph1: Seq<PageUse>,
    ph2: Seq<PageUse>,
    pml4: u64,
    mask: u64,
    p: int,
    q: int,
    lo: int,
    hi: int,
)
    requires
        map_step(m1, m2, ph1, ph2, pml4, mask, p),
        mappable(m1, ph1, pml4, mask, lo, hi),
        lo <= p < hi,
        lo <= q < hi,
        q != p,
        0 <= lo,
        hi <= 68719476736,
    ensures
        path_ok(m2, ph2, pml4, mask, q),
{
    lemma_index_bounds(p);
    lemma_index_bounds(q);
    lemma_class(m1, m2, ph1, ph2, pml4, mask, p, q, lo, hi);
    assert(path_ok(m1, ph1, pml4, mask, q));
    assert(table_ok(m2, ph2, pml4));
    if reaches(m2, pml4, mask, q, 3) {
        lemma_class_use(m1, m2, ph1, ph2, pml4, mask, p, q, lo, hi, 3);
    }
    if reaches(m2, pml4, mask, q, 2) {
        lemma_class_use(m1, m2, ph1, ph2, pml4, mask, p, q, lo, hi, 2);
    }
    if reaches(m2, pml4, mask, q, 1) {
        lemma_class_use(m1, m2, ph1, ph2, pml4, mask, p, q, lo, hi, 1);
        let t = table_at(m2, pml4, mask, q, 1);
        let e = l1_index(q);
        if reaches(m1, pml4, mask, q, 1) {
            lemma_old_slot(m1, m2, ph1, ph2, pml4, mask, p, q, lo, hi, 1, e);
            if map_slots(m2, pml4, mask, p).contains(slot(t, e)) {
                lemma_indices_determine(p, q);
            }
            lemma_word_kept(m1, m2, ph1, ph2, map_slots(m2, pml4, mask, p), t, e);
        } else {
            if e == l1_index(p) {
                lemma_indices_determine(p, q);
            }
            assert(linked_table(m1, m2, ph1, pml4, mask, p, 1));
            assert(ph2[frame_of(t)] == ph1[frame_of(t)] || (ph1[frame_of(t)] == PageUse::Free && ph2[frame_of(t)]
                == PageUse::Used));
            lemma_new_slot(m1, m2, ph1, ph2, pml4, mask, p, 1, e);
            lemma_word_zero(m1, m2, ph1, ph2, map_slots(m2, pml4, mask, p), t, e);
        }
    }
}

/// Mapping the first page of a mappable run leaves the rest of it
/// mappable.
pub proof fn lemma_mappable_map(
    m1: Seq<u64>,
    m2: Seq<u64>,
    ph1: Seq<PageUse>,
    ph2: Seq<PageUse>,
    pml4: u64,
    mask: u64,
    p: int,
    hi: int,
)
    requires
        map_step(m1, m2, ph1, ph2, pml4, mask, p),
        mappable(m1, ph1, pml4, mask, p, hi),
        0 <= p < hi,
        hi <= 68719476736,
    ensures
        mappable(m2, ph2, pml4, mask, p + 1, hi),
{
    assert forall|q: int| p + 1 <= q < hi implies #[trigger] path_ok(m2, ph2, pml4, mask, q) by {
        lemma_path_ok_after(m1, m2, ph1, ph2, pml4, mask, p, q, p, hi);
    }
    assert forall|q1: int, q2: int, l1: int, l2: int|
        p + 1 <= q1 < hi && p + 1 <= q2 < hi && 1 <= l1 <= 3 && 1 <= l2 <= 3 && reaches(m2, pml4, mask, q1, l1)
            && reaches(m2, pml4, mask, q2, l2) && #[trigger] table_at(m2, pml4, mask, q1, l1)
            == #[trigger] table_at(m2, pml4, mask, q2, l2) implies l1 == l2 && same_prefix(q1, q2, l1) by {
        lemma_class(m1, m2, ph1, ph2, pml4, mask, p, q1, p, hi);
        lemma_class(m1, m2, ph1, ph2, pml4, mask, p, q2, p, hi);
        lemma_class_use(m1, m2, ph1, ph2, pml4, mask, p, q1, p, hi, l1);
        lemma_class_use(m1, m2, ph1, ph2, pml4, mask, p, q2, p, hi, l2);
        if reaches(m1, pml4, mask, q1, l1) && reaches(m1, pml4, mask, q2, l2) {
            assert(table_at(m1, pml4, mask, q1, l1) == table_at(m1, pml4, mask, q2, l2));
        } else if !reaches(m1, pml4, mask, q1, l1) && !reaches(m1, pml4, mask, q2, l2) {
            assert(path_distinct(m2, pml4, mask, p));
            assert(table_at(m2, pml4, mask, p, l1) == table_at(m2, pml4, mask, p, l2));
        }
    }
}

/// The path of `q` reads the same words after a change that only wrote
/// pages that were free.
pub(crate) proof fn lemma_walk_same(
    m0: Seq<u64>,
    m1: Seq<u64>,
    ph0: Seq<PageUse>,
    ph1: Seq<PageUse>,
    pml4: u64,
    mask: u64,
    q: int,
)
    requires
        changed_within(m0, m1, ph0, ph1, Set::empty()),
        only_taken(ph0, ph1),
        path_ok(m0, ph0, pml4, mask, q),
    ensures
        path_ok(m1, ph1, pml4, mask, q),
        forall|l: int|
            1 <= l <= 3 ==> #[trigger] reaches(m1, pml4, mask, q, l) == reaches(m0, pml4, mask, q, l),
        forall|l: int|
            1 <= l <= 3 && reaches(m0, pml4, mask, q, l) ==> #[trigger] table_at(m1, pml4, mask, q, l) == table_at(
                m0,
                pml4,
                mask,
                q,
                l,
            ),
{
    lemma_index_bounds(q);
    let e: Set<int> = Set::empty();
    lemma_word_kept(m0, m1, ph0, ph1, e, pml4, l4_index(q));
    lemma_table_ok_kept(m0, m1, ph0, ph1, pml4);
    let e4 = word(m0, pml4, l4_index(q));
    if present(e4) {
        let t3 = pdpt_of(m0, pml4, mask, q);
        lemma_word_kept(m0, m1, ph0, ph1, e, t3, l3_index(q));
        lemma_table_ok_kept(m0, m1, ph0, ph1, t3);
        if present(word(m0, t3, l3_index(q))) {
            let t2 = pd_of(m0, pml4, mask, q);
            lemma_word_kept(m0, m1, ph0, ph1, e, t2, l2_index(q));
            lemma_table_ok_kept(m0, m1, ph0, ph1, t2);
            if present(word(m0, t2, l2_index(q))) {
                let t1 = pt_of(m0, pml4, mask, q);
                lemma_word_kept(m0, m1, ph0, ph1, e, t1, l1_index(q));
                lemma_table_ok_kept(m0, m1, ph0, ph1, t1);
            }
        }
    }
}

/// Taking a free page and writing only that page keeps a run mappable.
pub proof fn lemma_mappable_take(
    m0: Seq<u64>,
    m1: Seq<u64>,
    ph0: Seq<PageUse>,
    ph1: Seq<PageUse>,
    pml4: u64,
    mask: u64,
    lo: int,
    hi: int,
)
    requires
        changed_within(m0, m1, ph0, ph1, Set::empty()),
        only_taken(ph0, ph1),
        mappable(m0, ph0, pml4, mask, lo, hi),
    ensures
        mappable(m1, ph1, pml4, mask, lo, hi),
{
    assert forall|q: int| lo <= q < hi implies #[trigger] path_ok(m1, ph1, pml4, mask, q) by {
        lemma_walk_same(m0, m1, ph0, ph1, pml4, mask, q);
    }
    assert forall|q1: int, q2: int, l1: int, l2: int|
        lo <= q1 < hi && lo <= q2 < hi && 1 <= l1 <= 3 && 1 <= l2 <= 3 && reaches(m1, pml4, mask, q1, l1)
            && reaches(m1, pml4, mask, q2, l2) && #[trigger] table_at(m1, pml4, mask, q1, l1)
            == #[trigger] table_at(m1, pml4, mask, q2, l2) implies l1 == l2 && same_prefix(q1, q2, l1) by {
        assert(path_ok(m0, ph0, pml4, mask, q1));
        assert(path_ok(m0, ph0, pml4, mask, q2));
        lemma_walk_same(m0, m1, ph0, ph1, pml4, mask, q1);
        lemma_walk_same(m0, m1, ph0, ph1, pml4, mask, q2);
        assert(reaches(m1, pml4, mask, q1, l1) == reaches(m0, pml4, mask, q1, l1));
        assert(reaches(m1, pml4, mask, q2, l2) == reaches(m0, pml4, mask, q2, l2));
        assert(table_at(m0, pml4, mask, q1, l1) == table_at(m0, pml4, mask, q2, l2));
    }
}

} // verus!
