//! Copying the firmware's four-level tables into fresh pages, so that the
//! kernel owns the tables it runs on.
//!
//! The copy of a table at level 3 (PDPT), 2 (page directory) or 1 (page
//! table) is a zeroed page whose entries follow the old ones: a large page
//! (bit 7 in a PDPT or page-directory entry) is re-mapped present, writable
//! and large at its frame; any other present entry points, present and
//! writable, to a copy of the table below it. In a copied page table every
//! present entry maps the frame that the page-directory entry above it
//! holds, not the frame in the old page-table entry.
//!
//! Each table of the copy gets a page of its own: the pages whose use
//! changes are exactly the copy's tables, as many as there are tables.

use vstd::prelude::*;
use super::{PageUse, Pager};
use super::phy::{PhysPageMap, count_use, lemma_count_update, lemma_no_free_count};
use super::level4::{
    frame_of, huge, lemma_entry_bits, lemma_slot_page, mask_ok, next_table, only_taken, present,
    read_entry, slot, table_in, table_ok, table_ok_exec, word,
};

verus! {

/// Words of pages not free in `ph` are the same in `a` and `b`.
pub open spec fn kept(a: Seq<u64>, b: Seq<u64>, ph: Seq<PageUse>) -> bool {
    &&& b.len() == a.len()
    &&& forall|w: int|
        0 <= w < a.len() && !(w / 512 < ph.len() && ph[w / 512] == PageUse::Free) ==> #[trigger] b[w] == a[w]
}

/// Words of pages free in `ph0` but not in `ph1` are the same in `a` and
/// `b`.
pub open spec fn kept_taken(a: Seq<u64>, b: Seq<u64>, ph0: Seq<PageUse>, ph1: Seq<PageUse>) -> bool {
    &&& b.len() == a.len()
    &&& forall|w: int|
        0 <= w < a.len() && w / 512 < ph1.len() && ph0[w / 512] == PageUse::Free && ph1[w / 512]
            != PageUse::Free ==> #[trigger] b[w] == a[w]
}

/// Bits below the frame of a large page mapped at `level`: 2 MiB pages in
/// page directories (2), 1 GiB pages in PDPTs (3).
pub open spec fn large_low(level: nat) -> u64 {
    if level == 2 {
        0x1F_FFFF
    } else {
        0x3FFF_FFFF
    }
}

/// The copy of old large-page entry `oe` at `level`: its frame, present,
/// writable and large.
pub open spec fn large_clone(oe: u64, mask: u64, level: nat) -> u64 {
    (oe & mask & !large_low(level)) | 0x83
}

/// The copy of old page-table entry `oe` under old page-directory entry
/// `ode`: the frame of `ode`, present and writable, when `oe` is present.
pub open spec fn pt_entry_clone(oe: u64, ode: u64, mask: u64) -> u64 {
    if present(oe) {
        (ode & mask) | 3
    } else {
        0
    }
}

/// New entry `ne` at `level` is the copy of old entry `oe`, where `ode` is
/// the old entry above a page table; the tables it points to were free in
/// `phb` and are in use in `ph`. Old tables are read in `m0`, new ones in
/// `m`.
pub open spec fn entry_cloned(
    m: Seq<u64>,
    ph: Seq<PageUse>,
    phb: Seq<PageUse>,
    ne: u64,
    m0: Seq<u64>,
    oe: u64,
    ode: u64,
    mask: u64,
    level: nat,
) -> bool
    decreases level, 0nat,
{
    if level <= 1 {
        ne == pt_entry_clone(oe, ode, mask)
    } else if !present(oe) {
        ne == 0
    } else if huge(oe) {
        ne == large_clone(oe, mask, level)
    } else {
        &&& ne & 0xFFF == 3
        &&& tree_cloned(m, ph, phb, next_table(ne, mask), m0, next_table(oe, mask), oe, mask, (level - 1) as nat)
    }
}

/// The table at `nt` in `m` is the copy, at `level`, of the old table at
/// `ot` in `m0` (under old entry `ode`), and every table of the copy was
/// free in `phb` and is in use in `ph`.
pub open spec fn tree_cloned(
    m: Seq<u64>,
    ph: Seq<PageUse>,
    phb: Seq<PageUse>,
    nt: u64,
    m0: Seq<u64>,
    ot: u64,
    ode: u64,
    mask: u64,
    level: nat,
) -> bool
    decreases level, 1nat,
{
    &&& table_ok(m, ph, nt)
    &&& phb.len() == ph.len()
    &&& phb[frame_of(nt)] == PageUse::Free
    &&& forall|k: int|
        0 <= k < 512 ==> entry_cloned(m, ph, phb, #[trigger] word(m, nt, k), m0, word(m0, ot, k), ode, mask, level)
}

/// A copied large-page entry maps the same physical frame as the old one,
/// present, writable and large (low flags 0x83): for a present 2 MiB page (level 2) whose frame is
/// 2 MiB aligned, or a present 1 GiB page (level 3) whose frame is 1 GiB
/// aligned.
pub proof fn lemma_large_copy_keeps_frame(
    m: Seq<u64>,
    ph: Seq<PageUse>,
    phb: Seq<PageUse>,
    ne: u64,
    m0: Seq<u64>,
    oe: u64,
    ode: u64,
    mask: u64,
    level: nat,
)
    requires
        mask & 0xFFF == 0,
        level == 2 || level == 3,
        present(oe),
        huge(oe),
        level == 2 ==> (oe & mask) % 0x20_0000 == 0,
        level == 3 ==> (oe & mask) % 0x4000_0000 == 0,
        entry_cloned(m, ph, phb, ne, m0, oe, ode, mask, level),
    ensures
        next_table(ne, mask) == next_table(oe, mask),
        present(ne),
        huge(ne),
        ne & 0xFFF == 0x83,
{
    if level == 2 {
        assert(ne == (oe & mask & !0x1F_FFFFu64) | 0x83);
        assert((ne & mask) == (oe & mask) && ne & 1 != 0 && ne & 0x80 != 0 && ne & 0xFFF == 0x83) by (bit_vector)
            requires
                mask & 0xFFF == 0,
                (oe & mask) % 0x20_0000 == 0,
                ne == (oe & mask & !0x1F_FFFFu64) | 0x83,
        ;
    } else {
        assert(ne == (oe & mask & !0x3FFF_FFFFu64) | 0x83);
        assert((ne & mask) == (oe & mask) && ne & 1 != 0 && ne & 0x80 != 0 && ne & 0xFFF == 0x83) by (bit_vector)
            requires
                mask & 0xFFF == 0,
                (oe & mask) % 0x4000_0000 == 0,
                ne == (oe & mask & !0x3FFF_FFFFu64) | 0x83,
        ;
    }
}

/// A word of the table at `t` lies in `t`'s page.
proof fn lemma_word_page(t: u64, k: int)
    requires
        t % 4096 == 0,
        0 <= k < 512,
    ensures
        slot(t, k) / 512 == frame_of(t),
        slot(t, k) >= 0,
{
    lemma_slot_page(t, k);
}

/// A copied entry stays a copy while only pages taken after `phb0` and
/// still free in `ph1` change.
proof fn lemma_entry_kept(
    m1: Seq<u64>,
    m2: Seq<u64>,
    ph1: Seq<PageUse>,
    ph2: Seq<PageUse>,
    phb0: Seq<PageUse>,
    phb1: Seq<PageUse>,
    ne: u64,
    m0: Seq<u64>,
    oe: u64,
    ode: u64,
    mask: u64,
    level: nat,
)
    requires
        entry_cloned(m1, ph1, phb1, ne, m0, oe, ode, mask, level),
        only_taken(phb0, phb1),
        phb1.len() == ph1.len(),
        only_taken(ph1, ph2),
        kept_taken(m1, m2, phb0, ph1),
    ensures
        entry_cloned(m2, ph2, phb0, ne, m0, oe, ode, mask, level),
    decreases level, 0nat,
{
    if level > 1 && present(oe) && !huge(oe) {
        lemma_tree_kept(
            m1,
            m2,
            ph1,
            ph2,
            phb0,
            phb1,
            next_table(ne, mask),
            m0,
            next_table(oe, mask),
            oe,
            mask,
            (level - 1) as nat,
        );
    }
}

/// A copied table stays a copy while only pages taken after `phb0` and
/// still free in `ph1` change.
proof fn lemma_tree_kept(
    m1: Seq<u64>,
    m2: Seq<u64>,
    ph1: Seq<PageUse>,
    ph2: Seq<PageUse>,
    phb0: Seq<PageUse>,
    phb1: Seq<PageUse>,
    nt: u64,
    m0: Seq<u64>,
    ot: u64,
    ode: u64,
    mask: u64,
    level: nat,
)
    requires
        tree_cloned(m1, ph1, phb1, nt, m0, ot, ode, mask, level),
        only_taken(phb0, phb1),
        only_taken(ph1, ph2),
        kept_taken(m1, m2, phb0, ph1),
    ensures
        tree_cloned(m2, ph2, phb0, nt, m0, ot, ode, mask, level),
    decreases level, 1nat,
{
    let f = frame_of(nt);
    assert(table_ok(m1, ph1, nt));
    assert(phb0[f] == PageUse::Free);
    assert forall|k: int| 0 <= k < 512 implies entry_cloned(
        m2,
        ph2,
        phb0,
        #[trigger] word(m2, nt, k),
        m0,
        word(m0, ot, k),
        ode,
        mask,
        level,
    ) by {
        lemma_word_page(nt, k);
        assert(entry_cloned(m1, ph1, phb1, word(m1, nt, k), m0, word(m0, ot, k), ode, mask, level));
        assert(word(m2, nt, k) == word(m1, nt, k));
        lemma_entry_kept(m1, m2, ph1, ph2, phb0, phb1, word(m1, nt, k), m0, word(m0, ot, k), ode, mask, level);
    }
}

/// The pages whose use differs between `a` and `b`.
pub open spec fn changed(a: Seq<PageUse>, b: Seq<PageUse>) -> Set<int> {
    Set::new(|i: int| 0 <= i < a.len() && a[i] != b[i])
}

/// The frames of the tables of the copy at `nt` in `m`, at `level`, of the
/// table at `ot` in `m0`: the copy's own frame and those of the copies
/// below its entries.
pub open spec fn copy_frames(m: Seq<u64>, nt: u64, m0: Seq<u64>, ot: u64, mask: u64, level: nat) -> Set<int>
    decreases level, 513int,
{
    set![frame_of(nt)] + child_frames(m, nt, m0, ot, mask, level, 512)
}

/// The frames of the tables of the copies below the first `k` entries of
/// the copy at `nt` in `m`, at `level`, of the table at `ot` in `m0`.
pub open spec fn child_frames(m: Seq<u64>, nt: u64, m0: Seq<u64>, ot: u64, mask: u64, level: nat, k: int) -> Set<int>
    decreases level, k,
{
    if k <= 0 || level <= 1 {
        Set::empty()
    } else {
        let oe = word(m0, ot, k - 1);
        child_frames(m, nt, m0, ot, mask, level, k - 1) + if present(oe) && !huge(oe) {
            copy_frames(m, next_table(word(m, nt, k - 1), mask), m0, next_table(oe, mask), mask, (level - 1) as nat)
        } else {
            Set::empty()
        }
    }
}

/// Changing memory only outside the pages taken after `phb` leaves the
/// frames of a copy alone; they are finite, were free in `phb` and are in
/// use in `ph`.
proof fn lemma_copy_frames_kept(
    m1: Seq<u64>,
    m2: Seq<u64>,
    ph: Seq<PageUse>,
    phb: Seq<PageUse>,
    nt: u64,
    m0: Seq<u64>,
    ot: u64,
    ode: u64,
    mask: u64,
    level: nat,
)
    requires
        tree_cloned(m1, ph, phb, nt, m0, ot, ode, mask, level),
        kept_taken(m1, m2, phb, ph),
    ensures
        copy_frames(m2, nt, m0, ot, mask, level) == copy_frames(m1, nt, m0, ot, mask, level),
        copy_frames(m1, nt, m0, ot, mask, level).finite(),
        forall|i: int|
            #[trigger] copy_frames(m1, nt, m0, ot, mask, level).contains(i) ==> 0 <= i < ph.len() && phb[i]
                == PageUse::Free && ph[i] != PageUse::Free,
    decreases level, 513int,
{
    assert forall|j: int| 0 <= j < 512 implies #[trigger] word(m2, nt, j) == word(m1, nt, j) by {
        lemma_word_page(nt, j);
    }
    lemma_child_frames_kept(m1, m2, ph, phb, nt, m0, ot, ode, mask, level, 512);
}

/// `lemma_copy_frames_kept` for the copies below the first `k` entries.
proof fn lemma_child_frames_kept(
    m1: Seq<u64>,
    m2: Seq<u64>,
    ph: Seq<PageUse>,
    phb: Seq<PageUse>,
    nt: u64,
    m0: Seq<u64>,
    ot: u64,
    ode: u64,
    mask: u64,
    level: nat,
    k: int,
)
    requires
        k <= 512,
        phb.len() == ph.len(),
        forall|j: int|
            0 <= j < k ==> entry_cloned(m1, ph, phb, #[trigger] word(m1, nt, j), m0, word(m0, ot, j), ode, mask, level),
        forall|j: int| 0 <= j < k ==> #[trigger] word(m2, nt, j) == word(m1, nt, j),
        kept_taken(m1, m2, phb, ph),
    ensures
        child_frames(m2, nt, m0, ot, mask, level, k) == child_frames(m1, nt, m0, ot, mask, level, k),
        child_frames(m1, nt, m0, ot, mask, level, k).finite(),
        forall|i: int|
            #[trigger] child_frames(m1, nt, m0, ot, mask, level, k).contains(i) ==> 0 <= i < ph.len() && phb[i]
                == PageUse::Free && ph[i] != PageUse::Free,
    decreases level, k,
{
    if k > 0 && level > 1 {
        lemma_child_frames_kept(m1, m2, ph, phb, nt, m0, ot, ode, mask, level, k - 1);
        let oe = word(m0, ot, k - 1);
        let ne = word(m1, nt, k - 1);
        assert(word(m2, nt, k - 1) == ne);
        if present(oe) && !huge(oe) {
            assert(entry_cloned(m1, ph, phb, ne, m0, oe, ode, mask, level));
            lemma_copy_frames_kept(
                m1,
                m2,
                ph,
                phb,
                next_table(ne, mask),
                m0,
                next_table(oe, mask),
                oe,
                mask,
                (level - 1) as nat,
            );
        }
    }
}

/// Where pages only go from free to used, those changed from `a` to `c`
/// are those changed from `a` to `b` and, apart from them, those changed
/// from `b` to `c`.
proof fn lemma_changed_trans(a: Seq<PageUse>, b: Seq<PageUse>, c: Seq<PageUse>)
    requires
        only_taken(a, b),
        only_taken(b, c),
    ensures
        changed(a, c) == changed(a, b) + changed(b, c),
        changed(a, b).disjoint(changed(b, c)),
{
    assert(changed(a, c) =~= changed(a, b) + changed(b, c)) by {
        assert forall|i: int| 0 <= i < a.len() implies (a[i] != c[i]) == (a[i] != b[i] || b[i] != c[i]) by {
            assert(b[i] == a[i] || (a[i] == PageUse::Free && b[i] == PageUse::Used));
            assert(c[i] == b[i] || (b[i] == PageUse::Free && c[i] == PageUse::Used));
        }
    }
    assert forall|i: int| changed(a, b).contains(i) implies !changed(b, c).contains(i) by {
        assert(b[i] == a[i] || (a[i] == PageUse::Free && b[i] == PageUse::Used));
        assert(c[i] == b[i] || (b[i] == PageUse::Free && c[i] == PageUse::Used));
    }
}

/// Memory kept outside the pages taken after `phb` in two steps is kept
/// over both.
proof fn lemma_kept_taken_trans(
    m1: Seq<u64>,
    m2: Seq<u64>,
    m3: Seq<u64>,
    phb: Seq<PageUse>,
    ph1: Seq<PageUse>,
    ph2: Seq<PageUse>,
)
    requires
        kept_taken(m1, m2, phb, ph1),
        kept_taken(m2, m3, phb, ph2),
        only_taken(ph1, ph2),
    ensures
        kept_taken(m1, m3, phb, ph1),
{
    assert forall|w: int|
        0 <= w < m1.len() && w / 512 < ph1.len() && phb[w / 512] == PageUse::Free && ph1[w / 512] != PageUse::Free
            implies #[trigger] m3[w] == m1[w] by {
        assert(m2[w] == m1[w]);
        assert(ph2[w / 512] == ph1[w / 512] || (ph1[w / 512] == PageUse::Free && ph2[w / 512] == PageUse::Used));
        assert(m3[w] == m2[w]);
    }
}


/// How many tables copying the table at `ot` at `level` creates: one for
/// itself and, above level 1, those of the tables its present entries
/// that do not map a large page point to.
pub open spec fn tree_size(m: Seq<u64>, ot: u64, mask: u64, level: nat) -> nat
    decreases level, 513int,
{
    if level <= 1 {
        1
    } else {
        1 + entries_size(m, ot, mask, level, 512)
    }
}

/// How many tables copying the tables below the first `k` entries of the
/// table at `ot` at `level` creates.
pub open spec fn entries_size(m: Seq<u64>, ot: u64, mask: u64, level: nat, k: int) -> nat
    decreases level, k,
{
    if k <= 0 || level <= 1 {
        0
    } else {
        let oe = word(m, ot, k - 1);
        entries_size(m, ot, mask, level, k - 1) + if present(oe) && !huge(oe) {
            tree_size(m, next_table(oe, mask), mask, (level - 1) as nat)
        } else {
            0
        }
    }
}

proof fn lemma_entries_mono(m: Seq<u64>, ot: u64, mask: u64, level: nat, k1: int, k2: int)
    requires
        k1 <= k2,
    ensures
        entries_size(m, ot, mask, level, k1) <= entries_size(m, ot, mask, level, k2),
    decreases k2 - k1,
{
    if k1 < k2 {
        lemma_entries_mono(m, ot, mask, level, k1, k2 - 1);
    }
}

/// How many tables copying the tables below the first `k` entries of the
/// PML4 at `ot` creates (each present entry points to a PDPT).
pub open spec fn lower_size(m: Seq<u64>, ot: u64, mask: u64, k: int) -> nat
    decreases k,
{
    if k <= 0 {
        0
    } else {
        let oe = word(m, ot, k - 1);
        lower_size(m, ot, mask, k - 1) + if present(oe) {
            tree_size(m, next_table(oe, mask), mask, 3)
        } else {
            0
        }
    }
}

/// How many tables `clone_uefi` creates for the PML4 at `ot`: the new PML4
/// and the copies of the trees below the lower 256 entries.
pub open spec fn clone_size(m: Seq<u64>, ot: u64, mask: u64) -> nat {
    1 + lower_size(m, ot, mask, 256)
}

proof fn lemma_lower_mono(m: Seq<u64>, ot: u64, mask: u64, k1: int, k2: int)
    requires
        k1 <= k2,
    ensures
        lower_size(m, ot, mask, k1) <= lower_size(m, ot, mask, k2),
    decreases k2 - k1,
{
    if k1 < k2 {
        lemma_lower_mono(m, ot, mask, k1, k2 - 1);
    }
}

/// Every table that copying the table at `ot` at `level` reads lies in
/// `m` in a page that is not free in `ph`.
pub open spec fn tree_safe(m: Seq<u64>, ph: Seq<PageUse>, ot: u64, mask: u64, level: nat) -> bool
    decreases level,
{
    &&& table_ok(m, ph, ot)
    &&& level > 1 ==> forall|k: int|
        0 <= k < 512 ==> {
            let oe = #[trigger] word(m, ot, k);
            present(oe) && !huge(oe) ==> tree_safe(m, ph, next_table(oe, mask), mask, (level - 1) as nat)
        }
}

proof fn lemma_taken_trans(a: Seq<PageUse>, b: Seq<PageUse>, c: Seq<PageUse>)
    requires
        only_taken(a, b),
        only_taken(b, c),
    ensures
        only_taken(a, c),
{
    assert forall|i: int| 0 <= i < a.len() implies #[trigger] c[i] == a[i] || (a[i] == PageUse::Free && c[i]
        == PageUse::Used) by {
        assert(b[i] == a[i] || (a[i] == PageUse::Free && b[i] == PageUse::Used));
        assert(c[i] == b[i] || (b[i] == PageUse::Free && c[i] == PageUse::Used));
    }
}

proof fn lemma_kept_trans(a: Seq<u64>, b: Seq<u64>, c: Seq<u64>, pa: Seq<PageUse>, pb: Seq<PageUse>)
    requires
        kept(a, b, pa),
        kept(b, c, pb),
        only_taken(pa, pb),
    ensures
        kept(a, c, pa),
{
    assert forall|w: int|
        0 <= w < a.len() && !(w / 512 < pa.len() && pa[w / 512] == PageUse::Free) implies #[trigger] c[w]
        == a[w] by {
        assert(b[w] == a[w]);
        if w / 512 < pb.len() && pb[w / 512] == PageUse::Free {
            assert(pa[w / 512] == PageUse::Free);
        }
        assert(c[w] == b[w]);
    }
}

/// Whether every table that copying the table at `ot` at `level` reads
/// lies in `mem` in a page that is not free.
fn check_tree(mem: &[u64], phys: &PhysPageMap, ot: u64, mask: u64, level: u64) -> (b: bool)
    requires
        phys.wf(),
        1 <= level <= 3,
    ensures
        b == tree_safe(mem@, phys@, ot, mask, level as nat),
    decreases level,
{
    if !table_ok_exec(mem, phys, ot) {
        return false;
    }
    if level == 1 {
        return true;
    }
    let mut k: u64 = 0;
    while k < 512
        invariant
            phys.wf(),
            2 <= level <= 3,
            table_ok(mem@, phys@, ot),
            0 <= k <= 512,
            forall|j: int|
                0 <= j < k ==> {
                    let oe = #[trigger] word(mem@, ot, j);
                    present(oe) && !huge(oe) ==> tree_safe(mem@, phys@, next_table(oe, mask), mask, (level - 1) as nat)
                },
        decreases 512 - k,
    {
        let oe = read_entry(mem, ot, k);
        if oe & 1 != 0 && oe & 0x80 == 0 {
            if !check_tree(mem, phys, oe & mask, mask, level - 1) {
                return false;
            }
        }
        k = k + 1;
    }
    true
}


/// The entry word `k` of the table at `t` in `m0` equals the one in `m`
/// when `t` lies in a page that was not free.
proof fn lemma_old_word(m0: Seq<u64>, m: Seq<u64>, ph0: Seq<PageUse>, t: u64, k: int)
    requires
        kept(m0, m, ph0),
        table_ok(m0, ph0, t),
        0 <= k < 512,
    ensures
        table_in(m, t),
        word(m, t, k) == word(m0, t, k),
{
    lemma_word_page(t, k);
}

/// Copies the table at `ot` at `level` (3: PDPT, 2: page directory, 1:
/// page table), under old entry `ode`, into zeroed free pages, and
/// returns the copy's address. Old tables are read as they are in `m0`
/// (the memory when `ph0` held); only pages that were free change, and on
/// success the pages whose use changed are exactly the `tree_size`
/// distinct pages of the copy's tables. `None` when no free page is left.
fn clone_table(
    mem: &mut [u64],
    phys: &mut PhysPageMap,
    ot: u64,
    ode: u64,
    mask: u64,
    level: u64,
    Ghost(m0): Ghost<Seq<u64>>,
    Ghost(ph0): Ghost<Seq<PageUse>>,
) -> (r: Option<u64>)
    requires
        1 <= level <= 3,
        old(phys).wf(),
        old(mem)@.len() >= old(phys)@.len() * 512,
        mask_ok(mask, old(phys)@.len() as int),
        kept(m0, old(mem)@, ph0),
        only_taken(ph0, old(phys)@),
        tree_safe(m0, ph0, ot, mask, level as nat),
    ensures
        final(phys).wf(),
        only_taken(old(phys)@, final(phys)@),
        kept(old(mem)@, final(mem)@, old(phys)@),
        r matches Some(nt) ==> {
            &&& tree_cloned(final(mem)@, final(phys)@, old(phys)@, nt, m0, ot, ode, mask, level as nat)
            &&& nt & mask == nt
            &&& changed(old(phys)@, final(phys)@) == copy_frames(final(mem)@, nt, m0, ot, mask, level as nat)
            &&& copy_frames(final(mem)@, nt, m0, ot, mask, level as nat).finite()
            &&& copy_frames(final(mem)@, nt, m0, ot, mask, level as nat).len() == tree_size(m0, ot, mask, level as nat)
        },
        r is Some ==> count_use(final(phys)@, PageUse::Free) + tree_size(m0, ot, mask, level as nat) == count_use(
            old(phys)@,
            PageUse::Free,
        ),
        count_use(old(phys)@, PageUse::Free) >= tree_size(m0, ot, mask, level as nat) ==> r is Some,
    decreases level,
{
    let ghost ph_s = phys@;
    let ghost m_s = mem@;
    let ghost ok = count_use(ph_s, PageUse::Free) >= tree_size(m0, ot, mask, level as nat);
    let nt = match phys.allocate_page_addr(mem, true) {
        Some(a) => a,
        None => {
            proof {
                lemma_no_free_count(ph_s);
            }
            return None;
        },
    };
    let ghost ph_n = phys@;
    let ghost f = frame_of(nt);
    proof {
        let j = choose|j: int|
            #![trigger ph_s[j]]
            {
                &&& nt == j * 4096
                &&& super::phy::first_free_cyclic(ph_s, old(phys).search_index(), j)
                &&& phys@ == ph_s.update(j, PageUse::Used)
                &&& phys.search_index() == j
                &&& super::phy::pages_written(m_s, mem@, j, 1, true)
            };
        super::phy::lemma_page_addr(j);
        assert(f == j);
        assert(ph_s[f] == PageUse::Free);
        assert(nt & mask == nt);
        assert(table_in(mem@, nt)) by {
            assert(nt as int / 8 + 512 == (f + 1) * 512);
            assert((f + 1) * 512 <= ph_s.len() * 512) by (nonlinear_arith)
                requires f + 1 <= ph_s.len();
        }
        assert forall|k: int| 0 <= k < 512 implies #[trigger] word(mem@, nt, k) == 0 by {
            lemma_word_page(nt, k);
            assert(super::page_zeroed(mem@, f));
            assert(f * 512 <= slot(nt, k) < f * 512 + 512);
        }
        assert forall|w: int|
            0 <= w < m_s.len() && !(w / 512 < ph_s.len() && ph_s[w / 512] == PageUse::Free) implies #[trigger] mem@[w]
            == m_s[w] by {
            assert(!(f * 512 <= w < (f + 1) * 512));
        }
        assert(only_taken(ph_s, ph_n));
        lemma_kept_trans(m0, m_s, mem@, ph0, ph_s);
        lemma_taken_trans(ph0, ph_s, ph_n);
        lemma_count_update(ph_s, f, PageUse::Used, PageUse::Free);
        assert(changed(ph_s, ph_n) =~= set![f] + child_frames(mem@, nt, m0, ot, mask, level as nat, 0));
    }
    let mut k: u64 = 0;
    while k < 512
        invariant
            ok == (count_use(ph_s, PageUse::Free) >= tree_size(m0, ot, mask, level as nat)),
            count_use(ph_n, PageUse::Free) + 1 == count_use(ph_s, PageUse::Free),
            count_use(phys@, PageUse::Free) + entries_size(m0, ot, mask, level as nat, k as int) == count_use(
                ph_n,
                PageUse::Free,
            ),
            1 <= level <= 3,
            phys.wf(),
            mem@.len() >= phys@.len() * 512,
            mem@.len() == m_s.len(),
            phys@.len() == ph_s.len(),
            ph_s == old(phys)@,
            m_s == old(mem)@,
            only_taken(ph0, ph_s),
            0 <= f < ph_s.len(),
            mask_ok(mask, phys@.len() as int),
            only_taken(ph_s, ph_n),
            only_taken(ph_n, phys@),
            only_taken(ph0, phys@),
            ph_s[f] == PageUse::Free,
            ph_n[f] == PageUse::Used,
            f == frame_of(nt),
            kept(m_s, mem@, ph_s),
            kept(m0, mem@, ph0),
            table_ok(mem@, phys@, nt),
            nt & mask == nt,
            tree_safe(m0, ph0, ot, mask, level as nat),
            0 <= k <= 512,
            forall|j: int|
                0 <= j < k ==> entry_cloned(
                    mem@,
                    phys@,
                    ph_n,
                    #[trigger] word(mem@, nt, j),
                    m0,
                    word(m0, ot, j),
                    ode,
                    mask,
                    level as nat,
                ),
            forall|j: int| k <= j < 512 ==> #[trigger] word(mem@, nt, j) == 0,
            changed(ph_s, phys@) == set![f] + child_frames(mem@, nt, m0, ot, mask, level as nat, k as int),
            child_frames(mem@, nt, m0, ot, mask, level as nat, k as int).finite(),
            child_frames(mem@, nt, m0, ot, mask, level as nat, k as int).len() == entries_size(
                m0,
                ot,
                mask,
                level as nat,
                k as int,
            ),
        decreases 512 - k,
    {
        let ghost m_a = mem@;
        let ghost ph_a = phys@;
        proof {
            lemma_old_word(m0, mem@, ph0, ot, k as int);
        }
        let oe = read_entry(mem, ot, k);
        let ghost oe_s = word(m0, ot, k as int);
        assert(oe == oe_s);
        let value: u64 = if level == 1 {
            if oe & 1 != 0 {
                (ode & mask) | 3
            } else {
                0
            }
        } else if oe & 1 == 0 {
            0
        } else if oe & 0x80 != 0 {
            if level == 2 {
                (oe & mask & !0x1F_FFFF) | 0x83
            } else {
                (oe & mask & !0x3FFF_FFFF) | 0x83
            }
        } else {
            proof {
                assert(tree_safe(m0, ph0, next_table(oe, mask), mask, (level - 1) as nat));
            }
            proof {
                lemma_entries_mono(m0, ot, mask, level as nat, k as int + 1, 512);
            }
            let child = match clone_table(mem, phys, oe & mask, oe, mask, level - 1, Ghost(m0), Ghost(ph0)) {
                Some(c) => c,
                None => {
                    proof {
                        lemma_taken_trans(ph_s, ph_a, phys@);
                        lemma_kept_trans(m_s, m_a, mem@, ph_s, ph_a);
                    }
                    return None;
                },
            };
            let ghost m_b = mem@;
            let ghost ph_b = phys@;
            proof {
                lemma_taken_trans(ph_n, ph_a, ph_b);
                lemma_taken_trans(ph0, ph_a, ph_b);
                lemma_taken_trans(ph_s, ph_a, ph_b);
                lemma_kept_trans(m_s, m_a, m_b, ph_s, ph_a);
                lemma_kept_trans(m0, m_a, m_b, ph0, ph_a);
                assert(kept_taken(m_a, m_b, ph_n, ph_a));
                assert forall|j: int| 0 <= j < 512 implies #[trigger] word(m_b, nt, j) == word(m_a, nt, j) by {
                    lemma_word_page(nt, j);
                }
                assert forall|j: int| 0 <= j < k implies entry_cloned(
                    m_b,
                    ph_b,
                    ph_n,
                    #[trigger] word(m_b, nt, j),
                    m0,
                    word(m0, ot, j),
                    ode,
                    mask,
                    level as nat,
                ) by {
                    assert(word(m_b, nt, j) == word(m_a, nt, j));
                    lemma_entry_kept(m_a, m_b, ph_a, ph_b, ph_n, ph_n, word(m_a, nt, j), m0, word(m0, ot, j), ode, mask, level as nat);
                }
                assert(table_ok(m_b, ph_b, nt));
                let c = child;
                assert(c % 4096 == 0);
                assert(3u64 & mask == 0) by (bit_vector)
                    requires mask & 0xFFF == 0;
                assert(3u64 & 1 == 1) by (bit_vector);
                lemma_entry_bits(c, 3, mask);
                assert((c | 3) & 0xFFF == 3) by (bit_vector)
                    requires c % 4096 == 0;
                lemma_tree_kept(m_b, m_b, ph_b, ph_b, ph_n, ph_a, c, m0, next_table(oe, mask), oe, mask, (level - 1) as nat);
                assert(next_table(c | 3, mask) == c);
                assert(changed(ph_a, ph_b) == copy_frames(m_b, next_table(c | 3, mask), m0, next_table(oe, mask), mask, (level - 1) as nat));
            }
            child | 3
        };
        let ghost m_c = mem@;
        let ghost ph_c = phys@;
        proof {
            if level > 1 && present(oe) && !huge(oe) {
                assert(entry_cloned(m_c, ph_c, ph_n, value, m0, oe, ode, mask, level as nat));
            } else {
                assert(m_c == m_a && ph_c == ph_a);
                if level == 2 {
                    assert(large_low(level as nat) == 0x1F_FFFF);
                }
                assert(entry_cloned(m_c, ph_c, ph_n, value, m0, oe, ode, mask, level as nat));
            }
        }
        if value != 0 {
            let n = mem.len();
            proof {
                lemma_word_page(nt, k as int);
            }
            mem[(nt / 8 + k) as usize] = value;
            proof {
                let m_w = mem@;
                lemma_word_page(nt, k as int);
                assert(kept_taken(m_c, m_w, ph_n, ph_c)) by {
                    assert forall|w: int|
                        0 <= w < m_c.len() && w / 512 < ph_c.len() && ph_n[w / 512] == PageUse::Free && ph_c[w / 512]
                            != PageUse::Free implies #[trigger] m_w[w] == m_c[w] by {
                        if w == slot(nt, k as int) {
                            assert(w / 512 == f);
                        }
                    }
                }
                assert forall|j: int| 0 <= j < 512 && j != k implies #[trigger] word(m_w, nt, j) == word(m_c, nt, j) by {
                    lemma_word_page(nt, j);
                }
                assert forall|j: int| 0 <= j <= k implies entry_cloned(
                    m_w,
                    ph_c,
                    ph_n,
                    #[trigger] word(m_w, nt, j),
                    m0,
                    word(m0, ot, j),
                    ode,
                    mask,
                    level as nat,
                ) by {
                    if j < k {
                        assert(word(m_w, nt, j) == word(m_c, nt, j));
                        lemma_entry_kept(m_c, m_w, ph_c, ph_c, ph_n, ph_n, word(m_c, nt, j), m0, word(m0, ot, j), ode, mask, level as nat);
                    } else {
                        assert(word(m_w, nt, j) == value);
                        lemma_entry_kept(m_c, m_w, ph_c, ph_c, ph_n, ph_n, value, m0, word(m0, ot, j), ode, mask, level as nat);
                    }
                }
                assert forall|w: int|
                    0 <= w < m_s.len() && !(w / 512 < ph_s.len() && ph_s[w / 512] == PageUse::Free) implies #[trigger] m_w[w]
                    == m_s[w] by {
                    if w == slot(nt, k as int) {
                        assert(w / 512 == f);
                    }
                    assert(m_c[w] == m_s[w]);
                }
                assert forall|w: int|
                    0 <= w < m0.len() && !(w / 512 < ph0.len() && ph0[w / 512] == PageUse::Free) implies #[trigger] m_w[w]
                    == m0[w] by {
                    if w == slot(nt, k as int) {
                        assert(w / 512 == f);
                        assert(ph0[f] == PageUse::Free);
                    }
                    assert(m_c[w] == m0[w]);
                }
            }
        }
        proof {
            let m_w = mem@;
            let lv = level as nat;
            assert(kept_taken(m_c, m_w, ph_n, ph_c));
            assert(kept_taken(m_a, m_c, ph_n, ph_a));
            lemma_kept_taken_trans(m_a, m_c, m_w, ph_n, ph_a, ph_c);
            assert forall|j: int| 0 <= j < k implies #[trigger] word(m_w, nt, j) == word(m_a, nt, j) by {
                lemma_word_page(nt, j);
                assert(word(m_c, nt, j) == word(m_a, nt, j));
            }
            lemma_child_frames_kept(m_a, m_w, ph_a, ph_n, nt, m0, ot, ode, mask, lv, k as int);
            lemma_changed_trans(ph_s, ph_a, ph_c);
            let cf_k = child_frames(m_w, nt, m0, ot, mask, lv, k as int);
            if level > 1 && present(oe) && !huge(oe) {
                let ct = next_table(value, mask);
                assert(word(m_w, nt, k as int) == value) by {
                    lemma_word_page(nt, k as int);
                }
                assert(changed(ph_a, ph_c) == copy_frames(m_c, ct, m0, next_table(oe, mask), mask, (lv - 1) as nat));
                lemma_copy_frames_kept(m_c, m_w, ph_c, ph_n, ct, m0, next_table(oe, mask), oe, mask, (lv - 1) as nat);
                let cf = copy_frames(m_w, ct, m0, next_table(oe, mask), mask, (lv - 1) as nat);
                assert(child_frames(m_w, nt, m0, ot, mask, lv, k + 1) == cf_k + cf);
                assert(cf_k.disjoint(cf)) by {
                    assert forall|i: int| cf_k.contains(i) implies !cf.contains(i) by {
                        assert(changed(ph_s, ph_a).contains(i));
                    }
                }
                vstd::set_lib::lemma_set_disjoint_lens(cf_k, cf);
                assert(changed(ph_s, ph_c) =~= set![f] + child_frames(m_w, nt, m0, ot, mask, lv, k + 1));
            } else {
                assert(ph_c == ph_a);
                assert(changed(ph_a, ph_c) =~= Set::empty());
                assert(child_frames(m_w, nt, m0, ot, mask, lv, k + 1) =~= cf_k);
                assert(changed(ph_s, ph_c) =~= set![f] + child_frames(m_w, nt, m0, ot, mask, lv, k + 1));
            }
        }
        k = k + 1;
    }
    proof {
        let m = mem@;
        let ph = phys@;
        assert forall|j: int| 0 <= j < 512 implies entry_cloned(
            m,
            ph,
            ph_s,
            #[trigger] word(m, nt, j),
            m0,
            word(m0, ot, j),
            ode,
            mask,
            level as nat,
        ) by {
            lemma_entry_kept(m, m, ph, ph, ph_s, ph_n, word(m, nt, j), m0, word(m0, ot, j), ode, mask, level as nat);
        }
        lemma_taken_trans(ph_s, ph_n, ph);
        let cf = child_frames(m, nt, m0, ot, mask, level as nat, 512);
        lemma_child_frames_kept(m, m, ph, ph_n, nt, m0, ot, ode, mask, level as nat, 512);
        assert(!cf.contains(f));
        assert(copy_frames(m, nt, m0, ot, mask, level as nat) == set![f] + cf);
        assert(set![f].disjoint(cf));
        vstd::set_lib::lemma_set_disjoint_lens(set![f], cf);
        assert(set![f].len() == 1) by {
            assert(set![f] =~= Set::<int>::empty().insert(f));
        }
    }
    Some(nt)
}


/// Entry `i + 256` of the table at `nt` repeats entry `i`.
pub open spec fn upper_copy(m: Seq<u64>, nt: u64, i: int) -> bool {
    word(m, nt, i + 256) == word(m, nt, i)
}

/// New PML4 entry `ne` is the copy of old entry `oe`: 0 when `oe` is not
/// present, else a present, writable link to a copy of the PDPT below it.
pub open spec fn pml4_entry_cloned(
    m: Seq<u64>,
    ph: Seq<PageUse>,
    phb: Seq<PageUse>,
    ne: u64,
    m0: Seq<u64>,
    oe: u64,
    mask: u64,
) -> bool {
    if !present(oe) {
        ne == 0
    } else {
        &&& ne & 0xFFF == 3
        &&& tree_cloned(m, ph, phb, next_table(ne, mask), m0, next_table(oe, mask), oe, mask, 3)
    }
}

/// The PML4 at `nt` in `m` copies the lower half of the one at `ot` in
/// `m0` and repeats it in its upper half; its tables were free in `phb`
/// and are in use in `ph`.
pub open spec fn pml4_cloned(
    m: Seq<u64>,
    ph: Seq<PageUse>,
    phb: Seq<PageUse>,
    nt: u64,
    m0: Seq<u64>,
    ot: u64,
    mask: u64,
) -> bool {
    &&& table_ok(m, ph, nt)
    &&& phb.len() == ph.len()
    &&& phb[frame_of(nt)] == PageUse::Free
    &&& forall|i: int|
        0 <= i < 256 ==> pml4_entry_cloned(m, ph, phb, #[trigger] word(m, nt, i), m0, word(m0, ot, i), mask)
    &&& forall|i: int| 0 <= i < 256 ==> #[trigger] upper_copy(m, nt, i)
}

/// The frames of the copies of the PDPTs (and the tables below them) that
/// the first `k` entries of the copy at `nt` in `m` of the PML4 at `ot` in
/// `m0` link to.
pub open spec fn lower_frames(m: Seq<u64>, nt: u64, m0: Seq<u64>, ot: u64, mask: u64, k: int) -> Set<int>
    decreases k,
{
    if k <= 0 {
        Set::empty()
    } else {
        let oe = word(m0, ot, k - 1);
        lower_frames(m, nt, m0, ot, mask, k - 1) + if present(oe) {
            copy_frames(m, next_table(word(m, nt, k - 1), mask), m0, next_table(oe, mask), mask, 3)
        } else {
            Set::empty()
        }
    }
}

/// The frames of all tables of the copy at `nt` in `m` of the PML4 at `ot`
/// in `m0`: the new PML4's own and those below its lower half.
pub open spec fn pml4_frames(m: Seq<u64>, nt: u64, m0: Seq<u64>, ot: u64, mask: u64) -> Set<int> {
    set![frame_of(nt)] + lower_frames(m, nt, m0, ot, mask, 256)
}

/// `lemma_child_frames_kept` for the lower entries of a copied PML4.
proof fn lemma_lower_frames_kept(
    m1: Seq<u64>,
    m2: Seq<u64>,
    ph: Seq<PageUse>,
    phb: Seq<PageUse>,
    nt: u64,
    m0: Seq<u64>,
    ot: u64,
    mask: u64,
    k: int,
)
    requires
        k <= 256,
        phb.len() == ph.len(),
        forall|j: int|
            0 <= j < k ==> pml4_entry_cloned(m1, ph, phb, #[trigger] word(m1, nt, j), m0, word(m0, ot, j), mask),
        forall|j: int| 0 <= j < k ==> #[trigger] word(m2, nt, j) == word(m1, nt, j),
        kept_taken(m1, m2, phb, ph),
    ensures
        lower_frames(m2, nt, m0, ot, mask, k) == lower_frames(m1, nt, m0, ot, mask, k),
        lower_frames(m1, nt, m0, ot, mask, k).finite(),
        forall|i: int|
            #[trigger] lower_frames(m1, nt, m0, ot, mask, k).contains(i) ==> 0 <= i < ph.len() && phb[i]
                == PageUse::Free && ph[i] != PageUse::Free,
    decreases k,
{
    if k > 0 {
        lemma_lower_frames_kept(m1, m2, ph, phb, nt, m0, ot, mask, k - 1);
        let oe = word(m0, ot, k - 1);
        let ne = word(m1, nt, k - 1);
        assert(word(m2, nt, k - 1) == ne);
        if present(oe) {
            assert(pml4_entry_cloned(m1, ph, phb, ne, m0, oe, mask));
            lemma_copy_frames_kept(m1, m2, ph, phb, next_table(ne, mask), m0, next_table(oe, mask), oe, mask, 3);
        }
    }
}

/// Every table that copying the PML4 at `ot` reads lies in `m` in a page
/// that is not free in `ph`.
pub open spec fn pml4_safe(m: Seq<u64>, ph: Seq<PageUse>, ot: u64, mask: u64) -> bool {
    &&& table_ok(m, ph, ot)
    &&& forall|i: int|
        0 <= i < 256 ==> {
            let oe = #[trigger] word(m, ot, i);
            present(oe) ==> tree_safe(m, ph, next_table(oe, mask), mask, 3)
        }
}

/// Whether every table that copying the PML4 at `ot` reads lies in `mem`
/// in a page that is not free.
fn check_pml4(mem: &[u64], phys: &PhysPageMap, ot: u64, mask: u64) -> (b: bool)
    requires
        phys.wf(),
    ensures
        b == pml4_safe(mem@, phys@, ot, mask),
{
    if !table_ok_exec(mem, phys, ot) {
        return false;
    }
    let mut i: u64 = 0;
    while i < 256
        invariant
            phys.wf(),
            table_ok(mem@, phys@, ot),
            0 <= i <= 256,
            forall|j: int|
                0 <= j < i ==> {
                    let oe = #[trigger] word(mem@, ot, j);
                    present(oe) ==> tree_safe(mem@, phys@, next_table(oe, mask), mask, 3)
                },
        decreases 256 - i,
    {
        let oe = read_entry(mem, ot, i);
        if oe & 1 != 0 {
            if !check_tree(mem, phys, oe & mask, mask, 3) {
                return false;
            }
        }
        i = i + 1;
    }
    true
}

/// Copies the lower half of the firmware's PML4 at `opml4` with every
/// table below it (see the module's description) into zeroed free pages,
/// repeats the copy's lower half in its upper half, and returns the new
/// PML4's address. Only pages that were free change; on success the pages
/// whose use changed are exactly those of the copy's tables
/// (`pml4_frames`), each table in a page of its own (there are
/// `clone_size` of them, one per table). `None` when a table
/// to be read does not lie in `mem` in a page that is in use (nothing
/// changes then), or when no free page is left.
pub fn clone_uefi(pager: &mut Pager, mem: &mut [u64], opml4: u64) -> (r: Option<u64>)
    requires
        old(pager).wf(),
        old(mem)@.len() >= old(pager).phys@.len() * 512,
    ensures
        final(pager).wf(),
        final(pager).paging_type == old(pager).paging_type,
        final(pager).phy_page_mask == old(pager).phy_page_mask,
        final(pager).lin_addr_mask == old(pager).lin_addr_mask,
        final(pager).to_high_mask == old(pager).to_high_mask,
        final(pager).phy_addr_bits == old(pager).phy_addr_bits,
        only_taken(old(pager).phys@, final(pager).phys@),
        kept(old(mem)@, final(mem)@, old(pager).phys@),
        !pml4_safe(old(mem)@, old(pager).phys@, opml4, old(pager).phy_page_mask) ==> r is None && final(mem)@
            == old(mem)@ && final(pager).phys@ == old(pager).phys@,
        pml4_safe(old(mem)@, old(pager).phys@, opml4, old(pager).phy_page_mask) && count_use(
            old(pager).phys@,
            PageUse::Free,
        ) >= clone_size(old(mem)@, opml4, old(pager).phy_page_mask) ==> r is Some,
        r is Some ==> count_use(final(pager).phys@, PageUse::Free) + clone_size(
            old(mem)@,
            opml4,
            old(pager).phy_page_mask,
        ) == count_use(old(pager).phys@, PageUse::Free),
        r matches Some(n) ==> pml4_safe(old(mem)@, old(pager).phys@, opml4, old(pager).phy_page_mask)
            && pml4_cloned(
            final(mem)@,
            final(pager).phys@,
            old(pager).phys@,
            n,
            old(mem)@,
            opml4,
            old(pager).phy_page_mask,
        ),
        r matches Some(n) ==> {
            let frames = pml4_frames(final(mem)@, n, old(mem)@, opml4, old(pager).phy_page_mask);
            &&& changed(old(pager).phys@, final(pager).phys@) == frames
            &&& frames.finite()
            &&& frames.len() == clone_size(old(mem)@, opml4, old(pager).phy_page_mask)
        },
{
    let mask = pager.phy_page_mask;
    if !check_pml4(mem, &pager.phys, opml4, mask) {
        return None;
    }
    let ghost m_s = mem@;
    let ghost ph_s = pager.phys@;
    let ghost m0 = m_s;
    let ghost ph0 = ph_s;
    let ghost ok = count_use(ph_s, PageUse::Free) >= clone_size(m_s, opml4, mask);
    let nt = match pager.phys.allocate_page_addr(mem, true) {
        Some(a) => a,
        None => {
            proof {
                lemma_no_free_count(ph_s);
            }
            return None;
        },
    };
    let ghost ph_n = pager.phys@;
    let ghost f = frame_of(nt);
    proof {
        let j = choose|j: int|
            #![trigger ph_s[j]]
            {
                &&& nt == j * 4096
                &&& super::phy::first_free_cyclic(ph_s, old(pager).phys.search_index(), j)
                &&& pager.phys@ == ph_s.update(j, PageUse::Used)
                &&& pager.phys.search_index() == j
                &&& super::phy::pages_written(m_s, mem@, j, 1, true)
            };
        super::phy::lemma_page_addr(j);
        assert(f == j);
        assert(nt & mask == nt);
        assert(table_in(mem@, nt)) by {
            assert(nt as int / 8 + 512 == (f + 1) * 512);
            assert((f + 1) * 512 <= ph_s.len() * 512) by (nonlinear_arith)
                requires f + 1 <= ph_s.len();
        }
        assert forall|k: int| 0 <= k < 512 implies #[trigger] word(mem@, nt, k) == 0 by {
            lemma_word_page(nt, k);
            assert(super::page_zeroed(mem@, f));
            assert(f * 512 <= slot(nt, k) < f * 512 + 512);
        }
        assert forall|w: int|
            0 <= w < m_s.len() && !(w / 512 < ph_s.len() && ph_s[w / 512] == PageUse::Free) implies #[trigger] mem@[w]
            == m_s[w] by {
            assert(!(f * 512 <= w < (f + 1) * 512));
        }
        assert(only_taken(ph_s, ph_n));
        lemma_count_update(ph_s, f, PageUse::Used, PageUse::Free);
        assert(changed(ph_s, ph_n) =~= set![f] + lower_frames(mem@, nt, m0, opml4, mask, 0));
    }
    let mut i: u64 = 0;
    while i < 256
        invariant
            ok == (count_use(ph_s, PageUse::Free) >= clone_size(m_s, opml4, mask)),
            count_use(ph_n, PageUse::Free) + 1 == count_use(ph_s, PageUse::Free),
            count_use(pager.phys@, PageUse::Free) + lower_size(m0, opml4, mask, i as int) == count_use(
                ph_n,
                PageUse::Free,
            ),
            pager.wf(),
            pager.phy_page_mask == mask,
            pager.paging_type == old(pager).paging_type,
            pager.lin_addr_mask == old(pager).lin_addr_mask,
            pager.to_high_mask == old(pager).to_high_mask,
            pager.phy_addr_bits == old(pager).phy_addr_bits,
            mask == old(pager).phy_page_mask,
            mem@.len() >= pager.phys@.len() * 512,
            mem@.len() == m_s.len(),
            pager.phys@.len() == ph_s.len(),
            ph_s == old(pager).phys@,
            m_s == old(mem)@,
            m0 == m_s,
            ph0 == ph_s,
            0 <= f < ph_s.len(),
            only_taken(ph_s, ph_n),
            only_taken(ph_n, pager.phys@),
            only_taken(ph0, pager.phys@),
            ph_s[f] == PageUse::Free,
            ph_n[f] == PageUse::Used,
            f == frame_of(nt),
            kept(m_s, mem@, ph_s),
            table_ok(mem@, pager.phys@, nt),
            nt & mask == nt,
            pml4_safe(m0, ph0, opml4, mask),
            0 <= i <= 256,
            forall|j: int|
                0 <= j < i ==> pml4_entry_cloned(
                    mem@,
                    pager.phys@,
                    ph_n,
                    #[trigger] word(mem@, nt, j),
                    m0,
                    word(m0, opml4, j),
                    mask,
                ),
            forall|j: int| i <= j < 512 ==> #[trigger] word(mem@, nt, j) == 0,
            changed(ph_s, pager.phys@) == set![f] + lower_frames(mem@, nt, m0, opml4, mask, i as int),
            lower_frames(mem@, nt, m0, opml4, mask, i as int).finite(),
            lower_frames(mem@, nt, m0, opml4, mask, i as int).len() == lower_size(m0, opml4, mask, i as int),
        decreases 256 - i,
    {
        let ghost m_a = mem@;
        let ghost ph_a = pager.phys@;
        proof {
            lemma_old_word(m0, mem@, ph0, opml4, i as int);
        }
        let oe = read_entry(mem, opml4, i);
        if oe & 1 != 0 {
            proof {
                assert(oe == word(m0, opml4, i as int));
                assert(tree_safe(m0, ph0, next_table(oe, mask), mask, 3));
            }
            proof {
                lemma_lower_mono(m0, opml4, mask, i as int + 1, 256);
            }
            let child = match clone_table(mem, &mut pager.phys, oe & mask, oe, mask, 3, Ghost(m0), Ghost(ph0)) {
                Some(c) => c,
                None => {
                    proof {
                        lemma_taken_trans(ph_s, ph_a, pager.phys@);
                        lemma_kept_trans(m_s, m_a, mem@, ph_s, ph_a);
                    }
                    return None;
                },
            };
            let ghost m_b = mem@;
            let ghost ph_b = pager.phys@;
            proof {
                lemma_taken_trans(ph_n, ph_a, ph_b);
                lemma_taken_trans(ph0, ph_a, ph_b);
                lemma_kept_trans(m_s, m_a, m_b, ph_s, ph_a);
                assert(kept_taken(m_a, m_b, ph_n, ph_a));
                assert forall|j: int| 0 <= j < 512 implies #[trigger] word(m_b, nt, j) == word(m_a, nt, j) by {
                    lemma_word_page(nt, j);
                }
                assert forall|j: int| 0 <= j < i implies pml4_entry_cloned(
                    m_b,
                    ph_b,
                    ph_n,
                    #[trigger] word(m_b, nt, j),
                    m0,
                    word(m0, opml4, j),
                    mask,
                ) by {
                    assert(word(m_b, nt, j) == word(m_a, nt, j));
                    let oej = word(m0, opml4, j);
                    if present(oej) {
                        lemma_tree_kept(m_a, m_b, ph_a, ph_b, ph_n, ph_n, next_table(word(m_a, nt, j), mask), m0, next_table(oej, mask), oej, mask, 3);
                    }
                }
                let c = child;
                assert(3u64 & mask == 0) by (bit_vector)
                    requires mask & 0xFFF == 0;
                assert(3u64 & 1 == 1) by (bit_vector);
                lemma_entry_bits(c, 3, mask);
                assert((c | 3) & 0xFFF == 3) by (bit_vector)
                    requires c % 4096 == 0;
                lemma_tree_kept(m_b, m_b, ph_b, ph_b, ph_n, ph_a, c, m0, next_table(oe, mask), oe, mask, 3);
                assert(next_table(c | 3, mask) == c);
            }
            let value = child | 3;
            let n = mem.len();
            proof {
                lemma_word_page(nt, i as int);
            }
            mem[(nt / 8 + i) as usize] = value;
            proof {
                let m_w = mem@;
                lemma_word_page(nt, i as int);
                assert(kept_taken(m_b, m_w, ph_n, ph_b)) by {
                    assert forall|w: int|
                        0 <= w < m_b.len() && w / 512 < ph_b.len() && ph_n[w / 512] == PageUse::Free && ph_b[w / 512]
                            != PageUse::Free implies #[trigger] m_w[w] == m_b[w] by {
                        if w == slot(nt, i as int) {
                            assert(w / 512 == f);
                        }
                    }
                }
                assert forall|j: int| 0 <= j < 512 && j != i implies #[trigger] word(m_w, nt, j) == word(m_b, nt, j) by {
                    lemma_word_page(nt, j);
                }
                assert forall|j: int| 0 <= j <= i implies pml4_entry_cloned(
                    m_w,
                    ph_b,
                    ph_n,
                    #[trigger] word(m_w, nt, j),
                    m0,
                    word(m0, opml4, j),
                    mask,
                ) by {
                    let oej = word(m0, opml4, j);
                    if j < i {
                        assert(word(m_w, nt, j) == word(m_b, nt, j));
                        if present(oej) {
                            lemma_tree_kept(m_b, m_w, ph_b, ph_b, ph_n, ph_n, next_table(word(m_b, nt, j), mask), m0, next_table(oej, mask), oej, mask, 3);
                        }
                    } else {
                        assert(word(m_w, nt, j) == value);
                        lemma_tree_kept(m_b, m_w, ph_b, ph_b, ph_n, ph_n, child, m0, next_table(oe, mask), oe, mask, 3);
                    }
                }
                assert forall|w: int|
                    0 <= w < m_s.len() && !(w / 512 < ph_s.len() && ph_s[w / 512] == PageUse::Free) implies #[trigger] m_w[w]
                    == m_s[w] by {
                    if w == slot(nt, i as int) {
                        assert(w / 512 == f);
                    }
                    assert(m_b[w] == m_s[w]);
                }
                lemma_kept_taken_trans(m_a, m_b, m_w, ph_n, ph_a, ph_b);
                assert forall|j: int| 0 <= j < i implies #[trigger] word(m_w, nt, j) == word(m_a, nt, j) by {
                    assert(word(m_b, nt, j) == word(m_a, nt, j));
                }
                lemma_lower_frames_kept(m_a, m_w, ph_a, ph_n, nt, m0, opml4, mask, i as int);
                lemma_changed_trans(ph_s, ph_a, ph_b);
                let lf = lower_frames(m_w, nt, m0, opml4, mask, i as int);
                assert(word(m_w, nt, i as int) == value);
                lemma_copy_frames_kept(m_b, m_w, ph_b, ph_n, child, m0, next_table(oe, mask), oe, mask, 3);
                let cf = copy_frames(m_w, child, m0, next_table(oe, mask), mask, 3);
                assert(lower_frames(m_w, nt, m0, opml4, mask, i + 1) == lf + cf);
                assert(lf.disjoint(cf)) by {
                    assert forall|x: int| lf.contains(x) implies !cf.contains(x) by {
                        assert(changed(ph_s, ph_a).contains(x));
                    }
                }
                vstd::set_lib::lemma_set_disjoint_lens(lf, cf);
                assert(changed(ph_s, ph_b) =~= set![f] + lower_frames(m_w, nt, m0, opml4, mask, i + 1));
            }
        } else {
            proof {
                assert(lower_frames(mem@, nt, m0, opml4, mask, i + 1) =~= lower_frames(mem@, nt, m0, opml4, mask, i as int));
            }
        }
        i = i + 1;
    }
    let ghost m_l = mem@;
    let ghost ph_l = pager.phys@;
    assert(count_use(ph_l, PageUse::Free) + clone_size(m_s, opml4, mask) == count_use(ph_s, PageUse::Free));
    let mut i: u64 = 0;
    while i < 256
        invariant
            pager.wf(),
            pager.phys@ == ph_l,
            pager.phy_page_mask == mask,
            pager.paging_type == old(pager).paging_type,
            pager.lin_addr_mask == old(pager).lin_addr_mask,
            pager.to_high_mask == old(pager).to_high_mask,
            pager.phy_addr_bits == old(pager).phy_addr_bits,
            mem@.len() == m_s.len(),
            ph_l.len() == ph_s.len(),
            ph_s == old(pager).phys@,
            m_s == old(mem)@,
            0 <= f < ph_s.len(),
            only_taken(ph_s, ph_n),
            only_taken(ph_n, ph_l),
            ph_s[f] == PageUse::Free,
            ph_n[f] == PageUse::Used,
            f == frame_of(nt),
            kept(m_s, mem@, ph_s),
            table_ok(mem@, ph_l, nt),
            nt & mask == nt,
            0 <= i <= 256,
            forall|j: int| 0 <= j < 256 ==> #[trigger] word(mem@, nt, j) == word(m_l, nt, j),
            forall|j: int| 0 <= j < i ==> #[trigger] upper_copy(mem@, nt, j),
            kept_taken(m_l, mem@, ph_n, ph_l),
        decreases 256 - i,
    {
        let ghost m_a = mem@;
        let v = read_entry(mem, nt, i);
        let n = mem.len();
        proof {
            lemma_word_page(nt, i + 256);
        }
        mem[(nt / 8 + i + 256) as usize] = v;
        proof {
            let m_w = mem@;
            lemma_word_page(nt, i + 256);
            assert forall|j: int| 0 <= j < 512 && j != i + 256 implies #[trigger] word(m_w, nt, j) == word(m_a, nt, j) by {
                lemma_word_page(nt, j);
            }
            assert forall|j: int| 0 <= j <= i implies #[trigger] upper_copy(m_w, nt, j) by {
                assert(word(m_w, nt, j) == word(m_a, nt, j));
                if j < i {
                    assert(upper_copy(m_a, nt, j));
                    assert(word(m_w, nt, j + 256) == word(m_a, nt, j + 256));
                }
            }
            assert forall|w: int|
                0 <= w < m_l.len() && w / 512 < ph_l.len() && ph_n[w / 512] == PageUse::Free && ph_l[w / 512]
                    != PageUse::Free implies #[trigger] m_w[w] == m_l[w] by {
                if w == slot(nt, i + 256) {
                    assert(w / 512 == f);
                }
                assert(m_a[w] == m_l[w]);
            }
            assert forall|w: int|
                0 <= w < m_s.len() && !(w / 512 < ph_s.len() && ph_s[w / 512] == PageUse::Free) implies #[trigger] m_w[w]
                == m_s[w] by {
                if w == slot(nt, i + 256) {
                    assert(w / 512 == f);
                }
                assert(m_a[w] == m_s[w]);
            }
        }
        i = i + 1;
    }
    proof {
        let m = mem@;
        let ph = pager.phys@;
        assert forall|j: int| 0 <= j < 256 implies pml4_entry_cloned(
            m,
            ph,
            ph_s,
            #[trigger] word(m, nt, j),
            m0,
            word(m0, opml4, j),
            mask,
        ) by {
            assert(word(m, nt, j) == word(m_l, nt, j));
            assert(pml4_entry_cloned(m_l, ph, ph_n, word(m_l, nt, j), m0, word(m0, opml4, j), mask));
            let oej = word(m0, opml4, j);
            if present(oej) {
                lemma_tree_kept(m_l, m, ph, ph, ph_n, ph_n, next_table(word(m_l, nt, j), mask), m0, next_table(oej, mask), oej, mask, 3);
                lemma_tree_kept(m, m, ph, ph, ph_s, ph_n, next_table(word(m_l, nt, j), mask), m0, next_table(oej, mask), oej, mask, 3);
            }
        }
        lemma_taken_trans(ph_s, ph_n, ph);
        let lf = lower_frames(m_l, nt, m0, opml4, mask, 256);
        lemma_lower_frames_kept(m_l, m, ph, ph_n, nt, m0, opml4, mask, 256);
        assert(!lf.contains(f));
        assert(set![f].disjoint(lf));
        vstd::set_lib::lemma_set_disjoint_lens(set![f], lf);
        assert(set![f].len() == 1) by {
            assert(set![f] =~= Set::<int>::empty().insert(f));
        }
    }
    Some(nt)
}

/// Clears the lower 256 entries of the PML4 at `pml4`, dropping the
/// firmware's low mappings once the kernel runs in the upper half.
pub fn clear_lower_half(mem: &mut [u64], pml4: u64)
    requires
        table_in(old(mem)@, pml4),
    ensures
        final(mem)@.len() == old(mem)@.len(),
        forall|i: int| 0 <= i < 256 ==> #[trigger] word(final(mem)@, pml4, i) == 0,
        forall|w: int|
            0 <= w < old(mem)@.len() && !(slot(pml4, 0) <= w < slot(pml4, 256)) ==> #[trigger] final(mem)@[w]
                == old(mem)@[w],
{
    let n = mem.len();
    let base = (pml4 / 8) as usize;
    let mut i: usize = 0;
    while i < 256
        invariant
            n == mem@.len(),
            mem@.len() == old(mem)@.len(),
            base == slot(pml4, 0),
            base + 512 <= n,
            0 <= i <= 256,
            forall|j: int| 0 <= j < i ==> #[trigger] word(mem@, pml4, j) == 0,
            forall|w: int|
                0 <= w < old(mem)@.len() && !(slot(pml4, 0) <= w < slot(pml4, i as int)) ==> #[trigger] mem@[w]
                    == old(mem)@[w],
        decreases 256 - i,
    {
        let ghost before = mem@;
        mem[base + i] = 0;
        assert forall|j: int| 0 <= j <= i implies #[trigger] word(mem@, pml4, j) == 0 by {
            assert(slot(pml4, j) == base + j);
            if j < i {
                assert(word(before, pml4, j) == 0);
            }
        }
        i = i + 1;
    }
}

} // verus!
