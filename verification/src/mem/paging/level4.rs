//! Four-level (x86-64, 48-bit) page tables kept in physical memory.
//!
//! A linear page index `p` (a linear address shifted right by 12) selects
//! entry `(p / 2^27) % 512` of the PML4, `(p / 2^18) % 512` of the PDPT,
//! `(p / 2^9) % 512` of the page directory and `p % 512` of the page table.
//! An entry is present when bit 0 is set; a PDPT or PD entry with bit 7 set
//! maps a 1 GiB or 2 MiB page. The next table's physical address is the
//! entry masked with the physical page mask.
//!
//! Mapping, unmapping and freeing a single page (`allocate_page`,
//! `remove_page`, `free_page`) do not look at bit 7: they follow every
//! present entry on the path as a link to a table, a large-page entry too.

use vstd::prelude::*;
use super::PageUse;
use super::phy::{PhysPageMap, count_use, first_free_cyclic, lemma_count_update, lemma_no_free_count, lemma_page_addr};

verus! {

/// Linear pages covered by one PML4 entry.
pub const L4_SPAN: u64 = 134217728;

/// Linear pages covered by one PDPT entry.
pub const L3_SPAN: u64 = 262144;

/// Linear pages covered by one page-directory entry.
pub const L2_SPAN: u64 = 512;

pub open spec fn l4_index(p: int) -> int {
    (p / 134217728) % 512
}

pub open spec fn l3_index(p: int) -> int {
    (p / 262144) % 512
}

pub open spec fn l2_index(p: int) -> int {
    (p / 512) % 512
}

pub open spec fn l1_index(p: int) -> int {
    p % 512
}

/// Entry `idx` of the table at physical address `table`.
pub open spec fn word(mem: Seq<u64>, table: u64, idx: int) -> u64 {
    mem[table as int / 8 + idx]
}

/// The 512 entries of the table at `table` lie in `mem`.
pub open spec fn table_in(mem: Seq<u64>, table: u64) -> bool {
    table as int / 8 + 512 <= mem.len()
}

pub open spec fn present(e: u64) -> bool {
    e & 1 != 0
}

pub open spec fn huge(e: u64) -> bool {
    e & 0x80 != 0
}

/// The table an entry points to.
pub open spec fn next_table(e: u64, mask: u64) -> u64 {
    e & mask
}

/// Page `q` is unmapped as far as the page table at `pt` decides.
pub open spec fn pt_unused(mem: Seq<u64>, pt: u64, q: int) -> bool {
    !present(word(mem, pt, l1_index(q)))
}

/// Page `q` is unmapped as far as the page directory at `pd` decides; a
/// 2 MiB page counts as mapped.
pub open spec fn pd_unused(mem: Seq<u64>, pd: u64, mask: u64, q: int) -> bool {
    let e = word(mem, pd, l2_index(q));
    !present(e) || (!huge(e) && pt_unused(mem, next_table(e, mask), q))
}

/// Page `q` is unmapped as far as the PDPT at `pdpt` decides; a 1 GiB page
/// counts as mapped.
pub open spec fn pdpt_unused(mem: Seq<u64>, pdpt: u64, mask: u64, q: int) -> bool {
    let e = word(mem, pdpt, l3_index(q));
    !present(e) || (!huge(e) && pd_unused(mem, next_table(e, mask), mask, q))
}

/// Linear page `q` is not mapped by the tables rooted at `pml4`.
pub open spec fn page_unused(mem: Seq<u64>, pml4: u64, mask: u64, q: int) -> bool {
    let e = word(mem, pml4, l4_index(q));
    !present(e) || pdpt_unused(mem, next_table(e, mask), mask, q)
}

pub open spec fn pd_readable(mem: Seq<u64>, pd: u64, mask: u64, q: int) -> bool {
    let e = word(mem, pd, l2_index(q));
    table_in(mem, pd) && (present(e) && !huge(e) ==> table_in(mem, next_table(e, mask)))
}

pub open spec fn pdpt_readable(mem: Seq<u64>, pdpt: u64, mask: u64, q: int) -> bool {
    let e = word(mem, pdpt, l3_index(q));
    table_in(mem, pdpt) && (present(e) && !huge(e) ==> pd_readable(mem, next_table(e, mask), mask, q))
}

/// Every table read while deciding whether page `q` is mapped lies in `mem`.
pub open spec fn walk_readable(mem: Seq<u64>, pml4: u64, mask: u64, q: int) -> bool {
    let e = word(mem, pml4, l4_index(q));
    table_in(mem, pml4) && (present(e) ==> pdpt_readable(mem, next_table(e, mask), mask, q))
}

/// The unmapped linear pages, as a predicate.
pub open spec fn unused_pages(mem: Seq<u64>, pml4: u64, mask: u64) -> spec_fn(int) -> bool {
    |q: int| page_unused(mem, pml4, mask, q)
}

/// First linear page of the half searched for holes.
pub open spec fn half_start(kernel: bool) -> int {
    if kernel { 34359738368 } else { 0 }
}

/// `need` consecutive pages from `s` on are all `free` and lie in `[lo, hi)`.
pub open spec fn is_hole(free: spec_fn(int) -> bool, lo: int, hi: int, need: int, s: int) -> bool {
    &&& lo <= s
    &&& s + need <= hi
    &&& forall|q: int| s <= q < s + need ==> #[trigger] free(q)
}

/// `s` is the lowest start of a hole.
pub open spec fn first_hole(free: spec_fn(int) -> bool, lo: int, hi: int, need: int, s: int) -> bool {
    &&& is_hole(free, lo, hi, need, s)
    &&& forall|t: int| t < s ==> !#[trigger] is_hole(free, lo, hi, need, t)
}

/// A hole of `max(pages, 1)` unmapped pages in the kernel half (upper 256
/// PML4 entries) or the user half (lower 256) starts at page `s`.
pub open spec fn lin_hole(mem: Seq<u64>, pml4: u64, mask: u64, pages: int, kernel: bool, s: int) -> bool {
    is_hole(
        unused_pages(mem, pml4, mask),
        half_start(kernel),
        half_start(kernel) + 256 * 134217728,
        if pages >= 1 { pages } else { 1 },
        s,
    )
}

/// A run of unmapped pages met so far by the hole search.
struct Run {
    start: u64,
    pages: u64,
}

/// What the hole search knows after scanning pages `[lo, cur)`.
spec fn scan_inv(
    free: spec_fn(int) -> bool,
    lo: int,
    hi: int,
    need: int,
    cur: int,
    buf: Option<Run>,
) -> bool {
    &&& 1 <= need
    &&& 0 <= lo <= cur <= hi <= 512 * 134217728
    &&& forall|s: int| !#[trigger] is_hole(free, lo, cur, need, s)
    &&& match buf {
        None => cur == lo || !free(cur - 1),
        Some(b) => {
            &&& lo <= b.start
            &&& b.start + b.pages == cur
            &&& 1 <= b.pages < need
            &&& forall|q: int| b.start <= q < cur ==> #[trigger] free(q)
            &&& (b.start == lo || !free(b.start - 1))
        },
    }
}

/// Pages `[cur, cur + size)` are all mapped: the search forgets its run.
proof fn lemma_note_used(
    free: spec_fn(int) -> bool,
    lo: int,
    hi: int,
    need: int,
    cur: int,
    size: int,
    buf: Option<Run>,
)
    requires
        scan_inv(free, lo, hi, need, cur, buf),
        1 <= size,
        cur + size <= hi,
        forall|q: int| cur <= q < cur + size ==> !#[trigger] free(q),
    ensures
        scan_inv(free, lo, hi, need, cur + size, None),
{
    assert forall|s: int| !#[trigger] is_hole(free, lo, cur + size, need, s) by {
        if is_hole(free, lo, cur + size, need, s) {
            if s + need <= cur {
                assert(is_hole(free, lo, cur, need, s));
            } else {
                assert(!free(s + need - 1));
            }
        }
    }
    assert(!free(cur + size - 1));
}

/// Pages `[start, start + size)` are all unmapped: the run grows, or the
/// hole is found.
fn note_unused(
    buffer: &mut Option<Run>,
    start: u64,
    size: u64,
    pages: u64,
    Ghost(free): Ghost<spec_fn(int) -> bool>,
    Ghost(lo): Ghost<int>,
    Ghost(hi): Ghost<int>,
) -> (found: Option<u64>)
    requires
        scan_inv(free, lo, hi, if pages >= 1 { pages as int } else { 1 }, start as int, *old(buffer)),
        1 <= size,
        start + size <= hi,
        forall|q: int| start <= q < start + size ==> #[trigger] free(q),
    ensures
        match found {
            Some(s) => first_hole(free, lo, hi, if pages >= 1 { pages as int } else { 1 }, s as int),
            None => scan_inv(
                free,
                lo,
                hi,
                if pages >= 1 { pages as int } else { 1 },
                start + size,
                *final(buffer),
            ),
        },
{
    let ghost need: int = if pages >= 1 { pages as int } else { 1 };
    let ghost cur: int = start as int;
    match buffer {
        Some(b) => {
            let ghost bs: int = b.start as int;
            b.pages = b.pages + size;
            if b.pages >= pages {
                let s = b.start;
                assert forall|q: int| bs <= q < bs + need implies #[trigger] free(q) by {
                    if q < cur {
                    } else {
                    }
                }
                assert(is_hole(free, lo, hi, need, bs));
                assert forall|t: int| t < bs implies !#[trigger] is_hole(free, lo, hi, need, t) by {
                    if is_hole(free, lo, hi, need, t) {
                        if t + need <= cur {
                            assert(is_hole(free, lo, cur, need, t));
                        } else {
                            assert(free(bs - 1));
                        }
                    }
                }
                return Some(s);
            }
            assert forall|s: int| !#[trigger] is_hole(free, lo, cur + size, need, s) by {
                if is_hole(free, lo, cur + size, need, s) {
                    if s + need <= cur {
                        assert(is_hole(free, lo, cur, need, s));
                    } else if s < bs {
                        assert(free(bs - 1));
                    }
                }
            }
            None
        },
        None => {
            if size >= pages {
                assert forall|q: int| cur <= q < cur + need implies #[trigger] free(q) by {}
                assert(is_hole(free, lo, hi, need, cur));
                assert forall|t: int| t < cur implies !#[trigger] is_hole(free, lo, hi, need, t) by {
                    if is_hole(free, lo, hi, need, t) {
                        if t + need <= cur {
                            assert(is_hole(free, lo, cur, need, t));
                        } else {
                            assert(free(cur - 1));
                        }
                    }
                }
                return Some(start);
            }
            assert forall|s: int| !#[trigger] is_hole(free, lo, cur + size, need, s) by {
                if is_hole(free, lo, cur + size, need, s) {
                    if s + need <= cur {
                        assert(is_hole(free, lo, cur, need, s));
                    } else if s < cur {
                        assert(free(cur - 1));
                    }
                }
            }
            *buffer = Some(Run { start, pages: size });
            None
        },
    }
}

/// Pages of the `i`-th PML4 entry's span select entry `i` of the PML4.
proof fn lemma_l4_span(i: int, q: int)
    requires
        0 <= i < 512,
        i * 134217728 <= q < i * 134217728 + 134217728,
    ensures
        l4_index(q) == i,
{
    vstd::arithmetic::div_mod::lemma_fundamental_div_mod_converse(q, 134217728, i, q - i * 134217728);
    vstd::arithmetic::div_mod::lemma_fundamental_div_mod_converse(i, 512, 0, i);
}

/// In a PML4 entry's span starting at `base`, the pages of the `j`-th PDPT
/// entry's span select entry `j` of the PDPT.
proof fn lemma_l3_span(base: int, j: int, q: int)
    requires
        base >= 0,
        base % 134217728 == 0,
        0 <= j < 512,
        base + j * 262144 <= q < base + j * 262144 + 262144,
    ensures
        l3_index(q) == j,
{
    let m = base / 134217728;
    vstd::arithmetic::div_mod::lemma_fundamental_div_mod(base, 134217728);
    assert(q == (m * 512 + j) * 262144 + (q - base - j * 262144)) by (nonlinear_arith)
        requires base == 134217728 * m + 0, m * 512 * 262144 == m * 134217728;
    vstd::arithmetic::div_mod::lemma_fundamental_div_mod_converse(q, 262144, m * 512 + j, q - base - j * 262144);
    vstd::arithmetic::div_mod::lemma_fundamental_div_mod_converse(m * 512 + j, 512, m, j);
}

/// In a PDPT entry's span starting at `base`, the pages of the `k`-th
/// directory entry's span select entry `k` of the directory.
proof fn lemma_l2_span(base: int, k: int, q: int)
    requires
        base >= 0,
        base % 262144 == 0,
        0 <= k < 512,
        base + k * 512 <= q < base + k * 512 + 512,
    ensures
        l2_index(q) == k,
{
    let m = base / 262144;
    vstd::arithmetic::div_mod::lemma_fundamental_div_mod(base, 262144);
    assert(q == (m * 512 + k) * 512 + (q - base - k * 512)) by (nonlinear_arith)
        requires base == 262144 * m + 0, m * 512 * 512 == m * 262144;
    vstd::arithmetic::div_mod::lemma_fundamental_div_mod_converse(q, 512, m * 512 + k, q - base - k * 512);
    vstd::arithmetic::div_mod::lemma_fundamental_div_mod_converse(m * 512 + k, 512, m, k);
}

/// In a directory entry's span starting at `base`, page `q` selects entry
/// `q - base` of the page table.
proof fn lemma_l1_span(base: int, q: int)
    requires
        base >= 0,
        base % 512 == 0,
        base <= q < base + 512,
    ensures
        l1_index(q) == q - base,
{
    let m = base / 512;
    vstd::arithmetic::div_mod::lemma_fundamental_div_mod(base, 512);
    vstd::arithmetic::div_mod::lemma_fundamental_div_mod_converse(q, 512, m, q - base);
}

/// Entry `idx` of the table at `table`.
pub(crate) fn read_entry(mem: &[u64], table: u64, idx: u64) -> (e: u64)
    requires
        table_in(mem@, table),
        idx < 512,
    ensures
        e == word(mem@, table, idx as int),
{
    let n = mem.len();
    mem[(table / 8 + idx) as usize]
}

/// Scans the page table at `pt`, which decides pages `[base, base + 512)`.
fn scan_pt(
    mem: &[u64],
    pt: u64,
    base: u64,
    buffer: &mut Option<Run>,
    pages: u64,
    Ghost(free): Ghost<spec_fn(int) -> bool>,
    Ghost(lo): Ghost<int>,
    Ghost(hi): Ghost<int>,
) -> (found: Option<u64>)
    requires
        scan_inv(free, lo, hi, if pages >= 1 { pages as int } else { 1 }, base as int, *old(buffer)),
        base + 512 <= hi,
        table_in(mem@, pt),
        forall|q: int| base <= q < base + 512 ==> #[trigger] free(q) == !present(word(mem@, pt, q - base)),
    ensures
        match found {
            Some(s) => first_hole(free, lo, hi, if pages >= 1 { pages as int } else { 1 }, s as int),
            None => scan_inv(free, lo, hi, if pages >= 1 { pages as int } else { 1 }, base + 512, *final(buffer)),
        },
{
    let ghost need: int = if pages >= 1 { pages as int } else { 1 };
    let mut pti: u64 = 0;
    while pti < 512
        invariant
            0 <= pti <= 512,
            scan_inv(free, lo, hi, need, base + pti, *buffer),
            need == if pages >= 1 { pages as int } else { 1 },
            base + 512 <= hi,
            table_in(mem@, pt),
            forall|q: int| base <= q < base + 512 ==> #[trigger] free(q) == !present(word(mem@, pt, q - base)),
        decreases 512 - pti,
    {
        let pte = read_entry(mem, pt, pti);
        if pte & 1 == 0 {
            assert(free(base + pti));
            let found = note_unused(buffer, base + pti, 1, pages, Ghost(free), Ghost(lo), Ghost(hi));
            if found.is_some() {
                return found;
            }
        } else {
            proof {
                assert(!free(base + pti));
                lemma_note_used(free, lo, hi, need, base + pti, 1, *buffer);
            }
            *buffer = None;
        }
        pti = pti + 1;
    }
    None
}

/// Whether the table at `t` lies in `mem`.
fn table_fits(mem: &[u64], t: u64) -> (b: bool)
    ensures
        b == table_in(mem@, t),
{
    let n = mem.len();
    (t / 8) as u128 + 512 <= n as u128
}

/// Scans the page directory at `pd`, which decides pages
/// `[base, base + 2^18)`; `Err` when a page table it points to does not
/// lie in `mem`.
fn scan_pd(
    mem: &[u64],
    pd: u64,
    mask: u64,
    base: u64,
    buffer: &mut Option<Run>,
    pages: u64,
    Ghost(free): Ghost<spec_fn(int) -> bool>,
    Ghost(lo): Ghost<int>,
    Ghost(hi): Ghost<int>,
) -> (found: Result<Option<u64>, ()>)
    requires
        scan_inv(free, lo, hi, if pages >= 1 { pages as int } else { 1 }, base as int, *old(buffer)),
        base % 262144 == 0,
        base + 262144 <= hi,
        table_in(mem@, pd),
        forall|q: int| base <= q < base + 262144 ==> #[trigger] free(q) == pd_unused(mem@, pd, mask, q),
    ensures
        match found {
            Ok(Some(s)) => first_hole(free, lo, hi, if pages >= 1 { pages as int } else { 1 }, s as int),
            Ok(None) => scan_inv(free, lo, hi, if pages >= 1 { pages as int } else { 1 }, base + 262144, *final(buffer)),
            Err(_) => exists|q: int| base <= q < base + 262144 && !#[trigger] pd_readable(mem@, pd, mask, q),
        },
{
    let ghost need: int = if pages >= 1 { pages as int } else { 1 };
    let mut pdi: u64 = 0;
    while pdi < 512
        invariant
            0 <= pdi <= 512,
            scan_inv(free, lo, hi, need, base + pdi * 512, *buffer),
            need == if pages >= 1 { pages as int } else { 1 },
            base % 262144 == 0,
            base + 262144 <= hi,
            table_in(mem@, pd),
            forall|q: int| base <= q < base + 262144 ==> #[trigger] free(q) == pd_unused(mem@, pd, mask, q),
        decreases 512 - pdi,
    {
        let start = base + pdi * 512;
        let pde = read_entry(mem, pd, pdi);
        if pde & 1 == 0 {
            assert forall|q: int| start <= q < start + 512 implies #[trigger] free(q) by {
                lemma_l2_span(base as int, pdi as int, q);
            }
            let found = note_unused(buffer, start, 512, pages, Ghost(free), Ghost(lo), Ghost(hi));
            if found.is_some() {
                return Ok(found);
            }
        } else if pde & 0x80 != 0 {
            proof {
                assert forall|q: int| start <= q < start + 512 implies !#[trigger] free(q) by {
                    lemma_l2_span(base as int, pdi as int, q);
                }
                lemma_note_used(free, lo, hi, need, start as int, 512, *buffer);
            }
            *buffer = None;
        } else {
            let pt = pde & mask;
            if !table_fits(mem, pt) {
                proof {
                    lemma_l2_span(base as int, pdi as int, start as int);
                    assert(!pd_readable(mem@, pd, mask, start as int));
                }
                return Err(());
            }
            assert forall|q: int| start <= q < start + 512 implies #[trigger] free(q) == !present(
                word(mem@, pt, q - start),
            ) by {
                lemma_l2_span(base as int, pdi as int, q);
                lemma_l1_span(start as int, q);
            }
            let found = scan_pt(mem, pt, start, buffer, pages, Ghost(free), Ghost(lo), Ghost(hi));
            if found.is_some() {
                return Ok(found);
            }
        }
        pdi = pdi + 1;
    }
    Ok(None)
}

/// Scans the PDPT at `pdpt`, which decides pages `[base, base + 2^27)`;
/// `Err` when a table below it does not lie in `mem`.
fn scan_pdpt(
    mem: &[u64],
    pdpt: u64,
    mask: u64,
    base: u64,
    buffer: &mut Option<Run>,
    pages: u64,
    Ghost(free): Ghost<spec_fn(int) -> bool>,
    Ghost(lo): Ghost<int>,
    Ghost(hi): Ghost<int>,
) -> (found: Result<Option<u64>, ()>)
    requires
        scan_inv(free, lo, hi, if pages >= 1 { pages as int } else { 1 }, base as int, *old(buffer)),
        base % 134217728 == 0,
        base + 134217728 <= hi,
        table_in(mem@, pdpt),
        forall|q: int| base <= q < base + 134217728 ==> #[trigger] free(q) == pdpt_unused(mem@, pdpt, mask, q),
    ensures
        match found {
            Ok(Some(s)) => first_hole(free, lo, hi, if pages >= 1 { pages as int } else { 1 }, s as int),
            Ok(None) => scan_inv(free, lo, hi, if pages >= 1 { pages as int } else { 1 }, base + 134217728, *final(buffer)),
            Err(_) => exists|q: int| base <= q < base + 134217728 && !#[trigger] pdpt_readable(mem@, pdpt, mask, q),
        },
{
    let ghost need: int = if pages >= 1 { pages as int } else { 1 };
    let mut pdpti: u64 = 0;
    while pdpti < 512
        invariant
            0 <= pdpti <= 512,
            scan_inv(free, lo, hi, need, base + pdpti * 262144, *buffer),
            need == if pages >= 1 { pages as int } else { 1 },
            base % 134217728 == 0,
            base + 134217728 <= hi,
            table_in(mem@, pdpt),
            forall|q: int| base <= q < base + 134217728 ==> #[trigger] free(q) == pdpt_unused(mem@, pdpt, mask, q),
        decreases 512 - pdpti,
    {
        let start = base + pdpti * 262144;
        let pdpte = read_entry(mem, pdpt, pdpti);
        if pdpte & 1 == 0 {
            assert forall|q: int| start <= q < start + 262144 implies #[trigger] free(q) by {
                lemma_l3_span(base as int, pdpti as int, q);
            }
            let found = note_unused(buffer, start, 262144, pages, Ghost(free), Ghost(lo), Ghost(hi));
            if found.is_some() {
                return Ok(found);
            }
        } else if pdpte & 0x80 != 0 {
            proof {
                assert forall|q: int| start <= q < start + 262144 implies !#[trigger] free(q) by {
                    lemma_l3_span(base as int, pdpti as int, q);
                }
                lemma_note_used(free, lo, hi, need, start as int, 262144, *buffer);
            }
            *buffer = None;
        } else {
            let pd = pdpte & mask;
            if !table_fits(mem, pd) {
                proof {
                    lemma_l3_span(base as int, pdpti as int, start as int);
                    assert(!pdpt_readable(mem@, pdpt, mask, start as int));
                }
                return Err(());
            }
            assert forall|q: int| start <= q < start + 262144 implies #[trigger] free(q) == pd_unused(
                mem@,
                pd,
                mask,
                q,
            ) by {
                lemma_l3_span(base as int, pdpti as int, q);
                assert(free(q) == pdpt_unused(mem@, pdpt, mask, q));
            }
            assert(start % 262144 == 0) by {
                assert(base + pdpti * 262144 == (base / 262144 + pdpti) * 262144);
            }
            let found = scan_pd(mem, pd, mask, start, buffer, pages, Ghost(free), Ghost(lo), Ghost(hi));
            match found {
                Ok(None) => {},
                Ok(Some(_)) => {
                    return found;
                },
                Err(_) => {
                    proof {
                        let q = choose|q: int| start <= q < start + 262144 && !#[trigger] pd_readable(mem@, pd, mask, q);
                        lemma_l3_span(base as int, pdpti as int, q);
                        assert(!pdpt_readable(mem@, pdpt, mask, q));
                    }
                    return Err(());
                },
            }
        }
        pdpti = pdpti + 1;
    }
    Ok(None)
}

/// The lowest linear page index at which `max(pages, 1)` consecutive
/// unmapped pages start, in the kernel half (PML4 entries 256..512) when
/// `kernel` and in the user half (entries 0..256) otherwise; a 1 GiB or
/// 2 MiB page counts as mapped. `Ok(None)` when the half has no such hole;
/// `Err` when a table met on the way does not lie in `mem`.
pub fn get_lin_hole(mem: &[u64], pml4: u64, mask: u64, pages: u64, kernel: bool) -> (r: Result<Option<u64>, ()>)
    ensures
        match r {
            Ok(Some(s)) => {
                &&& lin_hole(mem@, pml4, mask, pages as int, kernel, s as int)
                &&& forall|t: int| t < s ==> !#[trigger] lin_hole(mem@, pml4, mask, pages as int, kernel, t)
            },
            Ok(None) => forall|t: int| !#[trigger] lin_hole(mem@, pml4, mask, pages as int, kernel, t),
            Err(_) => exists|q: int|
                half_start(kernel) <= q < half_start(kernel) + 256 * 134217728 && !#[trigger] walk_readable(
                    mem@,
                    pml4,
                    mask,
                    q,
                ),
        },
        (forall|q: int|
            half_start(kernel) <= q < half_start(kernel) + 256 * 134217728 ==> #[trigger] walk_readable(
                mem@,
                pml4,
                mask,
                q,
            )) ==> r is Ok,
{
    let ghost free = unused_pages(mem@, pml4, mask);
    let ghost need: int = if pages >= 1 { pages as int } else { 1 };
    let ghost lo = half_start(kernel);
    let ghost hi = half_start(kernel) + 256 * 134217728;
    let first: u64 = if kernel { 256 } else { 0 };
    let last: u64 = first + 256;
    if !table_fits(mem, pml4) {
        assert(!walk_readable(mem@, pml4, mask, lo));
        return Err(());
    }
    let mut buffer: Option<Run> = None;
    assert forall|s: int| !#[trigger] is_hole(free, lo, lo, need, s) by {
        if is_hole(free, lo, lo, need, s) {
            assert(free(s));
        }
    }
    let mut pml4i: u64 = first;
    assert(free == unused_pages(mem@, pml4, mask));
    while pml4i < last
        invariant
            first <= pml4i <= last,
            last == first + 256,
            first as int * 134217728 == lo,
            lo == half_start(kernel),
            lo + 256 * 134217728 == hi,
            hi <= 512 * 134217728,
            scan_inv(free, lo, hi, need, pml4i * 134217728, buffer),
            need == if pages >= 1 { pages as int } else { 1 },
            table_in(mem@, pml4),
            free == unused_pages(mem@, pml4, mask),
        decreases last - pml4i,
    {
        let start = pml4i * 134217728;
        let pml4e = read_entry(mem, pml4, pml4i);
        if pml4e & 1 == 0 {
            assert forall|q: int| start <= q < start + 134217728 implies #[trigger] free(q) by {
                lemma_l4_span(pml4i as int, q);
            }
            let found = note_unused(&mut buffer, start, 134217728, pages, Ghost(free), Ghost(lo), Ghost(hi));
            if let Some(s) = found {
                proof { lemma_first_lin_hole(mem@, pml4, mask, pages as int, kernel, s as int); }
                return Ok(Some(s));
            }
        } else {
            let pdpt = pml4e & mask;
            if !table_fits(mem, pdpt) {
                proof {
                    lemma_l4_span(pml4i as int, start as int);
                    assert(!walk_readable(mem@, pml4, mask, start as int));
                }
                return Err(());
            }
            assert forall|q: int| start <= q < start + 134217728 implies #[trigger] free(q) == pdpt_unused(
                mem@,
                pdpt,
                mask,
                q,
            ) by {
                lemma_l4_span(pml4i as int, q);
                assert(free(q) == page_unused(mem@, pml4, mask, q));
            }
            let found = scan_pdpt(mem, pdpt, mask, start, &mut buffer, pages, Ghost(free), Ghost(lo), Ghost(hi));
            match found {
                Ok(None) => {},
                Ok(Some(s)) => {
                    proof { lemma_first_lin_hole(mem@, pml4, mask, pages as int, kernel, s as int); }
                    return Ok(Some(s));
                },
                Err(_) => {
                    proof {
                        let q = choose|q: int| start <= q < start + 134217728 && !#[trigger] pdpt_readable(mem@, pdpt, mask, q);
                        lemma_l4_span(pml4i as int, q);
                        assert(!walk_readable(mem@, pml4, mask, q));
                    }
                    return Err(());
                },
            }
        }
        pml4i = pml4i + 1;
    }
    Ok(None)
}

proof fn lemma_first_lin_hole(mem: Seq<u64>, pml4: u64, mask: u64, pages: int, kernel: bool, s: int)
    requires
        first_hole(
            unused_pages(mem, pml4, mask),
            half_start(kernel),
            half_start(kernel) + 256 * 134217728,
            if pages >= 1 { pages } else { 1 },
            s,
        ),
    ensures
        lin_hole(mem, pml4, mask, pages, kernel, s),
        forall|t: int| t < s ==> !#[trigger] lin_hole(mem, pml4, mask, pages, kernel, t),
{
    assert forall|t: int| t < s implies !#[trigger] lin_hole(mem, pml4, mask, pages, kernel, t) by {
        assert(!is_hole(
            unused_pages(mem, pml4, mask),
            half_start(kernel),
            half_start(kernel) + 256 * 134217728,
            if pages >= 1 { pages } else { 1 },
            t,
        ));
    }
}

/// The PDPT on the path of page `p`.
pub open spec fn pdpt_of(mem: Seq<u64>, pml4: u64, mask: u64, p: int) -> u64 {
    next_table(word(mem, pml4, l4_index(p)), mask)
}

/// The page directory on the path of page `p`.
pub open spec fn pd_of(mem: Seq<u64>, pml4: u64, mask: u64, p: int) -> u64 {
    next_table(word(mem, pdpt_of(mem, pml4, mask, p), l3_index(p)), mask)
}

/// The page table on the path of page `p`.
pub open spec fn pt_of(mem: Seq<u64>, pml4: u64, mask: u64, p: int) -> u64 {
    next_table(word(mem, pd_of(mem, pml4, mask, p), l2_index(p)), mask)
}

/// The page-table entry of page `p`.
pub open spec fn leaf_of(mem: Seq<u64>, pml4: u64, mask: u64, p: int) -> u64 {
    word(mem, pt_of(mem, pml4, mask, p), l1_index(p))
}

/// The four entries on the path of page `p` are present and every table on
/// the path lies in `mem` (bit 7 is not looked at).
pub open spec fn mapped(mem: Seq<u64>, pml4: u64, mask: u64, p: int) -> bool {
    &&& table_in(mem, pml4)
    &&& present(word(mem, pml4, l4_index(p)))
    &&& table_in(mem, pdpt_of(mem, pml4, mask, p))
    &&& present(word(mem, pdpt_of(mem, pml4, mask, p), l3_index(p)))
    &&& table_in(mem, pd_of(mem, pml4, mask, p))
    &&& present(word(mem, pd_of(mem, pml4, mask, p), l2_index(p)))
    &&& table_in(mem, pt_of(mem, pml4, mask, p))
    &&& present(leaf_of(mem, pml4, mask, p))
}

/// The physical page holding byte address `a`.
pub open spec fn frame_of(a: u64) -> int {
    a as int / 4096
}

/// Index of the word holding entry `idx` of the table at `table`.
pub open spec fn slot(table: u64, idx: int) -> int {
    table as int / 8 + idx
}

/// Removing a page just mapped gives back the physical address it was
/// mapped to: `allocate_page` writes the frame address with the flags
/// added, `remove_page` masks the flags off again.
pub proof fn lemma_map_then_remove(addr: u64, entry_mask: u64, mask: u64)
    requires
        addr & mask == addr,
        entry_mask & mask == 0,
    ensures
        next_table(addr | entry_mask, mask) == addr,
{
    assert((addr | entry_mask) & mask == addr) by (bit_vector)
        requires
            addr & mask == addr,
            entry_mask & mask == 0,
    ;
}

/// A zero entry is not present.
pub(crate) proof fn lemma_zero_absent()
    ensures
        0u64 & 1 == 0,
        !present(0),
{
    assert(0u64 & 1 == 0) by (bit_vector);
}

/// Mapping a page and then removing it: when `allocate_page` has mapped
/// page `p` to the page-aligned physical address `addr` (in `m1`) and
/// `remove_page` then removes `p` (giving `r` and `m2`), `r` is `addr`,
/// the tables on `p`'s path are the same, `p`'s page-table entry is zero,
/// so `p` is no longer mapped, and no other word changed.
pub proof fn lemma_allocate_then_remove(
    m1: Seq<u64>,
    m2: Seq<u64>,
    r: u64,
    pml4: u64,
    mask: u64,
    p: int,
    addr: u64,
    entry_mask: u64,
)
    requires
        0 <= p,
        pml4 % 4096 == 0,
        mask & 0xFFF == 0,
        addr & mask == addr,
        entry_mask & mask == 0,
        mapped(m1, pml4, mask, p),
        path_distinct(m1, pml4, mask, p),
        leaf_of(m1, pml4, mask, p) == addr | entry_mask,
        r == next_table(leaf_of(m1, pml4, mask, p), mask),
        m2 == m1.update(slot(pt_of(m1, pml4, mask, p), l1_index(p)), 0),
    ensures
        r == addr,
        pdpt_of(m2, pml4, mask, p) == pdpt_of(m1, pml4, mask, p),
        pd_of(m2, pml4, mask, p) == pd_of(m1, pml4, mask, p),
        pt_of(m2, pml4, mask, p) == pt_of(m1, pml4, mask, p),
        leaf_of(m2, pml4, mask, p) == 0,
        !mapped(m2, pml4, mask, p),
        forall|w: int|
            0 <= w < m1.len() && w != slot(pt_of(m1, pml4, mask, p), l1_index(p)) ==> #[trigger] m2[w] == m1[w],
{
    lemma_map_then_remove(addr, entry_mask, mask);
    let t3 = pdpt_of(m1, pml4, mask, p);
    let t2 = pd_of(m1, pml4, mask, p);
    let t1 = pt_of(m1, pml4, mask, p);
    let e4 = word(m1, pml4, l4_index(p));
    let e3 = word(m1, t3, l3_index(p));
    let e2 = word(m1, t2, l2_index(p));
    assert((e4 & mask) % 4096 == 0 && (e3 & mask) % 4096 == 0 && (e2 & mask) % 4096 == 0) by (bit_vector)
        requires mask & 0xFFF == 0;
    let leaf = slot(t1, l1_index(p));
    lemma_slot_page(t1, l1_index(p));
    lemma_slot_page(pml4, l4_index(p));
    lemma_slot_page(t3, l3_index(p));
    lemma_slot_page(t2, l2_index(p));
    assert(frame_of(t1) != frame_of(pml4) && frame_of(t1) != frame_of(t3) && frame_of(t1) != frame_of(t2));
    assert(slot(pml4, l4_index(p)) != leaf);
    assert(slot(t3, l3_index(p)) != leaf);
    assert(slot(t2, l2_index(p)) != leaf);
    assert(word(m2, pml4, l4_index(p)) == e4);
    assert(word(m2, t3, l3_index(p)) == e3);
    assert(word(m2, t2, l2_index(p)) == e2);
    lemma_zero_absent();
}

/// Clears the page-table entry of linear page `page_index` and returns the
/// physical address it held; the physical page stays allocated.
pub fn remove_page(mem: &mut [u64], page_index: u64, pml4: u64, mask: u64) -> (r: u64)
    requires
        mapped(old(mem)@, pml4, mask, page_index as int),
    ensures
        r == next_table(leaf_of(old(mem)@, pml4, mask, page_index as int), mask),
        final(mem)@ == old(mem)@.update(
            slot(pt_of(old(mem)@, pml4, mask, page_index as int), l1_index(page_index as int)),
            0,
        ),
{
    let pml4i = (page_index / 134217728) % 512;
    let pdpti = (page_index / 262144) % 512;
    let pdi = (page_index / 512) % 512;
    let pti = page_index % 512;
    let pml4e = read_entry(mem, pml4, pml4i);
    let pdpt = pml4e & mask;
    let pdpte = read_entry(mem, pdpt, pdpti);
    let pd = pdpte & mask;
    let pde = read_entry(mem, pd, pdi);
    let pt = pde & mask;
    let pte = read_entry(mem, pt, pti);
    let page = pte & mask;
    let n = mem.len();
    mem[(pt / 8 + pti) as usize] = 0;
    page
}

/// Unmaps linear page `page_index` and frees the physical page it mapped.
pub fn free_page(mem: &mut [u64], phys: &mut PhysPageMap, page_index: u64, pml4: u64, mask: u64)
    requires
        old(phys).wf(),
        mapped(old(mem)@, pml4, mask, page_index as int),
        frame_of(next_table(leaf_of(old(mem)@, pml4, mask, page_index as int), mask)) < old(phys)@.len(),
        old(phys)@[frame_of(next_table(leaf_of(old(mem)@, pml4, mask, page_index as int), mask))]
            != PageUse::Free,
    ensures
        final(phys).wf(),
        final(mem)@ == old(mem)@.update(
            slot(pt_of(old(mem)@, pml4, mask, page_index as int), l1_index(page_index as int)),
            0,
        ),
        final(phys)@ == old(phys)@.update(
            frame_of(next_table(leaf_of(old(mem)@, pml4, mask, page_index as int), mask)),
            PageUse::Free,
        ),
        final(phys).search_index() == old(phys).search_index(),
{
    let addr = remove_page(mem, page_index, pml4, mask);
    let total = phys.len();
    assert((addr / 4096) < total);
    phys.free_page((addr / 4096) as usize);
}

/// A page table the allocator knows as in use, lying in `mem`.
pub open spec fn table_ok(mem: Seq<u64>, phys: Seq<PageUse>, t: u64) -> bool {
    &&& t % 4096 == 0
    &&& frame_of(t) < phys.len()
    &&& phys[frame_of(t)] != PageUse::Free
    &&& table_in(mem, t)
}

/// Frame addresses below `n` pages pass through `mask` unchanged, and
/// `mask` keeps no bit below bit 12.
pub open spec fn mask_ok(mask: u64, n: int) -> bool {
    &&& mask & 0xFFF == 0
    &&& forall|a: u64| a % 4096 == 0 && a < n * 4096 ==> #[trigger] (a & mask) == a
}

/// How many tables must be created to reach the page table of page `p`.
pub open spec fn missing_tables(mem: Seq<u64>, pml4: u64, mask: u64, p: int) -> int {
    if !present(word(mem, pml4, l4_index(p))) {
        3
    } else if !present(word(mem, pdpt_of(mem, pml4, mask, p), l3_index(p))) {
        2
    } else if !present(word(mem, pd_of(mem, pml4, mask, p), l2_index(p))) {
        1
    } else {
        0
    }
}

/// The present tables on the path of page `p` are distinct, in use and in
/// `mem`, and when the path is complete the page itself is not mapped.
pub open spec fn path_ok(mem: Seq<u64>, phys: Seq<PageUse>, pml4: u64, mask: u64, p: int) -> bool {
    let e4 = word(mem, pml4, l4_index(p));
    let t3 = pdpt_of(mem, pml4, mask, p);
    let e3 = word(mem, t3, l3_index(p));
    let t2 = pd_of(mem, pml4, mask, p);
    let e2 = word(mem, t2, l2_index(p));
    let t1 = pt_of(mem, pml4, mask, p);
    &&& table_ok(mem, phys, pml4)
    &&& present(e4) ==> table_ok(mem, phys, t3) && t3 != pml4
    &&& present(e4) && present(e3) ==> table_ok(mem, phys, t2) && t2 != pml4 && t2 != t3
    &&& present(e4) && present(e3) && present(e2) ==> {
        &&& table_ok(mem, phys, t1)
        &&& t1 != pml4 && t1 != t3 && t1 != t2
        &&& !present(word(mem, t1, l1_index(p)))
    }
}

/// The four tables on the path of page `p` are in use and lie in `mem`.
pub open spec fn path_tables_used(mem: Seq<u64>, phys: Seq<PageUse>, pml4: u64, mask: u64, p: int) -> bool {
    &&& table_ok(mem, phys, pml4)
    &&& table_ok(mem, phys, pdpt_of(mem, pml4, mask, p))
    &&& table_ok(mem, phys, pd_of(mem, pml4, mask, p))
    &&& table_ok(mem, phys, pt_of(mem, pml4, mask, p))
}

/// The PML4, PDPT, page directory and page table on the path of page `p`
/// are four different tables.
pub open spec fn path_distinct(mem: Seq<u64>, pml4: u64, mask: u64, p: int) -> bool {
    let t3 = pdpt_of(mem, pml4, mask, p);
    let t2 = pd_of(mem, pml4, mask, p);
    let t1 = pt_of(mem, pml4, mask, p);
    &&& t3 != pml4
    &&& t2 != pml4
    &&& t2 != t3
    &&& t1 != pml4
    &&& t1 != t3
    &&& t1 != t2
}

/// The entries leading to the table of level `l` on the path of page `q`
/// (3: the PDPT, 2: the page directory, 1: the page table) are present.
pub open spec fn reaches(mem: Seq<u64>, pml4: u64, mask: u64, q: int, l: int) -> bool {
    &&& present(word(mem, pml4, l4_index(q)))
    &&& l <= 2 ==> present(word(mem, pdpt_of(mem, pml4, mask, q), l3_index(q)))
    &&& l <= 1 ==> present(word(mem, pd_of(mem, pml4, mask, q), l2_index(q)))
}

/// The table of level `l` on the path of page `q`.
pub open spec fn table_at(mem: Seq<u64>, pml4: u64, mask: u64, q: int, l: int) -> u64 {
    if l >= 3 {
        pdpt_of(mem, pml4, mask, q)
    } else if l == 2 {
        pd_of(mem, pml4, mask, q)
    } else {
        pt_of(mem, pml4, mask, q)
    }
}

/// Pages `p` and `q` go through the same entries down to the table of
/// level `l`.
pub open spec fn same_prefix(p: int, q: int, l: int) -> bool {
    &&& l4_index(p) == l4_index(q)
    &&& l <= 2 ==> l3_index(p) == l3_index(q)
    &&& l <= 1 ==> l2_index(p) == l2_index(q)
}

/// The table of level `l` on the path of page `p` in `mem` is the one it
/// was in `mem0` when the path already reached it there, and otherwise a
/// page that was free in `phys0`.
pub open spec fn linked_table(mem0: Seq<u64>, mem: Seq<u64>, phys0: Seq<PageUse>, pml4: u64, mask: u64, p: int, l: int) -> bool {
    if reaches(mem0, pml4, mask, p, l) {
        table_at(mem, pml4, mask, p, l) == table_at(mem0, pml4, mask, p, l)
    } else {
        &&& 0 <= frame_of(table_at(mem, pml4, mask, p, l)) < phys0.len()
        &&& phys0[frame_of(table_at(mem, pml4, mask, p, l))] == PageUse::Free
    }
}

/// Each entry that mapping page `p` created on its path (where the path in
/// `mem0` did not reach the table below it) links that table with the
/// flags `entry_mask`.
pub open spec fn new_links(mem0: Seq<u64>, mem: Seq<u64>, pml4: u64, mask: u64, p: int, entry_mask: u64) -> bool {
    &&& !reaches(mem0, pml4, mask, p, 3) ==> word(mem, pml4, l4_index(p)) == pdpt_of(mem, pml4, mask, p) | entry_mask
    &&& !reaches(mem0, pml4, mask, p, 2) ==> word(mem, pdpt_of(mem, pml4, mask, p), l3_index(p)) == pd_of(
        mem,
        pml4,
        mask,
        p,
    ) | entry_mask
    &&& !reaches(mem0, pml4, mask, p, 1) ==> word(mem, pd_of(mem, pml4, mask, p), l2_index(p)) == pt_of(
        mem,
        pml4,
        mask,
        p,
    ) | entry_mask
}

/// The only pages whose use changed from `phys0` to `phys` hold the tables
/// that mapping page `p` created.
pub open spec fn tables_taken(
    mem0: Seq<u64>,
    mem: Seq<u64>,
    phys0: Seq<PageUse>,
    phys: Seq<PageUse>,
    pml4: u64,
    mask: u64,
    p: int,
) -> bool {
    forall|i: int|
        0 <= i < phys0.len() && #[trigger] phys[i] != phys0[i] ==> {
            ||| i == frame_of(pdpt_of(mem, pml4, mask, p)) && !reaches(mem0, pml4, mask, p, 3)
            ||| i == frame_of(pd_of(mem, pml4, mask, p)) && !reaches(mem0, pml4, mask, p, 2)
            ||| i == frame_of(pt_of(mem, pml4, mask, p)) && !reaches(mem0, pml4, mask, p, 1)
        }
}

/// The page map and search index after taking the table of level `l` on
/// the path of page `p` (as it is in `mem`) from page map `ph` with the
/// search at `i`: unchanged when the path in `mem0` already reached that
/// table, else the table's frame becomes used and the search stands at it.
pub open spec fn take_table(
    mem0: Seq<u64>,
    mem: Seq<u64>,
    pml4: u64,
    mask: u64,
    p: int,
    l: int,
    ph: Seq<PageUse>,
    i: int,
) -> (Seq<PageUse>, int) {
    if reaches(mem0, pml4, mask, p, l) {
        (ph, i)
    } else {
        let f = frame_of(table_at(mem, pml4, mask, p, l));
        (ph.update(f, PageUse::Used), f)
    }
}

/// A table of level `l` that mapping page `p` created is the first free
/// page of `ph`, cyclically from `i`.
pub open spec fn first_free_table(
    mem0: Seq<u64>,
    mem: Seq<u64>,
    pml4: u64,
    mask: u64,
    p: int,
    l: int,
    ph: Seq<PageUse>,
    i: int,
) -> bool {
    !reaches(mem0, pml4, mask, p, l) ==> first_free_cyclic(ph, i, frame_of(table_at(mem, pml4, mask, p, l)))
}

/// Mapping page `p` took the tables it created in turn (PDPT, page
/// directory, page table), each the first free page, cyclically, from
/// where the search stood, and the search moved to it: from page map `ph0`
/// with the search at `i0` to `ph` with the search at `i`.
pub open spec fn taken_in_turn(
    mem0: Seq<u64>,
    mem: Seq<u64>,
    pml4: u64,
    mask: u64,
    p: int,
    ph0: Seq<PageUse>,
    i0: int,
    ph: Seq<PageUse>,
    i: int,
) -> bool {
    let s1 = take_table(mem0, mem, pml4, mask, p, 3, ph0, i0);
    let s2 = take_table(mem0, mem, pml4, mask, p, 2, s1.0, s1.1);
    let s3 = take_table(mem0, mem, pml4, mask, p, 1, s2.0, s2.1);
    &&& first_free_table(mem0, mem, pml4, mask, p, 3, ph0, i0)
    &&& first_free_table(mem0, mem, pml4, mask, p, 2, s1.0, s1.1)
    &&& first_free_table(mem0, mem, pml4, mask, p, 1, s2.0, s2.1)
    &&& ph == s3.0
    &&& i == s3.1
}

/// `mem` with physical page `i` zeroed.
pub open spec fn zeroed(mem: Seq<u64>, i: int) -> Seq<u64> {
    Seq::new(mem.len(), |w: int| if w / 512 == i { 0u64 } else { mem[w] })
}

pub(crate) proof fn lemma_slot_page(t: u64, idx: int)
    requires
        t % 4096 == 0,
        0 <= idx < 512,
    ensures
        slot(t, idx) / 512 == frame_of(t),
{
    let m = t / 4096;
    vstd::arithmetic::div_mod::lemma_fundamental_div_mod(t as int, 4096);
    assert(t as int / 8 == m * 512);
    vstd::arithmetic::div_mod::lemma_fundamental_div_mod_converse(slot(t, idx), 512, m as int, idx);
}

pub(crate) proof fn lemma_entry_bits(a: u64, em: u64, mask: u64)
    requires
        a & mask == a,
        em & mask == 0,
        em & 1 == 1,
    ensures
        (a | em) & mask == a,
        (a | em) & 1 != 0,
{
    assert((a | em) & mask == a) by (bit_vector)
        requires a & mask == a, em & mask == 0;
    assert((a | em) & 1 != 0) by (bit_vector)
        requires em & 1 == 1;
}

/// Returns the table that entry `idx` of `table` points to, first creating
/// it in a zeroed free page when the entry is not present.
fn ensure_child(
    mem: &mut [u64],
    phys: &mut PhysPageMap,
    table: u64,
    idx: u64,
    mask: u64,
    entry_mask: u64,
) -> (child: u64)
    requires
        old(phys).wf(),
        old(mem)@.len() >= old(phys)@.len() * 512,
        table_ok(old(mem)@, old(phys)@, table),
        idx < 512,
        mask_ok(mask, old(phys)@.len() as int),
        entry_mask & mask == 0,
        entry_mask & 1 == 1,
        present(word(old(mem)@, table, idx as int)) ==> table_ok(
            old(mem)@,
            old(phys)@,
            next_table(word(old(mem)@, table, idx as int), mask),
        ) && next_table(word(old(mem)@, table, idx as int), mask) != table,
        !present(word(old(mem)@, table, idx as int)) ==> count_use(old(phys)@, PageUse::Free) >= 1,
    ensures
        final(phys).wf(),
        final(mem)@.len() == old(mem)@.len(),
        final(phys)@.len() == old(phys)@.len(),
        present(word(final(mem)@, table, idx as int)),
        next_table(word(final(mem)@, table, idx as int), mask) == child,
        table_ok(final(mem)@, final(phys)@, child),
        table_ok(final(mem)@, final(phys)@, table),
        child != table,
        present(word(old(mem)@, table, idx as int)) ==> {
            &&& child == next_table(word(old(mem)@, table, idx as int), mask)
            &&& final(mem)@ == old(mem)@
            &&& final(phys)@ == old(phys)@
            &&& final(phys).search_index() == old(phys).search_index()
        },
        !present(word(old(mem)@, table, idx as int)) ==> {
            &&& first_free_cyclic(old(phys)@, old(phys).search_index(), frame_of(child))
            &&& final(phys).search_index() == frame_of(child)
            &&& old(phys)@[frame_of(child)] == PageUse::Free
            &&& final(phys)@ == old(phys)@.update(frame_of(child), PageUse::Used)
            &&& final(mem)@ == zeroed(old(mem)@, frame_of(child)).update(
                slot(table, idx as int),
                child | entry_mask,
            )
            &&& count_use(final(phys)@, PageUse::Free) == count_use(old(phys)@, PageUse::Free) - 1
        },
{
    let e = read_entry(mem, table, idx);
    if e & 1 != 0 {
        return e & mask;
    }
    let ghost old_mem = mem@;
    let ghost old_phys = phys@;
    match phys.allocate_page_addr(mem, true) {
        Some(addr) => {
            let ghost i: int = frame_of(addr);
            proof {
                let j = choose|j: int|
                    #![trigger old_phys[j]]
                    {
                        &&& addr == j * 4096
                        &&& super::phy::first_free_cyclic(old_phys, old(phys).search_index(), j)
                        &&& phys@ == old_phys.update(j, PageUse::Used)
                        &&& phys.search_index() == j
                        &&& super::phy::pages_written(old_mem, mem@, j, 1, true)
                    };
                lemma_page_addr(j);
                assert(i == j);
                assert(mem@ =~= zeroed(old_mem, i)) by {
                    assert forall|w: int| 0 <= w < mem@.len() implies #[trigger] mem@[w] == zeroed(old_mem, i)[w] by {
                        if w / 512 == i {
                            assert(super::page_zeroed(mem@, i));
                            assert(i * 512 <= w < i * 512 + 512);
                        } else {
                            assert(!(i * 512 <= w < (i + 1) * 512));
                        }
                    }
                }
                lemma_count_update(old_phys, i, PageUse::Used, PageUse::Free);
                assert(addr & mask == addr);
                lemma_entry_bits(addr, entry_mask, mask);
                lemma_slot_page(table, idx as int);
                assert(i != frame_of(table));
                assert(table_in(mem@, addr)) by {
                    assert(addr as int / 8 + 512 == (i + 1) * 512);
                    assert((i + 1) * 512 <= old_phys.len() * 512) by (nonlinear_arith)
                        requires i + 1 <= old_phys.len();
                }
            }
            let n = mem.len();
            mem[(table / 8 + idx) as usize] = addr | entry_mask;
            addr
        },
        None => {
            proof {
                lemma_no_free_count(old_phys);
            }
            0
        },
    }
}

/// Between `ph0` and `ph1` pages only went from free to used.
pub open spec fn only_taken(ph0: Seq<PageUse>, ph1: Seq<PageUse>) -> bool {
    &&& ph1.len() == ph0.len()
    &&& forall|i: int|
        0 <= i < ph0.len() ==> #[trigger] ph1[i] == ph0[i] || (ph0[i] == PageUse::Free && ph1[i]
            == PageUse::Used)
}

/// Word `w` lies in a page that was free in `ph0` and is used in `ph1`.
pub open spec fn in_taken_page(ph0: Seq<PageUse>, ph1: Seq<PageUse>, w: int) -> bool {
    &&& 0 <= w / 512 < ph0.len()
    &&& ph0[w / 512] == PageUse::Free
    &&& ph1[w / 512] == PageUse::Used
}

/// From `m0` to `m1` only the words in `slots` and words of newly taken
/// pages changed, and the newly taken pages are zero outside `slots`.
pub open spec fn changed_within(
    m0: Seq<u64>,
    m1: Seq<u64>,
    ph0: Seq<PageUse>,
    ph1: Seq<PageUse>,
    slots: Set<int>,
) -> bool {
    &&& m1.len() == m0.len()
    &&& forall|w: int|
        0 <= w < m0.len() && #[trigger] m1[w] != m0[w] ==> slots.contains(w) || in_taken_page(
            ph0,
            ph1,
            w,
        )
    &&& forall|w: int|
        0 <= w < m0.len() && #[trigger] in_taken_page(ph0, ph1, w) && !slots.contains(w) ==> m1[w]
            == 0
    &&& forall|w: int|
        0 <= w < m0.len() && #[trigger] m1[w] != m0[w] && !in_taken_page(ph0, ph1, w) ==> !present(m0[w])
}

/// One call of `ensure_child`: nothing changed, or page `frame_of(child)`
/// was taken, zeroed and linked from `slot(table, idx)`.
spec fn child_step(
    m0: Seq<u64>,
    m1: Seq<u64>,
    ph0: Seq<PageUse>,
    ph1: Seq<PageUse>,
    table: u64,
    idx: int,
    child: u64,
    entry_mask: u64,
) -> bool {
    ||| m1 == m0 && ph1 == ph0
    ||| {
        &&& 0 <= frame_of(child) < ph0.len()
        &&& ph0[frame_of(child)] == PageUse::Free
        &&& 0 <= slot(table, idx) < m0.len()
        &&& !present(m0[slot(table, idx)])
        &&& ph1 == ph0.update(frame_of(child), PageUse::Used)
        &&& m1 == zeroed(m0, frame_of(child)).update(slot(table, idx), child | entry_mask)
    }
}

proof fn lemma_step_frame(
    m0: Seq<u64>,
    mk: Seq<u64>,
    mk1: Seq<u64>,
    ph0: Seq<PageUse>,
    phk: Seq<PageUse>,
    phk1: Seq<PageUse>,
    slots: Set<int>,
    table: u64,
    idx: int,
    child: u64,
    entry_mask: u64,
)
    requires
        changed_within(m0, mk, ph0, phk, slots),
        only_taken(ph0, phk),
        child_step(mk, mk1, phk, phk1, table, idx, child, entry_mask),
        0 <= slot(table, idx) < mk.len(),
    ensures
        changed_within(m0, mk1, ph0, phk1, slots.insert(slot(table, idx))),
        only_taken(ph0, phk1),
{
    let s2 = slots.insert(slot(table, idx));
    if mk1 == mk && phk1 == phk {
    } else {
        let n = frame_of(child);
        assert forall|w: int|
            0 <= w < m0.len() && #[trigger] mk1[w] != m0[w] implies s2.contains(w) || in_taken_page(ph0, phk1, w) by {
            if mk1[w] != mk[w] {
                if w != slot(table, idx) {
                    assert(w / 512 == n);
                    assert(phk[n] == PageUse::Free);
                    assert(ph0[n] == PageUse::Free);
                }
            } else {
                if !slots.contains(w) {
                    assert(in_taken_page(ph0, phk, w));
                    assert(w / 512 != n);
                }
            }
        }
        assert forall|w: int|
            0 <= w < m0.len() && #[trigger] in_taken_page(ph0, phk1, w) && !s2.contains(w) implies mk1[w] == 0 by {
            if w / 512 != n {
                assert(in_taken_page(ph0, phk, w));
            }
        }
        assert forall|i: int| 0 <= i < ph0.len() implies #[trigger] phk1[i] == ph0[i] || (ph0[i]
            == PageUse::Free && phk1[i] == PageUse::Used) by {
            assert(phk[i] == ph0[i] || (ph0[i] == PageUse::Free && phk[i] == PageUse::Used));
        }
        assert forall|w: int|
            0 <= w < m0.len() && #[trigger] mk1[w] != m0[w] && !in_taken_page(ph0, phk1, w) implies !present(m0[w]) by {
            if mk[w] != m0[w] {
                if in_taken_page(ph0, phk, w) {
                    assert(phk1[w / 512] == PageUse::Used);
                }
            } else {
                if w / 512 == n {
                    assert(ph0[n] == PageUse::Free);
                } else {
                    assert(w == slot(table, idx));
                }
            }
        }
    }
}

/// A word of a page that is in use and is not `table`'s page survives one
/// `ensure_child` step.
proof fn lemma_step_keeps(
    m0: Seq<u64>,
    m1: Seq<u64>,
    ph0: Seq<PageUse>,
    ph1: Seq<PageUse>,
    table: u64,
    idx: int,
    child: u64,
    entry_mask: u64,
    t: u64,
    j: int,
)
    requires
        child_step(m0, m1, ph0, ph1, table, idx, child, entry_mask),
        table % 4096 == 0,
        0 <= idx < 512,
        t % 4096 == 0,
        0 <= j < 512,
        frame_of(t) != frame_of(table),
        frame_of(t) < ph0.len(),
        ph0[frame_of(t)] != PageUse::Free,
        slot(t, j) < m0.len(),
    ensures
        word(m1, t, j) == word(m0, t, j),
{
    lemma_slot_page(t, j);
    lemma_slot_page(table, idx);
    if !(m1 == m0 && ph1 == ph0) {
        assert(frame_of(t) != frame_of(child));
        assert(slot(t, j) != slot(table, idx));
        let z = zeroed(m0, frame_of(child));
        assert(z[slot(t, j)] == m0[slot(t, j)]);
        assert(m1 == z.update(slot(table, idx), child | entry_mask));
        assert(m1[slot(t, j)] == z[slot(t, j)]);
        assert(word(m1, t, j) == m1[slot(t, j)]);
    }
}

/// Maps linear page `linear_page_index` to `physical_page_addr` with the
/// flags `entry_mask`, creating each missing PDPT, page directory and page
/// table in a zeroed free physical page (entries linking them carry
/// `entry_mask` too); each is the first free page, cyclically, from where
/// the page map's search stands, and the search moves to it.
/// `entry_mask` holds flags only: the present bit set and no address bit,
/// as the kernel (3) and user (7) masks are; an entry without the present
/// bit would link nothing the walk follows, and one with address bits
/// would point elsewhere.
pub fn allocate_page(
    mem: &mut [u64],
    phys: &mut PhysPageMap,
    linear_page_index: u64,
    physical_page_addr: u64,
    pml4: u64,
    mask: u64,
    entry_mask: u64,
)
    requires
        old(phys).wf(),
        old(mem)@.len() >= old(phys)@.len() * 512,
        mask_ok(mask, old(phys)@.len() as int),
        entry_mask & mask == 0,
        entry_mask & 1 == 1,
        path_ok(old(mem)@, old(phys)@, pml4, mask, linear_page_index as int),
        count_use(old(phys)@, PageUse::Free) >= missing_tables(old(mem)@, pml4, mask, linear_page_index as int),
    ensures
        final(phys).wf(),
        mapped(final(mem)@, pml4, mask, linear_page_index as int),
        leaf_of(final(mem)@, pml4, mask, linear_page_index as int) == physical_page_addr | entry_mask,
        path_tables_used(final(mem)@, final(phys)@, pml4, mask, linear_page_index as int),
        path_distinct(final(mem)@, pml4, mask, linear_page_index as int),
        linked_table(old(mem)@, final(mem)@, old(phys)@, pml4, mask, linear_page_index as int, 3),
        linked_table(old(mem)@, final(mem)@, old(phys)@, pml4, mask, linear_page_index as int, 2),
        linked_table(old(mem)@, final(mem)@, old(phys)@, pml4, mask, linear_page_index as int, 1),
        new_links(old(mem)@, final(mem)@, pml4, mask, linear_page_index as int, entry_mask),
        tables_taken(old(mem)@, final(mem)@, old(phys)@, final(phys)@, pml4, mask, linear_page_index as int),
        taken_in_turn(
            old(mem)@,
            final(mem)@,
            pml4,
            mask,
            linear_page_index as int,
            old(phys)@,
            old(phys).search_index(),
            final(phys)@,
            final(phys).search_index(),
        ),
        count_use(final(phys)@, PageUse::Free) == count_use(old(phys)@, PageUse::Free) - missing_tables(
            old(mem)@,
            pml4,
            mask,
            linear_page_index as int,
        ),
        only_taken(old(phys)@, final(phys)@),
        changed_within(
            old(mem)@,
            final(mem)@,
            old(phys)@,
            final(phys)@,
            set![
                slot(pml4, l4_index(linear_page_index as int)),
                slot(pdpt_of(final(mem)@, pml4, mask, linear_page_index as int), l3_index(linear_page_index as int)),
                slot(pd_of(final(mem)@, pml4, mask, linear_page_index as int), l2_index(linear_page_index as int)),
                slot(pt_of(final(mem)@, pml4, mask, linear_page_index as int), l1_index(linear_page_index as int)),
            ],
        ),
{
    let ghost p: int = linear_page_index as int;
    let pml4i = (linear_page_index / 134217728) % 512;
    let pdpti = (linear_page_index / 262144) % 512;
    let pdi = (linear_page_index / 512) % 512;
    let pti = linear_page_index % 512;
    let ghost m0 = mem@;
    let ghost ph0 = phys@;
    let ghost i0 = phys.search_index();
    proof {
        assert(changed_within(m0, m0, ph0, ph0, Set::empty()));
    }

    let pdpt = ensure_child(mem, phys, pml4, pml4i, mask, entry_mask);
    let ghost m1 = mem@;
    let ghost ph1 = phys@;
    let ghost i1 = phys.search_index();
    proof {
        if present(word(m0, pml4, pml4i as int)) {
            assert(m1 == m0 && ph1 == ph0);
        } else {
            assert(0 <= frame_of(pdpt) < ph0.len());
            assert(ph0[frame_of(pdpt)] == PageUse::Free);
            assert(ph1 == ph0.update(frame_of(pdpt), PageUse::Used));
            assert(m1 == zeroed(m0, frame_of(pdpt)).update(slot(pml4, pml4i as int), pdpt | entry_mask));
        }
        assert(child_step(m0, m1, ph0, ph1, pml4, pml4i as int, pdpt, entry_mask));
        lemma_step_frame(m0, m0, m1, ph0, ph0, ph1, Set::empty(), pml4, pml4i as int, pdpt, entry_mask);
        lemma_slot_page(pml4, pml4i as int);
        lemma_slot_page(pdpt, pdpti as int);
        if !present(word(m0, pml4, pml4i as int)) {
            assert(word(m1, pdpt, pdpti as int) == 0);
            lemma_zero_absent();
        }
    }

    let pd = ensure_child(mem, phys, pdpt, pdpti, mask, entry_mask);
    let ghost m2 = mem@;
    let ghost ph2 = phys@;
    let ghost i2 = phys.search_index();
    proof {
        assert(child_step(m1, m2, ph1, ph2, pdpt, pdpti as int, pd, entry_mask));
        lemma_step_frame(m0, m1, m2, ph0, ph1, ph2, set![slot(pml4, pml4i as int)], pdpt, pdpti as int, pd, entry_mask);
        lemma_slot_page(pd, pdi as int);
        lemma_step_keeps(m1, m2, ph1, ph2, pdpt, pdpti as int, pd, entry_mask, pml4, pml4i as int);
        if !present(word(m1, pdpt, pdpti as int)) {
            assert(word(m2, pd, pdi as int) == 0);
            lemma_zero_absent();
        }
    }

    let pt = ensure_child(mem, phys, pd, pdi, mask, entry_mask);
    let ghost m3 = mem@;
    let ghost ph3 = phys@;
    let ghost i3 = phys.search_index();
    proof {
        assert(child_step(m2, m3, ph2, ph3, pd, pdi as int, pt, entry_mask));
        lemma_step_frame(
            m0,
            m2,
            m3,
            ph0,
            ph2,
            ph3,
            set![slot(pml4, pml4i as int), slot(pdpt, pdpti as int)],
            pd,
            pdi as int,
            pt,
            entry_mask,
        );
        lemma_slot_page(pt, pti as int);
        lemma_step_keeps(m2, m3, ph2, ph3, pd, pdi as int, pt, entry_mask, pml4, pml4i as int);
        lemma_step_keeps(m2, m3, ph2, ph3, pd, pdi as int, pt, entry_mask, pdpt, pdpti as int);
    }

    let n = mem.len();
    mem[(pt / 8 + pti) as usize] = physical_page_addr | entry_mask;
    proof {
        let m4 = mem@;
        lemma_slot_page(pt, pti as int);
        assert(word(m4, pml4, pml4i as int) == word(m3, pml4, pml4i as int));
        assert(word(m4, pdpt, pdpti as int) == word(m3, pdpt, pdpti as int));
        assert(word(m4, pd, pdi as int) == word(m3, pd, pdi as int));
        assert((physical_page_addr | entry_mask) & 1 != 0) by (bit_vector)
            requires entry_mask & 1 == 1;
        let slots = set![slot(pml4, pml4i as int), slot(pdpt, pdpti as int), slot(pd, pdi as int)];
        assert forall|w: int| 0 <= w < m0.len() && #[trigger] m4[w] != m0[w] implies slots.insert(
            slot(pt, pti as int),
        ).contains(w) || in_taken_page(ph0, ph3, w) by {
            if w != slot(pt, pti as int) {
                assert(m4[w] == m3[w]);
            }
        }
        let lw = slot(pt, pti as int);
        if !present(word(m2, pd, pdi as int)) {
            assert(ph2[frame_of(pt)] == PageUse::Free);
            assert(ph0[frame_of(pt)] == PageUse::Free);
            assert(in_taken_page(ph0, ph3, lw));
        } else {
            assert(present(word(m1, pdpt, pdpti as int)));
            assert(present(word(m0, pml4, pml4i as int)));
            assert(m1 == m0 && m2 == m1 && m3 == m2);
            assert(!present(m0[lw]));
        }
        assert forall|w: int|
            0 <= w < m0.len() && #[trigger] m4[w] != m0[w] && !in_taken_page(ph0, ph3, w) implies !present(m0[w]) by {
            if w != lw {
                assert(m4[w] == m3[w]);
            } else if m3[w] != m0[w] {
            } else {
            }
        }
        assert forall|w: int|
            0 <= w < m0.len() && #[trigger] in_taken_page(ph0, ph3, w) && !slots.insert(
                slot(pt, pti as int),
            ).contains(w) implies m4[w] == 0 by {
            assert(m4[w] == m3[w]);
        }
        assert(slots.insert(slot(pt, pti as int)) =~= set![
            slot(pml4, l4_index(p)),
            slot(pdpt_of(m4, pml4, mask, p), l3_index(p)),
            slot(pd_of(m4, pml4, mask, p), l2_index(p)),
            slot(pt_of(m4, pml4, mask, p), l1_index(p)),
        ]);
        assert(pdpt_of(m4, pml4, mask, p) == pdpt);
        assert(pd_of(m4, pml4, mask, p) == pd);
        assert(pt_of(m4, pml4, mask, p) == pt);
        assert(ph2[frame_of(pml4)] != PageUse::Free);
        if present(word(m0, pml4, pml4i as int)) {
            assert(pdpt == pdpt_of(m0, pml4, mask, p));
        } else {
            assert(ph1[frame_of(pdpt)] == PageUse::Used);
        }
        if present(word(m1, pdpt, pdpti as int)) {
            assert(present(word(m0, pml4, pml4i as int)));
            assert(pd == pd_of(m0, pml4, mask, p));
        } else {
            assert(ph1[frame_of(pd)] == PageUse::Free);
            assert(ph0[frame_of(pd)] == PageUse::Free);
        }
        if present(word(m2, pd, pdi as int)) {
            assert(present(word(m1, pdpt, pdpti as int)));
            assert(present(word(m0, pml4, pml4i as int)));
            assert(pt == pt_of(m0, pml4, mask, p));
        } else {
            assert(ph2[frame_of(pt)] == PageUse::Free);
            assert(ph1[frame_of(pt)] == PageUse::Free);
            assert(ph0[frame_of(pt)] == PageUse::Free);
        }
        if !present(word(m0, pml4, pml4i as int)) {
            assert(word(m1, pml4, pml4i as int) == pdpt | entry_mask);
        }
        if !present(word(m1, pdpt, pdpti as int)) {
            assert(word(m2, pdpt, pdpti as int) == pd | entry_mask);
        }
        if !present(word(m2, pd, pdi as int)) {
            assert(word(m3, pd, pdi as int) == pt | entry_mask);
        }
        assert(word(m4, pml4, pml4i as int) == word(m1, pml4, pml4i as int));
        assert(word(m4, pdpt, pdpti as int) == word(m2, pdpt, pdpti as int));
        assert(new_links(m0, m4, pml4, mask, p, entry_mask));
        assert(tables_taken(m0, m4, ph0, ph3, pml4, mask, p));
        assert(table_at(m4, pml4, mask, p, 3) == pdpt);
        assert(table_at(m4, pml4, mask, p, 2) == pd);
        assert(table_at(m4, pml4, mask, p, 1) == pt);
        assert(reaches(m0, pml4, mask, p, 3) == present(word(m0, pml4, pml4i as int)));
        assert(reaches(m0, pml4, mask, p, 2) == present(word(m1, pdpt, pdpti as int)));
        assert(reaches(m0, pml4, mask, p, 1) == present(word(m2, pd, pdi as int)));
        assert(take_table(m0, m4, pml4, mask, p, 3, ph0, i0) == (ph1, i1));
        assert(take_table(m0, m4, pml4, mask, p, 2, ph1, i1) == (ph2, i2));
        assert(take_table(m0, m4, pml4, mask, p, 1, ph2, i2) == (ph3, i3));
        assert(taken_in_turn(m0, m4, pml4, mask, p, ph0, i0, ph3, i3));
    }
}

/// Whether `t` is a table the allocator knows as in use, lying in `mem`.
pub(crate) fn table_ok_exec(mem: &[u64], phys: &PhysPageMap, t: u64) -> (b: bool)
    ensures
        b == table_ok(mem@, phys@, t),
{
    if t % 4096 != 0 {
        return false;
    }
    let n = phys.len();
    if (t / 4096) as u128 >= n as u128 {
        return false;
    }
    if phys.get((t / 4096) as usize) == PageUse::Free {
        return false;
    }
    table_fits(mem, t)
}

/// Whether `allocate_page` may map page `p`: the tables on its path are
/// distinct, in use and in `mem`, the page is not mapped yet, and enough
/// pages are free for the missing tables.
pub fn check_path(mem: &[u64], phys: &PhysPageMap, pml4: u64, mask: u64, p: u64) -> (b: bool)
    requires
        phys.wf(),
    ensures
        b == (path_ok(mem@, phys@, pml4, mask, p as int) && count_use(phys@, PageUse::Free) >= missing_tables(
            mem@,
            pml4,
            mask,
            p as int,
        )),
{
    let free = phys.free_count();
    if !table_ok_exec(mem, phys, pml4) {
        return false;
    }
    let e4 = read_entry(mem, pml4, (p / 134217728) % 512);
    if e4 & 1 == 0 {
        return free >= 3;
    }
    let t3 = e4 & mask;
    if !table_ok_exec(mem, phys, t3) || t3 == pml4 {
        return false;
    }
    let e3 = read_entry(mem, t3, (p / 262144) % 512);
    if e3 & 1 == 0 {
        return free >= 2;
    }
    let t2 = e3 & mask;
    if !table_ok_exec(mem, phys, t2) || t2 == pml4 || t2 == t3 {
        return false;
    }
    let e2 = read_entry(mem, t2, (p / 512) % 512);
    if e2 & 1 == 0 {
        return free >= 1;
    }
    let t1 = e2 & mask;
    if !table_ok_exec(mem, phys, t1) || t1 == pml4 || t1 == t3 || t1 == t2 {
        return false;
    }
    let e1 = read_entry(mem, t1, p % 512);
    e1 & 1 == 0
}

/// A mapped page whose path tables are in use stays mapped, through the
/// same entries, across a change that only wrote non-present entries of
/// pages in use and pages newly taken.
pub proof fn lemma_path_kept(
    m: Seq<u64>,
    m2: Seq<u64>,
    ph: Seq<PageUse>,
    ph2: Seq<PageUse>,
    slots: Set<int>,
    pml4: u64,
    mask: u64,
    k: int,
)
    requires
        changed_within(m, m2, ph, ph2, slots),
        only_taken(ph, ph2),
        mapped(m, pml4, mask, k),
        path_tables_used(m, ph, pml4, mask, k),
    ensures
        mapped(m2, pml4, mask, k),
        path_tables_used(m2, ph2, pml4, mask, k),
        leaf_of(m2, pml4, mask, k) == leaf_of(m, pml4, mask, k),
        pt_of(m2, pml4, mask, k) == pt_of(m, pml4, mask, k),
        pd_of(m2, pml4, mask, k) == pd_of(m, pml4, mask, k),
        pdpt_of(m2, pml4, mask, k) == pdpt_of(m, pml4, mask, k),
{
    let t3 = pdpt_of(m, pml4, mask, k);
    let t2 = pd_of(m, pml4, mask, k);
    let t1 = pt_of(m, pml4, mask, k);
    assert forall|t: u64, j: int|
        table_ok(m, ph, t) && 0 <= j < 512 && present(#[trigger] word(m, t, j)) implies word(m2, t, j) == word(m, t, j)
        && table_ok(m2, ph2, t) by {
        lemma_slot_page(t, j);
        let w = slot(t, j);
        assert(!in_taken_page(ph, ph2, w));
        assert(ph2[frame_of(t)] == ph[frame_of(t)] || (ph[frame_of(t)] == PageUse::Free && ph2[frame_of(t)]
            == PageUse::Used));
    }
    vstd::arithmetic::div_mod::lemma_mod_bound(k / 134217728, 512);
    vstd::arithmetic::div_mod::lemma_mod_bound(k / 262144, 512);
    vstd::arithmetic::div_mod::lemma_mod_bound(k / 512, 512);
    vstd::arithmetic::div_mod::lemma_mod_bound(k, 512);
    assert(word(m2, pml4, l4_index(k)) == word(m, pml4, l4_index(k)));
    assert(word(m2, t3, l3_index(k)) == word(m, t3, l3_index(k)));
    assert(word(m2, t2, l2_index(k)) == word(m, t2, l2_index(k)));
    assert(word(m2, t1, l1_index(k)) == word(m, t1, l1_index(k)));
}

/// Taking free page `i` and zeroing it only changes words of that page.
pub proof fn lemma_zero_step(m: Seq<u64>, m2: Seq<u64>, ph: Seq<PageUse>, i: int)
    requires
        0 <= i < ph.len(),
        ph[i] == PageUse::Free,
        super::phy::pages_written(m, m2, i, 1, true),
    ensures
        changed_within(m, m2, ph, ph.update(i, PageUse::Used), Set::empty()),
        only_taken(ph, ph.update(i, PageUse::Used)),
{
    let ph2 = ph.update(i, PageUse::Used);
    assert forall|w: int| 0 <= w < m.len() && #[trigger] m2[w] != m[w] implies Set::<int>::empty().contains(w)
        || in_taken_page(ph, ph2, w) by {
        assert(i * 512 <= w < (i + 1) * 512);
        assert(w / 512 == i);
    }
    assert forall|w: int|
        0 <= w < m.len() && #[trigger] in_taken_page(ph, ph2, w) && !Set::<int>::empty().contains(w) implies m2[w]
            == 0 by {
        assert(w / 512 == i);
        assert(super::page_zeroed(m2, i));
        assert(i * 512 <= w < i * 512 + 512);
    }
    assert forall|w: int|
        0 <= w < m.len() && #[trigger] m2[w] != m[w] && !in_taken_page(ph, ph2, w) implies !present(m[w]) by {
        assert(i * 512 <= w < (i + 1) * 512);
        assert(w / 512 == i);
    }
}

/// The canonical 48-bit address of linear page `s`: bits 12..48 from the
/// page index, bit 47 copied into bits 48..64.
pub open spec fn canonical(s: int) -> int {
    if s < 34359738368 {
        s * 4096
    } else {
        s * 4096 + 0xFFFF_0000_0000_0000
    }
}

/// The canonical address of linear page `lin_page`.
pub fn canonical_address(lin_page: u64) -> (r: u64)
    requires
        lin_page < 68719476736,
    ensures
        r == canonical(lin_page as int),
{
    if lin_page < 34359738368 {
        lin_page * 4096
    } else {
        lin_page * 4096 + 0xFFFF_0000_0000_0000
    }
}

/// Page `p` is mapped to a physical page that is in the allocator's range
/// and not free: what `free_page` needs.
pub open spec fn frame_in_use(mem: Seq<u64>, phys: Seq<PageUse>, pml4: u64, mask: u64, p: int) -> bool {
    &&& mapped(mem, pml4, mask, p)
    &&& frame_of(next_table(leaf_of(mem, pml4, mask, p), mask)) < phys.len()
    &&& phys[frame_of(next_table(leaf_of(mem, pml4, mask, p), mask))] != PageUse::Free
}

/// Whether page `p` is mapped to a physical page that is in the
/// allocator's range and not free: what `free_page` needs.
pub fn check_mapped(mem: &[u64], phys: &PhysPageMap, pml4: u64, mask: u64, p: u64) -> (b: bool)
    ensures
        b == frame_in_use(mem@, phys@, pml4, mask, p as int),
{
    if !table_fits(mem, pml4) {
        return false;
    }
    let e4 = read_entry(mem, pml4, (p / 134217728) % 512);
    if e4 & 1 == 0 {
        return false;
    }
    let t3 = e4 & mask;
    if !table_fits(mem, t3) {
        return false;
    }
    let e3 = read_entry(mem, t3, (p / 262144) % 512);
    if e3 & 1 == 0 {
        return false;
    }
    let t2 = e3 & mask;
    if !table_fits(mem, t2) {
        return false;
    }
    let e2 = read_entry(mem, t2, (p / 512) % 512);
    if e2 & 1 == 0 {
        return false;
    }
    let t1 = e2 & mask;
    if !table_fits(mem, t1) {
        return false;
    }
    let e1 = read_entry(mem, t1, p % 512);
    if e1 & 1 == 0 {
        return false;
    }
    let f = (e1 & mask) / 4096;
    let n = phys.len();
    if f as u128 >= n as u128 {
        return false;
    }
    phys.get(f as usize) != PageUse::Free
}

/// Writing zero to one word never maps a page that was not mapped, and
/// unmaps page `p` when the word is its page-table entry.
pub proof fn lemma_zero_write_unmaps(m: Seq<u64>, w: int, pml4: u64, mask: u64, q: int)
    requires
        0 <= w < m.len(),
        mapped(m.update(w, 0), pml4, mask, q),
    ensures
        mapped(m, pml4, mask, q),
        slot(pt_of(m, pml4, mask, q), l1_index(q)) != w,
{
    let m2 = m.update(w, 0);
    lemma_zero_absent();
    vstd::arithmetic::div_mod::lemma_mod_bound(q / 134217728, 512);
    vstd::arithmetic::div_mod::lemma_mod_bound(q / 262144, 512);
    vstd::arithmetic::div_mod::lemma_mod_bound(q / 512, 512);
    vstd::arithmetic::div_mod::lemma_mod_bound(q, 512);
    assert(slot(pml4, l4_index(q)) != w);
    assert(word(m2, pml4, l4_index(q)) == word(m, pml4, l4_index(q)));
    let t3 = pdpt_of(m, pml4, mask, q);
    assert(slot(t3, l3_index(q)) != w);
    assert(word(m2, t3, l3_index(q)) == word(m, t3, l3_index(q)));
    let t2 = pd_of(m, pml4, mask, q);
    assert(slot(t2, l2_index(q)) != w);
    assert(word(m2, t2, l2_index(q)) == word(m, t2, l2_index(q)));
    let t1 = pt_of(m, pml4, mask, q);
    assert(slot(t1, l1_index(q)) != w);
    assert(word(m2, t1, l1_index(q)) == word(m, t1, l1_index(q)));
}

/// The physical page that the entry of mapped page `p` points to.
pub fn leaf_frame(mem: &[u64], pml4: u64, mask: u64, p: u64) -> (f: usize)
    requires
        mapped(mem@, pml4, mask, p as int),
        frame_of(next_table(leaf_of(mem@, pml4, mask, p as int), mask)) <= usize::MAX,
    ensures
        f == frame_of(next_table(leaf_of(mem@, pml4, mask, p as int), mask)),
{
    let e4 = read_entry(mem, pml4, (p / 134217728) % 512);
    let t3 = e4 & mask;
    let e3 = read_entry(mem, t3, (p / 262144) % 512);
    let t2 = e3 & mask;
    let e2 = read_entry(mem, t2, (p / 512) % 512);
    let t1 = e2 & mask;
    let e1 = read_entry(mem, t1, p % 512);
    ((e1 & mask) / 4096) as usize
}

/// Whether page `p` is mapped.
pub fn is_mapped(mem: &[u64], pml4: u64, mask: u64, p: u64) -> (b: bool)
    ensures
        b == mapped(mem@, pml4, mask, p as int),
{
    if !table_fits(mem, pml4) {
        return false;
    }
    let e4 = read_entry(mem, pml4, (p / 134217728) % 512);
    if e4 & 1 == 0 {
        return false;
    }
    let t3 = e4 & mask;
    if !table_fits(mem, t3) {
        return false;
    }
    let e3 = read_entry(mem, t3, (p / 262144) % 512);
    if e3 & 1 == 0 {
        return false;
    }
    let t2 = e3 & mask;
    if !table_fits(mem, t2) {
        return false;
    }
    let e2 = read_entry(mem, t2, (p / 512) % 512);
    if e2 & 1 == 0 {
        return false;
    }
    let t1 = e2 & mask;
    if !table_fits(mem, t1) {
        return false;
    }
    let e1 = read_entry(mem, t1, p % 512);
    e1 & 1 != 0
}

} // verus!
