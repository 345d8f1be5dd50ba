//! Reserved ranges of physical pages, kept sorted by first page, from
//! which memory-mapped I/O windows are handed out.

use vstd::prelude::*;
use crate::mem::MemPageBuffer;
use super::init::{UEFIMemData, MemDescriptor};
use super::{Pager, PagingType};
use super::PageUse;
use super::level4::{
    allocate_page, canonical, canonical_address, check_path, get_lin_hole, is_mapped, leaf_of,
    lemma_path_kept, lemma_zero_write_unmaps, lin_hole, mapped, only_taken, path_tables_used, remove_page,
};
use super::free::{leaf_slot, lemma_leaf_slot_in, lemma_walk_unwritten, reads_slot};
use super::level4::{half_start, walk_readable};
use super::mappable::{lemma_mappable_map, map_step, mappable};
use super::phy::count_use;

verus! {

/// The first page after `b`.
pub open spec fn buf_end(b: MemPageBuffer) -> int {
    b.start + b.pages
}

/// Page `p` lies in `b`.
pub open spec fn buf_has(b: MemPageBuffer, p: int) -> bool {
    b.start <= p < buf_end(b)
}

/// The pages that the buffers of `s` cover.
pub open spec fn covered(s: Seq<MemPageBuffer>) -> Set<int> {
    Set::new(|p: int| exists|i: int| 0 <= i < s.len() && #[trigger] buf_has(s[i], p))
}

/// Buffers are non-empty, fit in a `usize` and have strictly increasing
/// first pages.
pub open spec fn sorted_starts(s: Seq<MemPageBuffer>) -> bool {
    &&& forall|i: int| 0 <= i < s.len() ==> #[trigger] s[i].pages >= 1 && buf_end(s[i]) * 4096 <= usize::MAX
    &&& forall|i: int, j: int| 0 <= i < j < s.len() ==> #[trigger] s[i].start < #[trigger] s[j].start
}

/// Sorted, and each buffer ends no later than the next one starts.
pub open spec fn disjoint_sorted(s: Seq<MemPageBuffer>) -> bool {
    &&& sorted_starts(s)
    &&& forall|i: int, j: int| 0 <= i < j < s.len() ==> buf_end(#[trigger] s[i]) <= #[trigger] s[j].start
}

/// Sorted, with at least one page between each buffer and the next.
pub open spec fn separated(s: Seq<MemPageBuffer>) -> bool {
    &&& sorted_starts(s)
    &&& forall|i: int, j: int| 0 <= i < j < s.len() ==> buf_end(#[trigger] s[i]) < #[trigger] s[j].start
}

/// A descriptor of the memory map reaches past the end of RAM.
pub open spec fn beyond_ram(d: MemDescriptor, total_pages: int) -> bool {
    d.physical_start as int / 4096 + d.number_of_pages > total_pages
}

/// The pages of the descriptors in `descs` that reach past RAM.
pub open spec fn io_pages(descs: Seq<MemDescriptor>, total_pages: int) -> Set<int> {
    Set::new(
        |p: int|
            exists|i: int|
                0 <= i < descs.len() && beyond_ram(#[trigger] descs[i], total_pages) && descs[i].physical_start
                    as int / 4096 <= p < descs[i].physical_start as int / 4096 + descs[i].number_of_pages,
    )
}

/// Where a search for `key` among the strictly increasing `keys` lands:
/// `Ok(i)` when `keys[i] == key`, otherwise `Err(i)` with `i` the number of
/// keys below `key`.
pub open spec fn search_result(keys: Seq<int>, key: int, r: Result<usize, usize>) -> bool {
    match r {
        Ok(i) => i < keys.len() && keys[i as int] == key,
        Err(i) => {
            &&& i <= keys.len()
            &&& forall|j: int| 0 <= j < i ==> keys[j] < key
            &&& forall|j: int| i <= j < keys.len() ==> keys[j] > key
        },
    }
}

/// The first pages of the buffers.
pub open spec fn starts(s: Seq<MemPageBuffer>) -> Seq<int> {
    Seq::new(s.len(), |i: int| s[i].start as int)
}

/// The last pages of the buffers.
pub open spec fn last_pages(s: Seq<MemPageBuffer>) -> Seq<int> {
    Seq::new(s.len(), |i: int| buf_end(s[i]) - 1)
}

/// The first buffer that fits `pages` pages: scanning the gaps before each
/// buffer from `prev_end` on, the position and first page of the gap that
/// holds them; after the last buffer the run must end below `limit`.
pub open spec fn first_fit(s: Seq<MemPageBuffer>, pages: int, limit: int, prev_end: int, i: int) -> Option<
    (int, int),
>
    decreases s.len() - i,
{
    if i >= s.len() {
        if prev_end + pages < limit {
            Some((s.len() as int, prev_end))
        } else {
            None
        }
    } else if prev_end + pages <= s[i].start {
        Some((i, prev_end))
    } else {
        first_fit(s, pages, limit, buf_end(s[i]), i + 1)
    }
}

/// What releasing the range that starts at page `key` does, from `s1` to
/// `s2`, returning `r`: the range is dropped and its length returned, or,
/// when no range starts there, nothing changes.
pub open spec fn released(s1: Seq<MemPageBuffer>, key: usize, r: Option<usize>, s2: Seq<MemPageBuffer>) -> bool {
    match r {
        Some(n) => exists|i: int|
            0 <= i < s1.len() && #[trigger] s1[i].start == key && n == s1[i].pages && s2 == s1.remove(i),
        None => s2 == s1 && forall|i: int| 0 <= i < s1.len() ==> #[trigger] s1[i].start != key,
    }
}

/// Releasing the range that a reservation just inserted at position `i`
/// gives back its length and the ranges as they were before.
pub proof fn lemma_reserve_release(
    s0: Seq<MemPageBuffer>,
    i: int,
    b: MemPageBuffer,
    r: Option<usize>,
    s2: Seq<MemPageBuffer>,
)
    requires
        0 <= i <= s0.len(),
        disjoint_sorted(s0.insert(i, b)),
        released(s0.insert(i, b), b.start, r, s2),
    ensures
        r == Some(b.pages),
        s2 == s0,
{
    let s1 = s0.insert(i, b);
    assert(s1[i] == b);
    match r {
        Some(n) => {
            let j = choose|j: int| 0 <= j < s1.len() && #[trigger] s1[j].start == b.start && n == s1[j].pages && s2 == s1.remove(j);
            if j < i {
                assert(s1[j].start < s1[i].start);
            } else if j > i {
                assert(s1[i].start < s1[j].start);
            }
            assert(s1.remove(i) =~= s0);
        },
        None => {
            assert(s1[i].start != b.start);
        },
    }
}

/// Ranges of physical pages that are reserved: RAM and the I/O windows
/// handed out so far.
pub struct PhysRanges {
    bufs: Vec<MemPageBuffer>,
}

impl View for PhysRanges {
    type V = Seq<MemPageBuffer>;

    closed spec fn view(&self) -> Seq<MemPageBuffer> {
        self.bufs@
    }
}

/// Searches the strictly increasing first pages of `v` for `key`.
fn search_start(v: &Vec<MemPageBuffer>, key: usize) -> (r: Result<usize, usize>)
    requires
        sorted_starts(v@),
    ensures
        search_result(starts(v@), key as int, r),
{
    let mut lo: usize = 0;
    let mut hi: usize = v.len();
    while lo < hi
        invariant
            0 <= lo <= hi <= v@.len(),
            sorted_starts(v@),
            forall|j: int| 0 <= j < lo ==> v@[j].start < key,
            forall|j: int| hi <= j < v@.len() ==> v@[j].start > key,
        decreases hi - lo,
    {
        let mid = lo + (hi - lo) / 2;
        let s = v[mid].start;
        if s == key {
            return Ok(mid);
        } else if s < key {
            lo = mid + 1;
        } else {
            hi = mid;
        }
    }
    Err(lo)
}

/// Searches the last pages of the disjoint buffers of `v` for `key`.
fn search_last_page(v: &Vec<MemPageBuffer>, key: usize) -> (r: Result<usize, usize>)
    requires
        disjoint_sorted(v@),
    ensures
        search_result(last_pages(v@), key as int, r),
{
    let mut lo: usize = 0;
    let mut hi: usize = v.len();
    while lo < hi
        invariant
            0 <= lo <= hi <= v@.len(),
            disjoint_sorted(v@),
            forall|j: int| 0 <= j < lo ==> buf_end(v@[j]) - 1 < key,
            forall|j: int| hi <= j < v@.len() ==> buf_end(v@[j]) - 1 > key,
        decreases hi - lo,
    {
        let mid = lo + (hi - lo) / 2;
        let b = v[mid];
        let last = b.start + b.pages - 1;
        if last == key {
            return Ok(mid);
        } else if last < key {
            assert forall|j: int| 0 <= j < mid + 1 implies buf_end(v@[j]) - 1 < key by {
                if j < mid {
                    assert(buf_end(v@[j]) <= v@[mid as int].start);
                }
            }
            lo = mid + 1;
        } else {
            assert forall|j: int| mid <= j < v@.len() implies buf_end(v@[j]) - 1 > key by {
                if j > mid {
                    assert(buf_end(v@[mid as int]) <= v@[j].start);
                }
            }
            hi = mid;
        }
    }
    Err(lo)
}

proof fn lemma_shl_page(x: usize)
    ensures
        x << 12usize == (x * 4096) as usize,
{
    assert(x << 12usize == (x * 4096) as usize) by (bit_vector);
}

/// Inserting a buffer that fits between its neighbours keeps the buffers
/// disjoint and sorted and adds its pages to the covered ones.
proof fn lemma_insert_disjoint(s: Seq<MemPageBuffer>, i: int, b: MemPageBuffer)
    requires
        disjoint_sorted(s),
        0 <= i <= s.len(),
        b.pages >= 1,
        buf_end(b) * 4096 <= usize::MAX,
        i > 0 ==> buf_end(s[i - 1]) <= b.start,
        i < s.len() ==> buf_end(b) <= s[i].start,
    ensures
        disjoint_sorted(s.insert(i, b)),
        covered(s.insert(i, b)) == covered(s).union(Set::new(|q: int| b.start <= q < buf_end(b))),
{
    let t = s.insert(i, b);
    assert forall|a: int, c: int| 0 <= a < c < t.len() implies buf_end(#[trigger] t[a]) <= #[trigger] t[c].start
        && t[a].start < t[c].start by {
        if c < i {
        } else if c == i {
            if a < i - 1 {
                assert(buf_end(s[a]) <= s[i - 1].start);
            }
        } else if a > i {
            assert(t[a] == s[a - 1] && t[c] == s[c - 1]);
        } else if a == i {
            if c > i + 1 {
                assert(buf_end(s[i]) <= s[c - 1].start);
            }
        } else {
            assert(t[c] == s[c - 1]);
        }
    }
    let r = Set::new(|q: int| b.start <= q < buf_end(b));
    assert(covered(t) =~= covered(s).union(r)) by {
        assert forall|p: int| covered(t).contains(p) implies covered(s).union(r).contains(p) by {
            let j = choose|j: int| 0 <= j < t.len() && #[trigger] buf_has(t[j], p);
            if j < i {
                assert(buf_has(s[j], p));
            } else if j > i {
                assert(buf_has(s[j - 1], p));
            }
        }
        assert forall|p: int| covered(s).union(r).contains(p) implies covered(t).contains(p) by {
            if covered(s).contains(p) {
                let j = choose|j: int| 0 <= j < s.len() && #[trigger] buf_has(s[j], p);
                if j < i {
                    assert(buf_has(t[j], p));
                } else {
                    assert(buf_has(t[j + 1], p));
                }
            } else {
                assert(buf_has(t[i], p));
            }
        }
    }
}

impl PhysRanges {
    pub open spec fn wf(&self) -> bool {
        disjoint_sorted(self@)
    }

    /// The reserved ranges for `total_pages` pages of RAM and the memory map
    /// `data`: RAM, plus every descriptor reaching past RAM, with
    /// overlapping or touching ranges merged.
    pub fn init(total_pages: usize, data: &UEFIMemData) -> (r: Self)
        requires
            total_pages >= 1,
            total_pages <= usize::MAX / 4096,
            forall|i: int|
                0 <= i < data@.len() ==> #[trigger] data@[i].number_of_pages >= 1 && data@[i].physical_start
                    as int / 4096 + data@[i].number_of_pages <= usize::MAX / 4096,
        ensures
            r.wf(),
            separated(r@),
            covered(r@) == Set::new(|p: int| 0 <= p < total_pages).union(
                io_pages(data@, total_pages as int),
            ),
    {
        let mut vec: Vec<MemPageBuffer> = Vec::new();
        vec.push(MemPageBuffer::new(0, total_pages));
        let ghost ram = Set::new(|p: int| 0 <= p < total_pages);
        proof {
            assert(io_pages(data@.subrange(0, 0), total_pages as int) =~= Set::empty());
            assert forall|p: int| ram.contains(p) implies covered(vec@).contains(p) by {
                assert(buf_has(vec@[0], p));
            }
            assert(covered(vec@) =~= ram.union(io_pages(data@.subrange(0, 0), total_pages as int)));
        }
        let mut i: usize = 0;
        while i < data.len()
            invariant
                0 <= i <= data@.len(),
                sorted_starts(vec@),
                vec@.len() >= 1,
                covered(vec@) == ram.union(io_pages(data@.subrange(0, i as int), total_pages as int)),
                ram == Set::new(|p: int| 0 <= p < total_pages),
                forall|k: int|
                    0 <= k < data@.len() ==> #[trigger] data@[k].number_of_pages >= 1
                        && data@[k].physical_start as int / 4096 + data@[k].number_of_pages <= usize::MAX / 4096,
            decreases data@.len() - i,
        {
            let desc = data.get(i);
            let phy_page = (desc.physical_start / 4096) as usize;
            let pages = desc.number_of_pages as usize;
            let ghost before = vec@;
            let ghost d_set = Set::new(|p: int| phy_page <= p < phy_page + pages);
            proof {
                assert(io_pages(data@.subrange(0, i + 1), total_pages as int) =~= if beyond_ram(
                    desc,
                    total_pages as int,
                ) {
                    io_pages(data@.subrange(0, i as int), total_pages as int).union(d_set)
                } else {
                    io_pages(data@.subrange(0, i as int), total_pages as int)
                }) by {
                    let a = data@.subrange(0, i + 1);
                    let b = data@.subrange(0, i as int);
                    assert forall|p: int|
                        io_pages(a, total_pages as int).contains(p) implies (if beyond_ram(
                            desc,
                            total_pages as int,
                        ) {
                            io_pages(b, total_pages as int).union(d_set)
                        } else {
                            io_pages(b, total_pages as int)
                        }).contains(p) by {
                        let k = choose|k: int|
                            0 <= k < a.len() && beyond_ram(#[trigger] a[k], total_pages as int)
                                && a[k].physical_start as int / 4096 <= p < a[k].physical_start as int
                                / 4096 + a[k].number_of_pages;
                        if k < i {
                            assert(b[k] == a[k]);
                        }
                    }
                    assert forall|p: int|
                        (if beyond_ram(desc, total_pages as int) {
                            io_pages(b, total_pages as int).union(d_set)
                        } else {
                            io_pages(b, total_pages as int)
                        }).contains(p) implies io_pages(a, total_pages as int).contains(p) by {
                        if io_pages(b, total_pages as int).contains(p) {
                            let k = choose|k: int|
                                0 <= k < b.len() && beyond_ram(#[trigger] b[k], total_pages as int)
                                    && b[k].physical_start as int / 4096 <= p < b[k].physical_start
                                    as int / 4096 + b[k].number_of_pages;
                            assert(a[k] == b[k]);
                        } else {
                            assert(a[i as int] == desc);
                        }
                    }
                }
            }
            if phy_page + pages > total_pages {
                match search_start(&vec, phy_page) {
                    Ok(k) => {
                        let item = vec[k];
                        let longer = if item.pages > pages { item.pages } else { pages };
                        vec.set(k, MemPageBuffer::new(item.start, longer));
                        proof {
                            assert(covered(vec@) =~= covered(before).union(d_set)) by {
                                assert forall|p: int| covered(vec@).contains(p) implies covered(before).union(
                                    d_set,
                                ).contains(p) by {
                                    let j = choose|j: int| 0 <= j < vec@.len() && #[trigger] buf_has(vec@[j], p);
                                    if j != k {
                                        assert(buf_has(before[j], p));
                                    } else if !buf_has(before[j], p) {
                                        assert(d_set.contains(p));
                                    }
                                }
                                assert forall|p: int| covered(before).union(d_set).contains(p) implies covered(
                                    vec@,
                                ).contains(p) by {
                                    if covered(before).contains(p) {
                                        let j = choose|j: int| 0 <= j < before.len() && #[trigger] buf_has(before[j], p);
                                        assert(buf_has(vec@[j], p));
                                    } else {
                                        assert(buf_has(vec@[k as int], p));
                                    }
                                }
                            }
                        }
                    },
                    Err(k) => {
                        vec.insert(k, MemPageBuffer::new(phy_page, pages));
                        proof {
                            assert(covered(vec@) =~= covered(before).union(d_set)) by {
                                assert forall|p: int| covered(vec@).contains(p) implies covered(before).union(
                                    d_set,
                                ).contains(p) by {
                                    let j = choose|j: int| 0 <= j < vec@.len() && #[trigger] buf_has(vec@[j], p);
                                    if j < k {
                                        assert(buf_has(before[j], p));
                                    } else if j > k {
                                        assert(buf_has(before[j - 1], p));
                                    }
                                }
                                assert forall|p: int| covered(before).union(d_set).contains(p) implies covered(
                                    vec@,
                                ).contains(p) by {
                                    if covered(before).contains(p) {
                                        let j = choose|j: int| 0 <= j < before.len() && #[trigger] buf_has(before[j], p);
                                        if j < k {
                                            assert(buf_has(vec@[j], p));
                                        } else {
                                            assert(buf_has(vec@[j + 1], p));
                                        }
                                    } else {
                                        assert(buf_has(vec@[k as int], p));
                                    }
                                }
                            }
                            assert forall|a: int, b: int| 0 <= a < b < vec@.len() implies #[trigger] vec@[a].start
                                < #[trigger] vec@[b].start by {
                                if b < k {
                                    assert(vec@[b] == before[b]);
                                } else if b == k {
                                    if a < k {
                                        assert(starts(before)[a] < phy_page);
                                    }
                                } else if a > k {
                                    assert(vec@[a] == before[a - 1]);
                                    assert(vec@[b] == before[b - 1]);
                                } else if a == k {
                                    assert(starts(before)[b - 1] > phy_page);
                                } else {
                                    assert(vec@[b] == before[b - 1]);
                                }
                            }
                        }
                    },
                }
            }
            i = i + 1;
        }
        assert(data@.subrange(0, data@.len() as int) =~= data@);
        Self::merge_all(&mut vec);
        PhysRanges { bufs: vec }
    }

    /// Merges overlapping or touching neighbours until none remain.
    fn merge_all(vec: &mut Vec<MemPageBuffer>)
        requires
            sorted_starts(old(vec)@),
            old(vec)@.len() >= 1,
        ensures
            separated(final(vec)@),
            covered(final(vec)@) == covered(old(vec)@),
    {
        loop
            invariant
                sorted_starts(vec@),
                vec@.len() >= 1,
                covered(vec@) == covered(old(vec)@),
            ensures
                separated(vec@),
                covered(vec@) == covered(old(vec)@),
            decreases vec@.len(),
        {
            let mut merged = false;
            let mut i: usize = vec.len() - 1;
            let ghost start_len = vec@.len();
            while i > 0
                invariant
                    sorted_starts(vec@),
                    1 <= vec@.len() <= start_len,
                    0 <= i < vec@.len(),
                    covered(vec@) == covered(old(vec)@),
                    !merged ==> vec@.len() == start_len,
                    merged ==> vec@.len() < start_len,
                    !merged ==> forall|a: int, b: int|
                        i <= a < b < vec@.len() ==> buf_end(#[trigger] vec@[a]) < #[trigger] vec@[b].start,
                decreases i,
            {
                i = i - 1;
                let second = vec[i + 1];
                let first = vec[i];
                if first.start + first.pages >= second.start {
                    let ghost before = vec@;
                    let second_end = second.start + second.pages;
                    let new_pages = if first.pages > second_end - first.start {
                        first.pages
                    } else {
                        second_end - first.start
                    };
                    vec.set(i, MemPageBuffer::new(first.start, new_pages));
                    let _ = vec.remove(i + 1);
                    merged = true;
                    proof {
                        assert(covered(vec@) =~= covered(before)) by {
                            assert forall|p: int| covered(vec@).contains(p) implies covered(before).contains(p) by {
                                let j = choose|j: int| 0 <= j < vec@.len() && #[trigger] buf_has(vec@[j], p);
                                if j < i {
                                    assert(buf_has(before[j], p));
                                } else if j > i {
                                    assert(buf_has(before[j + 1], p));
                                } else if buf_has(before[i as int], p) {
                                } else {
                                    assert(buf_has(before[i + 1], p));
                                }
                            }
                            assert forall|p: int| covered(before).contains(p) implies covered(vec@).contains(p) by {
                                let j = choose|j: int| 0 <= j < before.len() && #[trigger] buf_has(before[j], p);
                                if j < i {
                                    assert(buf_has(vec@[j], p));
                                } else if j > i + 1 {
                                    assert(buf_has(vec@[j - 1], p));
                                } else {
                                    assert(buf_has(vec@[i as int], p));
                                }
                            }
                        }
                        assert forall|a: int, b: int| 0 <= a < b < vec@.len() implies #[trigger] vec@[a].start
                            < #[trigger] vec@[b].start by {
                            if b <= i {
                            } else if a <= i {
                                assert(before[a].start < before[b + 1].start);
                            } else {
                                assert(before[a + 1].start < before[b + 1].start);
                            }
                        }
                    }
                } else {
                    proof {
                        if !merged {
                            assert forall|a: int, b: int|
                                i <= a < b < vec@.len() implies buf_end(#[trigger] vec@[a]) < #[trigger] vec@[b].start by {
                                if a == i && b > i + 1 {
                                    assert(vec@[i + 1].start < vec@[b].start);
                                }
                            }
                        }
                    }
                }
            }
            if !merged {
                break;
            }
        }
    }

    /// Reserves `pages` pages and returns the physical address of the
    /// first. With `phy_addr` (page aligned), exactly the pages from there
    /// are reserved when none of them is reserved yet and they end below
    /// page `phy_page_limit`; without it, the first gap between reserved
    /// ranges that holds them is used.
    pub fn alloc_phy(&mut self, pages: usize, phy_addr: Option<usize>, phy_page_limit: usize) -> (r: Option<usize>)
        requires
            old(self).wf(),
            pages >= 1,
            phy_page_limit * 4096 <= usize::MAX,
            phy_addr matches Some(a) ==> a % 4096 == 0,
        ensures
            final(self).wf(),
            match phy_addr {
                Some(a) => {
                    let p = a as int / 4096;
                    let fits = p + pages < phy_page_limit && forall|q: int|
                        p <= q < p + pages ==> !covered(old(self)@).contains(q);
                    r == (if fits { Some(a) } else { None::<usize> })
                },
                None => match first_fit(old(self)@, pages as int, phy_page_limit as int, 0, 0) {
                    Some((i, s)) => {
                        &&& r == Some((s * 4096) as usize)
                        &&& final(self)@ == old(self)@.insert(i, MemPageBuffer { start: s as usize, pages })
                        &&& covered(final(self)@) == covered(old(self)@).union(
                            Set::new(|q: int| s <= q < s + pages),
                        )
                    },
                    None => r is None,
                },
            },
            r is None ==> final(self)@ == old(self)@,
            r matches Some(a) ==> exists|i: int|
                0 <= i <= old(self)@.len() && final(self)@ == #[trigger] old(self)@.insert(
                    i,
                    MemPageBuffer { start: (a / 4096) as usize, pages },
                ),
            phy_addr is Some ==> (r matches Some(a) ==> covered(final(self)@) == covered(old(self)@).union(
                Set::new(|q: int| a as int / 4096 <= q < a as int / 4096 + pages),
            )),
    {
        let ghost old_bufs = self.bufs@;
        match phy_addr {
            Some(addr) => {
                let phy_page = addr / 4096;
                if phy_page >= phy_page_limit || pages >= phy_page_limit - phy_page {
                    return None;
                }
                let start_index = match search_last_page(&self.bufs, phy_page) {
                    Err(i) => i,
                    Ok(i) => {
                        proof {
                            assert(last_pages(old_bufs)[i as int] == phy_page);
                            assert(covered(old_bufs).contains(phy_page as int)) by {
                                assert(buf_has(old_bufs[i as int], phy_page as int));
                            }
                        }
                        return None;
                    },
                };
                let end_page = phy_page + pages - 1;
                let end_index = match search_start(&self.bufs, end_page) {
                    Err(i) => i,
                    Ok(i) => {
                        proof {
                            assert(starts(old_bufs)[i as int] == end_page);
                            assert(covered(old_bufs).contains(end_page as int)) by {
                                assert(buf_has(old_bufs[i as int], end_page as int));
                            }
                        }
                        return None;
                    },
                };
                if start_index != end_index {
                    proof {
                        if start_index < end_index {
                            let j = start_index as int;
                            assert(last_pages(old_bufs)[j] > phy_page);
                            assert(starts(old_bufs)[j] < end_page);
                            let q = if old_bufs[j].start > phy_page { old_bufs[j].start as int } else { phy_page as int };
                            assert(buf_has(old_bufs[j], q));
                            assert(covered(old_bufs).contains(q));
                        } else {
                            let j = end_index as int;
                            assert(last_pages(old_bufs)[j] < phy_page);
                            assert(starts(old_bufs)[j] > end_page);
                        }
                    }
                    return None;
                }
                proof {
                    assert forall|q: int| phy_page <= q < phy_page + pages implies !covered(old_bufs).contains(q) by {
                        if covered(old_bufs).contains(q) {
                            let j = choose|j: int| 0 <= j < old_bufs.len() && #[trigger] buf_has(old_bufs[j], q);
                            if j < start_index {
                                assert(last_pages(old_bufs)[j] < phy_page);
                            } else {
                                assert(starts(old_bufs)[j] > end_page);
                            }
                        }
                    }
                    if start_index > 0 {
                        assert(last_pages(old_bufs)[start_index - 1] < phy_page);
                    }
                    if start_index < old_bufs.len() {
                        assert(starts(old_bufs)[start_index as int] > end_page);
                    }
                    lemma_insert_disjoint(old_bufs, start_index as int, MemPageBuffer { start: phy_page, pages });
                    assert(phy_page * 4096 == addr);
                }
                self.bufs.insert(start_index, MemPageBuffer::new(phy_page, pages));
                assert(self.bufs@ == old_bufs.insert(start_index as int, MemPageBuffer { start: phy_page, pages }));
                Some(addr)
            },
            None => {
                let mut prev_end: usize = 0;
                let mut i: usize = 0;
                while i < self.bufs.len()
                    invariant
                        self.bufs@ == old_bufs,
                        old_bufs == old(self)@,
                        phy_addr is None,
                        phy_page_limit * 4096 <= usize::MAX,
                        disjoint_sorted(old_bufs),
                        pages >= 1,
                        0 <= i <= old_bufs.len(),
                        first_fit(old_bufs, pages as int, phy_page_limit as int, 0, 0) == first_fit(
                            old_bufs,
                            pages as int,
                            phy_page_limit as int,
                            prev_end as int,
                            i as int,
                        ),
                        i > 0 ==> prev_end == buf_end(old_bufs[i - 1]),
                        i == 0 ==> prev_end == 0,
                    decreases old_bufs.len() - i,
                {
                    let b = self.bufs[i];
                    proof {
                        if i > 0 {
                            assert(buf_end(old_bufs[i - 1]) <= old_bufs[i as int].start);
                        }
                    }
                    if pages <= b.start - prev_end {
                        proof {
                            lemma_insert_disjoint(old_bufs, i as int, MemPageBuffer { start: prev_end, pages });
                            lemma_shl_page(prev_end);
                        }
                        self.bufs.insert(i, MemPageBuffer::new(prev_end, pages));
                        return Some(prev_end << 12);
                    }
                    prev_end = b.start + b.pages;
                    i = i + 1;
                }
                if prev_end >= phy_page_limit || pages >= phy_page_limit - prev_end {
                    return None;
                }
                proof {
                    lemma_insert_disjoint(old_bufs, old_bufs.len() as int, MemPageBuffer { start: prev_end, pages });
                    lemma_shl_page(prev_end);
                }
                self.bufs.push(MemPageBuffer::new(prev_end, pages));
                assert(self.bufs@ == old_bufs.insert(old_bufs.len() as int, MemPageBuffer { start: prev_end, pages }));
                Some(prev_end << 12)
            },
        }
    }

    /// Releases the reserved range whose first page equals `key`, returning
    /// its length in pages. `free` passes its physical address here as it
    /// is, unconverted to a page index.
    pub fn free_phy(&mut self, key: usize) -> (r: Option<usize>)
        requires
            old(self).wf(),
        ensures
            final(self).wf(),
            released(old(self)@, key, r, final(self)@),
    {
        match search_start(&self.bufs, key) {
            Ok(i) => {
                let b = self.bufs.remove(i);
                proof {
                    assert(starts(old(self)@)[i as int] == key);
                    assert forall|a: int, c: int| 0 <= a < c < self.bufs@.len() implies buf_end(
                        #[trigger] self.bufs@[a],
                    ) <= #[trigger] self.bufs@[c].start by {
                        let a2 = if a < i { a } else { a + 1 };
                        let c2 = if c < i { c } else { c + 1 };
                        assert(buf_end(old(self)@[a2]) <= old(self)@[c2].start);
                    }
                    assert forall|a: int, c: int| 0 <= a < c < self.bufs@.len() implies #[trigger] self.bufs@[a].start
                        < #[trigger] self.bufs@[c].start by {
                        let a2 = if a < i { a } else { a + 1 };
                        let c2 = if c < i { c } else { c + 1 };
                        assert(old(self)@[a2].start < old(self)@[c2].start);
                    }
                }
                Some(b.pages)
            },
            Err(i) => {
                proof {
                    assert forall|j: int| 0 <= j < old(self)@.len() implies #[trigger] old(self)@[j].start != key by {
                        assert(starts(old(self)@)[j] != key);
                    }
                }
                None
            },
        }
    }

    /// The reserved ranges.
    pub fn ranges(&self) -> (r: &[MemPageBuffer])
        ensures
            r@ == self@,
    {
        self.bufs.as_slice()
    }
}

/// Page `k` is mapped, through tables in use, to physical address
/// `addr` with flags `entry_mask`.
#[verifier::opaque]
pub open spec fn maps_to(
    m: Seq<u64>,
    ph: Seq<PageUse>,
    pml4: u64,
    mask: u64,
    entry_mask: u64,
    k: int,
    addr: int,
) -> bool {
    &&& mapped(m, pml4, mask, k)
    &&& path_tables_used(m, ph, pml4, mask, k)
    &&& leaf_of(m, pml4, mask, k) == (addr as u64 | entry_mask)
}

/// Pages `[lo, hi)` map, in order, the physical pages from `phy` on.
pub open spec fn window_mapped(
    m: Seq<u64>,
    ph: Seq<PageUse>,
    pml4: u64,
    mask: u64,
    entry_mask: u64,
    lo: int,
    hi: int,
    phy: int,
) -> bool {
    forall|k: int| lo <= k < hi ==> #[trigger] maps_to(m, ph, pml4, mask, entry_mask, k, phy + (k - lo) * 4096)
}

#[verifier::rlimit(60)]
proof fn lemma_window_kept(
    m2: Seq<u64>,
    m3: Seq<u64>,
    ph2: Seq<PageUse>,
    ph3: Seq<PageUse>,
    pml4: u64,
    mask: u64,
    entry_mask: u64,
    lo: int,
    page: int,
    phy: int,
    slots: Set<int>,
)
    requires
        window_mapped(m2, ph2, pml4, mask, entry_mask, lo, page, phy),
        only_taken(ph2, ph3),
        super::level4::changed_within(m2, m3, ph2, ph3, slots),
    ensures
        window_mapped(m3, ph3, pml4, mask, entry_mask, lo, page, phy),
{
    assert forall|k: int| lo <= k < page implies #[trigger] maps_to(m3, ph3, pml4, mask, entry_mask, k, phy + (k - lo) * 4096) by {
        assert(maps_to(m2, ph2, pml4, mask, entry_mask, k, phy + (k - lo) * 4096));
        reveal(maps_to);
        lemma_path_kept(m2, m3, ph2, ph3, slots, pml4, mask, k);
    }
}

proof fn lemma_window_extend(
    m3: Seq<u64>,
    ph3: Seq<PageUse>,
    pml4: u64,
    mask: u64,
    entry_mask: u64,
    lo: int,
    page: int,
    phy: int,
)
    requires
        window_mapped(m3, ph3, pml4, mask, entry_mask, lo, page, phy),
        mapped(m3, pml4, mask, page),
        path_tables_used(m3, ph3, pml4, mask, page),
        leaf_of(m3, pml4, mask, page) == ((phy + (page - lo) * 4096) as u64 | entry_mask),
    ensures
        window_mapped(m3, ph3, pml4, mask, entry_mask, lo, page + 1, phy),
{
    assert(maps_to(m3, ph3, pml4, mask, entry_mask, page, phy + (page - lo) * 4096)) by {
        reveal(maps_to);
    }
}

/// Reserves `pages` physical pages (at `phy_addr` when given) and maps
/// them, in order, at the lowest hole of the kernel or user half of the
/// tables at `cr3`. Returns the canonical linear address and the physical
/// address; `None` when the pages cannot be reserved, the half has no hole,
/// its tables do not lie in `mem`, or a table cannot be had.
/// When `alloc_io` cannot fail: the physical width's page limit fits in
/// `usize` as an address, the range can be reserved (`alloc_phy` finds
/// it), every table read while looking for a hole in the half lies in
/// `mem`, the half has a hole, the lowest hole is `mappable`, and three
/// free pages per page are at hand for tables that may be missing.
pub open spec fn io_ready(
    mem: Seq<u64>,
    phys: Seq<PageUse>,
    ranges: Seq<MemPageBuffer>,
    pml4: u64,
    mask: u64,
    phy_bits: u64,
    pages: int,
    kernel: bool,
    phy_addr: Option<usize>,
) -> bool {
    let limit = (1u64 << ((phy_bits - 12) as u64)) as int;
    &&& limit * 4096 <= usize::MAX
    &&& match phy_addr {
        Some(a) => a as int / 4096 + pages < limit && forall|q: int|
            a as int / 4096 <= q < a as int / 4096 + pages ==> !covered(ranges).contains(q),
        None => first_fit(ranges, pages, limit, 0, 0) is Some,
    }
    &&& forall|q: int|
        half_start(kernel) <= q < half_start(kernel) + 256 * 134217728 ==> #[trigger] walk_readable(
            mem,
            pml4,
            mask,
            q,
        )
    &&& exists|t: int| #[trigger] lin_hole(mem, pml4, mask, pages, kernel, t)
    &&& forall|s: int|
        #[trigger] lin_hole(mem, pml4, mask, pages, kernel, s) && (forall|t: int|
            t < s ==> !#[trigger] lin_hole(mem, pml4, mask, pages, kernel, t)) ==> mappable(
            mem,
            phys,
            pml4,
            mask,
            s,
            s + pages,
        )
    &&& count_use(phys, PageUse::Free) >= 3 * pages
}

pub fn alloc_io(
    pager: &mut Pager,
    ranges: &mut PhysRanges,
    mem: &mut [u64],
    pages: usize,
    kernel: bool,
    cr3: u64,
    phy_addr: Option<usize>,
) -> (r: Option<(u64, usize)>)
    requires
        old(pager).wf(),
        old(ranges).wf(),
        old(pager).paging_type == PagingType::Level4,
        old(mem)@.len() >= old(pager).phys@.len() * 512,
        pages >= 1,
        12 <= old(pager).phy_addr_bits < 64,
        phy_addr matches Some(a) ==> a % 4096 == 0,
    ensures
        final(pager).wf(),
        final(ranges).wf(),
        final(pager).phy_page_mask == old(pager).phy_page_mask,
        final(pager).paging_type == old(pager).paging_type,
        final(pager).phy_addr_bits == old(pager).phy_addr_bits,
        final(pager).lin_addr_mask == old(pager).lin_addr_mask,
        final(mem)@.len() == old(mem)@.len(),
        io_ready(
            old(mem)@,
            old(pager).phys@,
            old(ranges)@,
            cr3 & old(pager).phy_page_mask,
            old(pager).phy_page_mask,
            old(pager).phy_addr_bits,
            pages as int,
            kernel,
            phy_addr,
        ) ==> r is Some,
        r matches Some((ptr, phy)) ==> {
            &&& covered(final(ranges)@) == covered(old(ranges)@).union(
                Set::new(|q: int| phy as int / 4096 <= q < phy as int / 4096 + pages),
            )
            &&& (forall|q: int| phy as int / 4096 <= q < phy as int / 4096 + pages ==> !covered(old(ranges)@).contains(q))
            &&& phy_addr matches Some(a) ==> phy == a
            &&& exists|s: int|
                {
                    &&& #[trigger] lin_hole(
                        old(mem)@,
                        cr3 & old(pager).phy_page_mask,
                        old(pager).phy_page_mask,
                        pages as int,
                        kernel,
                        s,
                    )
                    &&& ptr == canonical(s)
                    &&& window_mapped(
                        final(mem)@,
                        final(pager).phys@,
                        cr3 & old(pager).phy_page_mask,
                        old(pager).phy_page_mask,
                        if kernel { 3 } else { 7 },
                        s,
                        s + pages,
                        phy as int,
                    )
                }
        },
{
    let mask = pager.phy_page_mask;
    let pml4 = cr3 & mask;
    let ghost ok = io_ready(
        mem@,
        pager.phys@,
        ranges@,
        pml4,
        mask,
        pager.phy_addr_bits,
        pages as int,
        kernel,
        phy_addr,
    );
    let limit_shift = pager.phy_addr_bits - 12;
    assert(1u64 << limit_shift >= 1) by (bit_vector)
        requires limit_shift < 64;
    let limit64 = 1u64 << limit_shift;
    if limit64 as u128 * 4096 > usize::MAX as u128 {
        return None;
    }
    let phy = match ranges.alloc_phy(pages, phy_addr, limit64 as usize) {
        Some(p) => p,
        None => return None,
    };
    proof {
        if phy_addr is None {
            let (i, s) = first_fit(old(ranges)@, pages as int, limit64 as int, 0, 0).unwrap();
            lemma_first_fit_free(old(ranges)@, pages as int, limit64 as int, 0, 0);
            if s + pages >= limit64 {
                assert(0 <= i < old(ranges)@.len() && s + pages <= old(ranges)@[i].start);
                assert(disjoint_sorted(old(ranges)@));
                assert(old(ranges)@[i].pages >= 1);
                assert(buf_end(old(ranges)@[i]) * 4096 <= usize::MAX);
            }
            assert((s + pages) * 4096 <= usize::MAX) by (nonlinear_arith)
                requires
                    s + pages <= limit64 || (s + pages) * 4096 <= usize::MAX,
                    limit64 * 4096 <= usize::MAX,
                    pages >= 1,
                    s >= 0;
            assert(phy as int == s * 4096);
            assert(phy as int / 4096 == s);
        } else {
            assert(phy as int % 4096 == 0);
            assert((phy as int / 4096 + pages) * 4096 <= usize::MAX) by (nonlinear_arith)
                requires phy as int / 4096 + pages < limit64, limit64 * 4096 <= usize::MAX;
        }
        assert(phy as int == (phy as int / 4096) * 4096);
        assert(phy + pages * 4096 <= usize::MAX);
    }
    let lin_start = match get_lin_hole(mem, pml4, mask, pages as u64, kernel) {
        Ok(Some(s)) => s,
        Ok(None) => return None,
        Err(_) => return None,
    };
    let entry_mask: u64 = if kernel { 3 } else { 7 };
    proof {
        assert(mask & 0xFFF == 0);
        assert(entry_mask & mask == 0 && entry_mask & 1 == 1) by (bit_vector)
            requires mask & 0xFFF == 0, entry_mask == 3 || entry_mask == 7;
    }
    let ghost m0 = mem@;
    let ghost ph0 = pager.phys@;
    assert(lin_start + pages <= 68719476736) by {
        assert(lin_hole(m0, pml4, mask, pages as int, kernel, lin_start as int));
    }
    let end = lin_start + pages as u64;
    let mut page = lin_start;
    let mut addr: u64 = phy as u64;
    while page < end
        invariant
            pager.wf(),
            pager.phy_page_mask == mask,
            mask == old(pager).phy_page_mask,
            pager.paging_type == old(pager).paging_type,
            pager.lin_addr_mask == old(pager).lin_addr_mask,
            pager.phy_addr_bits == old(pager).phy_addr_bits,
            pml4 == cr3 & mask,
            entry_mask == if kernel { 3u64 } else { 7u64 },
            entry_mask & mask == 0,
            entry_mask & 1 == 1,
            lin_start <= page <= end,
            end == lin_start + pages,
            end <= 68719476736,
            phy + pages * 4096 <= usize::MAX,
            page < end ==> addr == phy + (page - lin_start) * 4096,
            ranges.wf(),
            m0 == old(mem)@,
            mem@.len() == m0.len(),
            mem@.len() >= pager.phys@.len() * 512,
            window_mapped(mem@, pager.phys@, pml4, mask, entry_mask, lin_start as int, page as int, phy as int),
            ok == io_ready(
                old(mem)@,
                old(pager).phys@,
                old(ranges)@,
                pml4,
                mask,
                old(pager).phy_addr_bits,
                pages as int,
                kernel,
                phy_addr,
            ),
            ok ==> mappable(mem@, pager.phys@, pml4, mask, page as int, end as int),
            ok ==> count_use(pager.phys@, PageUse::Free) >= 3 * (end - page),
        decreases end - page,
    {
        proof {
            if ok {
                assert(super::level4::path_ok(mem@, pager.phys@, pml4, mask, page as int));
            }
        }
        if !check_path(mem, &pager.phys, pml4, mask, page) {
            return None;
        }
        let ghost m2 = mem@;
        let ghost ph2 = pager.phys@;
        allocate_page(mem, &mut pager.phys, page, addr, pml4, mask, entry_mask);
        proof {
            let m3 = mem@;
            let ph3 = pager.phys@;
            if ok {
                assert(map_step(m2, m3, ph2, ph3, pml4, mask, page as int));
                lemma_mappable_map(m2, m3, ph2, ph3, pml4, mask, page as int, end as int);
            }
            lemma_window_kept(
                m2,
                m3,
                ph2,
                ph3,
                pml4,
                mask,
                entry_mask,
                lin_start as int,
                page as int,
                phy as int,
                set![
                    super::level4::slot(pml4, super::level4::l4_index(page as int)),
                    super::level4::slot(super::level4::pdpt_of(m3, pml4, mask, page as int), super::level4::l3_index(page as int)),
                    super::level4::slot(super::level4::pd_of(m3, pml4, mask, page as int), super::level4::l2_index(page as int)),
                    super::level4::slot(super::level4::pt_of(m3, pml4, mask, page as int), super::level4::l1_index(page as int)),
                ],
            );
            lemma_window_extend(m3, ph3, pml4, mask, entry_mask, lin_start as int, page as int, phy as int);
        }
        page = page + 1;
        if page < end {
            addr = addr + 4096;
        }
    }
    Some((canonical_address(lin_start), phy))
}

/// The gap `first_fit` finds holds no reserved page.
proof fn lemma_first_fit_free(s: Seq<MemPageBuffer>, pages: int, limit: int, prev_end: int, i: int)
    requires
        disjoint_sorted(s),
        0 <= i <= s.len(),
        i > 0 ==> prev_end == buf_end(s[i - 1]),
        i == 0 ==> prev_end == 0,
        first_fit(s, pages, limit, prev_end, i) is Some,
    ensures
        ({
            let (j, st) = first_fit(s, pages, limit, prev_end, i).unwrap();
            &&& st + pages < limit || (j < s.len() && st + pages <= s[j].start)
            &&& i <= j <= s.len()
            &&& 0 <= st
            &&& forall|q: int| st <= q < st + pages ==> !covered(s).contains(q)
        }),
    decreases s.len() - i,
{
    if i < s.len() && !(prev_end + pages <= s[i].start) {
        lemma_first_fit_free(s, pages, limit, buf_end(s[i]), i + 1);
    } else {
        let (j, st) = first_fit(s, pages, limit, prev_end, i).unwrap();
        assert forall|q: int| st <= q < st + pages implies !covered(s).contains(q) by {
            if covered(s).contains(q) {
                let k = choose|k: int| 0 <= k < s.len() && #[trigger] buf_has(s[k], q);
                if k < i {
                    assert(buf_end(s[k]) <= prev_end) by {
                        if k < i - 1 {
                            assert(buf_end(s[k]) <= s[i - 1].start);
                        }
                    }
                } else {
                    assert(s[i].start <= s[k].start);
                }
            }
        }
    }
}

/// Pages `[a, b)` can be unmapped one after another: each is mapped, and
/// the entry of one is not on the path of another.
pub open spec fn removable(mem: Seq<u64>, pml4: u64, mask: u64, a: int, b: int) -> bool {
    &&& forall|k: int| a <= k < b ==> #[trigger] mapped(mem, pml4, mask, k)
    &&& forall|k1: int, k2: int|
        #![trigger reads_slot(mem, pml4, mask, k2, leaf_slot(mem, pml4, mask, k1))]
        a <= k1 < b && a <= k2 < b && k1 != k2 ==> !reads_slot(mem, pml4, mask, k2, leaf_slot(mem, pml4, mask, k1))
}

/// Unmapping the first page of a removable run leaves the rest removable.
proof fn lemma_removable_step(m: Seq<u64>, pml4: u64, mask: u64, a: int, b: int)
    requires
        removable(m, pml4, mask, a, b),
        a < b,
    ensures
        removable(m.update(leaf_slot(m, pml4, mask, a), 0), pml4, mask, a + 1, b),
{
    let w = leaf_slot(m, pml4, mask, a);
    let m2 = m.update(w, 0);
    assert(mapped(m, pml4, mask, a));
    lemma_leaf_slot_in(m, pml4, mask, a);
    assert forall|k: int| a + 1 <= k < b implies #[trigger] mapped(m2, pml4, mask, k) by {
        assert(mapped(m, pml4, mask, k));
        assert(!reads_slot(m, pml4, mask, k, leaf_slot(m, pml4, mask, a)));
        lemma_walk_unwritten(m, w, 0, pml4, mask, k);
    }
    assert forall|k1: int, k2: int|
        #![trigger reads_slot(m2, pml4, mask, k2, leaf_slot(m2, pml4, mask, k1))]
        a + 1 <= k1 < b && a + 1 <= k2 < b && k1 != k2 implies !reads_slot(m2, pml4, mask, k2, leaf_slot(m2, pml4, mask, k1)) by {
        assert(mapped(m, pml4, mask, k1));
        assert(mapped(m, pml4, mask, k2));
        assert(!reads_slot(m, pml4, mask, k1, leaf_slot(m, pml4, mask, a)));
        assert(!reads_slot(m, pml4, mask, k2, leaf_slot(m, pml4, mask, a)));
        lemma_walk_unwritten(m, w, 0, pml4, mask, k1);
        lemma_walk_unwritten(m, w, 0, pml4, mask, k2);
        assert(!reads_slot(m, pml4, mask, k2, leaf_slot(m, pml4, mask, k1)));
    }
}

/// Releases the reserved range whose first page equals `phy_addr` (the
/// address itself, not divided by the page size, is compared) and
/// unmaps the linear pages from page index `lin_addr` on, as many as the
/// range held. `Err(None)` when no range starts there; `Err(Some(p))`
/// when page `p` is the first that is not mapped.
pub fn free(
    pager: &Pager,
    ranges: &mut PhysRanges,
    mem: &mut [u64],
    lin_addr: u64,
    phy_addr: usize,
    cr3: u64,
) -> (r: Result<(), Option<u64>>)
    requires
        pager.wf(),
        old(ranges).wf(),
        pager.paging_type == PagingType::Level4,
        lin_addr <= 0xFFF0_0000_0000_0000,
    ensures
        final(ranges).wf(),
        final(mem)@.len() == old(mem)@.len(),
        (r == Err::<(), Option<u64>>(None)) == (forall|i: int|
            0 <= i < old(ranges)@.len() ==> #[trigger] old(ranges)@[i].start != phy_addr),
        r matches Err(None) ==> final(ranges)@ == old(ranges)@ && final(mem)@ == old(mem)@,
        r matches Err(Some(p)) ==> exists|i: int|
            {
                &&& 0 <= i < old(ranges)@.len()
                &&& #[trigger] old(ranges)@[i].start == phy_addr
                &&& final(ranges)@ == old(ranges)@.remove(i)
                &&& lin_addr <= p < lin_addr + old(ranges)@[i].pages
                &&& !mapped(final(mem)@, cr3 & pager.phy_page_mask, pager.phy_page_mask, p as int)
                &&& forall|k: int|
                    lin_addr <= k < p ==> !#[trigger] mapped(
                        final(mem)@,
                        cr3 & pager.phy_page_mask,
                        pager.phy_page_mask,
                        k,
                    )
            },
        (forall|i: int|
            0 <= i < old(ranges)@.len() && #[trigger] old(ranges)@[i].start == phy_addr ==> removable(
                old(mem)@,
                cr3 & pager.phy_page_mask,
                pager.phy_page_mask,
                lin_addr as int,
                lin_addr + old(ranges)@[i].pages,
            )) ==> !(r matches Err(Some(_))),
        r is Ok ==> exists|i: int|
            {
                &&& 0 <= i < old(ranges)@.len()
                &&& #[trigger] old(ranges)@[i].start == phy_addr
                &&& final(ranges)@ == old(ranges)@.remove(i)
                &&& forall|k: int|
                    lin_addr <= k < lin_addr + old(ranges)@[i].pages ==> !#[trigger] mapped(
                        final(mem)@,
                        cr3 & pager.phy_page_mask,
                        pager.phy_page_mask,
                        k,
                    )
            },
{
    let mask = pager.phy_page_mask;
    let pml4 = cr3 & mask;
    let ghost r0 = ranges@;
    let pages = match ranges.free_phy(phy_addr) {
        Some(n) => n,
        None => return Err(None),
    };
    proof {
        let i = choose|i: int| 0 <= i < r0.len() && #[trigger] r0[i].start == phy_addr && pages == r0[i].pages && ranges@ == r0.remove(i);
        assert(buf_end(r0[i]) * 4096 <= usize::MAX);
        assert(pages <= 0x000F_FFFF_FFFF_FFFF);
    }
    let end = lin_addr + pages as u64;
    let mut page = lin_addr;
    let ghost i0 = choose|i: int| 0 <= i < r0.len() && #[trigger] r0[i].start == phy_addr && pages == r0[i].pages && ranges@ == r0.remove(i);
    let ghost ok = removable(old(mem)@, pml4, mask, lin_addr as int, end as int);
    while page < end
        invariant
            0 <= i0 < r0.len(),
            r0[i0].start == phy_addr,
            r0[i0].pages == pages,
            ranges@ == r0.remove(i0),
            r0 == old(ranges)@,
            ok == removable(old(mem)@, pml4, mask, lin_addr as int, end as int),
            ok ==> removable(mem@, pml4, mask, page as int, end as int),
            lin_addr <= page <= end,
            end == lin_addr + pages,
            mem@.len() == old(mem)@.len(),
            pml4 == cr3 & mask,
            mask == pager.phy_page_mask,
            ranges.wf(),
            forall|k: int| lin_addr <= k < page ==> !#[trigger] mapped(mem@, pml4, mask, k),
        decreases end - page,
    {
        if !is_mapped(mem, pml4, mask, page) {
            return Err(Some(page));
        }
        let ghost m0 = mem@;
        let _ = remove_page(mem, page, pml4, mask);
        proof {
            if ok {
                lemma_removable_step(m0, pml4, mask, page as int, end as int);
            }
            let w = super::level4::slot(
                super::level4::pt_of(m0, pml4, mask, page as int),
                super::level4::l1_index(page as int),
            );
            assert forall|k: int| lin_addr <= k < page + 1 implies !#[trigger] mapped(mem@, pml4, mask, k) by {
                if mapped(mem@, pml4, mask, k) {
                    lemma_zero_write_unmaps(m0, w, pml4, mask, k);
                }
            }
        }
        page = page + 1;
    }
    Ok(())
}

} // verus!
