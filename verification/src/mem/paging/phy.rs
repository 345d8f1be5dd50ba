//! Physical memory: one `PageUse` per physical page.

use vstd::prelude::*;
use super::{PageUse, page_zeroed, zero_page};

verus! {

/// Page `p` starts at byte address `p * 4096`, and that address maps back to `p`.
pub proof fn lemma_page_addr(p: int)
    requires
        p >= 0,
    ensures
        (p * 4096) / 4096 == p,
        (p * 4096) % 4096 == 0,
{
    assert((p * 4096) / 4096 == p) by (nonlinear_arith) requires p >= 0;
    assert((p * 4096) % 4096 == 0) by (nonlinear_arith) requires p >= 0;
}

/// How many entries of `s` are `u`.
pub open spec fn count_use(s: Seq<PageUse>, u: PageUse) -> nat
    decreases s.len(),
{
    if s.len() == 0 {
        0
    } else {
        count_use(s.drop_last(), u) + if s.last() == u { 1nat } else { 0nat }
    }
}

/// Changing entry `i` of `s` to `v` changes the count of `u` accordingly.
pub proof fn lemma_count_update(s: Seq<PageUse>, i: int, v: PageUse, u: PageUse)
    requires
        0 <= i < s.len(),
    ensures
        count_use(s.update(i, v), u) == count_use(s, u) - (if s[i] == u { 1int } else { 0int }) + (if v
            == u { 1int } else { 0int }),
    decreases s.len(),
{
    let t = s.update(i, v);
    if i == s.len() - 1 {
        assert(t.drop_last() =~= s.drop_last());
    } else {
        assert(t.drop_last() =~= s.drop_last().update(i, v));
        lemma_count_update(s.drop_last(), i, v, u);
    }
}

/// A count never exceeds the length.
pub proof fn lemma_count_le_len(s: Seq<PageUse>, u: PageUse)
    ensures
        count_use(s, u) <= s.len(),
    decreases s.len(),
{
    if s.len() > 0 {
        lemma_count_le_len(s.drop_last(), u);
    }
}

/// A map with no free page counts no free page.
pub proof fn lemma_no_free_count(s: Seq<PageUse>)
    requires
        no_free(s),
    ensures
        count_use(s, PageUse::Free) == 0,
    decreases s.len(),
{
    if s.len() > 0 {
        lemma_no_free_count(s.drop_last());
    }
}

/// Page `i` is the first free page met when scanning from `start` to the
/// end and then from the beginning up to `start`.
pub open spec fn first_free_cyclic(s: Seq<PageUse>, start: int, i: int) -> bool {
    &&& 0 <= i < s.len()
    &&& s[i] == PageUse::Free
    &&& if i >= start {
        forall|j: int| start <= j < i ==> s[j] != PageUse::Free
    } else {
        &&& forall|j: int| start <= j < s.len() ==> s[j] != PageUse::Free
        &&& forall|j: int| 0 <= j < i ==> s[j] != PageUse::Free
    }
}

/// No page of `s` is free.
pub open spec fn no_free(s: Seq<PageUse>) -> bool {
    forall|j: int| 0 <= j < s.len() ==> s[j] != PageUse::Free
}

/// The `n` pages from `start` on exist and are free.
pub open spec fn run_free(s: Seq<PageUse>, start: int, n: int) -> bool {
    &&& 0 <= start
    &&& start + n <= s.len()
    &&& forall|j: int| start <= j < start + n ==> s[j] == PageUse::Free
}

/// `s` with the `n` pages from `start` on set to `u`.
pub open spec fn set_run(s: Seq<PageUse>, start: int, n: int, u: PageUse) -> Seq<PageUse> {
    Seq::new(s.len(), |j: int| if start <= j < start + n { u } else { s[j] })
}

/// Words outside physical pages `[start, start + n)` are unchanged, and
/// when `zeroed` those pages are zero; when not `zeroed` nothing changed.
pub open spec fn pages_written(
    old_mem: Seq<u64>,
    new_mem: Seq<u64>,
    start: int,
    n: int,
    zeroed: bool,
) -> bool {
    &&& new_mem.len() == old_mem.len()
    &&& if zeroed {
        &&& forall|p: int| start <= p < start + n ==> #[trigger] page_zeroed(new_mem, p)
        &&& forall|w: int|
            0 <= w < old_mem.len() && !(start * 512 <= w < (start + n) * 512) ==> #[trigger] new_mem[w]
                == old_mem[w]
    } else {
        new_mem == old_mem
    }
}

/// The use of every physical page, with the index where the next search
/// for a single free page begins.
pub struct PhysPageMap {
    uses: Vec<PageUse>,
    search: usize,
    free: usize,
}

impl View for PhysPageMap {
    type V = Seq<PageUse>;

    closed spec fn view(&self) -> Seq<PageUse> {
        self.uses@
    }
}

impl PhysPageMap {
    /// The index where the next single-page search begins.
    pub closed spec fn search_index(&self) -> int {
        self.search as int
    }

    pub closed spec fn wf(&self) -> bool {
        &&& self.uses@.len() * 4096 <= usize::MAX
        &&& self.search <= self.uses@.len()
        &&& self.free == count_use(self.uses@, PageUse::Free)
    }

    /// A map of `total` pages, all in use; the search starts at page 0.
    pub fn new_all_used(total: usize) -> (r: Self)
        requires
            total * 4096 <= usize::MAX,
        ensures
            r.wf(),
            r@ == Seq::new(total as nat, |j: int| PageUse::Used),
            r.search_index() == 0,
    {
        let mut uses: Vec<PageUse> = Vec::new();
        let mut i: usize = 0;
        while i < total
            invariant
                i <= total,
                uses@ == Seq::new(i as nat, |j: int| PageUse::Used),
            decreases total - i,
        {
            uses.push(PageUse::Used);
            i = i + 1;
        }
        proof {
            lemma_no_free_count(uses@);
        }
        PhysPageMap { uses, search: 0, free: 0 }
    }

    /// Number of physical pages.
    pub fn len(&self) -> (r: usize)
        ensures
            r == self@.len(),
    {
        self.uses.len()
    }

    /// The use of page `i`.
    pub fn get(&self, i: usize) -> (r: PageUse)
        requires
            i < self@.len(),
        ensures
            r == self@[i as int],
    {
        self.uses[i]
    }

    /// Sets the use of page `i`.
    pub fn set(&mut self, i: usize, u: PageUse)
        requires
            old(self).wf(),
            i < old(self)@.len(),
        ensures
            final(self).wf(),
            final(self)@ == old(self)@.update(i as int, u),
            final(self).search_index() == old(self).search_index(),
    {
        self.set_use(i, u);
    }

    /// The number of free pages.
    pub fn free_count(&self) -> (r: usize)
        requires
            self.wf(),
        ensures
            r == count_use(self@, PageUse::Free),
    {
        self.free
    }

    fn set_use(&mut self, i: usize, u: PageUse)
        requires
            old(self).wf(),
            i < old(self)@.len(),
        ensures
            final(self).wf(),
            final(self)@ == old(self)@.update(i as int, u),
            final(self).search == old(self).search,
    {
        proof {
            lemma_count_update(self.uses@, i as int, u, PageUse::Free);
            lemma_count_update(self.uses@, i as int, PageUse::Used, PageUse::Free);
            lemma_count_le_len(self.uses@.update(i as int, u), PageUse::Free);
        }
        if self.uses[i] == PageUse::Free {
            self.free = self.free - 1;
        }
        if u == PageUse::Free {
            self.free = self.free + 1;
        }
        self.uses.set(i, u);
    }

    /// Takes the first free page met when scanning from the search index
    /// to the end and then from page 0, marks it used, moves the search
    /// index to it, and zeroes it when `zeroed`. Returns its index, or
    /// `None` when no page is free.
    pub fn allocate_page_index(&mut self, mem: &mut [u64], zeroed: bool) -> (r: Option<usize>)
        requires
            old(self).wf(),
            old(mem)@.len() >= old(self)@.len() * 512,
        ensures
            final(self).wf(),
            match r {
                Some(i) => {
                    &&& first_free_cyclic(old(self)@, old(self).search_index(), i as int)
                    &&& final(self)@ == old(self)@.update(i as int, PageUse::Used)
                    &&& final(self).search_index() == i
                    &&& pages_written(old(mem)@, final(mem)@, i as int, 1, zeroed)
                },
                None => {
                    &&& no_free(old(self)@)
                    &&& final(self)@ == old(self)@
                    &&& final(self).search_index() == old(self).search_index()
                    &&& final(mem)@ == old(mem)@
                },
            },
    {
        let total = self.uses.len();
        let start = self.search;
        let mut i = start;
        while i < total
            invariant
                self.wf(),
                self@ == old(self)@,
                self.search == start,
                start == old(self).search,
                mem@ == old(mem)@,
                old(mem)@.len() >= old(self)@.len() * 512,
                total == self@.len(),
                start <= i <= total,
                forall|j: int| start <= j < i ==> self@[j] != PageUse::Free,
            decreases total - i,
        {
            if self.uses[i] == PageUse::Free {
                assert(old(self)@[i as int] == PageUse::Free);
                assert(i >= old(self).search_index());
                assert(first_free_cyclic(old(self)@, old(self).search_index(), i as int));
                self.take_page(mem, i, zeroed);
                return Some(i);
            }
            i = i + 1;
        }
        let mut i: usize = 0;
        while i < start
            invariant
                self.wf(),
                self@ == old(self)@,
                self.search == start,
                start == old(self).search,
                mem@ == old(mem)@,
                old(mem)@.len() >= old(self)@.len() * 512,
                total == self@.len(),
                start <= total,
                0 <= i <= start,
                forall|j: int| start <= j < total ==> self@[j] != PageUse::Free,
                forall|j: int| 0 <= j < i ==> self@[j] != PageUse::Free,
            decreases start - i,
        {
            if self.uses[i] == PageUse::Free {
                self.take_page(mem, i, zeroed);
                assert(first_free_cyclic(old(self)@, old(self).search_index(), i as int));
                return Some(i);
            }
            i = i + 1;
        }
        None
    }

    fn take_page(&mut self, mem: &mut [u64], i: usize, zeroed: bool)
        requires
            old(self).wf(),
            i < old(self)@.len(),
            old(mem)@.len() >= old(self)@.len() * 512,
        ensures
            final(self).wf(),
            final(self)@ == old(self)@.update(i as int, PageUse::Used),
            final(self).search_index() == i,
            pages_written(old(mem)@, final(mem)@, i as int, 1, zeroed),
    {
        self.search = i;
        self.set_use(i, PageUse::Used);
        if zeroed {
            proof {
                assert((i + 1) * 512 <= self@.len() * 512) by (nonlinear_arith)
                    requires i + 1 <= self@.len();
            }
            zero_page(mem, i);
            assert forall|p: int| i <= p < i + 1 implies #[trigger] page_zeroed(mem@, p) by {
                assert(p == i);
            }
        }
    }

    /// Like `allocate_page_index`, returning the page's physical address.
    pub fn allocate_page_addr(&mut self, mem: &mut [u64], zeroed: bool) -> (r: Option<u64>)
        requires
            old(self).wf(),
            old(mem)@.len() >= old(self)@.len() * 512,
        ensures
            final(self).wf(),
            match r {
                Some(a) => exists|i: int|
                    #![trigger old(self)@[i]]
                    {
                        &&& a == i * 4096
                        &&& first_free_cyclic(old(self)@, old(self).search_index(), i)
                        &&& final(self)@ == old(self)@.update(i, PageUse::Used)
                        &&& final(self).search_index() == i
                        &&& pages_written(old(mem)@, final(mem)@, i, 1, zeroed)
                    },
                None => {
                    &&& no_free(old(self)@)
                    &&& final(self)@ == old(self)@
                    &&& final(self).search_index() == old(self).search_index()
                    &&& final(mem)@ == old(mem)@
                },
            },
    {
        match self.allocate_page_index(mem, zeroed) {
            Some(i) => {
                proof {
                    assert(i * 4096 <= self@.len() * 4096) by (nonlinear_arith)
                        requires i < self@.len();
                }
                let a = (i as u64) * 4096;
                assert(old(self)@[i as int] == PageUse::Free);
                Some(a)
            },
            None => None,
        }
    }

    /// Finds `pages` contiguous free pages and marks them used, zeroing
    /// them when `zeroed`. With `phy_addr`, only the run that starts at the
    /// page holding that address is tried; without it, the run that starts
    /// lowest is taken. Returns the physical address of the run's first
    /// page.
    pub fn contiguous_alloc_pages(
        &mut self,
        mem: &mut [u64],
        zeroed: bool,
        pages: usize,
        phy_addr: Option<u64>,
    ) -> (r: Option<u64>)
        requires
            old(self).wf(),
            pages >= 1,
            old(mem)@.len() >= old(self)@.len() * 512,
        ensures
            final(self).wf(),
            final(self).search_index() == old(self).search_index(),
            match phy_addr {
                Some(a) => r == (if run_free(old(self)@, a as int / 4096, pages as int) {
                    Some(((a / 4096) * 4096) as u64)
                } else {
                    None
                }),
                None => match r {
                    Some(x) => x % 4096 == 0 && run_free(old(self)@, x as int / 4096, pages as int)
                        && forall|s: int| 0 <= s < x as int / 4096 ==> !run_free(old(self)@, s, pages as int),
                    None => forall|s: int| 0 <= s ==> !run_free(old(self)@, s, pages as int),
                },
            },
            match r {
                Some(x) => {
                    &&& final(self)@ == set_run(old(self)@, x as int / 4096, pages as int, PageUse::Used)
                    &&& pages_written(old(mem)@, final(mem)@, x as int / 4096, pages as int, zeroed)
                },
                None => final(self)@ == old(self)@ && final(mem)@ == old(mem)@,
            },
    {
        let total = self.uses.len();
        match phy_addr {
            Some(addr) => {
                if addr / 4096 > total as u64 {
                    return None;
                }
                let start_page = (addr / 4096) as usize;
                if start_page > total || pages > total - start_page {
                    return None;
                }
                let mut i: usize = 0;
                while i < pages
                    invariant
                        self@ == old(self)@,
                        self.wf(),
                        self.search_index() == old(self).search_index(),
                        mem@ == old(mem)@,
                        old(mem)@.len() >= old(self)@.len() * 512,
                        total == self@.len(),
                        start_page + pages <= total,
                        start_page == addr / 4096,
                        phy_addr == Some(addr),
                        0 <= i <= pages,
                        forall|j: int| start_page <= j < start_page + i ==> self@[j] == PageUse::Free,
                    decreases pages - i,
                {
                    if self.uses[start_page + i] != PageUse::Free {
                        assert(!run_free(old(self)@, start_page as int, pages as int));
                        return None;
                    }
                    i = i + 1;
                }
                proof {
                    lemma_page_addr(start_page as int);
                    assert(start_page * 4096 <= total * 4096) by (nonlinear_arith)
                        requires start_page <= total;
                }
                self.mark_run(mem, start_page, pages, zeroed);
                Some((start_page as u64) * 4096)
            },
            None => {
                let mut start_page: usize = 0;
                let mut i: usize = 0;
                while i < total
                    invariant
                        self@ == old(self)@,
                        self.wf(),
                        self.search_index() == old(self).search_index(),
                        mem@ == old(mem)@,
                        old(mem)@.len() >= old(self)@.len() * 512,
                        total == self@.len(),
                        pages >= 1,
                        phy_addr is None,
                        0 <= start_page <= i <= total,
                        i - start_page < pages,
                        forall|j: int| start_page <= j < i ==> self@[j] == PageUse::Free,
                        forall|s: int|
                            0 <= s < start_page ==> !run_free(self@, s, pages as int),
                    decreases total - i,
                {
                    if self.uses[i] == PageUse::Free {
                        if i - start_page == pages - 1 {
                            assert(run_free(self@, start_page as int, pages as int));
                            proof {
                                lemma_page_addr(start_page as int);
                                assert(start_page * 4096 <= total * 4096) by (nonlinear_arith)
                                    requires start_page <= total;
                            }
                            self.mark_run(mem, start_page, pages, zeroed);
                            return Some((start_page as u64) * 4096);
                        }
                    } else {
                        assert forall|s: int| 0 <= s < i + 1 implies !run_free(self@, s, pages as int) by {
                            if s >= start_page && run_free(self@, s, pages as int) {
                                assert(self@[i as int] == PageUse::Free);
                            }
                        }
                        start_page = i + 1;
                    }
                    i = i + 1;
                }
                assert forall|s: int| 0 <= s implies !run_free(self@, s, pages as int) by {
                    if s >= start_page && run_free(self@, s, pages as int) {
                        assert(s + pages <= total);
                    }
                }
                None
            },
        }
    }

    fn mark_run(&mut self, mem: &mut [u64], start: usize, n: usize, zeroed: bool)
        requires
            old(self).wf(),
            start + n <= old(self)@.len(),
            old(mem)@.len() >= old(self)@.len() * 512,
        ensures
            final(self).wf(),
            final(self).search_index() == old(self).search_index(),
            final(self)@ == set_run(old(self)@, start as int, n as int, PageUse::Used),
            pages_written(old(mem)@, final(mem)@, start as int, n as int, zeroed),
    {
        let mut i: usize = 0;
        while i < n
            invariant
                self.wf(),
                self.search_index() == old(self).search_index(),
                start + n <= self@.len(),
                self@.len() == old(self)@.len(),
                mem@.len() == old(mem)@.len(),
                old(mem)@.len() >= old(self)@.len() * 512,
                0 <= i <= n,
                self@ == set_run(old(self)@, start as int, i as int, PageUse::Used),
                zeroed ==> forall|p: int| start <= p < start + i ==> #[trigger] page_zeroed(mem@, p),
                zeroed ==> forall|w: int|
                    0 <= w < old(mem)@.len() && !(start * 512 <= w < (start + i) * 512) ==> #[trigger] mem@[w]
                        == old(mem)@[w],
                !zeroed ==> mem@ == old(mem)@,
            decreases n - i,
        {
            self.set_use(start + i, PageUse::Used);
            if zeroed {
                proof {
                    assert((start + i + 1) * 512 <= self@.len() * 512) by (nonlinear_arith)
                        requires start + i + 1 <= self@.len();
                }
                let ghost before = mem@;
                zero_page(mem, start + i);
                proof {
                    assert forall|p: int| start <= p < start + i + 1 implies #[trigger] page_zeroed(mem@, p) by {
                        if p < start + i {
                            assert(page_zeroed(before, p));
                            assert forall|w: int| p * 512 <= w < p * 512 + 512 implies #[trigger] mem@[w] == 0 by {
                                assert(w < (start + i) * 512) by (nonlinear_arith)
                                    requires p < start + i, w < p * 512 + 512;
                                assert(before[w] == 0);
                            }
                        }
                    }
                    assert forall|w: int|
                        0 <= w < old(mem)@.len() && !(start * 512 <= w < (start + i + 1) * 512) implies #[trigger] mem@[w]
                            == old(mem)@[w] by {
                        assert((start + i + 1) * 512 == (start + i) * 512 + 512) by (nonlinear_arith);
                    }
                }
            }
            i = i + 1;
            assert(self@ =~= set_run(old(self)@, start as int, i as int, PageUse::Used));
        }
    }

    /// Marks page `page_index` free again.
    pub fn free_page(&mut self, page_index: usize)
        requires
            old(self).wf(),
            page_index < old(self)@.len(),
            old(self)@[page_index as int] != PageUse::Free,
        ensures
            final(self).wf(),
            final(self)@ == old(self)@.update(page_index as int, PageUse::Free),
            final(self).search_index() == old(self).search_index(),
    {
        self.set_use(page_index, PageUse::Free);
    }
}

/// Freeing the page that was just taken gives back the map it was taken
/// from: taking marks a free page used, freeing marks it free.
pub proof fn lemma_take_free(s: Seq<PageUse>, i: int)
    requires
        0 <= i < s.len(),
        s[i] == PageUse::Free,
    ensures
        s.update(i, PageUse::Used)[i] != PageUse::Free,
        s.update(i, PageUse::Used).update(i, PageUse::Free) == s,
{
    assert(s.update(i, PageUse::Used).update(i, PageUse::Free) =~= s);
}

} // verus!
