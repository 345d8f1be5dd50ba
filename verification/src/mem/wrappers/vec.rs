use vstd::prelude::*;

verus! {

/// A layout of `size` bytes aligned to `align` can be described: the size
/// rounded up to the alignment does not pass `isize::MAX`.
pub open spec fn layout_fits(size: int, align: int) -> bool {
    size + align - 1 <= isize::MAX
}

/// A growable array that keeps its own capacity: nothing is reserved
/// until the first push, which reserves 4 elements; each later push into
/// a full array doubles the capacity.
pub struct Vec<T> {
    items: std::vec::Vec<T>,
    cap: usize,
}

impl<T> View for Vec<T> {
    type V = Seq<T>;

    closed spec fn view(&self) -> Seq<T> {
        self.items@
    }
}

impl<T> Vec<T> {
    /// The number of elements there is room for.
    pub closed spec fn spec_capacity(&self) -> nat {
        self.cap as nat
    }

    /// The elements fit in the capacity.
    pub open spec fn wf(&self) -> bool {
        self@.len() <= self.spec_capacity()
    }

    /// The capacity after pushing onto `self`.
    pub open spec fn capacity_after_push(&self) -> nat {
        if self@.len() < self.spec_capacity() {
            self.spec_capacity()
        } else if self.spec_capacity() == 0 {
            4
        } else {
            2 * self.spec_capacity()
        }
    }

    pub fn new() -> (r: Self)
        ensures
            r.wf(),
            r@ == Seq::<T>::empty(),
            r.spec_capacity() == 0,
    {
        Vec { items: std::vec::Vec::new(), cap: 0 }
    }

    /// An empty array with room for `cap` elements.
    pub fn with_capacity(cap: usize) -> (r: Self)
        requires
            cap == 0 || layout_fits(
                (vstd::layout::size_of::<T>() * cap) as int,
                vstd::layout::align_of::<T>() as int,
            ),
        ensures
            r.wf(),
            r@ == Seq::<T>::empty(),
            r.spec_capacity() == cap,
    {
        if cap == 0 {
            Self::new()
        } else {
            Vec { items: std::vec::Vec::new(), cap }
        }
    }

    /// Appends `value`, growing the capacity first when the array is full.
    pub fn push(&mut self, value: T)
        requires
            old(self).wf(),
            old(self)@.len() >= old(self).spec_capacity() ==> old(self).capacity_after_push()
                <= usize::MAX && layout_fits(
                (vstd::layout::size_of::<T>() * old(self).capacity_after_push()) as int,
                vstd::layout::align_of::<T>() as int,
            ),
        ensures
            final(self).wf(),
            final(self)@ == old(self)@.push(value),
            final(self).spec_capacity() == old(self).capacity_after_push(),
    {
        if self.items.len() >= self.cap {
            if self.cap == 0 {
                self.cap = 4;
            } else {
                self.cap = self.cap * 2;
            }
        }
        self.items.push(value);
    }

    /// Removes and returns the last element.
    pub fn pop(&mut self) -> (r: Option<T>)
        requires
            old(self).wf(),
        ensures
            final(self).wf(),
            final(self).spec_capacity() == old(self).spec_capacity(),
            old(self)@.len() == 0 ==> r is None && final(self)@ == old(self)@,
            old(self)@.len() > 0 ==> r == Some(old(self)@.last()) && final(self)@ == old(self)@.drop_last(),
    {
        self.items.pop()
    }

    /// The last element.
    pub fn peek(&self) -> (r: Option<&T>)
        ensures
            self@.len() == 0 ==> r is None,
            self@.len() > 0 ==> r == Some(&self@.last()),
    {
        let n = self.items.len();
        if n == 0 {
            None
        } else {
            Some(&self.items[n - 1])
        }
    }

    /// The last element, to change in place.
    pub fn peek_mut(&mut self) -> (r: Option<&mut T>)
        requires
            old(self).wf(),
        ensures
            old(self)@.len() == 0 ==> r is None && final(self)@ == old(self)@,
            old(self)@.len() > 0 ==> (r matches Some(x) && *x == old(self)@.last()
                && final(self)@ == old(self)@.update(old(self)@.len() - 1, *final(x))),
            final(self).spec_capacity() == old(self).spec_capacity(),
    {
        let n = self.items.len();
        if n == 0 {
            None
        } else {
            Some(&mut self.items[n - 1])
        }
    }

    /// Element `i`.
    pub fn get(&self, i: usize) -> (r: Option<&T>)
        ensures
            i < self@.len() ==> r == Some(&self@[i as int]),
            i >= self@.len() ==> r is None,
    {
        if i < self.items.len() {
            Some(&self.items[i])
        } else {
            None
        }
    }

    /// Element `i`, to change in place.
    pub fn get_mut(&mut self, i: usize) -> (r: Option<&mut T>)
        requires
            old(self).wf(),
        ensures
            i >= old(self)@.len() ==> r is None && final(self)@ == old(self)@,
            i < old(self)@.len() ==> (r matches Some(x) && *x == old(self)@[i as int]
                && final(self)@ == old(self)@.update(i as int, *final(x))),
            final(self).spec_capacity() == old(self).spec_capacity(),
    {
        if i < self.items.len() {
            Some(&mut self.items[i])
        } else {
            None
        }
    }

    pub fn len(&self) -> (r: usize)
        ensures
            r == self@.len(),
    {
        self.items.len()
    }

    pub fn capacity(&self) -> (r: usize)
        ensures
            r == self.spec_capacity(),
    {
        self.cap
    }

    /// The elements as a mutable slice; the elements are what the slice
    /// holds when it is dropped.
    pub fn as_mut_slice(&mut self) -> (r: &mut [T])
        ensures
            r@ == old(self)@,
            final(self)@ == final(r)@,
            final(self).spec_capacity() == old(self).spec_capacity(),
    {
        self.items.as_mut_slice()
    }

    /// The elements as a slice.
    pub fn as_slice(&self) -> (r: &[T])
        ensures
            r@ == self@,
    {
        self.items.as_slice()
    }
}

/// Popping right after a push gives back the pushed value and the
/// elements as they were.
pub proof fn lemma_push_pop<T>(s: Seq<T>, v: T)
    ensures
        s.push(v).len() > 0,
        s.push(v).last() == v,
        s.push(v).drop_last() == s,
{
    assert(s.push(v).drop_last() =~= s);
}

} // verus!
