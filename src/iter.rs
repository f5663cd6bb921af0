use vstd::prelude::*;

use crate::MagicList;

verus! {

/// Hands out the elements of a sequence by value, from either end.
pub struct IntoIter<T> {
    list: MagicList<T>,
}

impl<T> View for IntoIter<T> {
    type V = Seq<T>;

    /// The elements not yet handed out.
    closed spec fn view(&self) -> Seq<T> {
        self.list@
    }
}

impl<T> IntoIter<T> {
    pub closed spec fn wf(&self) -> bool {
        self.list.wf()
    }

    /// Removes and returns the first remaining element.
    pub fn next(&mut self) -> (r: Option<T>)
        requires
            old(self).wf(),
        ensures
            final(self).wf(),
            old(self)@.len() == 0 ==> r is None && final(self)@ == old(self)@,
            old(self)@.len() > 0 ==> r == Some(old(self)@[0]) && final(self)@ == old(self)@.subrange(
                1,
                old(self)@.len() as int,
            ),
    {
        if self.list.is_empty() {
            None
        } else {
            let x = self.list.remove(0);
            assert(self@ =~= old(self)@.subrange(1, old(self)@.len() as int));
            Some(x)
        }
    }

    /// Removes and returns the last remaining element.
    pub fn next_back(&mut self) -> (r: Option<T>)
        requires
            old(self).wf(),
        ensures
            final(self).wf(),
            old(self)@.len() == 0 ==> r is None && final(self)@ == old(self)@,
            old(self)@.len() > 0 ==> r == Some(old(self)@.last()) && final(self)@ == old(
                self,
            )@.drop_last(),
    {
        if self.list.is_empty() {
            None
        } else {
            Some(self.list.pop())
        }
    }

    /// The number of remaining elements, as a lower and an upper bound.
    pub fn size_hint(&self) -> (r: (usize, Option<usize>))
        requires
            self.wf(),
        ensures
            r.0 == self@.len(),
            r.1 == Some(self@.len() as usize),
    {
        (self.list.len(), Some(self.list.len()))
    }

    /// The number of remaining elements.
    pub fn len(&self) -> (r: usize)
        requires
            self.wf(),
        ensures
            r == self@.len(),
    {
        self.list.len()
    }
}

/// Reads the elements of a sequence through a window `[i, j)` that narrows
/// from either end.
pub struct Iter<'a, T> {
    list: &'a MagicList<T>,
    i: usize,
    j: usize,
}

impl<'a, T> View for Iter<'a, T> {
    type V = Seq<T>;

    /// The elements not yet read.
    closed spec fn view(&self) -> Seq<T> {
        self.list@.subrange(self.i as int, self.j as int)
    }
}

impl<'a, T> Iter<'a, T> {
    /// The whole sequence being read.
    pub closed spec fn source(&self) -> Seq<T> {
        self.list@
    }

    /// Position of the next element read from the front.
    pub closed spec fn front(&self) -> int {
        self.i as int
    }

    /// One past the position of the next element read from the back.
    pub closed spec fn back(&self) -> int {
        self.j as int
    }

    pub closed spec fn wf(&self) -> bool {
        &&& self.list.wf()
        &&& self.i <= self.j <= self.list@.len()
    }

    /// The elements not yet read are those of the source between `front`
    /// and `back`.
    pub proof fn lemma_window(&self)
        requires
            self.wf(),
        ensures
            0 <= self.front() <= self.back() <= self.source().len(),
            self@ == self.source().subrange(self.front(), self.back()),
            self@.len() == self.back() - self.front(),
    {
    }

    /// Reads the element at the front of the window and moves past it.
    pub fn next(&mut self) -> (r: Option<&'a T>)
        requires
            old(self).wf(),
        ensures
            final(self).wf(),
            final(self).source() == old(self).source(),
            final(self).back() == old(self).back(),
            r == if old(self)@.len() == 0 {
                None
            } else {
                Some(&old(self)@[0])
            },
            old(self).front() == old(self).back() ==> r is None && *final(self) == *old(self),
            old(self)@.len() == 0 ==> r is None && final(self).front() == old(self).front(),
            old(self)@.len() > 0 ==> r == Some(&old(self).source()[old(self).front()])
                && final(self).front() == old(self).front() + 1,
            final(self)@ == if old(self)@.len() == 0 {
                old(self)@
            } else {
                old(self)@.subrange(1, old(self)@.len() as int)
            },
    {
        if self.i == self.j {
            None
        } else {
            let x = self.list.index(self.i);
            self.i = self.i + 1;
            assert(self@ =~= old(self)@.subrange(1, old(self)@.len() as int));
            Some(x)
        }
    }

    /// Reads the element at the back of the window and moves before it.
    pub fn next_back(&mut self) -> (r: Option<&'a T>)
        requires
            old(self).wf(),
        ensures
            final(self).wf(),
            final(self).source() == old(self).source(),
            final(self).front() == old(self).front(),
            r == if old(self)@.len() == 0 {
                None
            } else {
                Some(&old(self)@.last())
            },
            old(self).front() == old(self).back() ==> r is None && *final(self) == *old(self),
            old(self)@.len() == 0 ==> r is None && final(self).back() == old(self).back(),
            old(self)@.len() > 0 ==> r == Some(&old(self).source()[old(self).back() - 1])
                && final(self).back() == old(self).back() - 1,
            final(self)@ == if old(self)@.len() == 0 {
                old(self)@
            } else {
                old(self)@.drop_last()
            },
    {
        if self.i == self.j {
            None
        } else {
            self.j = self.j - 1;
            let x = self.list.index(self.j);
            assert(self@ =~= old(self)@.drop_last());
            Some(x)
        }
    }

    /// The number of elements left in the window, as a lower and an upper
    /// bound.
    pub fn size_hint(&self) -> (r: (usize, Option<usize>))
        requires
            self.wf(),
        ensures
            r.0 == self@.len(),
            r.1 == Some(self@.len() as usize),
    {
        (self.j - self.i, Some(self.j - self.i))
    }

    /// The number of elements left in the window.
    pub fn len(&self) -> (r: usize)
        requires
            self.wf(),
        ensures
            r == self@.len(),
    {
        self.j - self.i
    }
}

impl<T> MagicList<T> {
    /// Reads the elements in order, from either end.
    pub fn iter(&self) -> (r: Iter<'_, T>)
        requires
            self.wf(),
        ensures
            r.wf(),
            r.source() == self@,
            r.front() == 0,
            r.back() == self@.len(),
            r@ == self@,
    {
        let r = Iter { list: self, i: 0, j: self.len() };
        assert(r@ =~= self@);
        r
    }

    /// Hands out the elements by value, from either end.
    pub fn into_iter(self) -> (r: IntoIter<T>)
        requires
            self.wf(),
        ensures
            r.wf(),
            r@ == self@,
    {
        IntoIter { list: self }
    }

    /// The sequence of the elements of `v`, in order, built by pushing
    /// them one after another.
    pub fn from_vec(v: Vec<T>) -> (r: MagicList<T>)
        ensures
            r.wf(),
            r@ == v@,
    {
        let ghost all = v@;
        let mut v = v;
        proof {
            assert(v.len() == v@.len());
        }
        let mut reversed: Vec<T> = Vec::new();
        while v.len() > 0
            invariant
                all.len() <= usize::MAX,
                v@.len() <= all.len(),
                v@ == all.subrange(0, v@.len() as int),
                reversed@ == all.subrange(v@.len() as int, all.len() as int).reverse(),
            decreases v@.len(),
        {
            let ghost k = v@.len() - 1;
            let x = v.pop().unwrap();
            assert(x == all[k]);
            reversed.push(x);
            assert(reversed@ =~= all.subrange(k, all.len() as int).reverse());
        }
        let mut list = MagicList::default();
        while reversed.len() > 0
            invariant
                list.wf(),
                all.len() <= usize::MAX,
                list@.len() <= all.len(),
                list@ == all.subrange(0, list@.len() as int),
                reversed@ == all.subrange(list@.len() as int, all.len() as int).reverse(),
            decreases reversed@.len(),
        {
            let ghost k = list@.len() as int;
            let x = reversed.pop().unwrap();
            assert(x == all[k]);
            list.push(x);
            assert(list@ =~= all.subrange(0, k + 1));
            assert(reversed@ =~= all.subrange(k + 1, all.len() as int).reverse());
        }
        assert(list@ =~= all);
        list
    }
}

} // verus!
