//! An ordered sequence backed by a height-balanced tree of variable arity,
//! with positional access, insertion and removal, and splitting and
//! concatenation in logarithmic time.
use vstd::prelude::*;

mod iter;
pub mod laws;
mod node;
mod rebalance;
mod structure;

pub use iter::{IntoIter, Iter};

use node::{Node, Tree};

verus! {

/// An ordered sequence of elements.
#[derive(Debug)]
pub struct MagicList<T> {
    root: Node<T>,
}

impl<T> View for MagicList<T> {
    type V = Seq<T>;

    closed spec fn view(&self) -> Seq<T> {
        self.root.view()
    }
}

impl<T> Default for MagicList<T> {
    fn default() -> (r: Self)
        ensures
            r.wf(),
            r@ == Seq::<T>::empty(),
    {
        MagicList { root: Node::Leaf(Vec::new()) }
    }
}

impl<T> MagicList<T> {
    /// The tree beneath is well formed (cached lengths are exact and every
    /// leaf lies at the same depth) and in canonical form: the root is a leaf
    /// or has at least two children.
    pub closed spec fn wf(&self) -> bool {
        &&& self.root.wf()
        &&& (!self.root.is_tree() || self.root.count() >= 2)
    }

    /// Appends the elements of `other` after those of `self`.
    pub fn extend(&mut self, other: Self)
        requires
            old(self).wf(),
            other.wf(),
            old(self)@.len() + other@.len() <= usize::MAX,
        ensures
            final(self).wf(),
            final(self)@ == old(self)@ + other@,
    {
        self.root.extend(other.root);
        if self.root.is_overfull() {
            let ghost h = self.root.height();
            let len = self.root.len();
            let right = self.root.split_off_half();
            let mut left = Node::Leaf(Vec::new());
            core::mem::swap(&mut self.root, &mut left);
            let ghost l = left;
            let mut children = Vec::new();
            children.push(left);
            children.push(right);
            assert(children@ =~= seq![l, right]);
            let t = Tree { total_len: len, children };
            proof {
                node::lemma_flat_two(l, right);
                node::lemma_run_two(l, right, h);
                node::lemma_tree_wf(t, h + 1);
            }
            self.root = Node::Tree(t);
        }
        self.make_canon();
    }

    /// The elements of `self` followed by those of `right`.
    pub fn concat(self, right: Self) -> (r: Self)
        requires
            self.wf(),
            right.wf(),
            self@.len() + right@.len() <= usize::MAX,
        ensures
            r.wf(),
            r@ == self@ + right@,
    {
        let mut s = self;
        s.extend(right);
        s
    }

    pub fn len(&self) -> (r: usize)
        requires
            self.wf(),
        ensures
            r == self@.len(),
    {
        self.root.len()
    }

    pub fn is_empty(&self) -> (r: bool)
        requires
            self.wf(),
        ensures
            r == (self@.len() == 0),
    {
        self.len() == 0
    }

    /// Appends `x` at the end.
    pub fn push(&mut self, x: T)
        requires
            old(self).wf(),
            old(self)@.len() < usize::MAX,
        ensures
            final(self).wf(),
            final(self)@ == old(self)@.push(x),
    {
        let mut one = Vec::new();
        one.push(x);
        let single = MagicList { root: Node::Leaf(one) };
        assert(single@ =~= seq![x]);
        self.extend(single);
    }

    fn make_canon(&mut self)
        requires
            old(self).root.wf(),
        ensures
            final(self).wf(),
            final(self)@ == old(self)@,
    {
        let mut root = Node::Leaf(Vec::new());
        core::mem::swap(&mut self.root, &mut root);
        self.root = root.canon();
    }

    fn canon(self) -> (r: Self)
        requires
            self.root.wf(),
        ensures
            r.wf(),
            r@ == self@,
    {
        MagicList { root: self.root.canon() }
    }

    /// Inserts `x` so that it stands at position `at`.
    pub fn insert(&mut self, at: usize, x: T)
        requires
            old(self).wf(),
            at <= old(self)@.len(),
            old(self)@.len() < usize::MAX,
        ensures
            final(self).wf(),
            final(self)@ == old(self)@.insert(at as int, x),
    {
        let ghost v = self@;
        let right = self.root.split_off(at).canon();
        self.make_canon();
        self.push(x);
        self.extend(MagicList { root: right });
        assert(self@ =~= v.insert(at as int, x));
    }

    /// Keeps the first `i` elements and returns the others.
    pub fn split_off(&mut self, i: usize) -> (r: Self)
        requires
            old(self).wf(),
            i <= old(self)@.len(),
        ensures
            final(self).wf(),
            r.wf(),
            final(self)@ == old(self)@.subrange(0, i as int),
            r@ == old(self)@.subrange(i as int, old(self)@.len() as int),
    {
        let right = MagicList { root: self.root.split_off(i).canon() };
        self.make_canon();
        right
    }

    /// The first `i` elements and the others, as two sequences.
    pub fn split_at(self, i: usize) -> (r: (Self, Self))
        requires
            self.wf(),
            i <= self@.len(),
        ensures
            r.0.wf(),
            r.1.wf(),
            r.0@ == self@.subrange(0, i as int),
            r.1@ == self@.subrange(i as int, self@.len() as int),
    {
        let mut s = self;
        let right = s.split_off(i);
        (s.canon(), right.canon())
    }

    /// Removes and returns the element at position `i`.
    pub fn remove(&mut self, i: usize) -> (r: T)
        requires
            old(self).wf(),
            i < old(self)@.len(),
        ensures
            final(self).wf(),
            r == old(self)@[i as int],
            final(self)@ == old(self)@.remove(i as int),
    {
        let ghost v = self@;
        proof {
            self.root.lemma_len_bound();
        }
        let right = self.split_off(i + 1);
        let mid = self.split_off(i);
        self.extend(right);
        assert(self@ =~= v.remove(i as int));
        mid.root.canon().into_only()
    }

    /// Removes and returns the last element.
    pub fn pop(&mut self) -> (r: T)
        requires
            old(self).wf(),
            old(self)@.len() > 0,
        ensures
            final(self).wf(),
            r == old(self)@.last(),
            final(self)@ == old(self)@.drop_last(),
    {
        let i = self.len() - 1;
        let r = self.remove(i);
        assert(self@ =~= old(self)@.drop_last());
        r
    }
}

impl<T> MagicList<T> {
    /// The element at position `index`.
    pub fn index(&self, index: usize) -> (r: &T)
        requires
            self.wf(),
            index < self@.len(),
        ensures
            *r == self@[index as int],
    {
        let mut i = index;
        let mut node = &self.root;
        loop
            invariant
                node.wf(),
                i < node.view().len(),
                node.view()[i as int] == self@[index as int],
            decreases node.height(),
        {
            match node {
                Node::Leaf(x) => {
                    return &x[i];
                },
                Node::Tree(x) => {
                    proof {
                        node::lemma_tree_run(*x);
                    }
                    let ghost h = node.height();
                    let (child_i, j) = structure::locate(&x.children, i, Ghost((h - 1) as nat));
                    i = i - j;
                    node = &x.children[child_i];
                },
            }
        }
    }

    /// Writes `x` at position `index` and returns the element that stood
    /// there; the other elements stay as they are.
    pub fn set(&mut self, index: usize, x: T) -> (r: T)
        requires
            old(self).wf(),
            index < old(self)@.len(),
        ensures
            r == old(self)@[index as int],
            final(self).wf(),
            final(self)@ == old(self)@.update(index as int, x),
    {
        self.root.set(index, x)
    }
}

} // verus!

