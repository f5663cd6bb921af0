//! Concatenation and splitting of whole trees, and positional access.
use vstd::prelude::*;

use crate::node::{
    flat, lemma_flat_at, lemma_flat_concat, lemma_flat_one, lemma_run_update,
    lemma_run_wf_concat, lemma_run_wf_sub, lemma_tree_run, lemma_tree_wf, run_wf, Node, Tree,
};

verus! {

impl<T> Node<T> {
    /// Puts `other`, no taller than `self`, before the contents of `self`,
    /// descending the leftmost path to the height of `other`.
    pub(crate) fn prepend(&mut self, other: Node<T>)
        requires
            old(self).wf(),
            other.wf(),
            old(self).height() >= other.height(),
            old(self).view().len() + other.view().len() <= usize::MAX,
        ensures
            final(self).wf(),
            final(self).height() == old(self).height(),
            final(self).view() == other.view() + old(self).view(),
        decreases old(self).height(),
    {
        let ghost h = self.height();
        match self.depth_cmp(&other) {
            core::cmp::Ordering::Less => {},
            core::cmp::Ordering::Equal => self.prepend_equal_level(other),
            core::cmp::Ordering::Greater => {
                match self {
                    Node::Leaf(_) => {},
                    Node::Tree(x) => {
                        let ghost c = x.children@;
                        let ghost ov = other.view();
                        proof {
                            lemma_tree_run(*x);
                            lemma_flat_at(c, 0);
                        }
                        x.total_len = x.total_len + other.len();
                        x.children[0].prepend(other);
                        proof {
                            let n = x.children@;
                            assert(n == c.update(0, n[0]));
                            lemma_run_update(c, 0, n[0], (h - 1) as nat);
                            assert(c.subrange(0, 0) =~= Seq::<Node<T>>::empty());
                            assert(flat(c.subrange(0, 0)) == Seq::<T>::empty());
                            assert(flat(n) =~= ov + flat(c));
                            lemma_tree_wf(*x, h);
                        }
                    },
                }
                self.cleanup(0);
            },
        }
    }

    /// Appends `other` after the contents of `self`. The result is as tall as
    /// the taller of the two; its root may be left overfull.
    pub(crate) fn extend(&mut self, other: Node<T>)
        requires
            old(self).wf(),
            other.wf(),
            old(self).view().len() + other.view().len() <= usize::MAX,
        ensures
            final(self).wf(),
            final(self).height() == if old(self).height() >= other.height() {
                old(self).height()
            } else {
                other.height()
            },
            final(self).view() == old(self).view() + other.view(),
        decreases old(self).height(),
    {
        let ghost h = self.height();
        match self.depth_cmp(&other) {
            core::cmp::Ordering::Less => {
                let mut left = Node::Leaf(Vec::new());
                core::mem::swap(self, &mut left);
                let mut right = other;
                right.prepend(left);
                right.cleanup(0);
                *self = right;
            },
            core::cmp::Ordering::Equal => {
                self.extend_equal_level(other);
            },
            core::cmp::Ordering::Greater => {
                match self {
                    Node::Leaf(_) => {},
                    Node::Tree(x) => {
                        let ghost c = x.children@;
                        let ghost ov = other.view();
                        proof {
                            lemma_tree_run(*x);
                            assert(x.children.len() == x.children@.len());
                        }
                        x.total_len = x.total_len + other.len();
                        let last = x.children.len() - 1;
                        x.children[last].extend(other);
                        proof {
                            let n = x.children@;
                            let k = last as int;
                            assert(n == c.update(k, n[k]));
                            lemma_run_update(c, k, n[k], (h - 1) as nat);
                            assert(c.subrange(k + 1, c.len() as int) =~= Seq::<Node<T>>::empty());
                            assert(flat(c.subrange(k + 1, c.len() as int)) == Seq::<T>::empty());
                            assert(flat(n) =~= flat(c) + ov);
                            lemma_tree_wf(*x, h);
                        }
                    },
                }
                let n = self.children_count();
                self.cleanup(n - 1);
            },
        }
    }
}

impl<T> Node<T> {
    /// Keeps the first `i` elements in `self` and returns the rest. A cut
    /// strictly inside keeps both parts at the original height.
    #[verifier::rlimit(50)]
    pub(crate) fn split_off(&mut self, i: usize) -> (r: Node<T>)
        requires
            old(self).wf(),
            i <= old(self).view().len(),
        ensures
            final(self).wf(),
            r.wf(),
            final(self).view() == old(self).view().subrange(0, i as int),
            r.view() == old(self).view().subrange(i as int, old(self).view().len() as int),
            0 < i < old(self).view().len() ==> final(self).height() == old(self).height()
                && r.height() == old(self).height(),
            i == 0 ==> r.height() == old(self).height(),
            i == old(self).view().len() ==> final(self).height() == old(self).height(),
        decreases old(self).height(),
    {
        let ghost h = self.height();
        let ghost v = self.view();
        if let Node::Leaf(x) = self {
            let r = Node::Leaf(x.split_off(i));
            return r;
        }
        if i == 0 {
            proof {
                self.lemma_len_ge_count(h);
            }
            let mut r = Node::Leaf(Vec::new());
            core::mem::swap(self, &mut r);
            assert(v.subrange(0, 0) =~= Seq::<T>::empty());
            assert(v.subrange(0, v.len() as int) =~= v);
            return r;
        }
        let orig_len = self.len();
        if i == orig_len {
            assert(v.subrange(0, i as int) =~= v);
            assert(v.subrange(i as int, i as int) =~= Seq::<T>::empty());
            return Node::Leaf(Vec::new());
        }
        let right_children = match self {
            Node::Leaf(_) => Vec::new(),
            Node::Tree(tree) => {
                let ghost c = tree.children@;
                proof {
                    lemma_tree_run(*tree);
                    assert(tree.children.len() == tree.children@.len());
                    assert(c.subrange(0, 0) =~= Seq::<Node<T>>::empty());
                    assert(flat(c.subrange(0, 0)) == Seq::<T>::empty());
                }
                let mut child_i: usize = 0;
                let mut before: usize = 0;
                loop
                    invariant
                        tree.children@ == c,
                        run_wf(c, (h - 1) as nat),
                        forall|j: int|
                            0 <= j < c.len() ==> (#[trigger] c[j]).height() == h - 1
                                && c[j].wf(),
                        flat(c) == v,
                        v.len() <= usize::MAX,
                        0 < i < v.len(),
                        child_i < c.len(),
                        before == flat(c.subrange(0, child_i as int)).len(),
                        before <= i,
                        c.len() <= usize::MAX,
                    ensures
                        child_i < c.len(),
                        before == flat(c.subrange(0, child_i as int)).len(),
                        before == i || i < before + c[child_i as int].view().len(),
                    decreases c.len() - child_i,
                {
                    if before == i {
                        break;
                    }
                    let ghost k = child_i as int;
                    proof {
                        let p = c.subrange(0, k + 1);
                        assert(p.drop_last() =~= c.subrange(0, k));
                        assert(c =~= p + c.subrange(k + 1, c.len() as int));
                        lemma_flat_concat(p, c.subrange(k + 1, c.len() as int));
                    }
                    let l = tree.children[child_i].len();
                    if i < before + l {
                        break;
                    }
                    before = before + l;
                    child_i = child_i + 1;
                    proof {
                        if child_i == c.len() {
                            assert(c.subrange(0, child_i as int) =~= c);
                        }
                    }
                }
                let ghost k = child_i as int;
                proof {
                    lemma_flat_at(c, k);
                    assert(c =~= c.subrange(0, k) + c.subrange(k, c.len() as int));
                    lemma_flat_concat(c.subrange(0, k), c.subrange(k, c.len() as int));
                }
                if before == i {
                    let right = tree.children.split_off(child_i);
                    tree.total_len = i;
                    proof {
                        assert(k > 0);
                        lemma_run_wf_sub(c, 0, k, (h - 1) as nat);
                        lemma_run_wf_sub(c, k, c.len() as int, (h - 1) as nat);
                        assert(tree.children@[0] == c[0]);
                        lemma_tree_wf(*tree, h);
                        assert(v.subrange(0, i as int) =~= flat(c.subrange(0, k)));
                        assert(v.subrange(i as int, v.len() as int) =~= flat(right@));
                    }
                    right
                } else {
                    let mut right = tree.children.split_off(child_i + 1);
                    let ghost ch = c[k];
                    let l = tree.children[child_i].len();
                    tree.total_len = before + l;
                    let extra = tree.children[child_i].split_off(i - before);
                    tree.total_len = tree.total_len - extra.len();
                    let ghost ch_l = tree.children@[k];
                    right.insert(0, extra);
                    proof {
                        let pre = c.subrange(0, k);
                        let post = c.subrange(k + 1, c.len() as int);
                        assert(tree.children@ =~= pre + seq![ch_l]);
                        assert(right@ =~= seq![extra] + post);
                        assert(run_wf(seq![ch_l], (h - 1) as nat)) by {
                            assert(seq![ch_l][0] == ch_l);
                        }
                        assert(run_wf(seq![extra], (h - 1) as nat)) by {
                            assert(seq![extra][0] == extra);
                        }
                        lemma_run_wf_sub(c, 0, k, (h - 1) as nat);
                        lemma_run_wf_sub(c, k + 1, c.len() as int, (h - 1) as nat);
                        lemma_run_wf_concat(pre, seq![ch_l], (h - 1) as nat);
                        lemma_run_wf_concat(seq![extra], post, (h - 1) as nat);
                        lemma_flat_concat(pre, seq![ch_l]);
                        lemma_flat_concat(seq![extra], post);
                        lemma_flat_one(ch_l);
                        lemma_flat_one(extra);
                        assert(flat(tree.children@) =~= v.subrange(0, i as int));
                        assert(flat(right@) =~= v.subrange(i as int, v.len() as int));
                        if k == 0 {
                            assert(tree.children@[0] == ch_l);
                        } else {
                            assert(tree.children@[0] == c[0]);
                        }
                        lemma_tree_wf(*tree, h);
                    }
                    right
                }
            },
        };
        let mut right = Node::Tree(Tree { children: right_children, total_len: orig_len - i });
        proof {
            let rc = right->Tree_0.children@;
            assert(rc[0].wf_at((h - 1) as nat));
            lemma_tree_wf(right->Tree_0, h);
        }
        right.cleanup(0);
        let n = self.children_count();
        self.cleanup(n - 1);
        right
    }
}

impl<T> Node<T> {
    /// The sole element of a one-element tree.
    pub(crate) fn into_only(self) -> (r: T)
        requires
            self.wf(),
            self.view().len() == 1,
        ensures
            r == self.view()[0],
        decreases self,
    {
        let ghost old_self = self;
        match self {
            Node::Leaf(x) => {
                let mut x = x;
                x.pop().unwrap()
            },
            Node::Tree(t) => {
                let ghost c = t.children@;
                proof {
                    lemma_tree_run(t);
                    old_self.lemma_len_ge_count(old_self.height());
                    assert(c =~= seq![c[0]]);
                    lemma_flat_one(c[0]);
                }
                let mut t = t;
                let child = t.children.pop().unwrap();
                assert(child == c[0]);
                child.into_only()
            },
        }
    }
}

/// Finds the child of a run that holds offset `i`, and the number of
/// elements before that child.
pub(crate) fn locate<T>(children: &Vec<Node<T>>, i: usize, Ghost(h): Ghost<nat>) -> (r: (
    usize,
    usize,
))
    requires
        run_wf(children@, h),
        i < flat(children@).len(),
        flat(children@).len() <= usize::MAX,
    ensures
        r.0 < children@.len(),
        r.1 == flat(children@.subrange(0, r.0 as int)).len(),
        r.1 <= i < r.1 + children@[r.0 as int].view().len(),
        flat(children@) == flat(children@.subrange(0, r.0 as int)) + children@[r.0 as int].view()
            + flat(children@.subrange(r.0 + 1, children@.len() as int)),
{
    let ghost c = children@;
    proof {
        assert(children.len() == c.len());
        assert(c.subrange(0, 0) =~= Seq::<Node<T>>::empty());
        assert(flat(c.subrange(0, 0)) == Seq::<T>::empty());
    }
    let mut child_i: usize = 0;
    let mut j: usize = 0;
    loop
        invariant
            children@ == c,
            run_wf(c, h),
            i < flat(c).len() <= usize::MAX,
            c.len() <= usize::MAX,
            child_i < c.len(),
            j == flat(c.subrange(0, child_i as int)).len(),
            j <= i,
        ensures
            child_i < c.len(),
            j == flat(c.subrange(0, child_i as int)).len(),
            j <= i < j + c[child_i as int].view().len(),
        decreases c.len() - child_i,
    {
        let ghost k = child_i as int;
        proof {
            let p = c.subrange(0, k + 1);
            assert(p.drop_last() =~= c.subrange(0, k));
            assert(c =~= p + c.subrange(k + 1, c.len() as int));
            lemma_flat_concat(p, c.subrange(k + 1, c.len() as int));
            assert(c[k].wf_at(h));
            c[k].lemma_height(h);
        }
        let l = children[child_i].len();
        if i - j < l {
            break;
        }
        j = j + l;
        child_i = child_i + 1;
        proof {
            if child_i == c.len() {
                assert(c.subrange(0, child_i as int) =~= c);
            }
        }
    }
    proof {
        lemma_flat_at(c, child_i as int);
    }
    (child_i, j)
}

impl<T> Node<T> {
    /// Puts `x` at offset `i` and returns the element that stood there.
    pub(crate) fn set(&mut self, i: usize, x: T) -> (r: T)
        requires
            old(self).wf(),
            i < old(self).view().len(),
        ensures
            r == old(self).view()[i as int],
            final(self).wf(),
            final(self).height() == old(self).height(),
            final(self).view() == old(self).view().update(i as int, x),
            final(self).is_tree() == old(self).is_tree(),
            final(self).count() == old(self).count(),
        decreases old(self).height(),
    {
        let ghost h = self.height();
        match self {
            Node::Leaf(v) => {
                let mut x = x;
                core::mem::swap(&mut v[i], &mut x);
                x
            },
            Node::Tree(t) => {
                let ghost c = t.children@;
                let ghost xv = x;
                proof {
                    lemma_tree_run(*t);
                }
                let (k, before) = locate(&t.children, i, Ghost((h - 1) as nat));
                let r = t.children[k].set(i - before, x);
                proof {
                    let n = t.children@;
                    lemma_run_update(c, k as int, n[k as int], (h - 1) as nat);
                    assert(n == c.update(k as int, n[k as int]));
                    assert(flat(n) =~= flat(c).update(i as int, xv));
                    lemma_tree_wf(*t, h);
                }
                r
            },
        }
    }
}

} // verus!
