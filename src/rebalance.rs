//! Local tree surgery: joining and splitting same-height nodes, moving one
//! element or child between siblings, and restoring a child's branching bound.
use vstd::prelude::*;

use crate::node::{
    flat, lemma_flat_concat, lemma_flat_one, lemma_flat_pair, lemma_flat_two, lemma_pair_block,
    lemma_run_replace, lemma_run_two, lemma_run_wf_concat, lemma_run_wf_sub, lemma_tree_run,
    lemma_tree_wf, run_wf, Node, Tree, B, lemma_bounded_splice, run_bounded,
};

verus! {

impl<T> Node<T> {
    /// Appends `other`, of the same height, after the contents of `self`.
    pub(crate) fn extend_equal_level(&mut self, other: Node<T>)
        requires
            old(self).wf(),
            other.wf(),
            old(self).height() == other.height(),
            old(self).view().len() + other.view().len() <= usize::MAX,
        ensures
            final(self).wf(),
            final(self).height() == old(self).height(),
            final(self).view() == old(self).view() + other.view(),
            final(self).count() == old(self).count() + other.count(),
            final(self).is_tree() == old(self).is_tree(),
            other.view().len() == 0 ==> *final(self) == *old(self),
    {
        let ghost h = self.height();
        if other.len() == 0 {
            proof {
                other.lemma_len_ge_count(other.height());
            }
            assert(self.view() + other.view() =~= self.view());
            return;
        }
        match self {
            Node::Leaf(a) => match other {
                Node::Leaf(b) => {
                    let mut b = b;
                    a.append(&mut b);
                },
                Node::Tree(_) => {},
            },
            Node::Tree(a) => match other {
                Node::Leaf(_) => {},
                Node::Tree(b) => {
                    proof {
                        lemma_flat_concat(a.children@, b.children@);
                        lemma_run_wf_concat(a.children@, b.children@, (h - 1) as nat);
                    }
                    a.extend(b);
                },
            },
        }
        proof {
            (*self).lemma_height(h);
        }
    }

    /// Puts `other`, of the same height, before the contents of `self`.
    pub(crate) fn prepend_equal_level(&mut self, other: Node<T>)
        requires
            old(self).wf(),
            other.wf(),
            old(self).height() == other.height(),
            old(self).view().len() + other.view().len() <= usize::MAX,
        ensures
            final(self).wf(),
            final(self).height() == old(self).height(),
            final(self).view() == other.view() + old(self).view(),
            final(self).count() == old(self).count() + other.count(),
            final(self).is_tree() == old(self).is_tree(),
            other.view().len() == 0 ==> *final(self) == *old(self),
    {
        let ghost h = self.height();
        if other.len() == 0 {
            proof {
                other.lemma_len_ge_count(other.height());
            }
            assert(other.view() + self.view() =~= self.view());
            return;
        }
        match self {
            Node::Leaf(a) => match other {
                Node::Leaf(b) => {
                    let mut b = b;
                    b.append(a);
                    core::mem::swap(a, &mut b);
                },
                Node::Tree(_) => {},
            },
            Node::Tree(a) => match other {
                Node::Leaf(_) => {},
                Node::Tree(b) => {
                    proof {
                        lemma_flat_concat(b.children@, a.children@);
                        lemma_run_wf_concat(b.children@, a.children@, (h - 1) as nat);
                    }
                    let mut b = b;
                    a.total_len = a.total_len + b.total_len;
                    b.children.append(&mut a.children);
                    core::mem::swap(&mut a.children, &mut b.children);
                },
            },
        }
        proof {
            (*self).lemma_height(h);
        }
    }

    /// Takes the first element or child out, as a node of the same height.
    pub(crate) fn pop_child_left(&mut self) -> (r: Node<T>)
        requires
            old(self).wf(),
            old(self).count() > 1,
        ensures
            final(self).wf(),
            r.wf(),
            final(self).height() == old(self).height(),
            r.height() == old(self).height(),
            r.view() + final(self).view() == old(self).view(),
            final(self).view().len() > 0,
            r.view().len() > 0,
            r.count() == 1,
            final(self).count() == old(self).count() - 1,
            r.is_tree() == old(self).is_tree(),
            final(self).is_tree() == old(self).is_tree(),
    {
        let ghost h = self.height();
        match self {
            Node::Leaf(x) => {
                let first = x.remove(0);
                let r = Node::Leaf(vec![first]);
                assert(r.view() + x@ =~= old(self).view());
                r
            },
            Node::Tree(x) => {
                let ghost c = x.children@;
                proof {
                    assert(c =~= seq![c[0]] + c.subrange(1, c.len() as int));
                    lemma_flat_concat(seq![c[0]], c.subrange(1, c.len() as int));
                    lemma_flat_one(c[0]);
                    lemma_run_wf_sub(c, 1, c.len() as int, (h - 1) as nat);
                    assert(c[0].wf_at((h - 1) as nat));
                    assert(c[1].wf_at((h - 1) as nat));
                    c[0].lemma_height((h - 1) as nat);
                    c[1].lemma_height((h - 1) as nat);
                }
                let left = x.children.remove(0);
                assert(x.children@ =~= c.subrange(1, c.len() as int));
                let n = left.len();
                x.total_len = x.total_len - n;
                let ghost moved = left;
                let mut one = Vec::new();
                one.push(left);
                assert(one@ =~= seq![moved]);
                let r = Node::Tree(Tree { total_len: n, children: one });
                proof {
                    lemma_flat_one(moved);
                    r.lemma_height(h);
                    (*self).lemma_height(h);
                    (*self).lemma_len_ge_count(h);
                    assert(x.children@[0] == c[1]);
                }
                r
            },
        }
    }

    /// Takes the last element or child out, as a node of the same height.
    pub(crate) fn pop_child_right(&mut self) -> (r: Node<T>)
        requires
            old(self).wf(),
            old(self).count() > 1,
        ensures
            final(self).wf(),
            r.wf(),
            final(self).height() == old(self).height(),
            r.height() == old(self).height(),
            final(self).view() + r.view() == old(self).view(),
            final(self).view().len() > 0,
            r.view().len() > 0,
            r.count() == 1,
            final(self).count() == old(self).count() - 1,
            r.is_tree() == old(self).is_tree(),
            final(self).is_tree() == old(self).is_tree(),
    {
        let ghost h = self.height();
        match self {
            Node::Leaf(x) => {
                let last = x.pop().unwrap();
                let r = Node::Leaf(vec![last]);
                assert(x@ + r.view() =~= old(self).view());
                r
            },
            Node::Tree(x) => {
                let ghost c = x.children@;
                proof {
                    assert(c[c.len() - 1].wf_at((h - 1) as nat));
                    c[c.len() - 1].lemma_height((h - 1) as nat);
                    lemma_run_wf_sub(c, 0, c.len() - 1, (h - 1) as nat);
                }
                let right = x.children.pop().unwrap();
                assert(x.children@ =~= c.drop_last());
                let n = right.len();
                x.total_len = x.total_len - n;
                let ghost moved = right;
                let mut one = Vec::new();
                one.push(right);
                assert(one@ =~= seq![moved]);
                let r = Node::Tree(Tree { total_len: n, children: one });
                proof {
                    lemma_flat_one(moved);
                    r.lemma_height(h);
                    (*self).lemma_height(h);
                    (*self).lemma_len_ge_count(h);
                    assert(x.children@[0] == c[0]);
                }
                r
            },
        }
    }
}

/// The number of elements beneath a run of well-formed siblings.
pub(crate) fn sum_lens<T>(children: &Vec<Node<T>>, Ghost(h): Ghost<nat>) -> (r: usize)
    requires
        run_wf(children@, h),
        flat(children@).len() <= usize::MAX,
    ensures
        r == flat(children@).len(),
{
    let mut total: usize = 0;
    let mut k: usize = 0;
    while k < children.len()
        invariant
            k <= children@.len(),
            run_wf(children@, h),
            flat(children@).len() <= usize::MAX,
            total == flat(children@.subrange(0, k as int)).len(),
        decreases children@.len() - k,
    {
        let ghost c = children@;
        proof {
            assert(c.subrange(0, k + 1).drop_last() =~= c.subrange(0, k as int));
            assert(c =~= c.subrange(0, k + 1) + c.subrange(k + 1, c.len() as int));
            lemma_flat_concat(c.subrange(0, k + 1), c.subrange(k + 1, c.len() as int));
            assert(c[k as int].wf_at(h));
            c[k as int].lemma_height(h);
        }
        total = total + children[k].len();
        k = k + 1;
    }
    assert(children@.subrange(0, k as int) =~= children@);
    total
}

impl<T> Node<T> {
    /// Moves the upper half of the elements or children into a new node of the
    /// same height.
    pub(crate) fn split_off_half(&mut self) -> (r: Node<T>)
        requires
            old(self).wf(),
            old(self).count() >= 2,
        ensures
            final(self).wf(),
            r.wf(),
            final(self).height() == old(self).height(),
            r.height() == old(self).height(),
            final(self).view() + r.view() == old(self).view(),
            final(self).view().len() > 0,
            r.view().len() > 0,
            final(self).count() == old(self).count() / 2,
            r.count() == old(self).count() - old(self).count() / 2,
            r.is_tree() == old(self).is_tree(),
            final(self).is_tree() == old(self).is_tree(),
    {
        let ghost h = self.height();
        match self {
            Node::Leaf(x) => {
                let i = x.len() / 2;
                let r = Node::Leaf(x.split_off(i));
                assert(x@ + r.view() =~= old(self).view());
                r
            },
            Node::Tree(t) => {
                let ghost c = t.children@;
                let i = t.children.len() / 2;
                proof {
                    assert(c =~= c.subrange(0, i as int) + c.subrange(i as int, c.len() as int));
                    lemma_flat_concat(c.subrange(0, i as int), c.subrange(i as int, c.len() as int));
                    lemma_run_wf_sub(c, 0, i as int, (h - 1) as nat);
                    lemma_run_wf_sub(c, i as int, c.len() as int, (h - 1) as nat);
                    assert(c[0].wf_at((h - 1) as nat));
                    c[0].lemma_height((h - 1) as nat);
                    assert(c[i as int].wf_at((h - 1) as nat));
                    c[i as int].lemma_height((h - 1) as nat);
                }
                let right = t.children.split_off(i);
                let right_len = sum_lens(&right, Ghost((h - 1) as nat));
                t.total_len = t.total_len - right_len;
                let r = Node::Tree(Tree { total_len: right_len, children: right });
                proof {
                    assert(t.children@[0] == c[0]);
                    assert(right@[0] == c[i as int]);
                    (*self).lemma_height(h);
                    (*self).lemma_len_ge_count(h);
                    r.lemma_height(h);
                    r.lemma_len_ge_count(h);
                }
                r
            },
        }
    }

    /// Collapses internal nodes with fewer than two children.
    pub(crate) fn canon(self) -> (r: Node<T>)
        requires
            self.wf(),
        ensures
            r.wf(),
            r.view() == self.view(),
            r.height() <= self.height(),
            r.is_tree() ==> r.count() >= 2,
            !self.is_tree() || self.count() >= 2 ==> r == self,
        decreases self,
    {
        let ghost old_self = self;
        match self {
            Node::Leaf(x) => Node::Leaf(x),
            Node::Tree(x) => {
                let ghost h = old_self.height();
                if x.children.len() == 0 {
                    Node::Leaf(Vec::new())
                } else if x.children.len() == 1 {
                    let ghost c = x.children@;
                    proof {
                        lemma_flat_one(c[0]);
                        assert(c =~= seq![c[0]]);
                        assert(c[0].wf_at((h - 1) as nat));
                        c[0].lemma_height((h - 1) as nat);
                    }
                    let mut x = x;
                    let child = x.children.pop().unwrap();
                    assert(child == c[0]);
                    child.canon()
                } else {
                    Node::Tree(x)
                }
            },
        }
    }
}

impl<T> Tree<T> {
    /// Merges child `left_i + 1` into child `left_i`.
    pub(crate) fn merge_children(&mut self, left_i: usize)
        requires
            Node::Tree(*old(self)).wf(),
            left_i + 1 < old(self).children@.len(),
        ensures
            Node::Tree(*final(self)).wf(),
            Node::Tree(*final(self)).height() == Node::Tree(*old(self)).height(),
            Node::Tree(*final(self)).view() == Node::Tree(*old(self)).view(),
            final(self).children@ == old(self).children@.subrange(0, left_i as int) + seq![
                final(self).children@[left_i as int],
            ] + old(self).children@.subrange(left_i + 2, old(self).children@.len() as int),
            final(self).children@[left_i as int].count() == old(self).children@[left_i as int].count()
                + old(self).children@[left_i + 1].count(),
    {
        let ghost c = self.children@;
        let ghost h = Node::Tree(*self).height();
        let ghost i = left_i as int;
        proof {
            assert(self.children.len() == self.children@.len());
            lemma_tree_run(*self);
            lemma_flat_pair(c, i);
            lemma_pair_block(c, i);
        }
        let to_merge = self.children.remove(left_i + 1);
        self.children[left_i].extend_equal_level(to_merge);
        proof {
            let m = self.children@[i];
            assert(self.children@ =~= c.subrange(0, i) + seq![m] + c.subrange(i + 2, c.len() as int));
            lemma_flat_one(m);
            assert(run_wf(seq![m], (h - 1) as nat)) by {
                assert(seq![m][0] == m);
            }
            lemma_run_replace(c, self.children@, i, 2, seq![m], (h - 1) as nat);
            lemma_tree_wf(*self, h);
        }
    }

    /// Splits child `i` in two halves, the upper one becoming child `i + 1`.
    pub(crate) fn split_child(&mut self, i: usize)
        requires
            Node::Tree(*old(self)).wf(),
            i < old(self).children@.len(),
            old(self).children@[i as int].count() >= 2,
        ensures
            Node::Tree(*final(self)).wf(),
            Node::Tree(*final(self)).height() == Node::Tree(*old(self)).height(),
            Node::Tree(*final(self)).view() == Node::Tree(*old(self)).view(),
            final(self).children@ == old(self).children@.subrange(0, i as int) + seq![
                final(self).children@[i as int],
                final(self).children@[i + 1],
            ] + old(self).children@.subrange(i + 1, old(self).children@.len() as int),
            final(self).children@[i as int].count() == old(self).children@[i as int].count() / 2,
            final(self).children@[i + 1].count() == old(self).children@[i as int].count()
                - old(self).children@[i as int].count() / 2,
    {
        let ghost c = self.children@;
        let ghost h = Node::Tree(*self).height();
        proof {
            assert(self.children.len() == self.children@.len());
            lemma_tree_run(*self);
            assert(c.subrange(i as int, i + 1) =~= seq![c[i as int]]);
            lemma_flat_one(c[i as int]);
        }
        let new_child = self.children[i].split_off_half();
        self.children.insert(i + 1, new_child);
        proof {
            let a = self.children@[i as int];
            let b = self.children@[i + 1];
            assert(self.children@ =~= c.subrange(0, i as int) + seq![a, b] + c.subrange(
                i + 1,
                c.len() as int,
            ));
            lemma_flat_two(a, b);
            lemma_run_two(a, b, (h - 1) as nat);
            lemma_run_replace(c, self.children@, i as int, 1, seq![a, b], (h - 1) as nat);
            lemma_tree_wf(*self, h);
        }
    }

    /// Moves the first element or child of child `left_i + 1` to the end of
    /// child `left_i`.
    pub(crate) fn rotate_left(&mut self, left_i: usize)
        requires
            Node::Tree(*old(self)).wf(),
            left_i + 1 < old(self).children@.len(),
            old(self).children@[left_i + 1].count() > 1,
        ensures
            Node::Tree(*final(self)).wf(),
            Node::Tree(*final(self)).height() == Node::Tree(*old(self)).height(),
            Node::Tree(*final(self)).view() == Node::Tree(*old(self)).view(),
            final(self).children@ == old(self).children@.subrange(0, left_i as int) + seq![
                final(self).children@[left_i as int],
                final(self).children@[left_i + 1],
            ] + old(self).children@.subrange(left_i + 2, old(self).children@.len() as int),
            final(self).children@[left_i as int].count() == old(self).children@[left_i as int].count()
                + 1,
            final(self).children@[left_i + 1].count() == old(self).children@[left_i + 1].count() - 1,
    {
        let ghost c = self.children@;
        let ghost h = Node::Tree(*self).height();
        let ghost i = left_i as int;
        proof {
            assert(self.children.len() == self.children@.len());
            lemma_tree_run(*self);
            lemma_flat_pair(c, i);
            lemma_pair_block(c, i);
        }
        let to_move = self.children[left_i + 1].pop_child_left();
        self.children[left_i].extend_equal_level(to_move);
        proof {
            let a = self.children@[i];
            let b = self.children@[i + 1];
            assert(self.children@ =~= c.subrange(0, i) + seq![a, b] + c.subrange(
                i + 2,
                c.len() as int,
            ));
            lemma_flat_two(a, b);
            assert(a.view() + b.view() =~= c[i].view() + c[i + 1].view());
            lemma_run_two(a, b, (h - 1) as nat);
            lemma_run_replace(c, self.children@, i, 2, seq![a, b], (h - 1) as nat);
            lemma_tree_wf(*self, h);
        }
    }

    /// Moves the last element or child of child `left_i` to the front of
    /// child `left_i + 1`.
    pub(crate) fn rotate_right(&mut self, left_i: usize)
        requires
            Node::Tree(*old(self)).wf(),
            left_i + 1 < old(self).children@.len(),
            old(self).children@[left_i as int].count() > 1,
        ensures
            Node::Tree(*final(self)).wf(),
            Node::Tree(*final(self)).height() == Node::Tree(*old(self)).height(),
            Node::Tree(*final(self)).view() == Node::Tree(*old(self)).view(),
            final(self).children@ == old(self).children@.subrange(0, left_i as int) + seq![
                final(self).children@[left_i as int],
                final(self).children@[left_i + 1],
            ] + old(self).children@.subrange(left_i + 2, old(self).children@.len() as int),
            final(self).children@[left_i as int].count() == old(self).children@[left_i as int].count()
                - 1,
            final(self).children@[left_i + 1].count() == old(self).children@[left_i + 1].count() + 1,
    {
        let ghost c = self.children@;
        let ghost h = Node::Tree(*self).height();
        let ghost i = left_i as int;
        proof {
            assert(self.children.len() == self.children@.len());
            lemma_tree_run(*self);
            lemma_flat_pair(c, i);
            lemma_pair_block(c, i);
        }
        let to_move = self.children[left_i].pop_child_right();
        self.children[left_i + 1].prepend_equal_level(to_move);
        proof {
            let a = self.children@[i];
            let b = self.children@[i + 1];
            assert(self.children@ =~= c.subrange(0, i) + seq![a, b] + c.subrange(
                i + 2,
                c.len() as int,
            ));
            lemma_flat_two(a, b);
            assert(a.view() + b.view() =~= c[i].view() + c[i + 1].view());
            lemma_run_two(a, b, (h - 1) as nat);
            lemma_run_replace(c, self.children@, i, 2, seq![a, b], (h - 1) as nat);
            lemma_tree_wf(*self, h);
        }
    }
}

impl<T> Node<T> {
    /// Restores the branching bound of child `i` by a rotation, a merge or a
    /// split with an adjacent sibling; leaves the elements unchanged, and the
    /// node itself when child `i` is already within bounds.
    #[verifier::rlimit(100)]
    pub(crate) fn cleanup(&mut self, i: usize)
        requires
            old(self).wf(),
            old(self).is_tree() ==> i < old(self).count(),
        ensures
            final(self).wf(),
            final(self).height() == old(self).height(),
            final(self).view() == old(self).view(),
            final(self).is_tree() == old(self).is_tree(),
            old(self).count() <= final(self).count() + 1,
            final(self).count() <= old(self).count() + 1,
            !old(self).is_tree() || old(self).children()[i as int].in_bounds() ==> *final(self)
                == *old(self),
            old(self).is_tree() && old(self).count() >= 2 && (forall|j: int|
                0 <= j < old(self).count() && j != i ==> (#[trigger] old(self).children()[
                    j
                ]).in_bounds()) && B - 1 <= old(self).children()[i as int].count() <= 2 * B + 1
                ==> run_bounded(final(self).children()),
    {
        match self {
            Node::Leaf(_) => {},
            Node::Tree(x) => {
                let ghost c = x.children@;
                let ghost ii = i as int;
                let ghost hyp = c.len() >= 2 && (forall|j: int|
                    0 <= j < c.len() && j != ii ==> (#[trigger] c[j]).in_bounds()) && B - 1
                    <= c[ii].count() <= 2 * B + 1;
                proof {
                    assert(x.children.len() == x.children@.len());
                }
                if x.children[i].is_underfull() {
                    if i > 0 && x.children[i - 1].children_count() > B {
                        x.rotate_right(i - 1);
                        proof {
                            if hyp {
                                let n = x.children@;
                                lemma_bounded_splice(c, n, ii - 1, ii + 1, seq![n[ii - 1], n[ii]]);
                            }
                        }
                    } else if i + 1 < x.children.len() && x.children[i + 1].children_count() > B {
                        x.rotate_left(i);
                        proof {
                            if hyp {
                                let n = x.children@;
                                lemma_bounded_splice(c, n, ii, ii + 2, seq![n[ii], n[ii + 1]]);
                            }
                        }
                    } else if i > 0 && x.children[i - 1].children_count()
                        + x.children[i].children_count() <= 2 * B {
                        x.merge_children(i - 1);
                        proof {
                            if hyp {
                                let n = x.children@;
                                lemma_bounded_splice(c, n, ii - 1, ii + 1, seq![n[ii - 1]]);
                            }
                        }
                    } else if i + 1 < x.children.len() && x.children[i].children_count()
                        + x.children[i + 1].children_count() <= 2 * B {
                        x.merge_children(i);
                        proof {
                            if hyp {
                                let n = x.children@;
                                lemma_bounded_splice(c, n, ii, ii + 2, seq![n[ii]]);
                            }
                        }
                    } else {
                        // No sibling could lend or absorb: child `i` is the only child,
                        // which canonicalization collapses.
                        assert(x.children@.len() == 1);
                    }
                } else if x.children[i].is_overfull() {
                    if i > 0 && x.children[i - 1].children_count() < 2 * B {
                        x.rotate_left(i - 1);
                        proof {
                            if hyp {
                                let n = x.children@;
                                lemma_bounded_splice(c, n, ii - 1, ii + 1, seq![n[ii - 1], n[ii]]);
                            }
                        }
                    } else if i + 1 < x.children.len() && x.children[i + 1].children_count() < 2
                        * B {
                        x.rotate_right(i);
                        proof {
                            if hyp {
                                let n = x.children@;
                                lemma_bounded_splice(c, n, ii, ii + 2, seq![n[ii], n[ii + 1]]);
                            }
                        }
                    } else {
                        x.split_child(i);
                        proof {
                            if hyp {
                                let n = x.children@;
                                lemma_bounded_splice(c, n, ii, ii + 1, seq![n[ii], n[ii + 1]]);
                            }
                        }
                    }
                } else {
                    proof {
                        if hyp {
                            assert(run_bounded(c));
                        }
                    }
                }
            },
        }
    }
}

} // verus!
