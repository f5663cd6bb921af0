//! The node model: leaves of elements and internal nodes of children, the
//! sequence a subtree stands for, and its well-formedness.
use vstd::prelude::*;

verus! {

/// Lower bound of the branching range `[B, 2 * B]`.
pub const B: usize = 12;

/// An internal node: its children and the number of elements beneath it.
#[derive(Debug)]
pub(crate) struct Tree<T> {
    pub(crate) total_len: usize,
    pub(crate) children: Vec<Node<T>>,
}

/// A leaf holds elements; an internal node holds children.
#[derive(Debug)]
pub(crate) enum Node<T> {
    Leaf(Vec<T>),
    Tree(Tree<T>),
}

/// The elements beneath a run of sibling nodes, left to right.
pub(crate) open spec fn flat<T>(s: Seq<Node<T>>) -> Seq<T>
    decreases s,
{
    if s.len() == 0 {
        Seq::empty()
    } else {
        flat(s.drop_last()) + s.last().view()
    }
}

impl<T> Node<T> {
    /// The elements of the subtree, in order.
    pub(crate) open spec fn view(self) -> Seq<T>
        decreases self,
    {
        match self {
            Node::Leaf(v) => v@,
            Node::Tree(t) => flat(t.children@),
        }
    }

    /// Elements (leaf) or children (internal node).
    pub(crate) open spec fn count(self) -> nat {
        match self {
            Node::Leaf(v) => v@.len(),
            Node::Tree(t) => t.children@.len(),
        }
    }

    /// Distance to the leaves along the leftmost path.
    pub(crate) open spec fn height(self) -> nat
        decreases self,
    {
        match self {
            Node::Leaf(_) => 0,
            Node::Tree(t) => if t.children@.len() > 0 {
                1 + t.children@[0].height()
            } else {
                1
            },
        }
    }

    /// Well formed with every leaf at depth `h`: internal nodes have at least
    /// one child, no child is empty, and cached lengths are exact.
    pub(crate) open spec fn wf_at(self, h: nat) -> bool
        decreases self,
    {
        match self {
            Node::Leaf(_) => h == 0,
            Node::Tree(t) => {
                &&& h > 0
                &&& t.children@.len() > 0
                &&& t.total_len == flat(t.children@).len()
                &&& forall|i: int|
                    0 <= i < t.children@.len() ==> {
                        &&& (#[trigger] t.children@[i]).wf_at((h - 1) as nat)
                        &&& t.children@[i].view().len() > 0
                    }
            },
        }
    }

    pub(crate) open spec fn wf(self) -> bool {
        self.wf_at(self.height())
    }
}

pub(crate) proof fn lemma_flat_concat<T>(a: Seq<Node<T>>, b: Seq<Node<T>>)
    ensures
        flat(a + b) == flat(a) + flat(b),
    decreases b.len(),
{
    if b.len() == 0 {
        assert(a + b =~= a);
        assert(flat(b) =~= Seq::empty());
        assert(flat(a) + flat(b) =~= flat(a));
    } else {
        lemma_flat_concat(a, b.drop_last());
        assert((a + b).drop_last() =~= a + b.drop_last());
        assert(flat(a) + flat(b.drop_last()) + b.last().view() =~= flat(a) + (flat(
            b.drop_last(),
        ) + b.last().view()));
    }
}

pub(crate) proof fn lemma_flat_one<T>(n: Node<T>)
    ensures
        flat(seq![n]) == n.view(),
{
    assert(seq![n].drop_last() =~= Seq::<Node<T>>::empty());
    assert(flat(seq![n].drop_last()) == Seq::<T>::empty());
    assert(seq![n].last() == n);
    assert(Seq::<T>::empty() + n.view() =~= n.view());
}

/// The elements of a run split around its child `i`.
pub(crate) proof fn lemma_flat_at<T>(s: Seq<Node<T>>, i: int)
    requires
        0 <= i < s.len(),
    ensures
        flat(s) == flat(s.subrange(0, i)) + s[i].view() + flat(s.subrange(i + 1, s.len() as int)),
{
    let l = s.subrange(0, i);
    let r = s.subrange(i + 1, s.len() as int);
    assert(s =~= l + seq![s[i]] + r);
    lemma_flat_concat(l + seq![s[i]], r);
    lemma_flat_concat(l, seq![s[i]]);
    lemma_flat_one(s[i]);
}

/// Every child of a well-formed run contributes at least one element.
pub(crate) proof fn lemma_flat_len_ge<T>(s: Seq<Node<T>>)
    requires
        forall|i: int| 0 <= i < s.len() ==> (#[trigger] s[i]).view().len() > 0,
    ensures
        flat(s).len() >= s.len(),
    decreases s.len(),
{
    if s.len() > 0 {
        let d = s.drop_last();
        assert forall|i: int| 0 <= i < d.len() implies (#[trigger] d[i]).view().len() > 0 by {
            assert(d[i] == s[i]);
        }
        lemma_flat_len_ge(d);
    }
}

impl<T> Node<T> {
    pub(crate) proof fn lemma_height(self, h: nat)
        requires
            self.wf_at(h),
        ensures
            self.height() == h,
        decreases self,
    {
        if let Node::Tree(t) = self {
            assert(t.children@[0].wf_at((h - 1) as nat));
            t.children@[0].lemma_height((h - 1) as nat);
        }
    }

    /// A well-formed internal node holds at least as many elements as children.
    pub(crate) proof fn lemma_len_ge_count(self, h: nat)
        requires
            self.wf_at(h),
        ensures
            self.view().len() >= self.count(),
    {
        if let Node::Tree(t) = self {
            assert forall|i: int| 0 <= i < t.children@.len() implies (#[trigger] t.children@[
                i
            ]).view().len() > 0 by {}
            lemma_flat_len_ge(t.children@);
        }
    }
}

/// Each node of the run is well formed at height `h` and holds an element.
pub(crate) open spec fn run_wf<T>(s: Seq<Node<T>>, h: nat) -> bool {
    forall|i: int|
        0 <= i < s.len() ==> {
            &&& (#[trigger] s[i]).wf_at(h)
            &&& s[i].view().len() > 0
        }
}

pub(crate) proof fn lemma_run_wf_concat<T>(a: Seq<Node<T>>, b: Seq<Node<T>>, h: nat)
    requires
        run_wf(a, h),
        run_wf(b, h),
    ensures
        run_wf(a + b, h),
{
    assert forall|i: int| 0 <= i < (a + b).len() implies {
        &&& (#[trigger] (a + b)[i]).wf_at(h)
        &&& (a + b)[i].view().len() > 0
    } by {
        if i < a.len() {
            assert((a + b)[i] == a[i]);
        } else {
            assert((a + b)[i] == b[i - a.len()]);
        }
    }
}

pub(crate) proof fn lemma_run_wf_sub<T>(a: Seq<Node<T>>, lo: int, hi: int, h: nat)
    requires
        run_wf(a, h),
        0 <= lo <= hi <= a.len(),
    ensures
        run_wf(a.subrange(lo, hi), h),
{
    assert forall|i: int| 0 <= i < hi - lo implies {
        &&& (#[trigger] a.subrange(lo, hi)[i]).wf_at(h)
        &&& a.subrange(lo, hi)[i].view().len() > 0
    } by {
        assert(a.subrange(lo, hi)[i] == a[lo + i]);
    }
}

pub(crate) proof fn lemma_flat_two<T>(x: Node<T>, y: Node<T>)
    ensures
        flat(seq![x, y]) == x.view() + y.view(),
{
    lemma_flat_concat(seq![x], seq![y]);
    assert(seq![x] + seq![y] =~= seq![x, y]);
    lemma_flat_one(x);
    lemma_flat_one(y);
}

pub(crate) proof fn lemma_flat3<T>(a: Seq<Node<T>>, b: Seq<Node<T>>, c: Seq<Node<T>>)
    ensures
        flat(a + b + c) == flat(a) + flat(b) + flat(c),
{
    lemma_flat_concat(a + b, c);
    lemma_flat_concat(a, b);
}

/// The run of `s` with children `i` and `i + 1` seen as one block.
pub(crate) proof fn lemma_flat_pair<T>(s: Seq<Node<T>>, i: int)
    requires
        0 <= i,
        i + 1 < s.len(),
    ensures
        s == s.subrange(0, i) + seq![s[i], s[i + 1]] + s.subrange(i + 2, s.len() as int),
        flat(s) == flat(s.subrange(0, i)) + (s[i].view() + s[i + 1].view()) + flat(
            s.subrange(i + 2, s.len() as int),
        ),
{
    assert(s =~= s.subrange(0, i) + seq![s[i], s[i + 1]] + s.subrange(i + 2, s.len() as int));
    lemma_flat3(s.subrange(0, i), seq![s[i], s[i + 1]], s.subrange(i + 2, s.len() as int));
    lemma_flat_two(s[i], s[i + 1]);
}

impl<T> Tree<T> {
    /// Appends the children of `other` after those of `self`.
    pub(crate) fn extend(&mut self, other: Self)
        requires
            old(self).total_len + other.total_len <= usize::MAX,
        ensures
            final(self).total_len == old(self).total_len + other.total_len,
            final(self).children@ == old(self).children@ + other.children@,
    {
        let mut other = other;
        self.total_len = self.total_len + other.total_len;
        self.children.append(&mut other.children);
    }
}

impl<T> Node<T> {
    /// The stored length: the element count of a leaf, the cached total of an
    /// internal node.
    pub(crate) open spec fn stored_len(self) -> nat {
        match self {
            Node::Leaf(v) => v@.len(),
            Node::Tree(t) => t.total_len as nat,
        }
    }

    pub(crate) open spec fn is_tree(self) -> bool {
        self is Tree
    }

    pub(crate) fn len(&self) -> (r: usize)
        ensures
            r == self.stored_len(),
            self.wf() ==> r == self.view().len(),
    {
        match self {
            Node::Leaf(x) => x.len(),
            Node::Tree(t) => t.total_len,
        }
    }

    pub(crate) fn children_count(&self) -> (r: usize)
        ensures
            r == self.count(),
    {
        match self {
            Node::Leaf(x) => x.len(),
            Node::Tree(t) => t.children.len(),
        }
    }

    pub(crate) fn is_overfull(&self) -> (r: bool)
        ensures
            r == (self.count() > 2 * B),
    {
        self.children_count() > B * 2
    }

    pub(crate) fn is_underfull(&self) -> (r: bool)
        ensures
            r == (self.count() < B),
    {
        self.children_count() < B
    }

    /// Compares the heights of two well-formed trees by walking their
    /// leftmost paths together.
    pub(crate) fn depth_cmp(&self, other: &Node<T>) -> (r: core::cmp::Ordering)
        requires
            self.wf(),
            other.wf(),
        ensures
            (r == core::cmp::Ordering::Less) == (self.height() < other.height()),
            (r == core::cmp::Ordering::Equal) == (self.height() == other.height()),
            (r == core::cmp::Ordering::Greater) == (self.height() > other.height()),
        decreases self,
    {
        match self {
            Node::Leaf(_) => match other {
                Node::Leaf(_) => core::cmp::Ordering::Equal,
                Node::Tree(_) => core::cmp::Ordering::Less,
            },
            Node::Tree(a) => match other {
                Node::Leaf(_) => core::cmp::Ordering::Greater,
                Node::Tree(b) => {
                    assert(a.children@[0].wf_at((self.height() - 1) as nat));
                    assert(b.children@[0].wf_at((other.height() - 1) as nat));
                    a.children[0].depth_cmp(&b.children[0])
                },
            },
        }
    }
}

/// Replacing `k` consecutive children by a block holding the same elements
/// keeps the run's elements and its well-formedness.
pub(crate) proof fn lemma_run_replace<T>(
    c: Seq<Node<T>>,
    n: Seq<Node<T>>,
    i: int,
    k: int,
    blk: Seq<Node<T>>,
    h: nat,
)
    requires
        run_wf(c, h),
        run_wf(blk, h),
        0 <= i,
        0 <= k,
        i + k <= c.len(),
        n == c.subrange(0, i) + blk + c.subrange(i + k, c.len() as int),
        flat(blk) == flat(c.subrange(i, i + k)),
    ensures
        run_wf(n, h),
        flat(n) == flat(c),
{
    let pre = c.subrange(0, i);
    let post = c.subrange(i + k, c.len() as int);
    assert(c =~= pre + c.subrange(i, i + k) + post);
    lemma_flat3(pre, c.subrange(i, i + k), post);
    lemma_flat3(pre, blk, post);
    lemma_run_wf_sub(c, 0, i, h);
    lemma_run_wf_sub(c, i + k, c.len() as int, h);
    lemma_run_wf_concat(pre, blk, h);
    lemma_run_wf_concat(pre + blk, post, h);
}

/// An internal node is well formed at `h` when its run of children is.
pub(crate) proof fn lemma_tree_wf<T>(t: Tree<T>, h: nat)
    requires
        h > 0,
        t.children@.len() > 0,
        t.total_len == flat(t.children@).len(),
        run_wf(t.children@, (h - 1) as nat),
    ensures
        Node::Tree(t).wf_at(h),
        Node::Tree(t).wf(),
        Node::Tree(t).height() == h,
{
    Node::Tree(t).lemma_height(h);
}

/// The children of a well-formed internal node form a well-formed run.
pub(crate) proof fn lemma_tree_run<T>(t: Tree<T>)
    requires
        Node::Tree(t).wf(),
    ensures
        Node::Tree(t).height() > 0,
        t.children@.len() > 0,
        t.total_len == flat(t.children@).len(),
        run_wf(t.children@, (Node::Tree(t).height() - 1) as nat),
        forall|j: int|
            0 <= j < t.children@.len() ==> (#[trigger] t.children@[j]).height() == Node::Tree(
                t,
            ).height() - 1 && t.children@[j].wf(),
{
    let h = Node::Tree(t).height();
    assert forall|j: int| 0 <= j < t.children@.len() implies (#[trigger] t.children@[j]).height()
        == h - 1 && t.children@[j].wf() by {
        t.children@[j].lemma_height((h - 1) as nat);
    }
}

pub(crate) proof fn lemma_run_two<T>(a: Node<T>, b: Node<T>, h: nat)
    requires
        a.wf(),
        b.wf(),
        a.height() == h,
        b.height() == h,
        a.view().len() > 0,
        b.view().len() > 0,
    ensures
        run_wf(seq![a, b], h),
{
    let s = seq![a, b];
    assert forall|j: int| 0 <= j < 2 implies {
        &&& (#[trigger] s[j]).wf_at(h)
        &&& s[j].view().len() > 0
    } by {
        if j == 0 {
            assert(s[j] == a);
        } else {
            assert(s[j] == b);
        }
    }
}

pub(crate) proof fn lemma_pair_block<T>(c: Seq<Node<T>>, i: int)
    requires
        0 <= i,
        i + 1 < c.len(),
    ensures
        flat(c.subrange(i, i + 2)) == c[i].view() + c[i + 1].view(),
{
    assert(c.subrange(i, i + 2) =~= seq![c[i], c[i + 1]]);
    lemma_flat_two(c[i], c[i + 1]);
}

/// Replacing child `i` of a well-formed run by a well-formed nonempty node.
pub(crate) proof fn lemma_run_update<T>(c: Seq<Node<T>>, i: int, x: Node<T>, h: nat)
    requires
        run_wf(c, h),
        0 <= i < c.len(),
        x.wf_at(h),
        x.view().len() > 0,
    ensures
        run_wf(c.update(i, x), h),
        flat(c) == flat(c.subrange(0, i)) + c[i].view() + flat(c.subrange(i + 1, c.len() as int)),
        flat(c.update(i, x)) == flat(c.subrange(0, i)) + x.view() + flat(
            c.subrange(i + 1, c.len() as int),
        ),
{
    let n = c.update(i, x);
    lemma_flat_at(c, i);
    lemma_flat_at(n, i);
    assert(n.subrange(0, i) =~= c.subrange(0, i));
    assert(n.subrange(i + 1, n.len() as int) =~= c.subrange(i + 1, c.len() as int));
    assert forall|j: int| 0 <= j < n.len() implies {
        &&& (#[trigger] n[j]).wf_at(h)
        &&& n[j].view().len() > 0
    } by {
        if j != i {
            assert(n[j] == c[j]);
        }
    }
}

impl<T> Node<T> {
    pub(crate) proof fn lemma_len_bound(self)
        requires
            self.wf(),
        ensures
            self.view().len() <= usize::MAX,
    {
        match self {
            Node::Leaf(x) => {
                assert(x.len() == x@.len());
            },
            Node::Tree(t) => {},
        }
    }
}

impl<T> Node<T> {
    /// The children of an internal node; none for a leaf.
    pub(crate) open spec fn children(self) -> Seq<Node<T>> {
        match self {
            Node::Leaf(_) => Seq::empty(),
            Node::Tree(t) => t.children@,
        }
    }

    /// The element or child count lies in `[B, 2 * B]`.
    pub(crate) open spec fn in_bounds(self) -> bool {
        B <= self.count() <= 2 * B
    }
}

/// Every node of the run lies within the branching bound.
pub(crate) open spec fn run_bounded<T>(s: Seq<Node<T>>) -> bool {
    forall|j: int| 0 <= j < s.len() ==> (#[trigger] s[j]).in_bounds()
}

/// A run whose nodes outside `[lo, hi)` were within bounds and whose nodes
/// there were replaced by a block within bounds is within bounds.
pub(crate) proof fn lemma_bounded_splice<T>(
    c: Seq<Node<T>>,
    n: Seq<Node<T>>,
    lo: int,
    hi: int,
    blk: Seq<Node<T>>,
)
    requires
        0 <= lo <= hi <= c.len(),
        forall|j: int| 0 <= j < c.len() && !(lo <= j < hi) ==> (#[trigger] c[j]).in_bounds(),
        run_bounded(blk),
        n == c.subrange(0, lo) + blk + c.subrange(hi, c.len() as int),
    ensures
        run_bounded(n),
{
    assert forall|j: int| 0 <= j < n.len() implies (#[trigger] n[j]).in_bounds() by {
        if j < lo {
            assert(n[j] == c[j]);
        } else if j < lo + blk.len() {
            assert(n[j] == blk[j - lo]);
        } else {
            assert(n[j] == c[j - lo - blk.len() + hi]);
        }
    }
}

} // verus!
