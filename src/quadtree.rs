//! The arena quadtree: nodes live in one vector, a branch's four children sit
//! at consecutive positions after it, and every node owns a contiguous range
//! of a permutation of the body indices.
use vstd::prelude::*;
use vstd::seq_lib::lemma_multiset_commutative;

use crate::grid::{lemma_child_within, lemma_pow5_positive, lemma_quarter, pow2, pow5, Axis, Cell, Quad, GRID_LEVEL};
use crate::partition::{below, indices_in, lemma_same_entries, partition};

verus! {

/// One square of the tree. `start..end` is its range in the body order;
/// `children` is `0` for a leaf, and otherwise the arena position of the
/// first of its four children, in the quadrant order of `Quad::child`.
#[derive(Clone, Copy, Debug, PartialEq, Eq)]
pub struct Node {
    pub quad: Quad,
    pub start: usize,
    pub end: usize,
    pub children: usize,
}

impl Node {
    pub fn is_leaf(&self) -> (r: bool)
        ensures
            r == (self.children == 0),
    {
        self.children == 0
    }

    pub fn is_branch(&self) -> (r: bool)
        ensures
            r == (self.children != 0),
    {
        self.children != 0
    }

    /// Distance from the root: every level down halves the quad.
    pub open spec fn depth_spec(self) -> int {
        GRID_LEVEL - self.quad.level
    }

    pub fn depth(&self) -> (r: usize)
        requires
            self.quad.wf(),
        ensures
            r == self.depth_spec(),
    {
        (GRID_LEVEL - self.quad.level) as usize
    }

    /// The node holds no body.
    pub fn is_empty(&self) -> (r: bool)
        ensures
            r == (self.start == self.end),
    {
        self.start == self.end
    }
}

/// The indices `0..n`, in order.
pub open spec fn ids(n: nat) -> Seq<usize> {
    Seq::new(n, |i: int| i as usize)
}

/// Two node ranges share no position.
pub open spec fn disjoint(a: Node, b: Node) -> bool {
    a.end <= b.start || b.end <= a.start || a.start == a.end || b.start == b.end
}

/// Every body in `order[lo..hi)` lies in `quad`.
pub open spec fn holds(order: Seq<usize>, cells: Seq<Cell>, quad: Quad, lo: int, hi: int) -> bool {
    forall|k: int| lo <= k < hi ==> quad.contains(cells[#[trigger] order[k] as int])
}

/// The branch at `i` has four children after it, that quarter its quad in
/// quadrant order and split its range into four consecutive ranges.
pub open spec fn children_ok(nodes: Seq<Node>, i: int) -> bool {
    let n = nodes[i];
    let c = n.children as int;
    &&& i < c
    &&& c + 4 <= nodes.len()
    &&& nodes[c].quad == n.quad.child_spec(0)
    &&& nodes[c + 1].quad == n.quad.child_spec(1)
    &&& nodes[c + 2].quad == n.quad.child_spec(2)
    &&& nodes[c + 3].quad == n.quad.child_spec(3)
    &&& nodes[c].start == n.start
    &&& nodes[c].end == nodes[c + 1].start
    &&& nodes[c + 1].end == nodes[c + 2].start
    &&& nodes[c + 2].end == nodes[c + 3].start
    &&& nodes[c + 3].end == n.end
}

/// The node at `i` is well formed: a valid quad, a range within the `n`
/// bodies, and it branches exactly when it holds more than `cap` bodies and
/// its quad can still be halved.
pub open spec fn node_ok(nodes: Seq<Node>, i: int, n: nat, cap: nat) -> bool {
    let nd = nodes[i];
    &&& nd.quad.wf()
    &&& nd.start <= nd.end <= n
    &&& (nd.children != 0) == (nd.end - nd.start > cap && nd.quad.level > 0)
    &&& nd.children != 0 ==> children_ok(nodes, i)
}

/// A node that is yet to be expanded: a valid quad, a range within the `n`
/// bodies, no children.
pub open spec fn pending_ok(nd: Node, n: nat) -> bool {
    &&& nd.quad.wf()
    &&& nd.start <= nd.end <= n
    &&& nd.children == 0
}

/// Node `j` is one of the four children of a branch before it.
pub open spec fn has_parent(nodes: Seq<Node>, j: int) -> bool {
    exists|p: int| 0 <= p < j && nodes[p].children != 0 && nodes[p].children <= j < nodes[p].children + 4
}

/// Of two branches, the later one has its children after those of the
/// earlier one, so no node is the child of two branches.
pub open spec fn blocks_ordered(nodes: Seq<Node>, j1: int, j2: int) -> bool {
    nodes[j1].children != 0 && nodes[j2].children != 0 ==> nodes[j1].children + 4 <= nodes[j2].children
}

/// What is left to expand from arena position `i` on.
spec fn backlog(nodes: Seq<Node>, i: int) -> nat
    decreases nodes.len() - i,
{
    if i < 0 || i >= nodes.len() {
        0
    } else {
        pow5(nodes[i].quad.level as nat) + backlog(nodes, i + 1)
    }
}

proof fn lemma_backlog_positive(nodes: Seq<Node>, i: int)
    requires
        0 <= i < nodes.len(),
    ensures
        backlog(nodes, i + 1) < backlog(nodes, i),
{
    lemma_pow5_positive(nodes[i].quad.level as nat);
}

proof fn lemma_backlog_push(nodes: Seq<Node>, i: int, x: Node)
    requires
        0 <= i <= nodes.len(),
    ensures
        backlog(nodes.push(x), i) == backlog(nodes, i) + pow5(x.quad.level as nat),
    decreases nodes.len() - i,
{
    if i < nodes.len() {
        lemma_backlog_push(nodes, i + 1, x);
        assert(nodes.push(x)[i] == nodes[i]);
    } else {
        assert(backlog(nodes.push(x), i + 1) == 0);
        assert(backlog(nodes, i) == 0);
    }
}

proof fn lemma_backlog_update(nodes: Seq<Node>, i: int, j: int, x: Node)
    requires
        0 <= j < i <= nodes.len(),
    ensures
        backlog(nodes.update(j, x), i) == backlog(nodes, i),
    decreases nodes.len() - i,
{
    if i < nodes.len() {
        lemma_backlog_update(nodes, i + 1, j, x);
    }
}

/// A range that keeps its multiset, with all else left in place, leaves the
/// multiset of the whole sequence as it was.
proof fn lemma_range_multiset(a: Seq<usize>, b: Seq<usize>, lo: int, hi: int)
    requires
        0 <= lo <= hi <= a.len(),
        a.len() == b.len(),
        a.subrange(lo, hi).to_multiset() == b.subrange(lo, hi).to_multiset(),
        forall|k: int| 0 <= k < a.len() && !(lo <= k < hi) ==> a[k] == b[k],
    ensures
        a.to_multiset() == b.to_multiset(),
{
    let n = a.len() as int;
    assert(a =~= a.subrange(0, lo) + a.subrange(lo, hi) + a.subrange(hi, n));
    assert(b =~= b.subrange(0, lo) + b.subrange(lo, hi) + b.subrange(hi, n));
    assert(a.subrange(0, lo) =~= b.subrange(0, lo));
    assert(a.subrange(hi, n) =~= b.subrange(hi, n));
    lemma_multiset_commutative(a.subrange(0, lo) + a.subrange(lo, hi), a.subrange(hi, n));
    lemma_multiset_commutative(a.subrange(0, lo), a.subrange(lo, hi));
    lemma_multiset_commutative(b.subrange(0, lo) + b.subrange(lo, hi), b.subrange(hi, n));
    lemma_multiset_commutative(b.subrange(0, lo), b.subrange(lo, hi));
}

/// The tree of the bodies at `cells`, in the arena layout above. `order` is
/// a permutation of the body indices; each node's bodies are
/// `order[start..end)`.
pub struct Quadtree {
    pub leaf_capacity: usize,
    pub nodes: Vec<Node>,
    pub order: Vec<usize>,
}

/// Arena position of the root.
pub const ROOT: usize = 0;

impl Quadtree {
    /// The arena is a tree over a permutation of `order.len()` bodies: the
    /// root covers all of them, every node is well formed, and each node but
    /// the root is the child of exactly one earlier branch.
    pub open spec fn shape_ok(self) -> bool {
        let n = self.order.len() as nat;
        &&& self.order@.to_multiset() == ids(n).to_multiset()
        &&& indices_in(self.order@, 0, n as int, n as int)
        &&& self.nodes.len() >= 1
        &&& self.nodes[0].start == 0
        &&& self.nodes[0].end == n
        &&& self.nodes[0].quad == Quad::root_spec()
        &&& forall|i: int|
            0 <= i < self.nodes.len() ==> #[trigger] node_ok(self.nodes@, i, n, self.leaf_capacity as nat)
        &&& forall|i: int| 1 <= i < self.nodes.len() ==> #[trigger] has_parent(self.nodes@, i)
        &&& forall|j1: int, j2: int|
            0 <= j1 < j2 < self.nodes.len() ==> #[trigger] blocks_ordered(self.nodes@, j1, j2)
    }

    /// The tree is the one `build` makes for `cells`: its shape is sound,
    /// it has one body per cell, and every leaf holds only bodies that lie
    /// in its quad.
    pub open spec fn wf(self, cells: Seq<Cell>) -> bool {
        &&& self.shape_ok()
        &&& self.order.len() == cells.len()
        &&& forall|i: int|
            0 <= i < self.nodes.len() && self.nodes[i].children == 0 ==> #[trigger] holds(
                self.order@,
                cells,
                self.nodes[i].quad,
                self.nodes[i].start as int,
                self.nodes[i].end as int,
            )
    }

    /// The root is at depth zero and each child one deeper than its parent.
    pub proof fn lemma_depths(self, i: int, q: int)
        requires
            self.shape_ok(),
            0 <= i < self.nodes.len(),
            self.nodes[i].children != 0,
            0 <= q < 4,
        ensures
            self.nodes[ROOT as int].depth_spec() == 0,
            self.nodes[self.nodes[i].children + q].depth_spec() == self.nodes[i].depth_spec() + 1,
    {
        assert(node_ok(self.nodes@, i, self.order.len() as nat, self.leaf_capacity as nat));
        assert(children_ok(self.nodes@, i));
    }

    /// The smallest and the largest depth of a leaf.
    pub fn leaf_depth_range(&self) -> (r: (usize, usize))
        requires
            self.shape_ok(),
        ensures
            exists|i: int| 0 <= i < self.nodes.len() && self.nodes[i].children == 0 && self.nodes[i].depth_spec() == r.0,
            exists|i: int| 0 <= i < self.nodes.len() && self.nodes[i].children == 0 && self.nodes[i].depth_spec() == r.1,
            forall|i: int|
                0 <= i < self.nodes.len() && #[trigger] self.nodes[i].children == 0 ==> r.0 <= self.nodes[i].depth_spec() <= r.1,
    {
        let ghost n = self.order.len() as nat;
        let ghost cap = self.leaf_capacity as nat;
        let last = self.nodes.len() - 1;
        assert(node_ok(self.nodes@, last as int, n, cap));
        let first = self.nodes[last].depth();
        let mut lo: usize = first;
        let mut hi: usize = first;
        let mut i: usize = 0;
        while i < self.nodes.len()
            invariant
                self.shape_ok(),
                n == self.order.len(),
                cap == self.leaf_capacity,
                last == self.nodes.len() - 1,
                self.nodes[last as int].children == 0,
                i <= self.nodes.len(),
                exists|j: int| 0 <= j < self.nodes.len() && self.nodes[j].children == 0 && self.nodes[j].depth_spec() == lo,
                exists|j: int| 0 <= j < self.nodes.len() && self.nodes[j].children == 0 && self.nodes[j].depth_spec() == hi,
                forall|j: int| 0 <= j < i && #[trigger] self.nodes[j].children == 0 ==> lo <= self.nodes[j].depth_spec() <= hi,
                lo <= self.nodes[last as int].depth_spec() <= hi,
            decreases self.nodes.len() - i,
        {
            assert(node_ok(self.nodes@, i as int, n, cap));
            let node = &self.nodes[i];
            if node.is_leaf() {
                let d = node.depth();
                if d < lo {
                    lo = d;
                }
                if d > hi {
                    hi = d;
                }
            }
            i = i + 1;
        }
        (lo, hi)
    }

    /// Node `j` is shown when drawing depths `lo..=hi`: it lies in that
    /// range and is a leaf or at the deepest depth shown.
    pub open spec fn shown(self, j: int, lo: int, hi: int) -> bool {
        let d = self.nodes[j].depth_spec();
        lo <= d <= hi && (self.nodes[j].children == 0 || d == hi)
    }

    /// The depth range to draw: `range` itself when it is not empty, else
    /// the range of the leaf depths.
    pub fn depth_range_to_draw(&self, range: (usize, usize)) -> (r: (usize, usize))
        requires
            self.shape_ok(),
        ensures
            range.0 < range.1 ==> r == range,
            range.0 >= range.1 ==> {
                &&& exists|i: int|
                    0 <= i < self.nodes.len() && self.nodes[i].children == 0 && self.nodes[i].depth_spec() == r.0
                &&& exists|i: int|
                    0 <= i < self.nodes.len() && self.nodes[i].children == 0 && self.nodes[i].depth_spec() == r.1
                &&& forall|i: int|
                    0 <= i < self.nodes.len() && #[trigger] self.nodes[i].children == 0 ==> r.0 <= self.nodes[i].depth_spec() <= r.1
            },
    {
        if range.0 < range.1 {
            range
        } else {
            self.leaf_depth_range()
        }
    }

    /// The nodes that outline the tree between depths `lo` and `hi`, each
    /// with its depth: every node shown for that range, once, in arena
    /// order, and no other.
    pub fn nodes_to_draw(&self, lo: usize, hi: usize) -> (r: Vec<(usize, usize)>)
        requires
            self.shape_ok(),
        ensures
            forall|k: int|
                0 <= k < r.len() ==> {
                    let (j, d) = #[trigger] r@[k];
                    &&& j < self.nodes.len()
                    &&& d == self.nodes[j as int].depth_spec()
                    &&& self.shown(j as int, lo as int, hi as int)
                },
            forall|j: int|
                0 <= j < self.nodes.len() && #[trigger] self.shown(j, lo as int, hi as int) ==> exists|k: int|
                    0 <= k < r.len() && r@[k].0 == j,
            forall|k1: int, k2: int| 0 <= k1 < k2 < r.len() ==> (#[trigger] r@[k1]).0 < (#[trigger] r@[k2]).0,
    {
        let ghost n = self.order.len() as nat;
        let ghost cap = self.leaf_capacity as nat;
        let mut r: Vec<(usize, usize)> = Vec::new();
        let mut j: usize = 0;
        while j < self.nodes.len()
            invariant
                self.shape_ok(),
                n == self.order.len(),
                cap == self.leaf_capacity,
                j <= self.nodes.len(),
                forall|k: int|
                    0 <= k < r.len() ==> {
                        let (x, d) = #[trigger] r@[k];
                        &&& x < j
                        &&& d == self.nodes[x as int].depth_spec()
                        &&& self.shown(x as int, lo as int, hi as int)
                    },
                forall|x: int|
                    0 <= x < j && #[trigger] self.shown(x, lo as int, hi as int) ==> exists|k: int|
                        0 <= k < r.len() && r@[k].0 == x,
                forall|k1: int, k2: int| 0 <= k1 < k2 < r.len() ==> (#[trigger] r@[k1]).0 < (#[trigger] r@[k2]).0,
            decreases self.nodes.len() - j,
        {
            assert(node_ok(self.nodes@, j as int, n, cap));
            let node = &self.nodes[j];
            let d = node.depth();
            if lo <= d && d <= hi && (node.is_leaf() || d == hi) {
                let ghost before = r@;
                r.push((j, d));
                proof {
                    assert forall|x: int|
                        0 <= x < j + 1 && #[trigger] self.shown(x, lo as int, hi as int) implies exists|k: int|
                            0 <= k < r.len() && r@[k].0 == x by {
                        if x == j {
                            assert(r@[before.len() as int].0 == x);
                        } else {
                            let k = choose|k: int| 0 <= k < before.len() && before[k].0 == x;
                            assert(r@[k] == before[k]);
                        }
                    }
                }
            }
            j = j + 1;
        }
        r
    }

    /// The bodies in the leaves under node `i`, leaf by leaf, children in
    /// quadrant order.
    pub open spec fn subtree_bodies(self, i: int) -> Seq<usize>
        decreases self.nodes.len() - i,
    {
        let nd = self.nodes[i];
        let c = nd.children as int;
        if 0 <= i < c && c + 4 <= self.nodes.len() {
            self.subtree_bodies(c) + self.subtree_bodies(c + 1) + self.subtree_bodies(c + 2)
                + self.subtree_bodies(c + 3)
        } else {
            self.order@.subrange(nd.start as int, nd.end as int)
        }
    }

    /// Every node accounts for exactly the bodies of its subtree: the leaves
    /// under it hold, in order, the bodies of its own range, and all of those
    /// lie in its quad. So a node's aggregate over its range is the
    /// aggregate over its subtree.
    pub proof fn lemma_subtree(self, cells: Seq<Cell>, i: int)
        requires
            self.wf(cells),
            0 <= i < self.nodes.len(),
        ensures
            self.subtree_bodies(i) == self.order@.subrange(
                self.nodes[i].start as int,
                self.nodes[i].end as int,
            ),
            holds(self.order@, cells, self.nodes[i].quad, self.nodes[i].start as int, self.nodes[i].end as int),
        decreases self.nodes.len() - i,
    {
        let nd = self.nodes[i];
        assert(node_ok(self.nodes@, i, cells.len(), self.leaf_capacity as nat));
        if nd.children != 0 {
            let c = nd.children as int;
            assert(children_ok(self.nodes@, i));
            self.lemma_subtree(cells, c);
            self.lemma_subtree(cells, c + 1);
            self.lemma_subtree(cells, c + 2);
            self.lemma_subtree(cells, c + 3);
            assert(node_ok(self.nodes@, c, cells.len(), self.leaf_capacity as nat));
            assert(node_ok(self.nodes@, c + 1, cells.len(), self.leaf_capacity as nat));
            assert(node_ok(self.nodes@, c + 2, cells.len(), self.leaf_capacity as nat));
            assert(node_ok(self.nodes@, c + 3, cells.len(), self.leaf_capacity as nat));
            let o = self.order@;
            assert(self.subtree_bodies(i) =~= o.subrange(nd.start as int, nd.end as int));
            assert forall|k: int| nd.start <= k < nd.end implies nd.quad.contains(cells[#[trigger] o[k] as int]) by {
                let q: int = if k < self.nodes[c].end {
                    0
                } else if k < self.nodes[c + 1].end {
                    1
                } else if k < self.nodes[c + 2].end {
                    2
                } else {
                    3
                };
                if q == 0 {
                    assert(self.nodes[c].quad == nd.quad.child_spec(0));
                }
                assert(holds(o, cells, self.nodes[c + q].quad, self.nodes[c + q].start as int, self.nodes[c + q].end as int));
                lemma_child_within(nd.quad, q, cells[o[k] as int]);
            }
        } else {
            assert(holds(self.order@, cells, nd.quad, nd.start as int, nd.end as int));
        }
    }

    /// The leaves of the tree hold every body exactly once.
    pub proof fn lemma_leaves_hold_each_body_once(self, cells: Seq<Cell>)
        requires
            self.wf(cells),
        ensures
            self.subtree_bodies(ROOT as int).to_multiset() == ids(cells.len()).to_multiset(),
    {
        self.lemma_subtree(cells, ROOT as int);
        assert(self.order@.subrange(0, cells.len() as int) =~= self.order@);
    }

    /// Builds the tree of the bodies at `cells` from scratch. Nodes are
    /// expanded in arena order, so every child sits after its parent and a
    /// walk of the arena from the back visits children before parents.
    pub fn build(cells: &Vec<Cell>, leaf_capacity: usize) -> (t: Quadtree)
        ensures
            t.wf(cells@),
            t.leaf_capacity == leaf_capacity,
    {
        let n = cells.len();
        let mut order: Vec<usize> = Vec::with_capacity(n);
        let mut b: usize = 0;
        while b < n
            invariant
                b <= n == cells.len(),
                order@ == ids(b as nat),
            decreases n - b,
        {
            order.push(b);
            b = b + 1;
            assert(order@ =~= ids(b as nat));
        }
        let root = Quad::root();
        let mut nodes: Vec<Node> = Vec::new();
        nodes.push(Node { quad: root, start: 0, end: n, children: 0 });
        let ghost cap = leaf_capacity as nat;
        let mut i: usize = 0;
        while i < nodes.len()
            invariant
                n == cells.len(),
                cap == leaf_capacity,
                i <= nodes.len(),
                nodes.len() >= 1,
                order.len() == n,
                order@.to_multiset() == ids(n as nat).to_multiset(),
                indices_in(order@, 0, n as int, n as int),
                nodes[0].start == 0,
                nodes[0].end == n,
                nodes[0].quad == Quad::root_spec(),
                forall|j: int| 0 <= j < i ==> #[trigger] node_ok(nodes@, j, n as nat, cap),
                forall|j: int| i <= j < nodes.len() ==> #[trigger] pending_ok(nodes[j], n as nat),
                forall|j: int| 1 <= j < nodes.len() ==> #[trigger] has_parent(nodes@, j),
                forall|j1: int, j2: int| 0 <= j1 < j2 < nodes.len() ==> #[trigger] blocks_ordered(nodes@, j1, j2),
                forall|j: int|
                    0 <= j < nodes.len() && (i <= j || nodes[j].children == 0) ==> #[trigger] holds(
                        order@,
                        cells@,
                        nodes[j].quad,
                        nodes[j].start as int,
                        nodes[j].end as int,
                    ),
                forall|j1: int, j2: int|
                    0 <= j1 < nodes.len() && i <= j2 < nodes.len() && j1 != j2 && (i <= j1
                        || nodes[j1].children == 0) ==> #[trigger] disjoint(nodes[j1], nodes[j2]),
            decreases backlog(nodes@, i as int),
        {
            let node = nodes[i];
            assert(pending_ok(nodes[i as int], n as nat));
            if node.end - node.start > leaf_capacity && node.quad.level > 0 {
                let quad = node.quad;
                let s = node.start;
                let e = node.end;
                let mx = quad.split(Axis::X);
                let my = quad.split(Axis::Y);
                let ghost o0 = order@;
                assert(holds(o0, cells@, quad, s as int, e as int));
                let s2 = partition(&mut order, s, e, cells, Axis::Y, my);
                let ghost o1 = order@;
                let s1 = partition(&mut order, s, s2, cells, Axis::X, mx);
                let ghost o2 = order@;
                let s3 = partition(&mut order, s2, e, cells, Axis::X, mx);
                let ghost o3 = order@;
                proof {
                    let in_quad = |b: usize| quad.contains(cells@[b as int]);
                    lemma_same_entries(o1, o0, s as int, e as int, in_quad);
                    let low_y = |b: usize| quad.contains(cells@[b as int]) && below(cells@, b, Axis::Y, my);
                    lemma_same_entries(o2, o1, s as int, s2 as int, low_y);
                    let high_y = |b: usize| quad.contains(cells@[b as int]) && !below(cells@, b, Axis::Y, my);
                    assert forall|k: int| s2 <= k < e implies high_y(#[trigger] o2[k]) by {
                        assert(o2[k] == o1[k]);
                    }
                    lemma_same_entries(o3, o2, s2 as int, e as int, high_y);
                    assert forall|k: int| s <= k < s2 implies #[trigger] o3[k] == o2[k] by {}
                    lemma_quarter(o3, cells@, quad, s as int, s1 as int, true, true);
                    lemma_quarter(o3, cells@, quad, s1 as int, s2 as int, false, true);
                    lemma_quarter(o3, cells@, quad, s2 as int, s3 as int, true, false);
                    lemma_quarter(o3, cells@, quad, s3 as int, e as int, false, false);
                    lemma_range_multiset(o1, o0, s as int, e as int);
                    lemma_range_multiset(o2, o1, s as int, s2 as int);
                    lemma_range_multiset(o3, o2, s2 as int, e as int);
                    assert forall|k: int| 0 <= k < n && !(s <= k < e) implies #[trigger] o3[k] == o0[k] by {}
                    assert(indices_in(o3, 0, n as int, n as int)) by {
                        assert forall|k: int| 0 <= k < n implies #[trigger] o3[k] < n by {
                            if !(s <= k < e) {
                                assert(o3[k] == o0[k]);
                            } else if k < s2 {
                                assert(o2[k] < n);
                                assert(o3[k] == o2[k]);
                            }
                        }
                    }
                }
                let c = nodes.len();
                let ghost before = nodes@;
                nodes.set(i, Node { quad, start: s, end: e, children: c });
                nodes.push(Node { quad: quad.child(0), start: s, end: s1, children: 0 });
                nodes.push(Node { quad: quad.child(1), start: s1, end: s2, children: 0 });
                nodes.push(Node { quad: quad.child(2), start: s2, end: s3, children: 0 });
                nodes.push(Node { quad: quad.child(3), start: s3, end: e, children: 0 });
                proof {
                    let mid = before.update(i as int, nodes[i as int]);
                    lemma_backlog_update(before, i as int + 1, i as int, nodes[i as int]);
                    lemma_backlog_push(mid, i as int + 1, nodes[c as int]);
                    lemma_backlog_push(mid.push(nodes[c as int]), i as int + 1, nodes[c + 1]);
                    lemma_backlog_push(mid.push(nodes[c as int]).push(nodes[c + 1]), i as int + 1, nodes[c + 2]);
                    lemma_backlog_push(
                        mid.push(nodes[c as int]).push(nodes[c + 1]).push(nodes[c + 2]),
                        i as int + 1,
                        nodes[c + 3],
                    );
                    assert(nodes@ =~= mid.push(nodes[c as int]).push(nodes[c + 1]).push(nodes[c + 2]).push(
                        nodes[c + 3],
                    ));
                    assert(pow2(quad.level as nat) == 2 * pow2((quad.level - 1) as nat));
                    assert(pow5(quad.level as nat) == 5 * pow5((quad.level - 1) as nat));
                    lemma_pow5_positive((quad.level - 1) as nat);
                    assert(backlog(nodes@, i + 1) == backlog(before, i + 1) + 4 * pow5((quad.level - 1) as nat));
                    assert(backlog(before, i as int) == pow5(quad.level as nat) + backlog(before, i + 1));
                    assert(nodes[c as int].quad.level == quad.level - 1);
                    assert(nodes[c + 1].quad.level == quad.level - 1);
                    assert(nodes[c + 2].quad.level == quad.level - 1);
                    assert(nodes[c + 3].quad.level == quad.level - 1);
                    assert(nodes[i as int] == Node { quad, start: s, end: e, children: c });
                    assert(children_ok(nodes@, i as int));
                    assert(node_ok(nodes@, i as int, n as nat, cap));
                    assert forall|j: int| 0 <= j < i + 1 implies #[trigger] node_ok(nodes@, j, n as nat, cap) by {
                        if j < i {
                            assert(node_ok(before, j, n as nat, cap));
                            if nodes[j].children != 0 {
                                assert(children_ok(before, j));
                            }
                        }
                    }
                    assert forall|j: int|
                        0 <= j < nodes.len() && (i + 1 <= j || nodes[j].children == 0) implies #[trigger] holds(
                            o3,
                            cells@,
                            nodes[j].quad,
                            nodes[j].start as int,
                            nodes[j].end as int,
                        ) by {
                        if j >= c {
                            assert(holds(o3, cells@, quad.child_spec(j - c), nodes[j].start as int, nodes[j].end as int));
                        } else {
                            assert(j != i);
                            assert(before[j] == nodes[j]);
                            assert(holds(o0, cells@, nodes[j].quad, nodes[j].start as int, nodes[j].end as int));
                            assert(disjoint(before[j], before[i as int]));
                            if j < i {
                                assert(node_ok(before, j, n as nat, cap));
                            } else {
                                assert(pending_ok(before[j], n as nat));
                            }
                            assert forall|k: int| nodes[j].start <= k < nodes[j].end implies nodes[j].quad.contains(
                                cells@[#[trigger] o3[k] as int],
                            ) by {
                                assert(o0[k] == o3[k]);
                            }
                        }
                    }
                    assert forall|j1: int, j2: int|
                        0 <= j1 < nodes.len() && i + 1 <= j2 < nodes.len() && j1 != j2 && (i + 1 <= j1
                            || nodes[j1].children == 0) implies #[trigger] disjoint(nodes[j1], nodes[j2]) by {
                        if j1 < c && j2 < c {
                            assert(before[j1] == nodes[j1]);
                            assert(before[j2] == nodes[j2]);
                        } else if j1 < c {
                            assert(before[j1] == nodes[j1]);
                            assert(disjoint(before[j1], before[i as int]));
                        } else if j2 < c {
                            assert(before[j2] == nodes[j2]);
                            assert(disjoint(before[j2], before[i as int]));
                        }
                    }
                    assert forall|j: int| 1 <= j < nodes.len() implies #[trigger] has_parent(nodes@, j) by {
                        if j >= c {
                            assert(nodes[i as int].children <= j < nodes[i as int].children + 4);
                        } else {
                            assert(has_parent(before, j));
                            let p = choose|p: int|
                                0 <= p < j && before[p].children != 0 && before[p].children <= j < before[p].children + 4;
                            assert(p != i);
                            assert(nodes[p] == before[p]);
                        }
                    }
                    assert forall|j1: int, j2: int| 0 <= j1 < j2 < nodes.len() implies #[trigger] blocks_ordered(nodes@, j1, j2) by {
                        if j2 < c && j1 != i && j2 != i {
                            assert(blocks_ordered(before, j1, j2));
                            assert(nodes[j1] == before[j1]);
                            assert(nodes[j2] == before[j2]);
                        } else if j1 < c && j2 < c && nodes[j1].children != 0 && nodes[j2].children != 0 {
                            if j1 == i {
                                assert(pending_ok(before[j2], n as nat));
                            } else {
                                assert(nodes[j1] == before[j1]);
                                assert(node_ok(before, j1, n as nat, cap));
                                assert(children_ok(before, j1));
                            }
                        }
                    }
                    assert forall|j: int| i + 1 <= j < nodes.len() implies #[trigger] pending_ok(nodes[j], n as nat) by {
                        if j < c {
                            assert(before[j] == nodes[j]);
                        }
                    }
                }
            } else {
                proof {
                    lemma_backlog_positive(nodes@, i as int);
                }
            }
            i = i + 1;
        }
        Quadtree { leaf_capacity, nodes, order }
    }
}

} // verus!
