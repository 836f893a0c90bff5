//! The walk of the tree that gathers the terms of the force sum at a query
//! point: a branch is either opened or taken whole, a leaf gives its bodies
//! one by one.
use vstd::prelude::*;
use vstd::multiset::Multiset;
use vstd::seq_lib::lemma_multiset_commutative;

use crate::grid::{lemma_pow5_positive, pow5};
use crate::quadtree::{blocks_ordered, children_ok, has_parent, ids, node_ok, Quadtree, ROOT};

verus! {

/// One term of the force sum at a query point.
#[derive(Clone, Copy, Debug, PartialEq, Eq)]
pub enum Interaction {
    /// A body, taken on its own.
    Body(usize),
    /// A branch, taken as one point mass at its center of mass.
    Node(usize),
}

/// The bodies of node `i`.
pub open spec fn range_of(t: Quadtree, i: int) -> Seq<usize> {
    t.order@.subrange(t.nodes[i].start as int, t.nodes[i].end as int)
}

/// The bodies that the terms `items` account for, in order.
pub open spec fn covered(t: Quadtree, items: Seq<Interaction>) -> Seq<usize>
    decreases items.len(),
{
    if items.len() == 0 {
        Seq::empty()
    } else {
        covered(t, items.drop_last()) + match items.last() {
            Interaction::Body(b) => seq![b],
            Interaction::Node(i) => range_of(t, i as int),
        }
    }
}

/// The index that a term carries: a body's, or a branch's.
pub open spec fn index_of(it: Interaction) -> usize {
    match it {
        Interaction::Body(b) => b,
        Interaction::Node(i) => i,
    }
}

/// Terms that are all single bodies account for exactly the bodies they name.
proof fn lemma_covered_bodies(t: Quadtree, r: Seq<Interaction>)
    requires
        forall|k: int| 0 <= k < r.len() ==> #[trigger] r[k] is Body,
    ensures
        covered(t, r) == r.map_values(|it: Interaction| index_of(it)),
    decreases r.len(),
{
    if r.len() > 0 {
        let d = r.drop_last();
        assert forall|k: int| 0 <= k < d.len() implies #[trigger] d[k] is Body by {
            assert(d[k] == r[k]);
        }
        lemma_covered_bodies(t, d);
        assert(r.map_values(|it: Interaction| index_of(it)) =~= d.map_values(|it: Interaction| index_of(it))
            + seq![index_of(r.last())]);
    } else {
        assert(r.map_values(|it: Interaction| index_of(it)) =~= Seq::<usize>::empty());
    }
}

/// Exact mode: when the walk opens every branch, its terms are single
/// bodies, and they name every body of the tree exactly once, so the force
/// sum over them is the sum over all bodies.
pub proof fn lemma_exact_mode<F: Fn(usize) -> bool>(t: Quadtree, descend: F, r: Seq<Interaction>)
    requires
        forall|i: usize| #[trigger] descend.ensures((i,), false) ==> false,
        covered(t, r).to_multiset() == ids(t.order.len() as nat).to_multiset(),
        forall|k: int|
            0 <= k < r.len() ==> match #[trigger] r[k] {
                Interaction::Body(b) => b < t.order.len(),
                Interaction::Node(i) => i < t.nodes.len() && t.nodes[i as int].children != 0
                    && descend.ensures((i,), false),
            },
    ensures
        forall|k: int| 0 <= k < r.len() ==> #[trigger] r[k] is Body,
        r.map_values(|it: Interaction| index_of(it)).to_multiset() == ids(t.order.len() as nat).to_multiset(),
{
    assert forall|k: int| 0 <= k < r.len() implies #[trigger] r[k] is Body by {
        if let Interaction::Node(i) = r[k] {
            assert(descend.ensures((i,), false));
        }
    }
    lemma_covered_bodies(t, r);
}

/// The branch that has node `j` among its children.
pub open spec fn parent(t: Quadtree, j: int) -> int {
    choose|p: int| 0 <= p < j && t.nodes[p].children != 0 && t.nodes[p].children <= j < t.nodes[p].children + 4
}

/// `descend` answered `true` on every proper ancestor of node `j`.
pub open spec fn opened_to<F: Fn(usize) -> bool>(t: Quadtree, descend: F, j: int) -> bool
    decreases j,
{
    if j <= 0 {
        true
    } else if has_parent(t.nodes@, j) {
        let p = parent(t, j);
        descend.ensures((p as usize,), true) && opened_to(t, descend, p)
    } else {
        false
    }
}

/// The walk reached the term through opened branches only: a `Node` term
/// directly, a `Body` term through the leaf that holds it.
pub open spec fn reached<F: Fn(usize) -> bool>(t: Quadtree, descend: F, it: Interaction) -> bool {
    match it {
        Interaction::Body(b) => exists|l: int, x: int|
            0 <= l < t.nodes.len() && t.nodes[l].children == 0 && t.nodes[l].start <= x < t.nodes[l].end
                && t.order@[x] == b && opened_to(t, descend, l),
        Interaction::Node(i) => opened_to(t, descend, i as int),
    }
}

/// The children of a branch have that branch, and no other, as parent.
proof fn lemma_parent_of_child(t: Quadtree, i: int, q: int)
    requires
        t.shape_ok(),
        0 <= i < t.nodes.len(),
        t.nodes[i].children != 0,
        0 <= q < 4,
    ensures
        has_parent(t.nodes@, t.nodes[i].children + q),
        parent(t, t.nodes[i].children + q) == i,
{
    let c = t.nodes[i].children as int;
    assert(node_ok(t.nodes@, i, t.order.len() as nat, t.leaf_capacity as nat));
    assert(children_ok(t.nodes@, i));
    let j = c + q;
    assert(0 <= i < j && t.nodes[i].children != 0 && t.nodes[i].children <= j < t.nodes[i].children + 4);
    let p = parent(t, j);
    if p < i {
        assert(blocks_ordered(t.nodes@, p, i));
    } else if p > i {
        assert(blocks_ordered(t.nodes@, i, p));
    }
}

/// The bodies under the nodes still to visit.
spec fn pending(t: Quadtree, stack: Seq<usize>) -> Seq<usize>
    decreases stack.len(),
{
    if stack.len() == 0 {
        Seq::empty()
    } else {
        pending(t, stack.drop_last()) + range_of(t, stack.last() as int)
    }
}

/// Work left in a walk over the nodes still to visit.
spec fn weight(t: Quadtree, stack: Seq<usize>) -> nat
    decreases stack.len(),
{
    if stack.len() == 0 {
        0
    } else {
        weight(t, stack.drop_last()) + pow5(t.nodes[stack.last() as int].quad.level as nat)
    }
}

/// Replacing a branch on the stack by its four children leaves the bodies
/// to visit as they were, and lowers the work left.
proof fn lemma_open_branch(t: Quadtree, rest: Seq<usize>, i: usize, n: nat)
    requires
        t.shape_ok(),
        n == t.order.len(),
        i < t.nodes.len(),
        t.nodes[i as int].children != 0,
    ensures
        ({
            let c = t.nodes[i as int].children;
            let s = rest.push(c).push((c + 1) as usize).push((c + 2) as usize).push((c + 3) as usize);
            &&& pending(t, s).to_multiset() == pending(t, rest).to_multiset().add(range_of(t, i as int).to_multiset())
            &&& weight(t, s) < weight(t, rest) + pow5(t.nodes[i as int].quad.level as nat)
            &&& c + 3 < t.nodes.len()
        }),
{
    broadcast use vstd::multiset::group_multiset_axioms;

    let node = t.nodes[i as int];
    let c = node.children;
    assert(node_ok(t.nodes@, i as int, n, t.leaf_capacity as nat));
    assert(children_ok(t.nodes@, i as int));
    let s1 = rest.push(c);
    let s2 = s1.push((c + 1) as usize);
    let s3 = s2.push((c + 2) as usize);
    let s4 = s3.push((c + 3) as usize);
    assert(s1.drop_last() =~= rest);
    assert(s2.drop_last() =~= s1);
    assert(s3.drop_last() =~= s2);
    assert(s4.drop_last() =~= s3);
    let q = node.quad.level - 1;
    assert(pow5(node.quad.level as nat) == 5 * pow5(q as nat));
    assert(node_ok(t.nodes@, c as int, n, t.leaf_capacity as nat));
    assert(node_ok(t.nodes@, c + 1, n, t.leaf_capacity as nat));
    assert(node_ok(t.nodes@, c + 2, n, t.leaf_capacity as nat));
    assert(node_ok(t.nodes@, c + 3, n, t.leaf_capacity as nat));
    let p0 = pending(t, rest);
    let w0 = weight(t, rest);
    let r0 = range_of(t, c as int);
    let r1 = range_of(t, c + 1);
    let r2 = range_of(t, c + 2);
    let r3 = range_of(t, c + 3);
    assert(r0 + r1 + r2 + r3 =~= range_of(t, i as int));
    assert(pending(t, s1) == p0 + r0);
    assert(pending(t, s2) == p0 + r0 + r1);
    assert(pending(t, s3) == p0 + r0 + r1 + r2);
    assert(pending(t, s4) == p0 + r0 + r1 + r2 + r3);
    assert(p0 + r0 + r1 + r2 + r3 =~= p0 + (r0 + r1 + r2 + r3));
    lemma_multiset_commutative(p0, r0 + r1 + r2 + r3);
    assert(weight(t, s1) == w0 + pow5(q as nat));
    assert(weight(t, s2) == w0 + 2 * pow5(q as nat));
    assert(weight(t, s3) == w0 + 3 * pow5(q as nat));
    assert(weight(t, s4) == w0 + 4 * pow5(q as nat));
    lemma_pow5_positive(q as nat);
}

impl Quadtree {
    /// The terms of the force sum at one query point. From the root, a
    /// branch for which `descend` answers `true` is opened, any other
    /// branch is one `Node` term; a leaf gives one `Body` term per body.
    /// The terms count every body exactly once, and a `Node` term stands
    /// only for a branch on which `descend` said `false`: with a `descend`
    /// that always opens, the terms are exactly the bodies.
    pub fn interactions<F: Fn(usize) -> bool>(&self, descend: F) -> (r: Vec<Interaction>)
        requires
            self.shape_ok(),
            forall|i: usize| i < self.nodes.len() ==> descend.requires((i,)),
        ensures
            covered(*self, r@).to_multiset() == ids(self.order.len() as nat).to_multiset(),
            forall|k: int|
                0 <= k < r.len() ==> match #[trigger] r@[k] {
                    Interaction::Body(b) => b < self.order.len(),
                    Interaction::Node(i) => i < self.nodes.len() && self.nodes[i as int].children != 0
                        && descend.ensures((i,), false),
                },
            forall|k: int| 0 <= k < r.len() ==> reached(*self, descend, #[trigger] r@[k]),
    {
        broadcast use vstd::multiset::group_multiset_axioms;

        let ghost t = *self;
        let ghost all = ids(self.order.len() as nat).to_multiset();
        let n = self.order.len();
        let mut items: Vec<Interaction> = Vec::new();
        let mut stack: Vec<usize> = Vec::new();
        stack.push(ROOT);
        proof {
            assert(stack@.drop_last() =~= Seq::<usize>::empty());
            assert(self.order@.subrange(0, n as int) =~= self.order@);
            assert(covered(t, items@) =~= Seq::<usize>::empty());
            assert(pending(t, stack@.drop_last()) =~= Seq::<usize>::empty());
            assert(pending(t, stack@) == pending(t, stack@.drop_last()) + range_of(t, 0));
            assert(range_of(t, 0) =~= self.order@);
            assert(pending(t, stack@) =~= self.order@);
            assert(covered(t, items@) == Seq::<usize>::empty());
            vstd::seq_lib::to_multiset_len(Seq::<usize>::empty());
            vstd::multiset::lemma_multiset_empty_len(Seq::<usize>::empty().to_multiset());
            assert(Seq::<usize>::empty().to_multiset() =~= Multiset::empty());
        }
        while stack.len() > 0
            invariant
                t == *self,
                n == self.order.len(),
                self.shape_ok(),
                forall|i: usize| i < self.nodes.len() ==> descend.requires((i,)),
                forall|k: int| 0 <= k < stack.len() ==> #[trigger] stack@[k] < self.nodes.len(),
                forall|k: int| 0 <= k < stack.len() ==> opened_to(t, descend, #[trigger] stack@[k] as int),
                forall|k: int| 0 <= k < items.len() ==> reached(t, descend, #[trigger] items@[k]),
                covered(t, items@).to_multiset().add(pending(t, stack@).to_multiset()) == all,
                forall|k: int|
                    0 <= k < items.len() ==> match #[trigger] items@[k] {
                        Interaction::Body(b) => b < n,
                        Interaction::Node(i) => i < self.nodes.len() && self.nodes[i as int].children != 0
                            && descend.ensures((i,), false),
                    },
            decreases weight(t, stack@),
        {
            let ghost s0 = stack@;
            let ghost c0 = covered(t, items@);
            let i = stack.pop().unwrap();
            assert(stack@ =~= s0.drop_last());
            assert(opened_to(t, descend, s0[s0.len() - 1] as int));
            let ghost p0 = pending(t, stack@);
            let ghost w0 = weight(t, stack@);
            assert(weight(t, s0) == w0 + pow5(self.nodes[i as int].quad.level as nat));
            assert(pending(t, s0) == p0 + range_of(t, i as int));
            proof {
                lemma_multiset_commutative(p0, range_of(t, i as int));
            }
            assert(pending(t, s0).to_multiset() == p0.to_multiset().add(range_of(t, i as int).to_multiset()));
            let node = self.nodes[i];
            assert(node_ok(self.nodes@, i as int, n as nat, self.leaf_capacity as nat));
            proof {
                lemma_pow5_positive(node.quad.level as nat);
            }
            if node.children == 0 {
                let mut k = node.start;
                while k < node.end
                    invariant
                        t == *self,
                        n == self.order.len(),
                        self.shape_ok(),
                        node == self.nodes[i as int],
                        node.start <= k <= node.end <= n,
                        i < self.nodes.len(),
                        node.children == 0,
                        opened_to(t, descend, i as int),
                        forall|k: int| 0 <= k < items.len() ==> reached(t, descend, #[trigger] items@[k]),
                        covered(t, items@) == c0 + self.order@.subrange(node.start as int, k as int),
                        forall|k: int|
                            0 <= k < items.len() ==> match #[trigger] items@[k] {
                                Interaction::Body(b) => b < n,
                                Interaction::Node(i) => i < self.nodes.len() && self.nodes[i as int].children
                                    != 0 && descend.ensures((i,), false),
                            },
                    decreases node.end - k,
                {
                    let ghost before = items@;
                    let b = self.order[k];
                    items.push(Interaction::Body(b));
                    proof {
                        assert(items@.drop_last() =~= before);
                        assert(reached(t, descend, items@[before.len() as int])) by {
                            assert(items@[before.len() as int] == Interaction::Body(b));
                            assert(0 <= i < t.nodes.len() && t.nodes[i as int].children == 0 && t.nodes[i as int].start
                                <= k < t.nodes[i as int].end && t.order@[k as int] == b && opened_to(t, descend, i as int));
                        }
                        assert forall|x: int| 0 <= x < items.len() implies reached(t, descend, #[trigger] items@[x]) by {
                            if x < before.len() {
                                assert(items@[x] == before[x]);
                            }
                        }
                        assert(self.order@.subrange(node.start as int, k + 1) =~= self.order@.subrange(
                            node.start as int,
                            k as int,
                        ).push(b));
                    }
                    k = k + 1;
                }
                proof {
                    assert(covered(t, items@) == c0 + range_of(t, i as int));
                    lemma_multiset_commutative(c0, range_of(t, i as int));
                    assert(covered(t, items@).to_multiset() == c0.to_multiset().add(range_of(t, i as int).to_multiset()));
                    assert(covered(t, items@).to_multiset().add(pending(t, stack@).to_multiset()) =~= all);
                }
            } else if descend(i) {
                let c = node.children;
                assert(children_ok(self.nodes@, i as int));
                let ghost rest = stack@;
                stack.push(c);
                stack.push(c + 1);
                stack.push(c + 2);
                stack.push(c + 3);
                proof {
                    assert(stack@ == rest.push(c).push((c + 1) as usize).push((c + 2) as usize).push((c + 3) as usize));
                    lemma_open_branch(t, rest, i, n as nat);
                    lemma_parent_of_child(t, i as int, 0);
                    lemma_parent_of_child(t, i as int, 1);
                    lemma_parent_of_child(t, i as int, 2);
                    lemma_parent_of_child(t, i as int, 3);
                    assert(opened_to(t, descend, c as int));
                    assert(opened_to(t, descend, c + 1));
                    assert(opened_to(t, descend, c + 2));
                    assert(opened_to(t, descend, c + 3));
                    assert forall|k: int| 0 <= k < stack.len() implies opened_to(t, descend, #[trigger] stack@[k] as int) by {
                        if k < rest.len() {
                            assert(stack@[k] == rest[k]);
                        }
                    }
                    assert(covered(t, items@).to_multiset().add(pending(t, stack@).to_multiset()) =~= all);
                }
            } else {
                let ghost before = items@;
                items.push(Interaction::Node(i));
                proof {
                    assert(items@.drop_last() =~= before);
                    assert forall|x: int| 0 <= x < items.len() implies reached(t, descend, #[trigger] items@[x]) by {
                        if x < before.len() {
                            assert(items@[x] == before[x]);
                        }
                    }
                    assert(covered(t, items@) == c0 + range_of(t, i as int));
                    lemma_multiset_commutative(c0, range_of(t, i as int));
                    assert(covered(t, items@).to_multiset() == c0.to_multiset().add(range_of(t, i as int).to_multiset()));
                    assert(covered(t, items@).to_multiset().add(pending(t, stack@).to_multiset()) =~= all);
                }
            }
        }
        proof {
            assert(pending(t, stack@) =~= Seq::<usize>::empty());
            assert(covered(t, items@).to_multiset() =~= all);
        }
        items
    }
}

} // verus!
