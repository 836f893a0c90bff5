//! In-place partition of a range of body indices by the side of a split line
//! on which each body's cell lies.
use vstd::prelude::*;
use vstd::multiset::group_multiset_axioms;
use vstd::seq_lib::{to_multiset_contains, to_multiset_update};

use crate::grid::{coord, Axis, Cell};

verus! {

/// Body `b` lies below `split` along `axis`.
pub open spec fn below(cells: Seq<Cell>, b: usize, axis: Axis, split: u64) -> bool {
    coord(cells[b as int], axis) < split
}

/// Every index in `order[lo..hi)` names a body of `cells`.
pub open spec fn indices_in(order: Seq<usize>, lo: int, hi: int, n: int) -> bool {
    forall|k: int| lo <= k < hi ==> #[trigger] order[k] < n
}

/// Exchanging two entries of a range leaves the multiset of the range as it was.
proof fn lemma_swap_multiset(s: Seq<usize>, lo: int, hi: int, i: int, j: int)
    requires
        0 <= lo <= i <= j < hi <= s.len(),
    ensures
        s.update(i, s[j]).update(j, s[i]).subrange(lo, hi).to_multiset()
            == s.subrange(lo, hi).to_multiset(),
{
    broadcast use group_multiset_axioms, to_multiset_update;

    let t = s.subrange(lo, hi);
    let a = i - lo;
    let b = j - lo;
    assert(s.update(i, s[j]).update(j, s[i]).subrange(lo, hi) =~= t.update(a, t[b]).update(b, t[a]));
    if a != b {
        let u = t.update(a, t[b]);
        assert(u[b] == t[b]);
        assert(t.to_multiset().count(t[a]) > 0) by {
            broadcast use to_multiset_contains;
            assert(t.contains(t[a]));
        }
        assert(u.update(b, t[a]).to_multiset() =~= t.to_multiset());
    } else {
        assert(t.update(a, t[b]).update(b, t[a]) =~= t);
    }
}

/// Two ranges with one multiset of entries: whatever holds of every entry of
/// the first holds of every entry of the second.
pub proof fn lemma_same_entries(a: Seq<usize>, b: Seq<usize>, lo: int, hi: int, p: spec_fn(usize) -> bool)
    requires
        0 <= lo <= hi <= a.len(),
        hi <= b.len(),
        a.subrange(lo, hi).to_multiset() == b.subrange(lo, hi).to_multiset(),
        forall|k: int| lo <= k < hi ==> p(#[trigger] b[k]),
    ensures
        forall|k: int| lo <= k < hi ==> p(#[trigger] a[k]),
{
    broadcast use to_multiset_contains;

    assert forall|k: int| lo <= k < hi implies p(#[trigger] a[k]) by {
        let sa = a.subrange(lo, hi);
        let sb = b.subrange(lo, hi);
        assert(sa[k - lo] == a[k]);
        assert(sa.contains(a[k]));
        assert(sa.to_multiset().count(a[k]) > 0);
        assert(sb.to_multiset().count(a[k]) > 0);
        assert(sb.contains(a[k]));
        let j = choose|j: int| 0 <= j < sb.len() && sb[j] == a[k];
        assert(b[lo + j] == a[k]);
    }
}

fn swap_entries(order: &mut Vec<usize>, i: usize, j: usize)
    requires
        i < old(order).len(),
        j < old(order).len(),
    ensures
        final(order)@ == old(order)@.update(i as int, old(order)@[j as int]).update(
            j as int,
            old(order)@[i as int],
        ),
{
    let a = order[i];
    let b = order[j];
    order.set(i, b);
    order.set(j, a);
}

/// Reorders `order[lo..hi)` in place so that the bodies below `split` along
/// `axis` come first, and returns where the others begin. Entries outside
/// the range stay where they are, and the range keeps its multiset of
/// entries.
pub fn partition(order: &mut Vec<usize>, lo: usize, hi: usize, cells: &Vec<Cell>, axis: Axis, split: u64) -> (mid: usize)
    requires
        lo <= hi <= old(order).len(),
        indices_in(old(order)@, lo as int, hi as int, cells.len() as int),
    ensures
        final(order).len() == old(order).len(),
        lo <= mid <= hi,
        forall|k: int|
            0 <= k < final(order).len() && !(lo <= k < hi) ==> #[trigger] final(order)[k] == old(order)[k],
        final(order)@.subrange(lo as int, hi as int).to_multiset() == old(order)@.subrange(
            lo as int,
            hi as int,
        ).to_multiset(),
        indices_in(final(order)@, lo as int, hi as int, cells.len() as int),
        forall|k: int| lo <= k < mid ==> below(cells@, #[trigger] final(order)[k], axis, split),
        forall|k: int| mid <= k < hi ==> !below(cells@, #[trigger] final(order)[k], axis, split),
{
    let ghost start = order@;
    let mut i: usize = lo;
    let mut j: usize = lo;
    while j < hi
        invariant
            lo <= i <= j <= hi,
            hi <= order.len() == start.len(),
            forall|k: int| 0 <= k < order.len() && !(lo <= k < hi) ==> #[trigger] order[k] == start[k],
            order@.subrange(lo as int, hi as int).to_multiset() == start.subrange(lo as int, hi as int).to_multiset(),
            indices_in(order@, lo as int, hi as int, cells.len() as int),
            forall|k: int| lo <= k < i ==> below(cells@, #[trigger] order[k], axis, split),
            forall|k: int| i <= k < j ==> !below(cells@, #[trigger] order[k], axis, split),
        decreases hi - j,
    {
        let b = order[j];
        if (cells[b].coord(axis) as u64) < split {
            proof {
                lemma_swap_multiset(order@, lo as int, hi as int, i as int, j as int);
            }
            swap_entries(order, i, j);
            i = i + 1;
        }
        j = j + 1;
    }
    i
}

} // verus!
