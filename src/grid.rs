//! Cells of the integer grid that body positions are quantised onto, and the
//! axis-aligned square quads of that grid that the tree subdivides.
use vstd::prelude::*;

verus! {

/// Number of halvings from the whole grid down to a single cell.
pub const GRID_LEVEL: u32 = 32;

/// Side length of the whole grid, in cells.
pub const GRID_SIZE: u64 = 4294967296;

/// `2` raised to `n`.
pub open spec fn pow2(n: nat) -> nat
    decreases n,
{
    if n == 0 {
        1
    } else {
        2 * pow2((n - 1) as nat)
    }
}

/// `5` raised to `n`: the weight of a node of level `n` in a walk of the
/// tree, more than the weight of its four children together.
pub open spec fn pow5(n: nat) -> nat
    decreases n,
{
    if n == 0 {
        1
    } else {
        5 * pow5((n - 1) as nat)
    }
}

pub proof fn lemma_pow5_positive(n: nat)
    ensures
        pow5(n) >= 1,
    decreases n,
{
    if n > 0 {
        lemma_pow5_positive((n - 1) as nat);
    }
}

pub proof fn lemma_pow2_grid()
    ensures
        pow2(GRID_LEVEL as nat) == GRID_SIZE,
{
    reveal_with_fuel(pow2, 33);
}

/// A body's position on the grid.
#[derive(Clone, Copy, Debug, PartialEq, Eq)]
pub struct Cell {
    pub x: u32,
    pub y: u32,
}

/// The two axes of the plane.
#[derive(Clone, Copy, Debug, PartialEq, Eq)]
pub enum Axis {
    X,
    Y,
}

/// The coordinate of `c` along `axis`.
pub open spec fn coord(c: Cell, axis: Axis) -> nat {
    match axis {
        Axis::X => c.x as nat,
        Axis::Y => c.y as nat,
    }
}

impl Cell {
    pub fn coord(&self, axis: Axis) -> (r: u32)
        ensures
            r == coord(*self, axis),
    {
        match axis {
            Axis::X => self.x,
            Axis::Y => self.y,
        }
    }
}

/// A square of the grid: its lowest corner `(x, y)`, and a side of `size`
/// cells, which is `2` raised to `level`.
#[derive(Clone, Copy, Debug, PartialEq, Eq)]
pub struct Quad {
    pub x: u64,
    pub y: u64,
    pub size: u64,
    pub level: u32,
}

impl Quad {
    /// The quad lies inside the grid and its size matches its level.
    pub open spec fn wf(self) -> bool {
        &&& self.level <= GRID_LEVEL
        &&& self.size == pow2(self.level as nat)
        &&& self.x + self.size <= GRID_SIZE
        &&& self.y + self.size <= GRID_SIZE
    }

    pub open spec fn contains(self, c: Cell) -> bool {
        &&& self.x <= c.x < self.x + self.size
        &&& self.y <= c.y < self.y + self.size
    }

    /// The quadrant `q` of this quad: bit 0 of `q` selects the upper half
    /// along x, bit 1 the upper half along y. The four quadrants have half
    /// the side and together cover the quad exactly.
    pub open spec fn child_spec(self, q: int) -> Quad {
        let h = (self.size / 2) as u64;
        Quad {
            x: if q % 2 == 1 { (self.x + h) as u64 } else { self.x },
            y: if q >= 2 { (self.y + h) as u64 } else { self.y },
            size: h,
            level: (self.level - 1) as u32,
        }
    }

    /// The quad that covers the whole grid.
    pub open spec fn root_spec() -> Quad {
        Quad { x: 0, y: 0, size: GRID_SIZE, level: GRID_LEVEL }
    }

    pub fn root() -> (r: Quad)
        ensures
            r == Quad::root_spec(),
            r.wf(),
            forall|c: Cell| r.contains(c),
    {
        proof {
            lemma_pow2_grid();
        }
        Quad { x: 0, y: 0, size: GRID_SIZE, level: GRID_LEVEL }
    }

    /// The coordinate along `axis` at which the quad is halved.
    pub fn split(&self, axis: Axis) -> (r: u64)
        requires
            self.wf(),
        ensures
            r == match axis {
                Axis::X => self.x + self.size / 2,
                Axis::Y => self.y + self.size / 2,
            },
    {
        match axis {
            Axis::X => self.x + self.size / 2,
            Axis::Y => self.y + self.size / 2,
        }
    }

    pub fn child(&self, q: usize) -> (r: Quad)
        requires
            self.wf(),
            self.level > 0,
            q < 4,
        ensures
            r == self.child_spec(q as int),
            r.wf(),
            forall|c: Cell| r.contains(c) ==> self.contains(c),
    {
        let h = self.size / 2;
        assert(h == pow2((self.level - 1) as nat));
        let x = if q % 2 == 1 { self.x + h } else { self.x };
        let y = if q >= 2 { self.y + h } else { self.y };
        Quad { x, y, size: h, level: self.level - 1 }
    }
}

/// The bodies of a range that all lie in `quad`, on one side of its
/// midline along x and on one side along y, lie in the matching quadrant.
pub proof fn lemma_quarter(
    order: Seq<usize>,
    cells: Seq<Cell>,
    quad: Quad,
    lo: int,
    hi: int,
    low_x: bool,
    low_y: bool,
)
    requires
        quad.wf(),
        quad.level > 0,
        forall|k: int|
            lo <= k < hi ==> {
                let c = cells[#[trigger] order[k] as int];
                &&& quad.contains(c)
                &&& (c.x < quad.x + quad.size / 2) == low_x
                &&& (c.y < quad.y + quad.size / 2) == low_y
            },
    ensures
        forall|k: int|
            lo <= k < hi ==> quad.child_spec(
                (if low_y { 0int } else { 2int }) + (if low_x { 0int } else { 1int }),
            ).contains(cells[#[trigger] order[k] as int]),
{
    assert(quad.size == 2 * (quad.size / 2));
}

/// Each quadrant lies within its quad.
pub proof fn lemma_child_within(quad: Quad, q: int, c: Cell)
    requires
        quad.wf(),
        quad.level > 0,
        0 <= q < 4,
        quad.child_spec(q).contains(c),
    ensures
        quad.contains(c),
{
    assert(quad.size == 2 * (quad.size / 2));
}

} // verus!
