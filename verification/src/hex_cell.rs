//! Axial hex-cell addresses and their exact integer geometry.

use vstd::prelude::*;

verus! {

use vstd::math::abs;
use crate::cartesian_point::CartesianPoint;

/// A hexagonal grid cell addressed by axial coordinates `(q, r)`.
///
/// The implicit cube coordinate is `s = -q - r`, so the cube sum
/// `q + r + s` is always zero; `s` is never stored.
#[derive(Copy, Clone, Debug, PartialEq, Eq, Hash, Structural)]
pub struct HexCell {
    pub q: i32,
    pub r: i32,
}

/// The cell at the center of every grid.
pub open spec fn hex_origin() -> HexCell {
    HexCell { q: 0, r: 0 }
}

/// Both coordinates lie strictly inside the `i32` range, so each of the six
/// unit steps away from the cell stays representable.
pub open spec fn coords_in_range(c: HexCell) -> bool {
    &&& i32::MIN < c.q < i32::MAX
    &&& i32::MIN < c.r < i32::MAX
}

/// The six unit directions, in the fixed order that governs tie-breaking
/// during search expansion.
pub open spec fn hex_dir(i: int) -> (int, int) {
    if i == 0 {
        (1, 0)
    } else if i == 1 {
        (1, -1)
    } else if i == 2 {
        (0, -1)
    } else if i == 3 {
        (-1, 0)
    } else if i == 4 {
        (-1, 1)
    } else {
        (0, 1)
    }
}

/// The cell one step from `c` in direction `i`.
pub open spec fn hex_neighbor(c: HexCell, i: int) -> HexCell {
    HexCell { q: (c.q + hex_dir(i).0) as i32, r: (c.r + hex_dir(i).1) as i32 }
}

/// The hex metric: `(|dq| + |dr| + |dq + dr|) / 2`, exact on integers.
/// `dq + dr` is the (negated) difference of the implicit cube coordinate,
/// so this counts the minimum number of unit steps between the two cells.
pub open spec fn hex_dist(a: HexCell, b: HexCell) -> int {
    let dq = a.q - b.q;
    let dr = a.r - b.r;
    (abs(dq) + abs(dr) + abs(dq + dr)) as int / 2
}

/// The metric is zero exactly on equal cells.
pub proof fn lemma_hex_dist_zero(a: HexCell, b: HexCell)
    ensures
        hex_dist(a, b) == 0 <==> a == b,
{
}

/// The metric is symmetric.
pub proof fn lemma_hex_dist_sym(a: HexCell, b: HexCell)
    ensures
        hex_dist(a, b) == hex_dist(b, a),
{
}

/// The triangle inequality for the hex metric.
pub proof fn lemma_hex_dist_triangle(a: HexCell, b: HexCell, c: HexCell)
    ensures
        hex_dist(a, c) <= hex_dist(a, b) + hex_dist(b, c),
{
}

/// The fixed pointy-top layout: cell `(q, r)` sits at the real coordinates
/// `x = sqrt(3) * (r/2 + q)`, `y = -1.5 * r`, which the fixed-point units of
/// `CartesianPoint` represent exactly.
pub open spec fn cell_to_point(c: HexCell) -> CartesianPoint {
    CartesianPoint { x_milli: (1000 * c.q + 500 * c.r) as i64, y_milli: (-1500 * c.r) as i64 }
}

/// Vertex `i` of the unit hexagon drawn around the center of `c`: the
/// offsets from the center are `(0, 1)`, `(cos30, 1/2)`, `(cos30, -1/2)`,
/// `(0, -1)`, `(-cos30, -1/2)`, `(-cos30, 1/2)` with `cos30 = sqrt(3)/2`,
/// all exact in fixed-point units.
pub open spec fn hex_vertex(c: HexCell, i: int) -> CartesianPoint {
    let p = cell_to_point(c);
    let off: (int, int) = if i == 0 {
        (0, 1000)
    } else if i == 1 {
        (500, 500)
    } else if i == 2 {
        (500, -500)
    } else if i == 3 {
        (0, -1000)
    } else if i == 4 {
        (-500, -500)
    } else {
        (-500, 500)
    };
    CartesianPoint { x_milli: (p.x_milli + off.0) as i64, y_milli: (p.y_milli + off.1) as i64 }
}

/// Every unit step moves to a cell at metric distance exactly one.
pub proof fn lemma_hex_neighbor_dist(c: HexCell, i: int)
    requires
        coords_in_range(c),
        0 <= i < 6,
    ensures
        hex_dist(c, hex_neighbor(c, i)) == 1,
{
}

/// The six neighbors of a cell are pairwise distinct, so `neighbors`
/// really lists six different cells.
pub proof fn lemma_hex_neighbors_distinct(c: HexCell, i: int, j: int)
    requires
        coords_in_range(c),
        0 <= i < j < 6,
    ensures
        hex_neighbor(c, i) != hex_neighbor(c, j),
{
}

impl HexCell {
    /// Builds the cell with the given axial coordinates.
    pub fn new(q: i32, r: i32) -> (c: Self)
        ensures
            c == (HexCell { q, r }),
    {
        Self { q, r }
    }

    /// The cell at the center of every grid.
    pub fn origin() -> (c: Self)
        ensures
            c == hex_origin(),
    {
        Self::new(0, 0)
    }

    /// The six adjacent cells, in the fixed direction order.
    pub fn neighbors(&self) -> (ns: Vec<HexCell>)
        requires
            coords_in_range(*self),
        ensures
            ns@.len() == 6,
            forall|i: int| 0 <= i < 6 ==> ns@[i] == hex_neighbor(*self, i),
    {
        let mut ns: Vec<HexCell> = Vec::new();
        ns.push(HexCell::new(self.q + 1, self.r));
        ns.push(HexCell::new(self.q + 1, self.r - 1));
        ns.push(HexCell::new(self.q, self.r - 1));
        ns.push(HexCell::new(self.q - 1, self.r));
        ns.push(HexCell::new(self.q - 1, self.r + 1));
        ns.push(HexCell::new(self.q, self.r + 1));
        ns
    }

    /// The hex metric distance from `self` to `to`.
    ///
    /// The bound on the distance is a machine limit: the result must be
    /// representable as a `usize` on the target.
    pub fn axial_dist_to(&self, to: &HexCell) -> (d: usize)
        requires
            hex_dist(*self, *to) <= usize::MAX,
        ensures
            d == hex_dist(*self, *to),
    {
        let dq: i64 = self.q as i64 - to.q as i64;
        let dr: i64 = self.r as i64 - to.r as i64;
        let ds: i64 = dq + dr;
        let aq: u64 = if dq < 0 {
            (-dq) as u64
        } else {
            dq as u64
        };
        let ar: u64 = if dr < 0 {
            (-dr) as u64
        } else {
            dr as u64
        };
        let asum: u64 = if ds < 0 {
            (-ds) as u64
        } else {
            ds as u64
        };
        ((aq + ar + asum) / 2) as usize
    }

    /// The point at the center of this cell in the pointy-top layout.
    pub fn world_location(&self) -> (p: CartesianPoint)
        ensures
            p == cell_to_point(*self),
    {
        let x: i64 = 1000 * (self.q as i64) + 500 * (self.r as i64);
        let y: i64 = 0 - 1500 * (self.r as i64);
        CartesianPoint::new(x, y)
    }

    /// The six corners of this cell's hexagon, clockwise from the top.
    pub fn vertex_locations(&self) -> (vs: Vec<CartesianPoint>)
        ensures
            vs@.len() == 6,
            forall|i: int| 0 <= i < 6 ==> vs@[i] == hex_vertex(*self, i),
    {
        let center = self.world_location();
        let x = center.x_milli;
        let y = center.y_milli;
        let mut vs: Vec<CartesianPoint> = Vec::new();
        vs.push(CartesianPoint::new(x, y + 1000));
        vs.push(CartesianPoint::new(x + 500, y + 500));
        vs.push(CartesianPoint::new(x + 500, y - 500));
        vs.push(CartesianPoint::new(x, y - 1000));
        vs.push(CartesianPoint::new(x - 500, y - 500));
        vs.push(CartesianPoint::new(x - 500, y + 500));
        vs
    }
}

impl std::ops::Add for HexCell {
    type Output = HexCell;

    /// Componentwise addition of axial coordinates.
    fn add(self, rhs: HexCell) -> (c: HexCell) {
        HexCell { q: self.q + rhs.q, r: self.r + rhs.r }
    }
}

impl vstd::std_specs::ops::AddSpecImpl for HexCell {
    open spec fn obeys_add_spec() -> bool {
        true
    }

    open spec fn add_req(self, rhs: HexCell) -> bool {
        &&& i32::MIN <= self.q + rhs.q <= i32::MAX
        &&& i32::MIN <= self.r + rhs.r <= i32::MAX
    }

    open spec fn add_spec(self, rhs: HexCell) -> HexCell {
        HexCell { q: (self.q + rhs.q) as i32, r: (self.r + rhs.r) as i32 }
    }
}

impl std::ops::Sub for HexCell {
    type Output = HexCell;

    /// Componentwise subtraction of axial coordinates.
    fn sub(self, rhs: HexCell) -> (c: HexCell) {
        HexCell { q: self.q - rhs.q, r: self.r - rhs.r }
    }
}

impl vstd::std_specs::ops::SubSpecImpl for HexCell {
    open spec fn obeys_sub_spec() -> bool {
        true
    }

    open spec fn sub_req(self, rhs: HexCell) -> bool {
        &&& i32::MIN <= self.q - rhs.q <= i32::MAX
        &&& i32::MIN <= self.r - rhs.r <= i32::MAX
    }

    open spec fn sub_spec(self, rhs: HexCell) -> HexCell {
        HexCell { q: (self.q - rhs.q) as i32, r: (self.r - rhs.r) as i32 }
    }
}

} // verus!
