//! The bounded hexagonal grid: construction, membership, point-location and
//! neighbor enumeration.

use vstd::prelude::*;

verus! {

use vstd::math::abs;
use crate::cartesian_point::CartesianPoint;
use crate::hex_cell::{HexCell, hex_origin, hex_dist, hex_neighbor, coords_in_range, cell_to_point};

/// The largest supported grid radius, a machine limit: it keeps every
/// coordinate computation inside `i32` and every point coordinate inside the
/// fixed-point bound.
pub const MAX_RADIUS: usize = 0x3FFF_FFFF;

/// A hexagon of radius `n` around the origin holds exactly the cells whose
/// axial coordinates satisfy these three bounds; equivalently (see
/// `lemma_bounds_iff_dist`) the cells at hex distance at most `n` from the
/// origin.
pub open spec fn pair_in_bounds(q: int, r: int, n: int) -> bool {
    &&& abs(q) <= n
    &&& abs(r) <= n
    &&& abs(q + r) <= n
}

/// Whether a cell lies inside the grid of radius `n`.
pub open spec fn in_hex_bounds(c: HexCell, n: int) -> bool {
    pair_in_bounds(c.q as int, c.r as int, n)
}

/// The coordinate bounds describe exactly the hex-metric ball of radius `n`.
pub proof fn lemma_bounds_iff_dist(c: HexCell, n: int)
    requires
        0 <= n,
    ensures
        in_hex_bounds(c, n) <==> hex_dist(c, hex_origin()) <= n,
{
}

/// First row coordinate of column `q` in the radius-`n` hexagon.
pub open spec fn row_start(n: int, q: int) -> int {
    vstd::math::max(-n, -q - n)
}

/// Last row coordinate of column `q` in the radius-`n` hexagon.
pub open spec fn row_end(n: int, q: int) -> int {
    vstd::math::min(n, -q + n)
}

/// Column `q` of the radius-`n` hexagon, rows in ascending order.
pub open spec fn grid_row(n: int, q: int) -> Seq<HexCell> {
    Seq::new(
        (row_end(n, q) - row_start(n, q) + 1) as nat,
        |j: int| HexCell { q: q as i32, r: (row_start(n, q) + j) as i32 },
    )
}

/// The first `i` columns of the radius-`n` hexagon (columns `-n` up to
/// `-n + i - 1`), concatenated in ascending column order.
pub open spec fn grid_prefix(n: int, i: nat) -> Seq<HexCell>
    decreases i,
{
    if i == 0 {
        Seq::empty()
    } else {
        grid_prefix(n, (i - 1) as nat) + grid_row(n, -n + i - 1)
    }
}

/// The full ordered cell sequence of the radius-`n` hexagon.
pub open spec fn grid_seq(n: int) -> Seq<HexCell> {
    grid_prefix(n, (2 * n + 1) as nat)
}

/// Cell count of the first `i` columns, in closed form.
pub open spec fn prefix_count(n: int, i: int) -> int {
    let q = -n + i;
    if q <= 0 {
        (q + n) * (3 * n + q + 1) / 2
    } else {
        n * (3 * n + 1) / 2 + q * (2 * n + 1) - q * (q - 1) / 2
    }
}

proof fn lemma_grid_prefix_len(n: int, i: nat)
    requires
        0 <= n,
        i <= 2 * n + 1,
    ensures
        grid_prefix(n, i).len() == prefix_count(n, i as int),
        prefix_count(n, i as int) >= 0,
    decreases i,
{
    if i == 0 {
        assert((-n + n) * (3 * n + -n + 1) == 0) by (nonlinear_arith);
        assert(prefix_count(n, 0) == 0);
    } else {
        lemma_grid_prefix_len(n, (i - 1) as nat);
        let q = -n + i - 1;
        assert(row_end(n, q) - row_start(n, q) + 1 == 2 * n + 1 - abs(q));
        assert(grid_row(n, q).len() == 2 * n + 1 - abs(q));
        assert(grid_prefix(n, i) == grid_prefix(n, (i - 1) as nat) + grid_row(n, q));
        assert(grid_prefix(n, i).len() == prefix_count(n, i - 1) + (2 * n + 1 - abs(q)));
        assert(prefix_count(n, i as int) - prefix_count(n, i - 1) == 2 * n + 1 - abs(q)) by {
            lemma_prefix_count_step(n, i as int);
        }
    }
}

proof fn lemma_prefix_count_step(n: int, i: int)
    requires
        0 <= n,
        1 <= i <= 2 * n + 1,
    ensures
        prefix_count(n, i) - prefix_count(n, i - 1) == 2 * n + 1 - abs(-n + i - 1),
{
    let q = -n + i;
    if q <= 0 {
        assert(abs(-n + i - 1) == 1 - q);
        assert(prefix_count(n, i) == (q + n) * (3 * n + q + 1) / 2);
        assert(prefix_count(n, i - 1) == (q - 1 + n) * (3 * n + q) / 2);
        assert((q + n) * (3 * n + q + 1) - (q - 1 + n) * (3 * n + q) == 2 * (2 * n + q)) by (nonlinear_arith);
        assert((q + n) * (3 * n + q + 1) % 2 == 0 && (q - 1 + n) * (3 * n + q) % 2 == 0) by {
            lemma_even_product(q + n, 3 * n + q + 1);
            lemma_even_product(q - 1 + n, 3 * n + q);
        }
        assert(prefix_count(n, i) - prefix_count(n, i - 1) == 2 * n + q) by {
            lemma_half_difference((q + n) * (3 * n + q + 1), (q - 1 + n) * (3 * n + q), 2 * (2 * n + q));
        }
    } else if q == 1 {
        assert(abs(-n + i - 1) == 0);
        assert(q * (2 * n + 1) == 2 * n + 1 && q * (q - 1) == 0) by (nonlinear_arith)
            requires
                q == 1,
        ;
        assert(prefix_count(n, i) == n * (3 * n + 1) / 2 + (2 * n + 1));
        assert(prefix_count(n, i - 1) == n * (3 * n + 1) / 2);
    } else {
        assert(abs(-n + i - 1) == q - 1);
        assert(prefix_count(n, i) == n * (3 * n + 1) / 2 + q * (2 * n + 1) - q * (q - 1) / 2);
        assert(prefix_count(n, i - 1) == n * (3 * n + 1) / 2 + (q - 1) * (2 * n + 1) - (q - 1) * (q - 2)
            / 2);
        assert(q * (2 * n + 1) - (q - 1) * (2 * n + 1) == 2 * n + 1) by (nonlinear_arith);
        assert(q * (q - 1) - (q - 1) * (q - 2) == 2 * (q - 1)) by (nonlinear_arith);
        assert(q * (q - 1) % 2 == 0 && (q - 1) * (q - 2) % 2 == 0) by {
            lemma_even_product(q, q - 1);
            lemma_even_product(q - 1, q - 2);
        }
        assert(q * (q - 1) / 2 - (q - 1) * (q - 2) / 2 == q - 1) by {
            lemma_half_difference(q * (q - 1), (q - 1) * (q - 2), 2 * (q - 1));
        }
    }
}

/// A product of two integers whose sum is odd is even.
proof fn lemma_even_product(a: int, b: int)
    requires
        (a + b) % 2 != 0,
    ensures
        (a * b) % 2 == 0,
{
    vstd::arithmetic::div_mod::lemma_add_mod_noop(a, b, 2);
    vstd::arithmetic::div_mod::lemma_fundamental_div_mod(a, 2);
    vstd::arithmetic::div_mod::lemma_fundamental_div_mod(b, 2);
    if a % 2 == 0 {
        vstd::arithmetic::div_mod::lemma_mod_multiples_basic((a / 2) * b, 2);
        assert(a * b == ((a / 2) * b) * 2) by (nonlinear_arith)
            requires
                a == 2 * (a / 2),
        ;
    } else {
        vstd::arithmetic::div_mod::lemma_mod_multiples_basic((b / 2) * a, 2);
        assert(a * b == ((b / 2) * a) * 2) by (nonlinear_arith)
            requires
                b == 2 * (b / 2),
        ;
    }
}

/// Halving distributes over a difference of even numbers.
proof fn lemma_half_difference(a: int, b: int, d: int)
    requires
        a % 2 == 0,
        b % 2 == 0,
        a - b == d,
    ensures
        a / 2 - b / 2 == d / 2,
{
}

/// The radius-`n` hexagon holds exactly `3n^2 + 3n + 1` cells.
///
/// This is the cell-count half of the counting law; the other half, that the
/// members are exactly the cells within distance `n` of the origin, is
/// `lemma_grid_seq_membership`.
pub proof fn lemma_grid_seq_len(n: int)
    requires
        0 <= n,
    ensures
        grid_seq(n).len() == 3 * n * n + 3 * n + 1,
{
    lemma_grid_prefix_len(n, (2 * n + 1) as nat);
    let q = n + 1;
    assert(n * (3 * n + 1) % 2 == 0) by {
        lemma_even_product(n, 3 * n + 1);
    }
    assert(q * (q - 1) % 2 == 0) by {
        lemma_even_product(q, q - 1);
    }
    assert(n * (3 * n + 1) / 2 + q * (2 * n + 1) - q * (q - 1) / 2 == 3 * n * n + 3 * n + 1) by (nonlinear_arith)
        requires
            q == n + 1,
            n * (3 * n + 1) % 2 == 0,
            q * (q - 1) % 2 == 0,
    ;
}

/// Column-major lexicographic order on cells: first by `q`, then by `r`.
pub open spec fn lex_lt(a: HexCell, b: HexCell) -> bool {
    a.q < b.q || (a.q == b.q && a.r < b.r)
}

proof fn lemma_grid_prefix_membership(n: int, i: nat, c: HexCell)
    requires
        0 <= n <= MAX_RADIUS,
        i <= 2 * n + 1,
    ensures
        grid_prefix(n, i).contains(c) <==> {
            &&& -n <= c.q < -n + i
            &&& row_start(n, c.q as int) <= c.r <= row_end(n, c.q as int)
        },
    decreases i,
{
    if i == 0 {
    } else {
        lemma_grid_prefix_membership(n, (i - 1) as nat, c);
        let pre = grid_prefix(n, (i - 1) as nat);
        let q = -n + i - 1;
        let row = grid_row(n, q);
        let s = grid_prefix(n, i);
        assert(s == pre + row);
        if s.contains(c) {
            let k = choose|k: int| 0 <= k < s.len() && s[k] == c;
            if k < pre.len() {
                assert(pre[k] == c);
            } else {
                assert(row[k - pre.len()] == c);
            }
        }
        if -n <= c.q < -n + i && row_start(n, c.q as int) <= c.r <= row_end(n, c.q as int) {
            if c.q < q {
                let k = choose|k: int| 0 <= k < pre.len() && pre[k] == c;
                assert(s[k] == c);
            } else {
                let j = c.r - row_start(n, q);
                assert(row[j] == c);
                assert(s[pre.len() + j] == c);
            }
        }
    }
}

proof fn lemma_grid_prefix_sorted(n: int, i: nat)
    requires
        0 <= n <= MAX_RADIUS,
        i <= 2 * n + 1,
    ensures
        forall|k1: int, k2: int|
            0 <= k1 < k2 < grid_prefix(n, i).len() ==> lex_lt(
                #[trigger] grid_prefix(n, i)[k1],
                #[trigger] grid_prefix(n, i)[k2],
            ),
    decreases i,
{
    if i == 0 {
    } else {
        lemma_grid_prefix_sorted(n, (i - 1) as nat);
        let pre = grid_prefix(n, (i - 1) as nat);
        let q = -n + i - 1;
        let row = grid_row(n, q);
        let s = grid_prefix(n, i);
        assert(s == pre + row);
        assert forall|k1: int, k2: int| 0 <= k1 < k2 < s.len() implies lex_lt(s[k1], s[k2]) by {
            if k1 < pre.len() && k2 >= pre.len() {
                assert(pre.contains(pre[k1]));
                lemma_grid_prefix_membership(n, (i - 1) as nat, pre[k1]);
                assert(s[k1].q < q);
            }
        }
    }
}

/// The members of the radius-`n` hexagon are exactly the cells within hex
/// distance `n` of the origin.
pub proof fn lemma_grid_seq_membership(n: int, c: HexCell)
    requires
        0 <= n <= MAX_RADIUS,
    ensures
        grid_seq(n).contains(c) <==> in_hex_bounds(c, n),
{
    lemma_grid_prefix_membership(n, (2 * n + 1) as nat, c);
}

/// The cell sequence of the radius-`n` hexagon is strictly ordered, first
/// by column and then by row.
pub proof fn lemma_grid_seq_sorted(n: int)
    requires
        0 <= n <= MAX_RADIUS,
    ensures
        forall|k1: int, k2: int|
            0 <= k1 < k2 < grid_seq(n).len() ==> lex_lt(
                #[trigger] grid_seq(n)[k1],
                #[trigger] grid_seq(n)[k2],
            ),
{
    lemma_grid_prefix_sorted(n, (2 * n + 1) as nat);
}

/// The cell sequence of the radius-`n` hexagon lists no cell twice: together
/// with `lemma_grid_seq_len`, the grid has exactly `3n^2 + 3n + 1` distinct
/// cells.
pub proof fn lemma_grid_seq_distinct(n: int)
    requires
        0 <= n <= MAX_RADIUS,
    ensures
        forall|k1: int, k2: int|
            0 <= k1 < k2 < grid_seq(n).len() ==> #[trigger] grid_seq(n)[k1]
                != #[trigger] grid_seq(n)[k2],
{
    lemma_grid_prefix_sorted(n, (2 * n + 1) as nat);
}

/// A bounded hexagonal grid: the ordered cells of a hexagon of radius
/// `size` around the origin.  The grid is immutable after construction and
/// carries no per-cell values; those live in a separate
/// [`crate::cell_attributes::CellAttributes`] owned by the caller.
pub struct Honeycomb {
    /// The cells, in ascending column-major order.
    pub grid: Vec<HexCell>,
    size: usize,
}

impl Honeycomb {
    /// The radius the grid was built with.
    pub closed spec fn radius(&self) -> int {
        self.size as int
    }

    /// The cell sequence the grid holds.
    pub closed spec fn cells(&self) -> Seq<HexCell> {
        self.grid@
    }

    /// The grid is exactly the canonical cell sequence of its radius.
    pub closed spec fn wf(&self) -> bool {
        &&& 0 <= self.radius() <= MAX_RADIUS
        &&& self.grid@ == grid_seq(self.radius())
    }

    /// What well-formedness gives a caller: the radius is in range and the
    /// cells are the canonical ordered sequence of that radius.
    pub proof fn lemma_wf_cells(&self)
        requires
            self.wf(),
        ensures
            0 <= self.radius() <= MAX_RADIUS,
            self.cells() == grid_seq(self.radius()),
    {
    }

    /// Builds the hexagonal grid of the given radius.
    ///
    /// The bound on `size` is a machine limit; it keeps all coordinate
    /// arithmetic representable.
    pub fn new(size: usize) -> (hc: Self)
        requires
            size <= MAX_RADIUS,
        ensures
            hc.wf(),
            hc.radius() == size,
            hc.cells() == grid_seq(size as int),
    {
        let n: i32 = size as i32;
        let gn: Ghost<int> = Ghost(n as int);
        let mut grid: Vec<HexCell> = Vec::new();
        let mut q: i32 = -n;
        while q <= n
            invariant
                0 <= gn@ <= MAX_RADIUS,
                gn@ == n,
                -gn@ <= q <= gn@ + 1,
                grid@ == grid_prefix(gn@, (q + gn@) as nat),
            decreases gn@ + 1 - q,
        {
            let r1: i32 = if -n >= -q - n {
                -n
            } else {
                -q - n
            };
            let r2: i32 = if n <= -q + n {
                n
            } else {
                -q + n
            };
            proof {
                assert(r1 == row_start(gn@, q as int));
                assert(r2 == row_end(gn@, q as int));
            }
            let mut r: i32 = r1;
            while r <= r2
                invariant
                    0 <= gn@ <= MAX_RADIUS,
                    gn@ == n,
                    -gn@ <= q <= gn@,
                    r1 == row_start(gn@, q as int),
                    r2 == row_end(gn@, q as int),
                    r1 <= r <= r2 + 1,
                    grid@ == grid_prefix(gn@, (q + gn@) as nat) + grid_row(gn@, q as int).take(
                        r - r1,
                    ),
                decreases r2 + 1 - r,
            {
                grid.push(HexCell::new(q, r));
                proof {
                    assert(grid_row(gn@, q as int).take(r + 1 - r1) == grid_row(
                        gn@,
                        q as int,
                    ).take(r - r1).push(grid_row(gn@, q as int)[r - r1]));
                }
                r = r + 1;
            }
            proof {
                assert(grid_row(gn@, q as int).take(r2 + 1 - r1) == grid_row(gn@, q as int));
                assert(grid_prefix(gn@, (q + 1 + gn@) as nat) == grid_prefix(gn@, (q + gn@) as nat)
                    + grid_row(gn@, q as int));
            }
            q = q + 1;
        }
        proof {
            assert(grid@ == grid_seq(size as int));
        }
        Honeycomb { grid, size }
    }

    /// Whether the given cell is a member of this grid.
    pub fn contains(&self, cell: &HexCell) -> (b: bool)
        requires
            self.wf(),
        ensures
            b == in_hex_bounds(*cell, self.radius()),
    {
        in_bounds_i64(cell.q as i64, cell.r as i64, self.size as u64)
    }
}

/// The neighbors of `c` among the first `i` directions that lie within the
/// hexagon of radius `n`, in direction order.
pub open spec fn neighbors_within_upto(c: HexCell, n: int, i: int) -> Seq<HexCell>
    decreases i,
{
    if i <= 0 {
        Seq::empty()
    } else {
        let rest = neighbors_within_upto(c, n, i - 1);
        let nb = hex_neighbor(c, i - 1);
        if in_hex_bounds(nb, n) {
            rest.push(nb)
        } else {
            rest
        }
    }
}

/// The neighbors of `c` that lie within the hexagon of radius `n`, in
/// direction order.  The filter looks only at the neighbors; whether `c`
/// itself is a member does not matter.
pub open spec fn neighbors_within(c: HexCell, n: int) -> Seq<HexCell> {
    neighbors_within_upto(c, n, 6)
}

proof fn lemma_upto_len(c: HexCell, n: int, i: int)
    requires
        0 <= i,
    ensures
        neighbors_within_upto(c, n, i).len() <= i,
    decreases i,
{
    if i > 0 {
        lemma_upto_len(c, n, i - 1);
    }
}

proof fn lemma_upto_full(c: HexCell, n: int, i: int)
    requires
        0 <= i,
        forall|j: int| 0 <= j < i ==> in_hex_bounds(#[trigger] hex_neighbor(c, j), n),
    ensures
        neighbors_within_upto(c, n, i).len() == i,
    decreases i,
{
    if i > 0 {
        lemma_upto_full(c, n, i - 1);
    }
}

proof fn lemma_upto_missing(c: HexCell, n: int, i: int, j: int)
    requires
        0 <= j < i,
        !in_hex_bounds(hex_neighbor(c, j), n),
    ensures
        neighbors_within_upto(c, n, i).len() < i,
    decreases i,
{
    if j == i - 1 {
        lemma_upto_len(c, n, i - 1);
    } else {
        lemma_upto_missing(c, n, i - 1, j);
    }
}

proof fn lemma_upto_elem(c: HexCell, n: int, i: int, k: int)
    requires
        0 <= i <= 6,
        0 <= k < neighbors_within_upto(c, n, i).len(),
    ensures
        exists|j: int|
            0 <= j < i && neighbors_within_upto(c, n, i)[k] == hex_neighbor(c, j)
                && in_hex_bounds(hex_neighbor(c, j), n),
    decreases i,
{
    let s = neighbors_within_upto(c, n, i);
    let rest = neighbors_within_upto(c, n, i - 1);
    if k < rest.len() {
        lemma_upto_elem(c, n, i - 1, k);
        let j = choose|j: int|
            0 <= j < i - 1 && rest[k] == hex_neighbor(c, j) && in_hex_bounds(hex_neighbor(c, j), n);
        assert(s[k] == hex_neighbor(c, j) && in_hex_bounds(hex_neighbor(c, j), n));
    } else {
        assert(s[k] == hex_neighbor(c, i - 1) && in_hex_bounds(hex_neighbor(c, i - 1), n));
    }
}

/// Every entry of the bounded neighbor list lies in the grid and at hex
/// distance one from the center cell.
pub proof fn lemma_neighbors_within_props(c: HexCell, n: int)
    requires
        coords_in_range(c),
        0 <= n <= MAX_RADIUS,
    ensures
        forall|k: int|
            0 <= k < neighbors_within(c, n).len() ==> in_hex_bounds(
                #[trigger] neighbors_within(c, n)[k],
                n,
            ) && hex_dist(c, neighbors_within(c, n)[k]) == 1,
{
    let s = neighbors_within(c, n);
    assert forall|k: int| 0 <= k < s.len() implies in_hex_bounds(s[k], n) && hex_dist(c, s[k])
        == 1 by {
        lemma_upto_elem(c, n, 6, k);
        let j = choose|j: int|
            0 <= j < 6 && s[k] == hex_neighbor(c, j) && in_hex_bounds(hex_neighbor(c, j), n);
        crate::hex_cell::lemma_hex_neighbor_dist(c, j);
    }
}

proof fn lemma_upto_contains(c: HexCell, n: int, i: int, j: int)
    requires
        0 <= j < i <= 6,
        in_hex_bounds(hex_neighbor(c, j), n),
    ensures
        neighbors_within_upto(c, n, i).contains(hex_neighbor(c, j)),
    decreases i,
{
    let s = neighbors_within_upto(c, n, i);
    let rest = neighbors_within_upto(c, n, i - 1);
    if j == i - 1 {
        assert(s[s.len() - 1] == hex_neighbor(c, j));
    } else {
        lemma_upto_contains(c, n, i - 1, j);
        let k = choose|k: int| 0 <= k < rest.len() && rest[k] == hex_neighbor(c, j);
        assert(s[k] == hex_neighbor(c, j));
    }
}

/// Completeness of the bounded neighbor list: every grid member at hex
/// distance one from `c` appears in it.
pub proof fn lemma_neighbors_within_complete(c: HexCell, b: HexCell, n: int)
    requires
        coords_in_range(c),
        0 <= n,
        hex_dist(c, b) == 1,
        in_hex_bounds(b, n),
    ensures
        neighbors_within(c, n).contains(b),
{
    let dq = b.q - c.q;
    let dr = b.r - c.r;
    let j: int = if dq == 1 && dr == 0 {
        0
    } else if dq == 1 && dr == -1 {
        1
    } else if dq == 0 && dr == -1 {
        2
    } else if dq == -1 && dr == 0 {
        3
    } else if dq == -1 && dr == 1 {
        4
    } else {
        5
    };
    assert(b == hex_neighbor(c, j)) by {
        crate::hex_cell::lemma_hex_dist_sym(c, b);
    }
    lemma_upto_contains(c, n, 6, j);
}

/// The hexagon is geodesically convex: between any two distinct member
/// cells there is a first unit step that stays inside the hexagon and
/// brings the hex distance down by exactly one.
pub proof fn lemma_step_toward(a: HexCell, b: HexCell, n: int)
    requires
        in_hex_bounds(a, n),
        in_hex_bounds(b, n),
        a != b,
        0 <= n <= MAX_RADIUS,
    ensures
        exists|c: HexCell|
            hex_dist(a, c) == 1 && in_hex_bounds(c, n) && #[trigger] hex_dist(c, b) == hex_dist(
                a,
                b,
            ) - 1,
{
    let dq = b.q - a.q;
    let dr = b.r - a.r;
    let ds = -dq - dr;
    let step: (int, int) = if dq > 0 && dr < 0 {
        (1, -1)
    } else if dq > 0 {
        (1, 0)
    } else if dq < 0 && dr > 0 {
        (-1, 1)
    } else if dq < 0 {
        (-1, 0)
    } else if dr > 0 {
        (0, 1)
    } else {
        (0, -1)
    };
    let c = HexCell { q: (a.q + step.0) as i32, r: (a.r + step.1) as i32 };
    assert(c.q == a.q + step.0 && c.r == a.r + step.1);
    assert(hex_dist(a, c) == 1 && in_hex_bounds(c, n) && hex_dist(c, b) == hex_dist(a, b) - 1);
}

/// Any cell inside a constructible grid has coordinates safely away from
/// the `i32` boundary.
pub proof fn lemma_bounds_coords(c: HexCell, n: int)
    requires
        in_hex_bounds(c, n),
        0 <= n <= MAX_RADIUS,
    ensures
        coords_in_range(c),
{
}

/// A cell strictly inside the grid has all six neighbors in the grid; a cell
/// on the rim has fewer than six.
pub proof fn lemma_neighbor_count(c: HexCell, n: int)
    requires
        coords_in_range(c),
        0 <= n <= MAX_RADIUS,
    ensures
        hex_dist(c, hex_origin()) < n ==> neighbors_within(c, n).len() == 6,
        hex_dist(c, hex_origin()) == n ==> neighbors_within(c, n).len() < 6,
{
    if hex_dist(c, hex_origin()) < n {
        assert forall|j: int| 0 <= j < 6 implies in_hex_bounds(#[trigger] hex_neighbor(c, j), n) by {
            crate::hex_cell::lemma_hex_neighbor_dist(c, j);
            crate::hex_cell::lemma_hex_dist_sym(c, hex_neighbor(c, j));
            crate::hex_cell::lemma_hex_dist_triangle(hex_neighbor(c, j), c, hex_origin());
            lemma_bounds_iff_dist(hex_neighbor(c, j), n);
        }
        lemma_upto_full(c, n, 6);
    } else if hex_dist(c, hex_origin()) == n {
        let q = c.q as int;
        let r = c.r as int;
        let j: int = if abs(q) == n {
            if q >= 0 {
                0
            } else {
                3
            }
        } else if abs(r) == n {
            if r >= 0 {
                5
            } else {
                2
            }
        } else {
            if q + r >= 0 {
                0
            } else {
                3
            }
        };
        assert(abs(q) == n || abs(r) == n || abs(q + r) == n);
        assert(!in_hex_bounds(hex_neighbor(c, j), n));
        lemma_upto_missing(c, n, 6, j);
    }
}

impl Honeycomb {
    /// The neighbors of `hex` that lie within this grid's bound, between
    /// zero and six cells in direction order.  The filter is applied to the
    /// neighbors alone; `hex` itself need not be a member.
    pub fn neighbors_of(&self, hex: HexCell) -> (ns: Vec<HexCell>)
        requires
            self.wf(),
            coords_in_range(hex),
        ensures
            ns@ == neighbors_within(hex, self.radius()),
    {
        let cand = hex.neighbors();
        let mut ns: Vec<HexCell> = Vec::new();
        let mut i: usize = 0;
        while i < 6
            invariant
                self.wf(),
                cand@.len() == 6,
                forall|j: int| 0 <= j < 6 ==> cand@[j] == hex_neighbor(hex, j),
                0 <= i <= 6,
                ns@ == neighbors_within_upto(hex, self.radius(), i as int),
            decreases 6 - i,
        {
            let c = cand[i];
            if in_bounds_i64(c.q as i64, c.r as i64, self.size as u64) {
                ns.push(c);
            }
            i = i + 1;
        }
        ns
    }
}

/// Whether the axial pair `(q, r)` lies within the hexagon of radius `n`,
/// computed in 64-bit arithmetic so that any `i32` pair is accepted.
fn in_bounds_i64(q: i64, r: i64, n: u64) -> (b: bool)
    requires
        -0x8000_0000_0000 <= q <= 0x8000_0000_0000,
        -0x8000_0000_0000 <= r <= 0x8000_0000_0000,
        n <= MAX_RADIUS,
    ensures
        b == pair_in_bounds(q as int, r as int, n as int),
{
    let aq: i64 = if q < 0 {
        -q
    } else {
        q
    };
    let ar: i64 = if r < 0 {
        -r
    } else {
        r
    };
    let s: i64 = q + r;
    let asum: i64 = if s < 0 {
        -s
    } else {
        s
    };
    let bound: i64 = n as i64;
    aq <= bound && ar <= bound && asum <= bound
}

/// Bound on the fixed-point coordinates accepted by point-location, a
/// machine limit that keeps the rounding arithmetic inside `i64`.  Every
/// cell center of every constructible grid lies far inside it.
pub const POINT_BOUND: i64 = 10_000_000_000_000;

/// Numerator over the common denominator 3000 of the fractional axial
/// coordinate `frac_q` of a point: inverting the pointy-top layout gives
/// `frac_q = x / sqrt(3) + y / 3`, which in fixed-point units is
/// `(3 * x_milli + y_milli) / 3000`.
pub open spec fn frac_q_num(p: CartesianPoint) -> int {
    3 * p.x_milli + p.y_milli
}

/// Numerator of the fractional axial coordinate `frac_r = -2 * y / 3`
/// over the same denominator 3000.
pub open spec fn frac_r_num(p: CartesianPoint) -> int {
    -2 * p.y_milli
}

/// Numerator of the fractional cube coordinate
/// `frac_s = -frac_q - frac_r` over the same denominator 3000.
pub open spec fn frac_s_num(p: CartesianPoint) -> int {
    -3 * p.x_milli + p.y_milli
}

/// The integer nearest to `num / 3000`, ties rounding toward positive
/// infinity.
pub open spec fn round_frac(num: int) -> int {
    (num + 1500) / 3000
}

/// Distance from `num / 3000` to the integer it rounds to, scaled by 3000.
pub open spec fn round_err(num: int) -> int {
    abs(3000 * round_frac(num) - num) as int
}

/// Cube rounding: round each fractional cube coordinate to the nearest
/// integer; if the three roundings do not sum to zero, recompute the
/// coordinate with the largest rounding error from the other two to restore
/// `q + r + s = 0`.  On ties the later coordinate of the chain `q, r, s`
/// keeps its rounding, the single deterministic rule for the non-strict
/// comparison chain.
pub open spec fn cube_round(p: CartesianPoint) -> (int, int) {
    let q = round_frac(frac_q_num(p));
    let r = round_frac(frac_r_num(p));
    let s = round_frac(frac_s_num(p));
    let eq = round_err(frac_q_num(p));
    let er = round_err(frac_r_num(p));
    let es = round_err(frac_s_num(p));
    if eq > er && eq > es {
        (-r - s, r)
    } else if er > es {
        (q, -q - s)
    } else {
        (q, r)
    }
}

/// Floor division by 3000 (rounding toward negative infinity), matching
/// spec-mode integer division.
fn div_floor_3000(m: i64) -> (d: i64)
    requires
        -0x0fff_ffff_ffff_ffff <= m <= 0x0fff_ffff_ffff_ffff,
    ensures
        d == m as int / 3000,
{
    if m >= 0 {
        ((m as u64) / 3000) as i64
    } else {
        let t: u64 = ((-m) as u64 + 2999) / 3000;
        proof {
            let a = -(m as int);
            let k = (a + 2999) / 3000;
            vstd::arithmetic::div_mod::lemma_fundamental_div_mod(a + 2999, 3000);
            vstd::arithmetic::div_mod::lemma_fundamental_div_mod_converse(
                m as int,
                3000,
                -k,
                2999 - ((a + 2999) % 3000),
            );
        }
        -(t as i64)
    }
}

/// Absolute value of an `i64`.
fn abs_i64(v: i64) -> (a: i64)
    requires
        i64::MIN < v,
    ensures
        a == abs(v as int),
{
    if v < 0 {
        -v
    } else {
        v
    }
}

impl Honeycomb {
    /// Point-location: the member cell whose hexagon the given point falls
    /// in, found by cube rounding, or `None` when the rounded cell lies
    /// outside this grid.  No nearby substitute is searched for.
    ///
    /// The coordinate bound is a machine limit (see [`POINT_BOUND`]).
    #[verifier::rlimit(100)]
    pub fn world_to_hex(&self, point: CartesianPoint) -> (res: Option<HexCell>)
        requires
            self.wf(),
            -POINT_BOUND <= point.x_milli <= POINT_BOUND,
            -POINT_BOUND <= point.y_milli <= POINT_BOUND,
        ensures
            ({
                let (cq, cr) = cube_round(point);
                match res {
                    Some(c) => pair_in_bounds(cq, cr, self.radius()) && c.q == cq && c.r == cr,
                    None => !pair_in_bounds(cq, cr, self.radius()),
                }
            }),
    {
        let x = point.x_milli;
        let y = point.y_milli;
        proof {
            assert(-POINT_BOUND <= x <= POINT_BOUND);
            assert(-POINT_BOUND <= y <= POINT_BOUND);
        }
        let nq: i64 = 3 * x + y;
        let nr: i64 = 0 - 2 * y;
        let ns: i64 = y - 3 * x;
        let q = div_floor_3000(nq + 1500);
        let r = div_floor_3000(nr + 1500);
        let s = div_floor_3000(ns + 1500);
        let eq = abs_i64(3000 * q - nq);
        let er = abs_i64(3000 * r - nr);
        let es = abs_i64(3000 * s - ns);
        let corrected: (i64, i64) = if eq > er && eq > es {
            (-r - s, r)
        } else if er > es {
            (q, -q - s)
        } else {
            (q, r)
        };
        let (cq, cr) = corrected;
        if in_bounds_i64(cq, cr, self.size as u64) {
            Some(HexCell::new(cq as i32, cr as i32))
        } else {
            None
        }
    }
}

/// Round-trip law: the center point of any cell cube-rounds back to that
/// very cell, so `world_to_hex` after `world_location` returns `Some` of the
/// cell whenever the cell is a grid member.  The center point always
/// satisfies the coordinate bound of `world_to_hex`.
pub proof fn lemma_point_round_trip(c: HexCell)
    ensures
        cube_round(cell_to_point(c)) == (c.q as int, c.r as int),
        -POINT_BOUND <= cell_to_point(c).x_milli <= POINT_BOUND,
        -POINT_BOUND <= cell_to_point(c).y_milli <= POINT_BOUND,
{
    let p = cell_to_point(c);
    assert(frac_q_num(p) == 3000 * c.q);
    assert(frac_r_num(p) == 3000 * c.r);
    assert(frac_s_num(p) == 3000 * (-c.q - c.r));
    lemma_round_frac_exact(c.q as int);
    lemma_round_frac_exact(c.r as int);
    lemma_round_frac_exact(-c.q - c.r);
}

/// Rounding an exact multiple of the denominator recovers the integer.
proof fn lemma_round_frac_exact(k: int)
    ensures
        round_frac(3000 * k) == k,
        round_err(3000 * k) == 0,
{
    vstd::arithmetic::div_mod::lemma_fundamental_div_mod_converse(3000 * k + 1500, 3000, k, 1500);
}

} // verus!
