//! The weighted A* cheapest-path search.

use vstd::prelude::*;

verus! {

use crate::cell_attributes::CellAttributes;
use crate::hex_cell::{HexCell, hex_dist, coords_in_range};
use crate::honeycomb::{Honeycomb, in_hex_bounds, grid_seq, MAX_RADIUS};
use crate::search::{path_shape, pred_map_ok, lemma_path_edges_at_least_distance};

/// A frontier entry of the weighted search: a cell tagged with the priority
/// it was enqueued at.
#[derive(Copy, Clone, Debug, PartialEq, Eq, Structural)]
struct HexWeight {
    pub cost: usize,
    pub hex: HexCell,
}

impl HexWeight {
    /// Tags `hex` with the priority `cost`.
    fn new(cost: usize, hex: HexCell) -> (w: Self)
        ensures
            w == (HexWeight { cost, hex }),
    {
        Self { cost, hex }
    }
}

/// The total remaining improvement the weighted search can still make on
/// `cells`: an unvisited cell counts a full cost range, a visited one its
/// current best cost.  Every relaxation strictly shrinks it, which bounds
/// the search even with re-opened cells.
#[verifier::opaque]
spec fn cost_potential(cells: Seq<HexCell>, m: Map<HexCell, usize>) -> nat
    decreases cells.len(),
{
    if cells.len() == 0 {
        0
    } else {
        (if m.dom().contains(cells[0]) {
            m[cells[0]] as nat
        } else {
            usize::MAX as nat + 1
        }) + cost_potential(cells.drop_first(), m)
    }
}

proof fn lemma_cost_potential_insert(cells: Seq<HexCell>, m: Map<HexCell, usize>, c: HexCell, v: usize)
    requires
        cells.contains(c),
        m.dom().contains(c) ==> v < m[c],
    ensures
        cost_potential(cells, m.insert(c, v)) < cost_potential(cells, m),
    decreases cells.len(),
{
    reveal(cost_potential);
    let m2 = m.insert(c, v);
    let rest = cells.drop_first();
    if cells[0] == c {
        lemma_cost_potential_monotone(rest, m, m2);
    } else {
        assert(rest.contains(c)) by {
            let k = choose|k: int| 0 <= k < cells.len() && cells[k] == c;
            assert(rest[k - 1] == c);
        }
        lemma_cost_potential_insert(rest, m, c, v);
    }
}

proof fn lemma_cost_potential_monotone(cells: Seq<HexCell>, m: Map<HexCell, usize>, m2: Map<HexCell, usize>)
    requires
        forall|c: HexCell| #[trigger] m2.dom().contains(c) ==> m.dom().contains(c) ==> m2[c] <= m[c],
        forall|c: HexCell| m.dom().contains(c) ==> m2.dom().contains(c) && m2[c] <= m[c],
    ensures
        cost_potential(cells, m2) <= cost_potential(cells, m),
    decreases cells.len(),
{
    reveal(cost_potential);
    if cells.len() > 0 {
        lemma_cost_potential_monotone(cells.drop_first(), m, m2);
    }
}

/// The weighted search's predecessor and cost bookkeeping: every recorded
/// cell lies in the grid, links one hex step back toward `start`, carries a
/// best-known cost no smaller than its predecessor's, and on cost ties the
/// predecessor was recorded strictly earlier (`rank2`), so links never
/// cycle even through zero-cost edges.
spec fn astar_pred_ok(
    cf: Map<HexCell, HexCell>,
    cost: Map<HexCell, usize>,
    rank2: Map<HexCell, nat>,
    counter: nat,
    start: HexCell,
    n: int,
) -> bool {
    &&& !cf.dom().contains(start)
    &&& cost.dom().contains(start)
    &&& cost[start] == 0
    &&& forall|c: HexCell| #[trigger] cf.dom().contains(c) ==> {
        &&& hex_dist(cf[c], c) == 1
        &&& in_hex_bounds(c, n)
        &&& cost.dom().contains(c)
        &&& cost.dom().contains(cf[c])
        &&& (cf[c] == start || cf.dom().contains(cf[c]))
        &&& rank2.dom().contains(c)
        &&& rank2[c] < counter
        &&& (cf[c] == start || cost[cf[c]] < cost[c] || (cost[cf[c]] == cost[c] && rank2[cf[c]]
            < rank2[c]))
    }
}

/// Collapses the weighted search's (cost, recording-order) pair into one
/// strictly decreasing rank along predecessor links.
spec fn astar_rank(cost: Map<HexCell, usize>, rank2: Map<HexCell, nat>, counter: nat) -> Map<
    HexCell,
    nat,
> {
    Map::new(
        |c: HexCell| rank2.dom().contains(c),
        |c: HexCell| (cost[c] * (counter + 1) + rank2[c]) as nat,
    )
}

proof fn lemma_astar_rank(
    cf: Map<HexCell, HexCell>,
    cost: Map<HexCell, usize>,
    rank2: Map<HexCell, nat>,
    counter: nat,
    start: HexCell,
    n: int,
)
    requires
        astar_pred_ok(cf, cost, rank2, counter, start, n),
    ensures
        pred_map_ok(cf, start, astar_rank(cost, rank2, counter), n),
{
    let rank = astar_rank(cost, rank2, counter);
    let k = counter + 1;
    assert forall|c: HexCell| #[trigger] cf.dom().contains(c) implies {
        let p = cf[c];
        p == start || (cf.dom().contains(p) && rank[p] < rank[c])
    } by {
        let p = cf[c];
        if p != start {
            if cost[p] < cost[c] {
                assert((cost[p] as int) * k + rank2[p] < (cost[c] as int) * k + rank2[c])
                    by (nonlinear_arith)
                    requires
                        cost[p] < cost[c],
                        rank2[p] < k,
                        0 <= rank2[c],
                        k >= 1,
                ;
            }
        }
    }
}

/// `a + b` when it is representable, `None` otherwise.
fn checked_cost_add(a: usize, b: usize) -> (r: Option<usize>)
    ensures
        match r {
            Some(v) => v == a + b,
            None => a + b > usize::MAX,
        },
{
    if a <= usize::MAX - b {
        Some(a + b)
    } else {
        None
    }
}

/// `a + b`, capped at the largest representable value.  Priorities only
/// order the frontier, so capping is harmless.
fn saturating_priority_add(a: usize, b: usize) -> (r: usize)
    ensures
        a + b <= usize::MAX ==> r == a + b,
{
    if a <= usize::MAX - b {
        a + b
    } else {
        usize::MAX
    }
}

/// Removes a cheapest entry from the frontier and returns it; every cell
/// that occurs in another entry still occurs in the frontier afterwards.
#[verifier::rlimit(100)]
fn pop_min(frontier: &mut Vec<HexWeight>) -> (w: HexWeight)
    requires
        old(frontier)@.len() >= 1,
    ensures
        final(frontier)@.len() == old(frontier)@.len() - 1,
        exists|k: int| 0 <= k < old(frontier)@.len() && old(frontier)@[k] == w,
        forall|k: int|
            0 <= k < final(frontier)@.len() ==> exists|k2: int|
                0 <= k2 < old(frontier)@.len() && old(frontier)@[k2]
                    == #[trigger] final(frontier)@[k],
        forall|k: int|
            0 <= k < old(frontier)@.len() && (#[trigger] old(frontier)@[k]).hex != w.hex
                ==> exists|k2: int|
                0 <= k2 < final(frontier)@.len() && #[trigger] final(frontier)@[k2].hex == old(
                    frontier,
                )@[k].hex,
{
    let mut min_idx: usize = 0;
    let mut j: usize = 1;
    while j < frontier.len()
        invariant
            frontier@.len() >= 1,
            min_idx < frontier@.len(),
            1 <= j <= frontier@.len(),
        decreases frontier@.len() - j,
    {
        if frontier[j].cost < frontier[min_idx].cost {
            min_idx = j;
        }
        j = j + 1;
    }
    let ghost f0 = frontier@;
    let w = frontier.swap_remove(min_idx);
    proof {
        assert forall|k: int|
            0 <= k < f0.len() && (#[trigger] f0[k]).hex != w.hex implies exists|k2: int|
            0 <= k2 < frontier@.len() && #[trigger] frontier@[k2].hex == f0[k].hex by {
            if k == f0.len() - 1 {
                assert(frontier@[min_idx as int].hex == f0[k].hex);
            } else {
                assert(frontier@[k].hex == f0[k].hex);
            }
        }
        assert forall|k: int| 0 <= k < frontier@.len() implies exists|k2: int|
            0 <= k2 < f0.len() && f0[k2] == #[trigger] frontier@[k] by {
            if k == min_idx {
                assert(f0[f0.len() - 1] == frontier@[k]);
            } else {
                assert(f0[k] == frontier@[k]);
            }
        }
    }
    w
}

/// Builds the final path of the weighted search once the goal `to` has been
/// popped: the reconstructed route along predecessor links.
#[verifier::rlimit(100)]
fn finish_weighted_path(
    to: HexCell,
    from: HexCell,
    came_from: &CellAttributes<HexCell>,
    Ghost(cost): Ghost<Map<HexCell, usize>>,
    Ghost(rank2): Ghost<Map<HexCell, nat>>,
    Ghost(counter): Ghost<nat>,
    Ghost(n): Ghost<int>,
) -> (p: Vec<HexCell>)
    requires
        astar_pred_ok(came_from@, cost, rank2, counter, from, n),
        came_from@.dom().contains(to),
        to != from,
    ensures
        path_shape(p@, from, to, n),
        forall|i: int| 1 <= i < p@.len() ==> came_from@.dom().contains(#[trigger] p@[i]),
        forall|i: int| 1 <= i < p@.len() ==> came_from@[#[trigger] p@[i]] == p@[i - 1],
{
    proof {
        lemma_astar_rank(came_from@, cost, rank2, counter, from, n);
    }
    let r = Honeycomb::reconstruct_path(
        to,
        from,
        came_from,
        Ghost(astar_rank(cost, rank2, counter)),
        Ghost(n),
    );
    match r {
        Some(p) => {
            proof {
                lemma_path_edges_at_least_distance(p@);
            }
            p
        },
        None => {
            proof {
                assert(false);
            }
            Vec::new()
        },
    }
}

/// Records one relaxation of the weighted search: `neighbor`, reached from
/// `curr` at total cost `new_cost`, gets its cost and predecessor updated
/// and joins the frontier at the given priority.  Returns the updated
/// recording-order ghost state.
#[verifier::rlimit(100)]
fn record_relax<T>(
    attrs: &CellAttributes<T>,
    frontier: &mut Vec<HexWeight>,
    came_from: &mut CellAttributes<HexCell>,
    cost_so_far: &mut CellAttributes<usize>,
    curr: HexCell,
    neighbor: HexCell,
    new_cost: usize,
    priority: usize,
    to: &HexCell,
    Ghost(from): Ghost<HexCell>,
    Ghost(n): Ghost<int>,
    Ghost(rank2): Ghost<Map<HexCell, nat>>,
    Ghost(counter): Ghost<nat>,
) -> (g: (Ghost<Map<HexCell, nat>>, Ghost<nat>))
    requires
        0 <= n <= MAX_RADIUS,
        astar_pred_ok(old(came_from)@, old(cost_so_far)@, rank2, counter, from, n),
        forall|c: HexCell| #[trigger]
            old(cost_so_far)@.contains_key(c) ==> c == from || old(came_from)@.dom().contains(c),
        forall|c: HexCell| #[trigger]
            old(came_from)@.dom().contains(c) ==> attrs@.contains_key(c) && attrs@.contains_key(
                old(came_from)@[c],
            ),
        forall|k: int|
            0 <= k < old(frontier)@.len() ==> #[trigger] old(frontier)@[k].hex == from || old(
                came_from,
            )@.dom().contains(old(frontier)@[k].hex),
        old(came_from)@.dom().contains(*to) ==> exists|k: int|
            0 <= k < old(frontier)@.len() && #[trigger] old(frontier)@[k].hex == *to,
        hex_dist(curr, neighbor) == 1,
        in_hex_bounds(neighbor, n),
        curr == from || old(came_from)@.dom().contains(curr),
        old(cost_so_far)@.contains_key(curr),
        old(cost_so_far)@[curr] <= new_cost,
        old(cost_so_far)@.contains_key(neighbor) ==> new_cost < old(cost_so_far)@[neighbor],
        attrs@.contains_key(curr),
        attrs@.contains_key(neighbor),
    ensures
        final(came_from)@ == old(came_from)@.insert(neighbor, curr),
        final(cost_so_far)@ == old(cost_so_far)@.insert(neighbor, new_cost),
        final(frontier)@ == old(frontier)@.push(HexWeight { cost: priority, hex: neighbor }),
        astar_pred_ok(final(came_from)@, final(cost_so_far)@, g.0@, g.1@, from, n),
        forall|c: HexCell| #[trigger]
            final(cost_so_far)@.contains_key(c) ==> c == from || final(came_from)@.dom().contains(c),
        forall|c: HexCell| #[trigger]
            final(came_from)@.dom().contains(c) ==> attrs@.contains_key(c) && attrs@.contains_key(
                final(came_from)@[c],
            ),
        forall|k: int|
            0 <= k < final(frontier)@.len() ==> #[trigger] final(frontier)@[k].hex == from
                || final(came_from)@.dom().contains(final(frontier)@[k].hex),
        final(came_from)@.dom().contains(*to) ==> exists|k: int|
            0 <= k < final(frontier)@.len() && #[trigger] final(frontier)@[k].hex == *to,
        cost_potential(grid_seq(n), final(cost_so_far)@) < cost_potential(grid_seq(n), old(cost_so_far)@),
{
    proof {
        assert(neighbor != from);
        assert(neighbor != curr) by {
            crate::hex_cell::lemma_hex_dist_zero(curr, neighbor);
        }
        crate::honeycomb::lemma_grid_seq_membership(n, neighbor);
        lemma_cost_potential_insert(grid_seq(n), cost_so_far@, neighbor, new_cost);
    }
    cost_so_far.insert(neighbor, new_cost);
    frontier.push(HexWeight::new(priority, neighbor));
    came_from.insert(neighbor, curr);
    proof {
        if came_from@.dom().contains(*to) {
            if neighbor == *to {
                assert(frontier@[frontier@.len() - 1].hex == *to);
            } else {
                let k = choose|k: int|
                    0 <= k < old(frontier)@.len() && #[trigger] old(frontier)@[k].hex == *to;
                assert(frontier@[k].hex == *to);
            }
        }
    }
    (Ghost(rank2.insert(neighbor, counter)), Ghost(counter + 1))
}

impl Honeycomb {
    /// A* cheapest path from `from` to `to`.
    ///
    /// The caller supplies `cost_fn`, charging a move by the attribute
    /// values of its two endpoint cells, and `heuristic`, estimating the
    /// remaining cost of a cell; an edge is traversable only when both of
    /// its endpoints carry attribute values, and every edge of the route,
    /// the final step onto the goal included, is charged alike.  A cell is
    /// re-opened whenever a strictly cheaper route to it appears, and a
    /// relaxation whose cost would not be representable is treated as
    /// unaffordable and skipped.  Equal endpoints short-circuit to the
    /// single-cell path.  `None` is a normal outcome: no traversable route
    /// exists.  The returned route has minimal total cost when `heuristic`
    /// never overestimates; the engine does not check admissibility, and an
    /// overestimating heuristic yields a well-formed but possibly
    /// non-minimal route.
    ///
    /// A returned path starts at `from`, ends at `to`, moves one hex step
    /// at a time through member cells that all carry attribute values,
    /// visits no cell twice, and spends at least `hex_dist(from, to)`
    /// steps.
    #[verifier::rlimit(100)]
    pub fn cheapest_path<T, C: Fn(&T, &T) -> usize, H: Fn(&HexCell, &HexCell) -> usize>(
        &self,
        attrs: &CellAttributes<T>,
        from: &HexCell,
        to: &HexCell,
        cost_fn: C,
        heuristic: H,
    ) -> (res: Option<Vec<HexCell>>)
        requires
            self.wf(),
            coords_in_range(*from),
            forall|a: &T, b: &T| #[trigger] call_requires(cost_fn, (a, b)),
            forall|a: &HexCell, b: &HexCell| #[trigger] call_requires(heuristic, (a, b)),
        ensures
            match res {
                Some(path) => path_shape(path@, *from, *to, self.radius()) && (path@.len() >= 2
                    ==> forall|i: int|
                    0 <= i < path@.len() ==> attrs@.contains_key(#[trigger] path@[i])),
                None => *from != *to,
            },
            *from == *to ==> res.is_some(),
            (*from != *to && hex_dist(*from, *to) == 1 && in_hex_bounds(*to, self.radius())
                && attrs@.contains_key(*from) && attrs@.contains_key(*to)) ==> res.is_some(),
    {
        let ghost n = self.radius();
        proof {
            self.lemma_wf_cells();
        }
        if from == to {
            proof {
                crate::hex_cell::lemma_hex_dist_zero(*from, *to);
            }
            let mut p: Vec<HexCell> = Vec::new();
            p.push(*from);
            return Some(p);
        }
        let mut frontier: Vec<HexWeight> = Vec::new();
        frontier.push(HexWeight::new(0, *from));
        let mut came_from: CellAttributes<HexCell> = CellAttributes::new();
        let mut cost_so_far: CellAttributes<usize> = CellAttributes::new();
        cost_so_far.insert(*from, 0);
        let ghost mut rank2: Map<HexCell, nat> = Map::empty();
        let ghost mut counter: nat = 0;
        proof {
            assert(frontier@[0].hex == *from);
        }
        while frontier.len() > 0
            invariant
                self.wf(),
                n == self.radius(),
                0 <= n <= MAX_RADIUS,
                coords_in_range(*from),
                *from != *to,
                forall|a: &T, b: &T| #[trigger] call_requires(cost_fn, (a, b)),
                forall|a: &HexCell, b: &HexCell| #[trigger] call_requires(heuristic, (a, b)),
                astar_pred_ok(came_from@, cost_so_far@, rank2, counter, *from, n),
                forall|c: HexCell| #[trigger]
                    cost_so_far@.contains_key(c) ==> c == *from || came_from@.dom().contains(c),
                forall|c: HexCell| #[trigger]
                    came_from@.dom().contains(c) ==> attrs@.contains_key(c) && attrs@.contains_key(
                        came_from@[c],
                    ),
                forall|k: int|
                    0 <= k < frontier@.len() ==> #[trigger] frontier@[k].hex == *from
                        || came_from@.dom().contains(frontier@[k].hex),
                came_from@.dom().contains(*to) ==> exists|k: int|
                    0 <= k < frontier@.len() && #[trigger] frontier@[k].hex == *to,
                (hex_dist(*from, *to) == 1 && in_hex_bounds(*to, n) && attrs@.contains_key(*from)
                    && attrs@.contains_key(*to)) ==> (came_from@.dom().contains(*to) || exists|k: int|
                    0 <= k < frontier@.len() && #[trigger] frontier@[k].hex == *from),
            decreases cost_potential(grid_seq(n), cost_so_far@), frontier@.len(),
        {
            let w = pop_min(&mut frontier);
            let curr = w.hex;
            if curr == *to {
                let p = finish_weighted_path(
                    *to,
                    *from,
                    &came_from,
                    Ghost(cost_so_far@),
                    Ghost(rank2),
                    Ghost(counter),
                    Ghost(n),
                );
                return Some(p);
            }
            proof {
                if curr != *from {
                    crate::honeycomb::lemma_bounds_coords(curr, n);
                }
            }
            let ns = self.neighbors_of(curr);
            proof {
                crate::honeycomb::lemma_neighbors_within_props(curr, n);
                if curr == *from && hex_dist(*from, *to) == 1 && in_hex_bounds(*to, n) {
                    crate::honeycomb::lemma_neighbors_within_complete(*from, *to, n);
                }
            }
            let ghost costp = cost_so_far@;
            let ghost lenp = frontier@.len();
            let mut i: usize = 0;
            while i < ns.len()
                invariant
                    self.wf(),
                    n == self.radius(),
                    0 <= n <= MAX_RADIUS,
                    coords_in_range(*from),
                    coords_in_range(curr),
                    *from != *to,
                    curr != *to,
                    forall|a: &T, b: &T| #[trigger] call_requires(cost_fn, (a, b)),
                    forall|a: &HexCell, b: &HexCell| #[trigger] call_requires(heuristic, (a, b)),
                    curr == *from || came_from@.dom().contains(curr),
                    ns@ == crate::honeycomb::neighbors_within(curr, n),
                    forall|k: int|
                        0 <= k < ns@.len() ==> in_hex_bounds(#[trigger] ns@[k], n) && hex_dist(
                            curr,
                            ns@[k],
                        ) == 1,
                    0 <= i <= ns@.len(),
                    astar_pred_ok(came_from@, cost_so_far@, rank2, counter, *from, n),
                    forall|c: HexCell| #[trigger]
                        cost_so_far@.contains_key(c) ==> c == *from || came_from@.dom().contains(c),
                    forall|c: HexCell| #[trigger]
                        came_from@.dom().contains(c) ==> attrs@.contains_key(c)
                            && attrs@.contains_key(came_from@[c]),
                    forall|k: int|
                        0 <= k < frontier@.len() ==> #[trigger] frontier@[k].hex == *from
                            || came_from@.dom().contains(frontier@[k].hex),
                    came_from@.dom().contains(*to) ==> exists|k: int|
                        0 <= k < frontier@.len() && #[trigger] frontier@[k].hex == *to,
                    (hex_dist(*from, *to) == 1 && in_hex_bounds(*to, n) && attrs@.contains_key(
                        *from,
                    ) && attrs@.contains_key(*to)) ==> (came_from@.dom().contains(*to) || (curr
                        == *from && exists|k2: int|
                        i <= k2 < ns@.len() && #[trigger] ns@[k2] == *to) || (curr != *from
                        && exists|k: int|
                        0 <= k < frontier@.len() && #[trigger] frontier@[k].hex == *from)),
                    (frontier@.len() == lenp && cost_so_far@ == costp) || cost_potential(
                        grid_seq(n),
                        cost_so_far@,
                    ) < cost_potential(grid_seq(n), costp),
                decreases ns@.len() - i,
            {
                let ghost i0 = i as int;
                let ghost cf0 = came_from@;
                let ghost f0in = frontier@;
                let neighbor = ns[i];
                match (attrs.get(&curr), attrs.get(&neighbor)) {
                    (Some(cv), Some(nv)) => {
                        let base = match cost_so_far.get(&curr) {
                            Some(b) => *b,
                            None => {
                                proof {
                                    assert(false);
                                }
                                0
                            },
                        };
                        let edge = cost_fn(cv, nv);
                        match checked_cost_add(base, edge) {
                            Some(new_cost) => {
                                let cheaper = match cost_so_far.get(&neighbor) {
                                    Some(c) => new_cost < *c,
                                    None => true,
                                };
                                if cheaper {
                                    let h = heuristic(&neighbor, to);
                                    let priority = saturating_priority_add(new_cost, h);
                                    let g = record_relax(
                                        attrs,
                                        &mut frontier,
                                        &mut came_from,
                                        &mut cost_so_far,
                                        curr,
                                        neighbor,
                                        new_cost,
                                        priority,
                                        to,
                                        Ghost(*from),
                                        Ghost(n),
                                        Ghost(rank2),
                                        Ghost(counter),
                                    );
                                    proof {
                                        rank2 = g.0@;
                                        counter = g.1@;
                                    }
                                }
                            },
                            None => {
                            },
                        }
                    },
                    _ => {
                    },
                }
                i = i + 1;
                proof {
                    if hex_dist(*from, *to) == 1 && in_hex_bounds(*to, n) && attrs@.contains_key(
                        *from,
                    ) && attrs@.contains_key(*to) && !came_from@.dom().contains(*to) {
                        assert(!cf0.dom().contains(*to));
                        if curr == *from {
                            let k2 = choose|k2: int|
                                i0 <= k2 < ns@.len() && #[trigger] ns@[k2] == *to;
                            if k2 == i0 {
                                assert(came_from@.dom().contains(*to));
                            } else {
                                assert(i <= k2 < ns@.len() && ns@[k2] == *to);
                            }
                        } else {
                            let k = choose|k: int|
                                0 <= k < f0in.len() && #[trigger] f0in[k].hex == *from;
                            assert(frontier@[k].hex == *from);
                        }
                    }
                }
            }
            proof {
                if hex_dist(*from, *to) == 1 && in_hex_bounds(*to, n) && attrs@.contains_key(*from)
                    && attrs@.contains_key(*to) && !came_from@.dom().contains(*to) {
                    assert(curr != *from);
                }
            }
        }
        proof {
            if hex_dist(*from, *to) == 1 && in_hex_bounds(*to, n) && attrs@.contains_key(*from)
                && attrs@.contains_key(*to) {
                assert(false);
            }
        }
        None
    }
}

} // verus!
