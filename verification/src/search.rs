//! The breadth-first shortest-path search, and the deterministic path
//! reconstruction both searches share.

use vstd::prelude::*;

verus! {

use crate::cell_attributes::CellAttributes;
use crate::hex_cell::{HexCell, hex_dist, coords_in_range};
use crate::honeycomb::{Honeycomb, in_hex_bounds, grid_seq, MAX_RADIUS};

/// Any chain of unit hex steps needs at least the hex metric distance
/// between its endpoints many steps: the edge count of every contiguous
/// path is at least `hex_dist` of its ends.
pub proof fn lemma_path_edges_at_least_distance(p: Seq<HexCell>)
    requires
        p.len() >= 1,
        forall|i: int| 0 <= i < p.len() - 1 ==> hex_dist(#[trigger] p[i], p[i + 1]) == 1,
    ensures
        p.len() - 1 >= hex_dist(p[0], p[p.len() - 1]),
    decreases p.len(),
{
    if p.len() == 1 {
        crate::hex_cell::lemma_hex_dist_zero(p[0], p[0]);
    } else {
        let rest = p.drop_first();
        assert(forall|i: int|
            0 <= i < rest.len() - 1 ==> hex_dist(#[trigger] rest[i], rest[i + 1]) == 1);
        lemma_path_edges_at_least_distance(rest);
        crate::hex_cell::lemma_hex_dist_triangle(p[0], p[1], p[p.len() - 1]);
    }
}

/// How many cells of `cells` the map `m` has no entry for; the
/// breadth-first search strictly shrinks it with every discovery, which
/// bounds the search.
#[verifier::opaque]
spec fn unmarked_count(cells: Seq<HexCell>, m: Map<HexCell, HexCell>) -> nat
    decreases cells.len(),
{
    if cells.len() == 0 {
        0
    } else {
        (if m.dom().contains(cells[0]) {
            0nat
        } else {
            1nat
        }) + unmarked_count(cells.drop_first(), m)
    }
}

proof fn lemma_unmarked_insert(cells: Seq<HexCell>, m: Map<HexCell, HexCell>, c: HexCell, v: HexCell)
    requires
        cells.contains(c),
        !m.dom().contains(c),
    ensures
        unmarked_count(cells, m.insert(c, v)) < unmarked_count(cells, m),
    decreases cells.len(),
{
    reveal(unmarked_count);
    let m2 = m.insert(c, v);
    let rest = cells.drop_first();
    if cells[0] == c {
        lemma_unmarked_monotone(rest, m, m2);
    } else {
        assert(rest.contains(c)) by {
            let k = choose|k: int| 0 <= k < cells.len() && cells[k] == c;
            assert(rest[k - 1] == c);
        }
        lemma_unmarked_insert(rest, m, c, v);
    }
}

proof fn lemma_unmarked_monotone(cells: Seq<HexCell>, m: Map<HexCell, HexCell>, m2: Map<HexCell, HexCell>)
    requires
        forall|c: HexCell| m.dom().contains(c) ==> m2.dom().contains(c),
    ensures
        unmarked_count(cells, m2) <= unmarked_count(cells, m),
    decreases cells.len(),
{
    reveal(unmarked_count);
    if cells.len() > 0 {
        lemma_unmarked_monotone(cells.drop_first(), m, m2);
    }
}

/// What both searches promise of a returned path: it runs from `from` to
/// `to` one hex step at a time, visits no cell twice, stays inside the
/// radius-`n` grid after its start cell, collapses to a single cell exactly
/// when the endpoints coincide, and spends at least the hex metric distance
/// of the endpoints many steps.
pub open spec fn path_shape(p: Seq<HexCell>, from: HexCell, to: HexCell, n: int) -> bool {
    &&& p.len() >= 1
    &&& p[0] == from
    &&& p[p.len() - 1] == to
    &&& (from == to ==> p.len() == 1)
    &&& (from != to ==> p.len() >= 2)
    &&& (forall|i: int| 0 <= i < p.len() - 1 ==> hex_dist(#[trigger] p[i], p[i + 1]) == 1)
    &&& (forall|i: int, j: int| 0 <= i < j < p.len() ==> p[i] != p[j])
    &&& (forall|i: int| 1 <= i < p.len() ==> in_hex_bounds(#[trigger] p[i], n))
    &&& p.len() - 1 >= hex_dist(from, to)
}

/// A well-formed predecessor map: every recorded cell lies in the
/// radius-`n` grid and links one hex step back toward `start`, and `rank`
/// strictly decreases along links, so following links from any recorded
/// cell reaches `start` without revisiting a cell.
pub open spec fn pred_map_ok(
    cf: Map<HexCell, HexCell>,
    start: HexCell,
    rank: Map<HexCell, nat>,
    n: int,
) -> bool {
    &&& !cf.dom().contains(start)
    &&& forall|c: HexCell| #[trigger] cf.dom().contains(c) ==> {
        &&& hex_dist(cf[c], c) == 1
        &&& in_hex_bounds(c, n)
        &&& rank.dom().contains(c)
        &&& (cf[c] == start || (cf.dom().contains(cf[c]) && rank[cf[c]] < rank[c]))
    }
}

/// Reversing a well-formed predecessor chain yields a contiguous,
/// duplicate-free path from `start` to `tail`.
#[verifier::rlimit(100)]
proof fn lemma_path_from_back(
    p: Seq<HexCell>,
    b: Seq<HexCell>,
    cf: Map<HexCell, HexCell>,
    rank: Map<HexCell, nat>,
    start: HexCell,
    tail: HexCell,
    n: int,
)
    requires
        pred_map_ok(cf, start, rank, n),
        p.len() == 1 + b.len(),
        p[0] == start,
        b.len() == 0 ==> tail == start,
        b.len() >= 1 ==> b[0] == tail && start == cf[b[b.len() - 1]],
        forall|i: int| 0 <= i < b.len() ==> cf.dom().contains(#[trigger] b[i]),
        forall|i: int| 0 <= i < b.len() - 1 ==> cf[#[trigger] b[i]] == b[i + 1],
        forall|i: int| 0 <= i < b.len() - 1 ==> rank[b[i + 1]] < rank[#[trigger] b[i]],
        forall|j: int| 1 <= j < p.len() ==> #[trigger] p[j] == b[b.len() - j],
    ensures
        p[p.len() - 1] == tail,
        forall|k: int| 0 <= k < p.len() - 1 ==> hex_dist(#[trigger] p[k], p[k + 1]) == 1,
        forall|k: int|
            1 <= k < p.len() ==> cf.dom().contains(#[trigger] p[k]) && in_hex_bounds(p[k], n),
        forall|k: int| 1 <= k < p.len() ==> cf[#[trigger] p[k]] == p[k - 1],
        forall|k1: int, k2: int| 0 <= k1 < k2 < p.len() ==> p[k1] != p[k2],
{
    assert forall|k: int| 1 <= k < p.len() implies cf[#[trigger] p[k]] == p[k - 1] by {
        if k == 1 {
            assert(p[1] == b[b.len() - 1]);
        } else {
            assert(p[k] == b[b.len() - k]);
            assert(p[k - 1] == b[b.len() - k + 1]);
            assert(cf[b[b.len() - k]] == b[b.len() - k + 1]);
        }
    }
    assert forall|k: int| 0 <= k < p.len() - 1 implies hex_dist(#[trigger] p[k], p[k + 1])
        == 1 by {
        if k == 0 {
            if b.len() >= 1 {
                assert(p[1] == b[b.len() - 1]);
                assert(cf[b[b.len() - 1]] == start);
            }
        } else {
            assert(p[k] == b[b.len() - k]);
            assert(p[k + 1] == b[b.len() - k - 1]);
            assert(cf[b[b.len() - k - 1]] == b[b.len() - k]);
        }
    }
    assert forall|k1: int, k2: int| 0 <= k1 < k2 < p.len() implies p[k1] != p[k2] by {
        if k1 == 0 {
            assert(p[k2] == b[b.len() - k2]);
            assert(cf.dom().contains(p[k2]));
        } else {
            assert(p[k1] == b[b.len() - k1]);
            assert(p[k2] == b[b.len() - k2]);
            lemma_rank_chain(b, rank, b.len() - k2, b.len() - k1);
        }
    }
    if b.len() >= 1 {
        assert(p[p.len() - 1] == b[0]);
    }
}

/// Along a chain whose rank strictly decreases step by step, it decreases
/// between any two positions.
proof fn lemma_rank_chain(b: Seq<HexCell>, rank: Map<HexCell, nat>, i: int, j: int)
    requires
        forall|k: int| 0 <= k < b.len() - 1 ==> rank[b[k + 1]] < rank[#[trigger] b[k]],
        0 <= i < j < b.len(),
    ensures
        rank[b[j]] < rank[b[i]],
    decreases j - i,
{
    if j > i + 1 {
        lemma_rank_chain(b, rank, i + 1, j);
    }
}

impl Honeycomb {
    /// Follows predecessor links from `tail` back to `start` and returns
    /// the cells in start-to-tail order, both endpoints included.
    #[verifier::rlimit(100)]
    pub(crate) fn reconstruct_path(
        tail: HexCell,
        start: HexCell,
        came_from: &CellAttributes<HexCell>,
        Ghost(rank): Ghost<Map<HexCell, nat>>,
        Ghost(n): Ghost<int>,
    ) -> (res: Option<Vec<HexCell>>)
        requires
            pred_map_ok(came_from@, start, rank, n),
            tail == start || came_from@.dom().contains(tail),
        ensures
            res.is_some(),
            ({
                let p = res.unwrap()@;
                &&& p.len() >= 1
                &&& p[0] == start
                &&& p[p.len() - 1] == tail
                &&& (tail == start ==> p.len() == 1)
                &&& (tail != start ==> p.len() >= 2)
                &&& forall|i: int| 0 <= i < p.len() - 1 ==> hex_dist(#[trigger] p[i], p[i + 1]) == 1
                &&& forall|i: int|
                    1 <= i < p.len() ==> came_from@.dom().contains(#[trigger] p[i])
                        && in_hex_bounds(p[i], n)
                &&& forall|i: int| 1 <= i < p.len() ==> came_from@[#[trigger] p[i]] == p[i - 1]
                &&& forall|i: int, j: int| 0 <= i < j < p.len() ==> p[i] != p[j]
            }),
    {
        let ghost cf = came_from@;
        let mut back: Vec<HexCell> = Vec::new();
        let mut cur: HexCell = tail;
        loop
            invariant
                pred_map_ok(cf, start, rank, n),
                came_from@ == cf,
                cur == start || cf.dom().contains(cur),
                back@.len() == 0 ==> cur == tail,
                back@.len() >= 1 ==> back@[0] == tail && cur == cf[back@[back@.len() - 1]],
                tail == start ==> back@.len() == 0,
                forall|i: int| 0 <= i < back@.len() ==> cf.dom().contains(#[trigger] back@[i]),
                forall|i: int|
                    0 <= i < back@.len() - 1 ==> cf[#[trigger] back@[i]] == back@[i + 1],
                forall|i: int|
                    0 <= i < back@.len() - 1 ==> rank[back@[i + 1]] < rank[#[trigger] back@[i]],
                back@.len() >= 1 && cur != start ==> rank[cur] < rank[back@[back@.len() - 1]],
            ensures
                cur == start,
                back@.len() == 0 ==> tail == start,
                back@.len() >= 1 ==> back@[0] == tail && start == cf[back@[back@.len() - 1]],
                tail == start ==> back@.len() == 0,
                forall|i: int| 0 <= i < back@.len() ==> cf.dom().contains(#[trigger] back@[i]),
                forall|i: int|
                    0 <= i < back@.len() - 1 ==> cf[#[trigger] back@[i]] == back@[i + 1],
                forall|i: int|
                    0 <= i < back@.len() - 1 ==> rank[back@[i + 1]] < rank[#[trigger] back@[i]],
            decreases (if cur == start {
                0nat
            } else {
                rank[cur] + 1
            }),
        {
            if cur == start {
                break ;
            }
            back.push(cur);
            cur = match came_from.get(&cur) {
                Some(p) => *p,
                None => {
                    proof {
                        assert(false);
                    }
                    cur
                },
            };
        }
        let mut path: Vec<HexCell> = Vec::new();
        path.push(start);
        let mut i: usize = back.len();
        while i > 0
            invariant
                pred_map_ok(cf, start, rank, n),
                i <= back@.len(),
                path@.len() == 1 + (back@.len() - i),
                path@[0] == start,
                back@.len() >= 1 ==> back@[0] == tail && start == cf[back@[back@.len() - 1]],
                tail == start ==> back@.len() == 0,
                forall|i: int| 0 <= i < back@.len() ==> cf.dom().contains(#[trigger] back@[i]),
                forall|i: int|
                    0 <= i < back@.len() - 1 ==> cf[#[trigger] back@[i]] == back@[i + 1],
                forall|i: int|
                    0 <= i < back@.len() - 1 ==> rank[back@[i + 1]] < rank[#[trigger] back@[i]],
                forall|j: int|
                    1 <= j < path@.len() ==> #[trigger] path@[j] == back@[back@.len() - j],
            decreases i,
        {
            i = i - 1;
            let c = back[i];
            path.push(c);
        }
        proof {
            lemma_path_from_back(path@, back@, cf, rank, start, tail, n);
        }
        Some(path)
    }
}

/// Appending the goal cell to a reconstructed route keeps it a well-shaped
/// path: the goal is adjacent to the route's last cell and, never having
/// been recorded, appears nowhere in it.
#[verifier::rlimit(100)]
proof fn lemma_extend_to_goal(
    p0: Seq<HexCell>,
    p: Seq<HexCell>,
    cf: Map<HexCell, HexCell>,
    from: HexCell,
    hex: HexCell,
    to: HexCell,
    n: int,
)
    requires
        p == p0.push(to),
        p0.len() >= 1,
        p0[0] == from,
        p0[p0.len() - 1] == hex,
        forall|i: int| 0 <= i < p0.len() - 1 ==> hex_dist(#[trigger] p0[i], p0[i + 1]) == 1,
        forall|i: int|
            1 <= i < p0.len() ==> cf.dom().contains(#[trigger] p0[i]) && in_hex_bounds(p0[i], n),
        forall|i: int, j: int| 0 <= i < j < p0.len() ==> p0[i] != p0[j],
        !cf.dom().contains(to),
        to != from,
        hex_dist(hex, to) == 1,
        in_hex_bounds(to, n),
    ensures
        path_shape(p, from, to, n),
        forall|i: int| 1 <= i < p.len() - 1 ==> cf.dom().contains(#[trigger] p[i]),
{
    assert forall|i: int| 0 <= i < p.len() - 1 implies hex_dist(#[trigger] p[i], p[i + 1])
        == 1 by {
        if i < p0.len() - 1 {
            assert(p[i] == p0[i] && p[i + 1] == p0[i + 1]);
        } else {
            assert(p[i] == hex && p[i + 1] == to);
        }
    }
    assert forall|i: int, j: int| 0 <= i < j < p.len() implies p[i] != p[j] by {
        if j == p.len() - 1 {
            if i >= 1 {
                assert(cf.dom().contains(p0[i]));
            }
        }
    }
    lemma_path_edges_at_least_distance(p);
}

/// Builds the final path once the goal `to` has been spotted among the
/// neighbors of the reached cell `hex`: the reconstructed route to `hex`,
/// extended by the final step onto `to`.
#[verifier::rlimit(100)]
fn finish_path(
    hex: HexCell,
    from: HexCell,
    to: HexCell,
    came_from: &CellAttributes<HexCell>,
    Ghost(rank): Ghost<Map<HexCell, nat>>,
    Ghost(n): Ghost<int>,
) -> (p: Vec<HexCell>)
    requires
        pred_map_ok(came_from@, from, rank, n),
        hex == from || came_from@.dom().contains(hex),
        !came_from@.dom().contains(to),
        to != from,
        hex_dist(hex, to) == 1,
        in_hex_bounds(to, n),
    ensures
        path_shape(p@, from, to, n),
        forall|i: int| 1 <= i < p@.len() - 1 ==> came_from@.dom().contains(#[trigger] p@[i]),
        forall|i: int| 1 <= i < p@.len() - 1 ==> came_from@[#[trigger] p@[i]] == p@[i - 1],
        p@[p@.len() - 2] == hex,
{
    let partial = Honeycomb::reconstruct_path(hex, from, came_from, Ghost(rank), Ghost(n));
    match partial {
        Some(mut p) => {
            let ghost p0 = p@;
            p.push(to);
            proof {
                lemma_extend_to_goal(p0, p@, came_from@, from, hex, to, n);
                assert(p@[p@.len() - 2] == p0[p0.len() - 1]);
                assert forall|i: int| 1 <= i < p@.len() - 1 implies came_from@[#[trigger] p@[i]]
                    == p@[i - 1] by {
                    assert(p@[i] == p0[i] && p@[i - 1] == p0[i - 1]);
                }
            }
            p
        },
        None => {
            proof {
                assert(false);
            }
            Vec::new()
        },
    }
}

/// A grid on which nothing blocks movement: every cell within the radius
/// carries an attribute value, and the filter can only accept a value.
pub open spec fn all_passable<T, F: Fn(&T) -> bool>(
    attrs: Map<HexCell, T>,
    filter: F,
    n: int,
) -> bool {
    &&& forall|c: HexCell| in_hex_bounds(c, n) ==> #[trigger] attrs.contains_key(c)
    &&& forall|v: &T, r: bool| #[trigger] call_ensures(filter, (v,), r) ==> r
}

/// A neighbor the breadth-first search is done with: it is the start, it
/// has been discovered, it carries no attribute value, or the filter has
/// rejected its value.
spec fn bfs_handled<T, F: Fn(&T) -> bool>(
    nb: HexCell,
    from: HexCell,
    cf: Map<HexCell, HexCell>,
    attrs: Map<HexCell, T>,
    filter: F,
) -> bool {
    ||| nb == from
    ||| cf.dom().contains(nb)
    ||| !attrs.contains_key(nb)
    ||| call_ensures(filter, (&attrs[nb],), false)
}

/// The frontier pops cells in nondecreasing depth order, so every
/// discovered cell strictly shallower than the cell now being expanded has
/// already been expanded: it sits in the popped prefix of the frontier.
proof fn lemma_popped_prefix(
    q0: Seq<HexCell>,
    queue: Seq<HexCell>,
    cf: Map<HexCell, HexCell>,
    dep: Map<HexCell, nat>,
    from: HexCell,
    hex: HexCell,
    d0: nat,
    head0: int,
    len0: int,
)
    requires
        q0.len() == len0,
        0 <= head0 < len0,
        len0 <= queue.len(),
        q0[head0] == hex,
        forall|k: int| 0 <= k < len0 ==> #[trigger] queue[k] == q0[k],
        queue.len() >= 1,
        queue[0] == from,
        forall|c: HexCell| #[trigger] cf.dom().contains(c) ==> queue.contains(c),
        forall|c: HexCell| #[trigger] dep.dom().contains(c) ==> c == from || cf.dom().contains(c),
        dep.dom().contains(hex),
        dep[hex] == d0,
        forall|k1: int, k2: int|
            0 <= k1 < k2 < queue.len() ==> dep[#[trigger] queue[k1]] <= dep[#[trigger] queue[k2]],
    ensures
        forall|c: HexCell| #[trigger]
            dep.dom().contains(c) && dep[c] < d0 ==> exists|k: int| 0 <= k < head0 && q0[k] == c,
{
    assert forall|c: HexCell| #[trigger]
        dep.dom().contains(c) && dep[c] < d0 implies exists|k: int|
        0 <= k < head0 && q0[k] == c by {
        if c == from {
            if head0 == 0 {
                assert(queue[0] == q0[0]);
                assert(false);
            }
            assert(q0[0] == queue[0]);
            assert(q0[0] == c);
        } else {
            assert(cf.dom().contains(c));
            assert(queue.contains(c));
            let k = choose|k: int| 0 <= k < queue.len() && queue[k] == c;
            if k > head0 {
                assert(queue[head0] == q0[head0]);
                assert(dep[queue[head0]] <= dep[queue[k]]);
                assert(false);
            } else if k == head0 {
                assert(queue[k] == q0[head0]);
                assert(false);
            }
            assert(q0[k] == c);
        }
    }
}

/// A freshly discovered cell sits exactly one level deeper than the cell
/// being expanded: on an all-passable grid anything nearer would already
/// have been discovered.
proof fn lemma_fresh_cell_deeper<T, F: Fn(&T) -> bool>(
    neighbor: HexCell,
    hex: HexCell,
    from: HexCell,
    n: int,
    d0: nat,
    q0: Seq<HexCell>,
    head0: int,
    len0: int,
    queue: Seq<HexCell>,
    m0: Map<HexCell, HexCell>,
    cf: Map<HexCell, HexCell>,
    dep: Map<HexCell, nat>,
    attrs: Map<HexCell, T>,
    filter: F,
)
    requires
        0 <= n <= MAX_RADIUS,
        all_passable(attrs, filter, n),
        in_hex_bounds(from, n),
        depth_map_ok(cf, dep, from),
        (all_passable(attrs, filter, n) && in_hex_bounds(from, n)) ==> forall|c: HexCell|
            #[trigger] dep.dom().contains(c) ==> dep[c] == hex_dist(from, c),
        q0.len() == len0,
        0 <= head0 < len0,
        len0 <= queue.len(),
        q0[head0] == hex,
        forall|k: int| 0 <= k < len0 ==> #[trigger] queue[k] == q0[k],
        queue.len() >= 1,
        queue[0] == from,
        forall|c: HexCell| #[trigger] cf.dom().contains(c) ==> queue.contains(c),
        dep.dom().contains(hex),
        dep[hex] == d0,
        forall|k1: int, k2: int|
            0 <= k1 < k2 < queue.len() ==> dep[#[trigger] queue[k1]] <= dep[#[trigger] queue[k2]],
        forall|c: HexCell| #[trigger] m0.dom().contains(c) ==> cf.dom().contains(c),
        forall|k: int, nb: HexCell|
            0 <= k < head0 && #[trigger] crate::honeycomb::neighbors_within(
                q0[k],
                n,
            ).contains(nb) ==> bfs_handled(nb, from, m0, attrs, filter),
        in_hex_bounds(neighbor, n),
        hex_dist(hex, neighbor) == 1,
        neighbor != from,
        !cf.dom().contains(neighbor),
    ensures
        hex_dist(from, neighbor) == d0 + 1,
{
    crate::hex_cell::lemma_hex_dist_triangle(from, hex, neighbor);
    if hex_dist(from, neighbor) <= d0 {
        lemma_popped_prefix(q0, queue, cf, dep, from, hex, d0, head0, len0);
        assert forall|k: int, nb2: HexCell|
            0 <= k < head0 && #[trigger] crate::honeycomb::neighbors_within(
                q0[k],
                n,
            ).contains(nb2) implies bfs_handled(nb2, from, cf, attrs, filter) by {
            assert(bfs_handled(nb2, from, m0, attrs, filter));
        }
        lemma_level_discovered(neighbor, from, n, d0, q0, head0, cf, dep, attrs, filter);
        assert(false);
    }
}

/// When the goal turns up among the neighbors of the cell being expanded on
/// an all-passable grid, that cell sits exactly one step short of the
/// goal's distance.
proof fn lemma_goal_exact<T, F: Fn(&T) -> bool>(
    hex: HexCell,
    from: HexCell,
    to: HexCell,
    n: int,
    d0: nat,
    q0: Seq<HexCell>,
    head0: int,
    len0: int,
    queue: Seq<HexCell>,
    m0: Map<HexCell, HexCell>,
    cf: Map<HexCell, HexCell>,
    dep: Map<HexCell, nat>,
    attrs: Map<HexCell, T>,
    filter: F,
)
    requires
        0 <= n <= MAX_RADIUS,
        all_passable(attrs, filter, n),
        in_hex_bounds(from, n),
        depth_map_ok(cf, dep, from),
        (all_passable(attrs, filter, n) && in_hex_bounds(from, n)) ==> forall|c: HexCell|
            #[trigger] dep.dom().contains(c) ==> dep[c] == hex_dist(from, c),
        q0.len() == len0,
        0 <= head0 < len0,
        len0 <= queue.len(),
        q0[head0] == hex,
        forall|k: int| 0 <= k < len0 ==> #[trigger] queue[k] == q0[k],
        queue.len() >= 1,
        queue[0] == from,
        forall|c: HexCell| #[trigger] cf.dom().contains(c) ==> queue.contains(c),
        dep.dom().contains(hex),
        dep[hex] == d0,
        forall|k1: int, k2: int|
            0 <= k1 < k2 < queue.len() ==> dep[#[trigger] queue[k1]] <= dep[#[trigger] queue[k2]],
        forall|c: HexCell| #[trigger] m0.dom().contains(c) ==> cf.dom().contains(c),
        forall|k: int, nb: HexCell|
            0 <= k < head0 && #[trigger] crate::honeycomb::neighbors_within(
                q0[k],
                n,
            ).contains(nb) ==> bfs_handled(nb, from, m0, attrs, filter),
        in_hex_bounds(to, n),
        hex_dist(hex, to) == 1,
        !cf.dom().contains(to),
        to != from,
    ensures
        hex_dist(from, to) == d0 + 1,
{
    lemma_popped_prefix(q0, queue, cf, dep, from, hex, d0, head0, len0);
    assert forall|k: int, nb2: HexCell|
        0 <= k < head0 && #[trigger] crate::honeycomb::neighbors_within(
            q0[k],
            n,
        ).contains(nb2) implies bfs_handled(nb2, from, cf, attrs, filter) by {
        assert(bfs_handled(nb2, from, m0, attrs, filter));
    }
    lemma_goal_at_frontier_level(hex, from, to, n, q0, head0, cf, dep, attrs, filter);
}

/// Records one discovery of the breadth-first search: `neighbor`, first
/// reached from `hex`, gets its predecessor recorded and joins the
/// frontier.  Returns the updated rank ghost state.
#[verifier::rlimit(100)]
fn record_discovery<T, F: Fn(&T) -> bool>(
    queue: &mut Vec<HexCell>,
    came_from: &mut CellAttributes<HexCell>,
    hex: HexCell,
    neighbor: HexCell,
    to: &HexCell,
    Ghost(attrs_map): Ghost<Map<HexCell, T>>,
    filter: &F,
    Ghost(from): Ghost<HexCell>,
    Ghost(n): Ghost<int>,
    Ghost(rank): Ghost<Map<HexCell, nat>>,
    Ghost(next): Ghost<nat>,
    Ghost(dep): Ghost<Map<HexCell, nat>>,
) -> (g: (Ghost<Map<HexCell, nat>>, Ghost<nat>, Ghost<Map<HexCell, nat>>))
    requires
        0 <= n <= MAX_RADIUS,
        pred_map_ok(old(came_from)@, from, rank, n),
        depth_map_ok(old(came_from)@, dep, from),
        forall|k1: int, k2: int|
            0 <= k1 < k2 < old(queue)@.len() ==> dep[#[trigger] old(queue)@[k1]]
                <= dep[#[trigger] old(queue)@[k2]],
        forall|k: int|
            0 <= k < old(queue)@.len() ==> dep[#[trigger] old(queue)@[k]] <= dep[hex] + 1,
        forall|c: HexCell| #[trigger]
            old(came_from)@.dom().contains(c) ==> rank.dom().contains(c) && rank[c] < next,
        forall|c: HexCell| #[trigger]
            old(came_from)@.dom().contains(c) ==> attrs_map.contains_key(c) && call_ensures(
                *filter,
                (&attrs_map[c],),
                true,
            ),
        forall|k: int|
            0 <= k < old(queue)@.len() ==> #[trigger] old(queue)@[k] == from || old(
                came_from,
            )@.dom().contains(old(queue)@[k]),
        forall|c: HexCell| #[trigger]
            old(came_from)@.dom().contains(c) ==> old(queue)@.contains(c),
        hex == from || old(came_from)@.dom().contains(hex),
        hex_dist(hex, neighbor) == 1,
        in_hex_bounds(neighbor, n),
        neighbor != from,
        neighbor != *to,
        !old(came_from)@.dom().contains(neighbor),
        !old(came_from)@.dom().contains(*to),
        attrs_map.contains_key(neighbor),
        call_ensures(*filter, (&attrs_map[neighbor],), true),
    ensures
        final(came_from)@ == old(came_from)@.insert(neighbor, hex),
        final(queue)@ == old(queue)@.push(neighbor),
        forall|k: int| 0 <= k < old(queue)@.len() ==> final(queue)@[k] == old(queue)@[k],
        pred_map_ok(final(came_from)@, from, g.0@, n),
        forall|c: HexCell| #[trigger]
            final(came_from)@.dom().contains(c) ==> g.0@.dom().contains(c) && g.0@[c] < g.1@,
        forall|c: HexCell| #[trigger]
            final(came_from)@.dom().contains(c) ==> attrs_map.contains_key(c) && call_ensures(
                *filter,
                (&attrs_map[c],),
                true,
            ),
        forall|k: int|
            0 <= k < final(queue)@.len() ==> #[trigger] final(queue)@[k] == from
                || final(came_from)@.dom().contains(final(queue)@[k]),
        forall|c: HexCell| #[trigger]
            final(came_from)@.dom().contains(c) ==> final(queue)@.contains(c),
        !final(came_from)@.dom().contains(*to),
        unmarked_count(grid_seq(n), final(came_from)@) < unmarked_count(grid_seq(n), old(came_from)@),
        g.2@ == dep.insert(neighbor, (dep[hex] + 1) as nat),
        depth_map_ok(final(came_from)@, g.2@, from),
        forall|k1: int, k2: int|
            0 <= k1 < k2 < final(queue)@.len() ==> g.2@[#[trigger] final(queue)@[k1]]
                <= g.2@[#[trigger] final(queue)@[k2]],
        forall|k: int|
            0 <= k < final(queue)@.len() ==> g.2@[#[trigger] final(queue)@[k]] <= dep[hex] + 1,
        g.2@.dom().contains(hex) && g.2@[hex] == dep[hex],
{
    proof {
        crate::honeycomb::lemma_grid_seq_membership(n, neighbor);
        lemma_unmarked_insert(grid_seq(n), came_from@, neighbor, hex);
    }
    came_from.insert(neighbor, hex);
    let ghost qprev = queue@;
    queue.push(neighbor);
    proof {
        assert forall|c: HexCell| #[trigger]
            came_from@.dom().contains(c) implies queue@.contains(c) by {
            if c == neighbor {
                assert(queue@[queue@.len() - 1] == neighbor);
            } else {
                let k = choose|k: int| 0 <= k < qprev.len() && qprev[k] == c;
                assert(queue@[k] == c);
            }
        }
        assert(!dep.dom().contains(neighbor));
        let dep2 = dep.insert(neighbor, (dep[hex] + 1) as nat);
        assert forall|k1: int, k2: int| 0 <= k1 < k2 < queue@.len() implies dep2[#[trigger] queue@[k1]]
            <= dep2[#[trigger] queue@[k2]] by {
            assert(queue@[k1] == qprev[k1]);
            assert(qprev[k1] == from || old(came_from)@.dom().contains(qprev[k1]));
            assert(qprev[k1] != neighbor);
            if k2 < queue@.len() - 1 {
                assert(queue@[k2] == qprev[k2]);
                assert(qprev[k2] == from || old(came_from)@.dom().contains(qprev[k2]));
                assert(qprev[k2] != neighbor);
            } else {
                assert(queue@[k2] == neighbor);
            }
        }
        assert forall|k: int| 0 <= k < queue@.len() implies dep2[#[trigger] queue@[k]] <= dep[hex]
            + 1 by {
            if k < queue@.len() - 1 {
                assert(queue@[k] == qprev[k]);
                assert(qprev[k] == from || old(came_from)@.dom().contains(qprev[k]));
                assert(qprev[k] != neighbor);
            }
        }
    }
    (Ghost(rank.insert(neighbor, next)), Ghost(next + 1), Ghost(dep.insert(neighbor, (dep[hex] + 1) as nat)))
}

/// The discovery depths the breadth-first search records: the start sits at
/// depth zero, every discovered cell one step deeper than its predecessor,
/// and nothing else has a depth.
spec fn depth_map_ok(cf: Map<HexCell, HexCell>, dep: Map<HexCell, nat>, from: HexCell) -> bool {
    &&& dep.dom().contains(from)
    &&& dep[from] == 0
    &&& forall|c: HexCell| #[trigger]
        cf.dom().contains(c) ==> dep.dom().contains(c) && dep[c] == dep[cf[c]] + 1
    &&& forall|c: HexCell| #[trigger] dep.dom().contains(c) ==> c == from || cf.dom().contains(c)
}

/// Along a predecessor chain the depth counts the steps from the start:
/// the last cell of a linked path sits at depth equal to its edge count.
proof fn lemma_path_depth(
    p: Seq<HexCell>,
    cf: Map<HexCell, HexCell>,
    dep: Map<HexCell, nat>,
    from: HexCell,
)
    requires
        depth_map_ok(cf, dep, from),
        p.len() >= 1,
        p[0] == from,
        forall|i: int| 1 <= i < p.len() ==> cf.dom().contains(#[trigger] p[i]),
        forall|i: int| 1 <= i < p.len() ==> cf[#[trigger] p[i]] == p[i - 1],
    ensures
        dep.dom().contains(p[p.len() - 1]),
        dep[p[p.len() - 1]] == p.len() - 1,
    decreases p.len(),
{
    if p.len() > 1 {
        let q = p.drop_last();
        assert(forall|i: int| 1 <= i < q.len() ==> cf.dom().contains(#[trigger] q[i]));
        assert(forall|i: int| 1 <= i < q.len() ==> cf[#[trigger] q[i]] == q[i - 1]);
        lemma_path_depth(q, cf, dep, from);
        assert(cf[p[p.len() - 1]] == p[p.len() - 2]);
    }
}

/// On a grid whose every cell carries a value the filter accepts, once all
/// discovered cells shallower than depth `d` have been expanded, every
/// in-grid cell within distance `d` of the start has been discovered:
/// a geodesic toward it runs through expanded cells alone.
proof fn lemma_level_discovered<T, F: Fn(&T) -> bool>(
    x: HexCell,
    from: HexCell,
    n: int,
    d: nat,
    q0: Seq<HexCell>,
    head0: int,
    cf: Map<HexCell, HexCell>,
    dep: Map<HexCell, nat>,
    attrs: Map<HexCell, T>,
    filter: F,
)
    requires
        0 <= n <= MAX_RADIUS,
        depth_map_ok(cf, dep, from),
        all_passable(attrs, filter, n),
        forall|c: HexCell| #[trigger] dep.dom().contains(c) ==> dep[c] == hex_dist(from, c),
        forall|c: HexCell| #[trigger]
            dep.dom().contains(c) && dep[c] < d ==> exists|k: int| 0 <= k < head0 && q0[k] == c,
        forall|k: int, nb: HexCell|
            0 <= k < head0 && #[trigger] crate::honeycomb::neighbors_within(
                q0[k],
                n,
            ).contains(nb) ==> bfs_handled(nb, from, cf, attrs, filter),
        in_hex_bounds(x, n),
        in_hex_bounds(from, n),
        hex_dist(from, x) <= d,
    ensures
        dep.dom().contains(x),
    decreases hex_dist(from, x),
{
    crate::hex_cell::lemma_hex_dist_zero(from, x);
    if hex_dist(from, x) == 0 {
    } else {
        crate::hex_cell::lemma_hex_dist_sym(from, x);
        crate::honeycomb::lemma_step_toward(x, from, n);
        let y = choose|c: HexCell|
            hex_dist(x, c) == 1 && in_hex_bounds(c, n) && #[trigger] hex_dist(c, from) == hex_dist(
                x,
                from,
            ) - 1;
        crate::hex_cell::lemma_hex_dist_sym(from, y);
        lemma_level_discovered(y, from, n, d, q0, head0, cf, dep, attrs, filter);
        assert(dep[y] < d);
        let k = choose|k: int| 0 <= k < head0 && q0[k] == y;
        crate::honeycomb::lemma_bounds_coords(y, n);
        crate::hex_cell::lemma_hex_dist_sym(x, y);
        crate::honeycomb::lemma_neighbors_within_complete(y, x, n);
        assert(crate::honeycomb::neighbors_within(q0[k], n).contains(x));
        assert(bfs_handled(x, from, cf, attrs, filter));
    }
}

/// When the goal turns up among the neighbors of an expanded cell, that
/// cell sits exactly one step short of the goal's distance from the start:
/// the search runs level by level, so no deeper cell can see the goal
/// first.
proof fn lemma_goal_at_frontier_level<T, F: Fn(&T) -> bool>(
    hex: HexCell,
    from: HexCell,
    to: HexCell,
    n: int,
    q0: Seq<HexCell>,
    head0: int,
    cf: Map<HexCell, HexCell>,
    dep: Map<HexCell, nat>,
    attrs: Map<HexCell, T>,
    filter: F,
)
    requires
        0 <= n <= MAX_RADIUS,
        depth_map_ok(cf, dep, from),
        all_passable(attrs, filter, n),
        forall|c: HexCell| #[trigger] dep.dom().contains(c) ==> dep[c] == hex_dist(from, c),
        forall|c: HexCell| #[trigger]
            dep.dom().contains(c) && dep[c] < dep[hex] ==> exists|k: int|
                0 <= k < head0 && q0[k] == c,
        forall|k: int, nb: HexCell|
            0 <= k < head0 && #[trigger] crate::honeycomb::neighbors_within(
                q0[k],
                n,
            ).contains(nb) ==> bfs_handled(nb, from, cf, attrs, filter),
        in_hex_bounds(from, n),
        in_hex_bounds(to, n),
        dep.dom().contains(hex),
        hex_dist(hex, to) == 1,
        !cf.dom().contains(to),
        to != from,
    ensures
        hex_dist(from, to) == dep[hex] + 1,
{
    crate::hex_cell::lemma_hex_dist_triangle(from, hex, to);
    if hex_dist(from, to) <= dep[hex] {
        lemma_level_discovered(to, from, n, dep[hex], q0, head0, cf, dep, attrs, filter);
    }
}

/// Once every expanded cell's in-grid neighbors have been handled, then on
/// a grid whose every cell carries a value the filter accepts, following a
/// geodesic from any discovered cell toward the goal reaches a discovered
/// cell adjacent to the goal.
proof fn lemma_discovered_near_goal<T, F: Fn(&T) -> bool>(
    x: HexCell,
    from: HexCell,
    to: HexCell,
    n: int,
    queue: Seq<HexCell>,
    cf: Map<HexCell, HexCell>,
    attrs: Map<HexCell, T>,
    filter: F,
)
    requires
        0 <= n <= MAX_RADIUS,
        queue.len() >= 1,
        queue[0] == from,
        forall|c: HexCell| #[trigger] cf.dom().contains(c) ==> queue.contains(c),
        forall|k: int, nb: HexCell|
            0 <= k < queue.len() && #[trigger] crate::honeycomb::neighbors_within(
                queue[k],
                n,
            ).contains(nb) ==> bfs_handled(nb, from, cf, attrs, filter),
        all_passable(attrs, filter, n),
        in_hex_bounds(x, n),
        in_hex_bounds(to, n),
        x == from || cf.dom().contains(x),
        hex_dist(x, to) >= 1,
    ensures
        exists|z: HexCell|
            (z == from || cf.dom().contains(z)) && #[trigger] hex_dist(z, to) == 1,
    decreases hex_dist(x, to),
{
    assert(queue.contains(x));
    let k = choose|k: int| 0 <= k < queue.len() && queue[k] == x;
    crate::honeycomb::lemma_bounds_coords(x, n);
    crate::hex_cell::lemma_hex_dist_zero(x, to);
    if hex_dist(x, to) == 1 {
        assert((x == from || cf.dom().contains(x)) && hex_dist(x, to) == 1);
    } else {
        crate::honeycomb::lemma_step_toward(x, to, n);
        let y = choose|c: HexCell|
            hex_dist(x, c) == 1 && in_hex_bounds(c, n) && #[trigger] hex_dist(c, to) == hex_dist(
                x,
                to,
            ) - 1;
        crate::honeycomb::lemma_neighbors_within_complete(x, y, n);
        assert(crate::honeycomb::neighbors_within(queue[k], n).contains(y));
        assert(bfs_handled(y, from, cf, attrs, filter));
        assert(y == from || cf.dom().contains(y));
        lemma_discovered_near_goal(y, from, to, n, queue, cf, attrs, filter);
    }
}

/// After a cell has been fully expanded, the popped prefix of the frontier
/// grows by it: no popped cell is adjacent to the goal, and every popped
/// cell's in-grid neighbors have been handled.
#[verifier::rlimit(100)]
proof fn lemma_expansion_complete<T, F: Fn(&T) -> bool>(
    hex: HexCell,
    from: HexCell,
    to: HexCell,
    n: int,
    q0: Seq<HexCell>,
    head0: int,
    len0: int,
    head: int,
    queue: Seq<HexCell>,
    ns: Seq<HexCell>,
    m0: Map<HexCell, HexCell>,
    cf: Map<HexCell, HexCell>,
    attrs: Map<HexCell, T>,
    filter: F,
)
    requires
        q0.len() == len0,
        0 <= head0 < len0,
        len0 <= queue.len(),
        q0[head0] == hex,
        head == head0 + 1,
        forall|k: int| 0 <= k < len0 ==> #[trigger] queue[k] == q0[k],
        ns == crate::honeycomb::neighbors_within(hex, n),
        forall|k: int| 0 <= k < ns.len() ==> #[trigger] ns[k] != to,
        forall|j: int| 0 <= j < ns.len() ==> bfs_handled(#[trigger] ns[j], from, cf, attrs, filter),
        forall|k: int|
            0 <= k < head0 ==> !crate::honeycomb::neighbors_within(#[trigger] q0[k], n).contains(
                to,
            ),
        forall|k: int, nb: HexCell|
            0 <= k < head0 && #[trigger] crate::honeycomb::neighbors_within(
                q0[k],
                n,
            ).contains(nb) ==> bfs_handled(nb, from, m0, attrs, filter),
        forall|c: HexCell| #[trigger] m0.dom().contains(c) ==> cf.dom().contains(c),
    ensures
        forall|k: int|
            0 <= k < head ==> !crate::honeycomb::neighbors_within(#[trigger] queue[k], n).contains(
                to,
            ),
        forall|k: int, nb: HexCell|
            0 <= k < head && #[trigger] crate::honeycomb::neighbors_within(
                queue[k],
                n,
            ).contains(nb) ==> bfs_handled(nb, from, cf, attrs, filter),
{
    assert forall|k: int| 0 <= k < head implies !crate::honeycomb::neighbors_within(
        #[trigger] queue[k],
        n,
    ).contains(to) by {
        assert(queue[k] == q0[k]);
        if k == head0 && crate::honeycomb::neighbors_within(hex, n).contains(to) {
            let j = choose|j: int| 0 <= j < ns.len() && ns[j] == to;
            assert(false);
        }
    }
    assert forall|k: int, nb: HexCell|
        0 <= k < head && #[trigger] crate::honeycomb::neighbors_within(queue[k], n).contains(
            nb,
        ) implies bfs_handled(nb, from, cf, attrs, filter) by {
        assert(queue[k] == q0[k]);
        if k == head0 {
            let j = choose|j: int| 0 <= j < ns.len() && ns[j] == nb;
            assert(bfs_handled(ns[j], from, cf, attrs, filter));
        } else {
            assert(bfs_handled(nb, from, m0, attrs, filter));
        }
    }
}

/// Builds the final path of the breadth-first search once the goal `to`
/// has been spotted among the neighbors of the reached cell `hex`, and on
/// an all-passable grid certifies that its length is exactly the hex
/// distance of the endpoints plus one.
#[verifier::rlimit(100)]
fn bfs_finish<T, F: Fn(&T) -> bool>(
    hex: HexCell,
    from: HexCell,
    to: HexCell,
    came_from: &CellAttributes<HexCell>,
    attrs: &CellAttributes<T>,
    filter: &F,
    Ghost(rank): Ghost<Map<HexCell, nat>>,
    Ghost(n): Ghost<int>,
    Ghost(dep): Ghost<Map<HexCell, nat>>,
    Ghost(d0): Ghost<nat>,
    Ghost(q0): Ghost<Seq<HexCell>>,
    Ghost(head0): Ghost<int>,
    Ghost(len0): Ghost<int>,
    Ghost(m0): Ghost<Map<HexCell, HexCell>>,
    Ghost(qv): Ghost<Seq<HexCell>>,
) -> (p: Vec<HexCell>)
    requires
        0 <= n <= MAX_RADIUS,
        pred_map_ok(came_from@, from, rank, n),
        hex == from || came_from@.dom().contains(hex),
        !came_from@.dom().contains(to),
        to != from,
        hex_dist(hex, to) == 1,
        in_hex_bounds(to, n),
        forall|c: HexCell| #[trigger]
            came_from@.dom().contains(c) ==> attrs@.contains_key(c) && call_ensures(
                *filter,
                (&attrs@[c],),
                true,
            ),
        depth_map_ok(came_from@, dep, from),
        (all_passable(attrs@, *filter, n) && in_hex_bounds(from, n)) ==> forall|c: HexCell|
            #[trigger] dep.dom().contains(c) ==> dep[c] == hex_dist(from, c),
        q0.len() == len0,
        0 <= head0 < len0,
        len0 <= qv.len(),
        q0[head0] == hex,
        forall|k: int| 0 <= k < len0 ==> #[trigger] qv[k] == q0[k],
        qv.len() >= 1,
        qv[0] == from,
        forall|c: HexCell| #[trigger] came_from@.dom().contains(c) ==> qv.contains(c),
        dep.dom().contains(hex),
        dep[hex] == d0,
        forall|k1: int, k2: int|
            0 <= k1 < k2 < qv.len() ==> dep[#[trigger] qv[k1]] <= dep[#[trigger] qv[k2]],
        forall|c: HexCell| #[trigger] m0.dom().contains(c) ==> came_from@.dom().contains(c),
        forall|k: int, nb: HexCell|
            0 <= k < head0 && #[trigger] crate::honeycomb::neighbors_within(
                q0[k],
                n,
            ).contains(nb) ==> bfs_handled(nb, from, m0, attrs@, *filter),
    ensures
        path_shape(p@, from, to, n),
        forall|i: int|
            1 <= i < p@.len() - 1 ==> attrs@.contains_key(#[trigger] p@[i]) && call_ensures(
                *filter,
                (&attrs@[p@[i]],),
                true,
            ),
        (all_passable(attrs@, *filter, n) && in_hex_bounds(from, n)) ==> p@.len() == hex_dist(
            from,
            to,
        ) + 1,
{
    proof {
        if all_passable(attrs@, *filter, n) && in_hex_bounds(from, n) {
            lemma_goal_exact(
                hex,
                from,
                to,
                n,
                d0,
                q0,
                head0,
                len0,
                qv,
                m0,
                came_from@,
                dep,
                attrs@,
                *filter,
            );
        }
    }
    let p = finish_path(hex, from, to, came_from, Ghost(rank), Ghost(n));
    proof {
        if all_passable(attrs@, *filter, n) && in_hex_bounds(from, n) {
            lemma_path_depth(p@.take(p@.len() - 1), came_from@, dep, from);
        }
    }
    p
}

impl Honeycomb {
    /// Breadth-first shortest path from `from` to `to`.
    ///
    /// Movement into a cell is permitted exactly when the caller's `filter`
    /// accepts that cell's attribute value; a cell without a value is never
    /// entered.  The start is never filtered, and the goal is detected while
    /// enumerating a popped cell's neighbors, before it would be enqueued,
    /// so the goal is reachable even where `filter` would reject it.  Equal
    /// endpoints short-circuit to the single-cell path.  `None` is a normal
    /// outcome: no route satisfies the filter.
    ///
    /// A returned path starts at `from`, ends at `to`, moves one hex step at
    /// a time through member cells whose values pass `filter`, visits no
    /// cell twice, and spends at least `hex_dist(from, to)` steps.  A path
    /// is always found when the goal sits right next to the start.  When
    /// both endpoints are members of a grid whose every cell carries a value
    /// that `filter` can only accept, a path is found and its step count is
    /// exactly `hex_dist(from, to)`: the fewest edges possible.
    #[verifier::rlimit(100)]
    pub fn shortest_path<T, F: Fn(&T) -> bool>(
        &self,
        attrs: &CellAttributes<T>,
        from: &HexCell,
        to: &HexCell,
        filter: F,
    ) -> (res: Option<Vec<HexCell>>)
        requires
            self.wf(),
            coords_in_range(*from),
            forall|v: &T| #[trigger] call_requires(filter, (v,)),
        ensures
            match res {
                Some(path) => path_shape(path@, *from, *to, self.radius()) && forall|i: int|
                    1 <= i < path@.len() - 1 ==> attrs@.contains_key(#[trigger] path@[i])
                        && call_ensures(filter, (&attrs@[path@[i]],), true),
                None => *from != *to,
            },
            *from == *to ==> res.is_some(),
            (*from != *to && hex_dist(*from, *to) == 1 && in_hex_bounds(*to, self.radius()))
                ==> res.is_some(),
            (*from != *to && in_hex_bounds(*from, self.radius()) && in_hex_bounds(
                *to,
                self.radius(),
            ) && all_passable(attrs@, filter, self.radius())) ==> (res.is_some()
                && res.unwrap()@.len() == hex_dist(*from, *to) + 1),
    {
        let ghost n = self.radius();
        proof {
            self.lemma_wf_cells();
        }
        if from == to {
            proof {
                crate::hex_cell::lemma_hex_dist_zero(*from, *to);
            }
            let mut p: Vec<HexCell> = Vec::new();
            p.push(*from);
            return Some(p);
        }
        let mut queue: Vec<HexCell> = Vec::new();
        queue.push(*from);
        let mut head: usize = 0;
        let mut came_from: CellAttributes<HexCell> = CellAttributes::new();
        let ghost mut rank: Map<HexCell, nat> = Map::empty();
        let ghost mut next: nat = 0;
        let ghost mut dep: Map<HexCell, nat> = Map::empty().insert(*from, 0nat);
        proof {
            crate::hex_cell::lemma_hex_dist_zero(*from, *from);
        }
        while head < queue.len()
            invariant
                self.wf(),
                n == self.radius(),
                0 <= n <= MAX_RADIUS,
                coords_in_range(*from),
                *from != *to,
                forall|v: &T| #[trigger] call_requires(filter, (v,)),
                head <= queue@.len(),
                queue@.len() >= 1,
                queue@[0] == *from,
                forall|k: int|
                    0 <= k < queue@.len() ==> #[trigger] queue@[k] == *from
                        || came_from@.dom().contains(queue@[k]),
                pred_map_ok(came_from@, *from, rank, n),
                !came_from@.dom().contains(*to),
                forall|c: HexCell| #[trigger]
                    came_from@.dom().contains(c) ==> rank.dom().contains(c) && rank[c] < next,
                forall|c: HexCell| #[trigger]
                    came_from@.dom().contains(c) ==> attrs@.contains_key(c) && call_ensures(
                        filter,
                        (&attrs@[c],),
                        true,
                    ),
                forall|k: int|
                    0 <= k < head ==> !crate::honeycomb::neighbors_within(
                        #[trigger] queue@[k],
                        n,
                    ).contains(*to),
                forall|k: int, nb: HexCell|
                    0 <= k < head && #[trigger] crate::honeycomb::neighbors_within(
                        queue@[k],
                        n,
                    ).contains(nb) ==> bfs_handled(nb, *from, came_from@, attrs@, filter),
                forall|c: HexCell| #[trigger] came_from@.dom().contains(c) ==> queue@.contains(c),
                depth_map_ok(came_from@, dep, *from),
                forall|k1: int, k2: int|
                    0 <= k1 < k2 < queue@.len() ==> dep[#[trigger] queue@[k1]]
                        <= dep[#[trigger] queue@[k2]],
                head < queue@.len() ==> forall|k: int|
                    0 <= k < queue@.len() ==> dep[#[trigger] queue@[k]] <= dep[queue@[head as int]]
                        + 1,
                (all_passable(attrs@, filter, n) && in_hex_bounds(*from, n)) ==> forall|c: HexCell|
                    #[trigger] dep.dom().contains(c) ==> dep[c] == hex_dist(*from, c),
            decreases unmarked_count(grid_seq(n), came_from@), queue@.len() - head,
        {
            let ghost head0 = head as int;
            let hex = queue[head];
            head = head + 1;
            proof {
                if hex != *from {
                    crate::honeycomb::lemma_bounds_coords(hex, n);
                }
            }
            let ns = self.neighbors_of(hex);
            proof {
                crate::honeycomb::lemma_neighbors_within_props(hex, n);
            }
            let ghost m0 = came_from@;
            let ghost q0 = queue@;
            let ghost len0 = queue@.len();
            proof {
                assert(dep.dom().contains(hex));
            }
            let ghost d0 = dep[hex];
            let mut i: usize = 0;
            while i < ns.len()
                invariant
                    self.wf(),
                    n == self.radius(),
                    0 <= n <= MAX_RADIUS,
                    coords_in_range(*from),
                    coords_in_range(hex),
                    *from != *to,
                    forall|v: &T| #[trigger] call_requires(filter, (v,)),
                    head <= queue@.len(),
                    queue@.len() >= 1,
                    queue@[0] == *from,
                    hex == *from || came_from@.dom().contains(hex),
                    ns@ == crate::honeycomb::neighbors_within(hex, n),
                    forall|k: int|
                        0 <= k < ns@.len() ==> in_hex_bounds(#[trigger] ns@[k], n) && hex_dist(
                            hex,
                            ns@[k],
                        ) == 1,
                    0 <= i <= ns@.len(),
                    forall|k: int| 0 <= k < i ==> #[trigger] ns@[k] != *to,
                    forall|k: int|
                        0 <= k < queue@.len() ==> #[trigger] queue@[k] == *from
                            || came_from@.dom().contains(queue@[k]),
                    pred_map_ok(came_from@, *from, rank, n),
                    !came_from@.dom().contains(*to),
                    forall|c: HexCell| #[trigger]
                        came_from@.dom().contains(c) ==> rank.dom().contains(c) && rank[c] < next,
                    forall|c: HexCell| #[trigger]
                        came_from@.dom().contains(c) ==> attrs@.contains_key(c) && call_ensures(
                            filter,
                            (&attrs@[c],),
                            true,
                        ),
                    (queue@.len() == len0 && came_from@ == m0) || (queue@.len() > len0
                        && unmarked_count(grid_seq(n), came_from@) < unmarked_count(grid_seq(n), m0)),
                    head == head0 + 1,
                    q0.len() == len0,
                    0 <= head0 < len0,
                    len0 <= queue@.len(),
                    q0[head0] == hex,
                    forall|k: int| 0 <= k < len0 ==> #[trigger] queue@[k] == q0[k],
                    forall|c: HexCell| #[trigger] m0.dom().contains(c) ==> came_from@.dom().contains(c),
                    forall|j: int|
                        0 <= j < i ==> bfs_handled(#[trigger] ns@[j], *from, came_from@, attrs@, filter),
                    forall|k: int|
                        0 <= k < head0 ==> !crate::honeycomb::neighbors_within(
                            #[trigger] q0[k],
                            n,
                        ).contains(*to),
                    forall|k: int, nb: HexCell|
                        0 <= k < head0 && #[trigger] crate::honeycomb::neighbors_within(
                            q0[k],
                            n,
                        ).contains(nb) ==> bfs_handled(nb, *from, m0, attrs@, filter),
                    forall|c: HexCell| #[trigger] came_from@.dom().contains(c) ==> queue@.contains(c),
                    depth_map_ok(came_from@, dep, *from),
                    dep.dom().contains(hex) && dep[hex] == d0,
                    forall|k1: int, k2: int|
                        0 <= k1 < k2 < queue@.len() ==> dep[#[trigger] queue@[k1]]
                            <= dep[#[trigger] queue@[k2]],
                    forall|k: int| 0 <= k < queue@.len() ==> dep[#[trigger] queue@[k]] <= d0 + 1,
                    (all_passable(attrs@, filter, n) && in_hex_bounds(*from, n)) ==> forall|c: HexCell|
                        #[trigger] dep.dom().contains(c) ==> dep[c] == hex_dist(*from, c),
                decreases ns@.len() - i,
            {
                let neighbor = ns[i];
                if neighbor == *to {
                    return Some(
                        bfs_finish(
                            hex,
                            *from,
                            *to,
                            &came_from,
                            attrs,
                            &filter,
                            Ghost(rank),
                            Ghost(n),
                            Ghost(dep),
                            Ghost(d0),
                            Ghost(q0),
                            Ghost(head0),
                            Ghost(len0 as int),
                            Ghost(m0),
                            Ghost(queue@),
                        ),
                    );
                }
                let seen = neighbor == *from || came_from.contains_cell(&neighbor);
                let valid = match attrs.get(&neighbor) {
                    Some(val) => filter(val),
                    None => false,
                };
                if !seen && valid {
                    proof {
                        if all_passable(attrs@, filter, n) && in_hex_bounds(*from, n) {
                            lemma_fresh_cell_deeper(
                                neighbor,
                                hex,
                                *from,
                                n,
                                d0,
                                q0,
                                head0,
                                len0 as int,
                                queue@,
                                m0,
                                came_from@,
                                dep,
                                attrs@,
                                filter,
                            );
                        }
                    }
                    let g = record_discovery(
                        &mut queue,
                        &mut came_from,
                        hex,
                        neighbor,
                        to,
                        Ghost(attrs@),
                        &filter,
                        Ghost(*from),
                        Ghost(n),
                        Ghost(rank),
                        Ghost(next),
                        Ghost(dep),
                    );
                    proof {
                        let depprev = dep;
                        rank = g.0@;
                        next = g.1@;
                        dep = g.2@;
                        if all_passable(attrs@, filter, n) && in_hex_bounds(*from, n) {
                            assert forall|c: HexCell| #[trigger]
                                dep.dom().contains(c) implies dep[c] == hex_dist(*from, c) by {
                                if c != neighbor {
                                    assert(depprev.dom().contains(c));
                                }
                            }
                        }
                    }
                }
                i = i + 1;
            }
            proof {
                lemma_expansion_complete(
                    hex,
                    *from,
                    *to,
                    n,
                    q0,
                    head0,
                    len0 as int,
                    head as int,
                    queue@,
                    ns@,
                    m0,
                    came_from@,
                    attrs@,
                    filter,
                );
                if head < queue@.len() {
                    assert(queue@[head0] == q0[head0]);
                    assert(dep[queue@[head as int]] >= d0);
                }
            }
        }
        proof {
            if hex_dist(*from, *to) == 1 && in_hex_bounds(*to, n) {
                crate::honeycomb::lemma_neighbors_within_complete(*from, *to, n);
                assert(crate::honeycomb::neighbors_within(queue@[0], n).contains(*to));
                assert(false);
            }
            if in_hex_bounds(*from, n) && in_hex_bounds(*to, n) && all_passable(attrs@, filter, n) {
                crate::hex_cell::lemma_hex_dist_zero(*from, *to);
                lemma_discovered_near_goal(
                    *from,
                    *from,
                    *to,
                    n,
                    queue@,
                    came_from@,
                    attrs@,
                    filter,
                );
                let z = choose|z: HexCell|
                    (z == *from || came_from@.dom().contains(z)) && #[trigger] hex_dist(z, *to)
                        == 1;
                assert(queue@.contains(z));
                let k = choose|k: int| 0 <= k < queue@.len() && queue@[k] == z;
                crate::honeycomb::lemma_bounds_coords(z, n);
                crate::honeycomb::lemma_neighbors_within_complete(z, *to, n);
                assert(crate::honeycomb::neighbors_within(queue@[k], n).contains(*to));
                assert(false);
            }
        }
        None
    }
}

} // verus!
