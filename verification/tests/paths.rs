use honeycomb::cell_attributes::CellAttributes;
use honeycomb::hex_cell::HexCell;
use honeycomb::honeycomb::Honeycomb;

fn all_passable(hc: &Honeycomb) -> CellAttributes<bool> {
    let mut attrs = CellAttributes::new();
    for cell in &hc.grid {
        attrs.insert(*cell, true);
    }
    attrs
}

fn weight_of(cell: &HexCell) -> usize {
    ((cell.q * 5 + cell.r * 3).rem_euclid(7) + 1) as usize
}

fn weighted(hc: &Honeycomb) -> CellAttributes<usize> {
    let mut attrs = CellAttributes::new();
    for cell in &hc.grid {
        attrs.insert(*cell, weight_of(cell));
    }
    attrs
}

fn path_cost(attrs: &CellAttributes<usize>, path: &[HexCell]) -> usize {
    let mut total = 0usize;
    for pair in path.windows(2) {
        let a = attrs.get(&pair[0]).unwrap();
        let b = attrs.get(&pair[1]).unwrap();
        total += cost_step(a, b);
    }
    total
}

fn cost_step(_curr: &usize, next: &usize) -> usize {
    *next
}

fn brute_force_min(
    hc: &Honeycomb,
    attrs: &CellAttributes<usize>,
    path: &mut Vec<HexCell>,
    goal: &HexCell,
    best: &mut Option<usize>,
) {
    let last = *path.last().unwrap();
    if last == *goal {
        let cost = path_cost(attrs, path);
        if best.is_none() || cost < best.unwrap() {
            *best = Some(cost);
        }
        return;
    }
    for next in hc.neighbors_of(last) {
        if path.contains(&next) {
            continue;
        }
        path.push(next);
        brute_force_min(hc, attrs, path, goal, best);
        path.pop();
    }
}

#[test]
fn test_shortest_path_trivial() {
    let hc = Honeycomb::new(2);
    let attrs: CellAttributes<bool> = CellAttributes::new();
    let x = HexCell::new(2, -1);
    let path = hc.shortest_path(&attrs, &x, &x, |v: &bool| *v).unwrap();
    assert_eq!(path, vec![x]);
}

#[test]
fn test_cheapest_path_trivial() {
    let hc = Honeycomb::new(2);
    let attrs: CellAttributes<usize> = CellAttributes::new();
    let x = HexCell::new(-1, 2);
    let path = hc
        .cheapest_path(&attrs, &x, &x, cost_step, |a: &HexCell, b: &HexCell| {
            a.axial_dist_to(b)
        })
        .unwrap();
    assert_eq!(path, vec![x]);
}

#[test]
fn test_shortest_path_length_is_distance() {
    let hc = Honeycomb::new(3);
    let attrs = all_passable(&hc);
    let pairs = [
        (HexCell::new(-3, 0), HexCell::new(3, 0)),
        (HexCell::new(0, -3), HexCell::new(0, 3)),
        (HexCell::new(-2, 2), HexCell::new(2, -1)),
        (HexCell::new(1, 1), HexCell::new(-1, -1)),
    ];
    for (from, to) in pairs {
        let path = hc
            .shortest_path(&attrs, &from, &to, |v: &bool| *v)
            .unwrap();
        assert_eq!(path.len(), from.axial_dist_to(&to) + 1);
        assert_eq!(path[0], from);
        assert_eq!(*path.last().unwrap(), to);
        for pair in path.windows(2) {
            assert_eq!(pair[0].axial_dist_to(&pair[1]), 1);
        }
    }
}

#[test]
fn test_shortest_path_not_found_for_enclosed_goal() {
    let hc = Honeycomb::new(3);
    let goal = HexCell::origin();
    let mut attrs = CellAttributes::new();
    for cell in &hc.grid {
        attrs.insert(*cell, true);
    }
    for ring_cell in goal.neighbors() {
        attrs.insert(ring_cell, false);
    }
    let start = HexCell::new(0, -3);
    let res = hc.shortest_path(&attrs, &start, &goal, |v: &bool| *v);
    assert_eq!(res, None);
}

#[test]
fn test_shortest_path_reaches_goal_on_obstacle() {
    let hc = Honeycomb::new(3);
    let goal = HexCell::origin();
    let mut attrs = all_passable(&hc);
    attrs.insert(goal, false);
    let start = HexCell::new(0, -3);
    let path = hc
        .shortest_path(&attrs, &start, &goal, |v: &bool| *v)
        .unwrap();
    assert_eq!(path.len(), 4);
    assert_eq!(*path.last().unwrap(), goal);
}

#[test]
fn test_shortest_path_adjacent_goal_without_data() {
    // The goal is spotted among the start's neighbors before any
    // passability question arises.
    let hc = Honeycomb::new(2);
    let attrs: CellAttributes<bool> = CellAttributes::new();
    let from = HexCell::new(0, 0);
    let to = HexCell::new(1, 0);
    let path = hc.shortest_path(&attrs, &from, &to, |v: &bool| *v).unwrap();
    assert_eq!(path, vec![from, to]);
}

#[test]
fn test_shortest_path_not_found_without_data() {
    let hc = Honeycomb::new(2);
    let attrs: CellAttributes<bool> = CellAttributes::new();
    let from = HexCell::new(0, 0);
    let to = HexCell::new(2, 0);
    assert_eq!(hc.shortest_path(&attrs, &from, &to, |v: &bool| *v), None);
}

#[test]
fn test_cheapest_path_matches_shortest_under_unit_cost() {
    let hc = Honeycomb::new(3);
    let passable = all_passable(&hc);
    let mut unit: CellAttributes<usize> = CellAttributes::new();
    for cell in &hc.grid {
        unit.insert(*cell, 1);
    }
    let pairs = [
        (HexCell::new(-3, 0), HexCell::new(3, 0)),
        (HexCell::new(0, -2), HexCell::new(1, 2)),
        (HexCell::new(-1, -1), HexCell::new(2, -2)),
    ];
    for (from, to) in pairs {
        let bfs = hc
            .shortest_path(&passable, &from, &to, |v: &bool| *v)
            .unwrap();
        let astar = hc
            .cheapest_path(
                &unit,
                &from,
                &to,
                |_: &usize, _: &usize| 1,
                |a: &HexCell, b: &HexCell| a.axial_dist_to(b),
            )
            .unwrap();
        assert_eq!(astar.len(), bfs.len());
    }
}

#[test]
fn test_cheapest_path_matches_brute_force() {
    let hc = Honeycomb::new(2);
    let attrs = weighted(&hc);
    let from = HexCell::new(-2, 0);
    let goal = HexCell::new(2, 0);
    let path = hc
        .cheapest_path(&attrs, &from, &goal, cost_step, |_: &HexCell, _: &HexCell| 0)
        .unwrap();
    let total = path_cost(&attrs, &path);

    let mut best = None;
    let mut walk = vec![from];
    brute_force_min(&hc, &attrs, &mut walk, &goal, &mut best);
    assert_eq!(Some(total), best);
}

#[test]
fn test_cheapest_path_charges_goal_entry() {
    // The final edge is charged like any other, so a goal without an
    // attribute value is unreachable for the weighted search.
    let hc = Honeycomb::new(2);
    let mut attrs = weighted(&hc);
    let from = HexCell::new(0, 0);
    let to = HexCell::new(1, 0);
    let direct = hc.cheapest_path(&attrs, &from, &to, cost_step, |_: &HexCell, _: &HexCell| 0);
    assert!(direct.is_some());

    attrs = CellAttributes::new();
    attrs.insert(from, 1);
    let blocked = hc.cheapest_path(&attrs, &from, &to, cost_step, |_: &HexCell, _: &HexCell| 0);
    assert_eq!(blocked, None);
}

#[test]
fn test_cheapest_path_avoids_expensive_cells() {
    let hc = Honeycomb::new(2);
    let mut attrs: CellAttributes<usize> = CellAttributes::new();
    for cell in &hc.grid {
        attrs.insert(*cell, 1);
    }
    attrs.insert(HexCell::new(0, 0), 50);
    let from = HexCell::new(-1, 0);
    let to = HexCell::new(1, 0);
    let path = hc
        .cheapest_path(&attrs, &from, &to, cost_step, |_: &HexCell, _: &HexCell| 0)
        .unwrap();
    assert!(!path.contains(&HexCell::new(0, 0)));
    assert_eq!(path_cost(&attrs, &path), 3);
}
