use honeycomb::cartesian_point::CartesianPoint;
use honeycomb::hex_cell::HexCell;
use honeycomb::honeycomb::Honeycomb;

#[test]
fn test_cell_count_formula() {
    for n in 0..6usize {
        let hc = Honeycomb::new(n);
        assert_eq!(hc.grid.len(), 3 * n * n + 3 * n + 1);
    }
    assert_eq!(Honeycomb::new(100).grid.len(), 30301);
}

#[test]
fn test_members_within_radius() {
    let origin = HexCell::origin();
    for n in 0..5usize {
        let hc = Honeycomb::new(n);
        for cell in &hc.grid {
            assert!(cell.axial_dist_to(&origin) <= n);
        }
    }
}

#[test]
fn test_membership() {
    let hc = Honeycomb::new(2);
    assert!(hc.contains(&HexCell::origin()));
    assert!(hc.contains(&HexCell::new(2, 0)));
    assert!(hc.contains(&HexCell::new(-2, 2)));
    assert!(hc.contains(&HexCell::new(1, 1)));
    assert!(!hc.contains(&HexCell::new(3, 0)));
    assert!(!hc.contains(&HexCell::new(2, 1)));
    assert!(!hc.contains(&HexCell::new(-2, -1)));
}

#[test]
fn test_grid_cells_distinct() {
    let hc = Honeycomb::new(3);
    for i in 0..hc.grid.len() {
        for j in (i + 1)..hc.grid.len() {
            assert_ne!(hc.grid[i], hc.grid[j]);
        }
    }
}

#[test]
fn test_point_round_trip() {
    let hc = Honeycomb::new(3);
    for cell in &hc.grid {
        let found = hc.world_to_hex(cell.world_location());
        assert_eq!(found, Some(*cell));
    }
}

#[test]
fn test_point_lookup_off_center() {
    let hc = Honeycomb::new(3);
    let center = HexCell::new(1, 0).world_location();
    let nudged = center + CartesianPoint::new(300, 200);
    assert_eq!(hc.world_to_hex(nudged), Some(HexCell::new(1, 0)));
}

#[test]
fn test_point_outside_grid() {
    let hc = Honeycomb::new(1);
    let far = HexCell::new(3, 0).world_location();
    assert_eq!(hc.world_to_hex(far), None);
    let off_rim = HexCell::new(2, 0).world_location();
    assert_eq!(hc.world_to_hex(off_rim), None);
}

#[test]
fn test_neighbor_count_interior_and_rim() {
    let hc = Honeycomb::new(3);
    assert_eq!(hc.neighbors_of(HexCell::origin()).len(), 6);
    assert_eq!(hc.neighbors_of(HexCell::new(1, -1)).len(), 6);
    assert_eq!(hc.neighbors_of(HexCell::new(2, 0)).len(), 6);
    assert!(hc.neighbors_of(HexCell::new(3, 0)).len() < 6);
    assert_eq!(hc.neighbors_of(HexCell::new(3, 0)).len(), 3);
    assert_eq!(hc.neighbors_of(HexCell::new(3, -1)).len(), 4);
    assert_eq!(hc.neighbors_of(HexCell::new(0, 3)).len(), 3);
}

#[test]
fn test_neighbors_of_zero_radius() {
    let hc = Honeycomb::new(0);
    assert_eq!(hc.grid.len(), 1);
    assert_eq!(hc.neighbors_of(HexCell::origin()).len(), 0);
}

#[test]
fn test_neighbors_of_outside_cell() {
    // The bound filter looks at the neighbors alone, so a cell outside the
    // grid still reports its in-grid neighbors.
    let hc = Honeycomb::new(1);
    let rim_adjacent = hc.neighbors_of(HexCell::new(2, 0));
    assert_eq!(rim_adjacent, vec![HexCell::new(1, 0)]);
}
