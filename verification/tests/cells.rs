use honeycomb::cartesian_point::CartesianPoint;
use honeycomb::hex_cell::HexCell;

#[test]
fn test_add() {
    let h1 = HexCell::new(10, 10);
    let h2 = HexCell::new(5, -5);

    assert_eq!(h1, HexCell::new(10, 10));
    assert_eq!(h2, HexCell::new(5, -5));

    let h3 = h1 + h2;

    assert_eq!(h3, HexCell::new(15, 5));
}

#[test]
fn test_sub() {
    let h1 = HexCell::new(10, 10);
    let h2 = HexCell::new(5, -5);

    assert_eq!(h1, HexCell::new(10, 10));
    assert_eq!(h2, HexCell::new(5, -5));

    let h3 = h1 - h2;

    assert_eq!(h3, HexCell::new(5, 15));
}

#[test]
fn test_neighbors() {
    let h = HexCell::new(5, 5);
    let neighbors = h.neighbors();

    assert_eq!(neighbors.len(), 6);

    assert!(neighbors.contains(&HexCell::new(6, 5)));
    assert!(neighbors.contains(&HexCell::new(6, 4)));
    assert!(neighbors.contains(&HexCell::new(5, 4)));
    assert!(neighbors.contains(&HexCell::new(4, 5)));
    assert!(neighbors.contains(&HexCell::new(4, 6)));
    assert!(neighbors.contains(&HexCell::new(5, 6)));
}

#[test]
fn test_cartesian_point() {
    let o = HexCell::new(0, 0);
    assert_eq!(o.world_location(), CartesianPoint::new(0, 0));

    let y1 = HexCell::new(1, -2);
    assert_eq!(y1.world_location(), CartesianPoint::new(0, 3000));

    let y2 = HexCell::new(-2, 4);
    assert_eq!(y2.world_location(), CartesianPoint::new(0, -6000));
}

#[test]
fn test_neighbor_order() {
    let h = HexCell::new(0, 0);
    let ns = h.neighbors();
    let expected = vec![
        HexCell::new(1, 0),
        HexCell::new(1, -1),
        HexCell::new(0, -1),
        HexCell::new(-1, 0),
        HexCell::new(-1, 1),
        HexCell::new(0, 1),
    ];
    assert_eq!(ns, expected);
}

#[test]
fn test_axial_distance() {
    let o = HexCell::origin();
    assert_eq!(o.axial_dist_to(&o), 0);
    assert_eq!(HexCell::new(1, 0).axial_dist_to(&o), 1);
    assert_eq!(HexCell::new(1, -1).axial_dist_to(&o), 1);
    assert_eq!(HexCell::new(3, 0).axial_dist_to(&o), 3);
    assert_eq!(HexCell::new(3, -3).axial_dist_to(&o), 3);
    assert_eq!(HexCell::new(-2, -1).axial_dist_to(&o), 3);
    assert_eq!(HexCell::new(2, 3).axial_dist_to(&HexCell::new(-1, 4)), 3);
    assert_eq!(
        HexCell::new(2, 3).axial_dist_to(&HexCell::new(-1, 4)),
        HexCell::new(-1, 4).axial_dist_to(&HexCell::new(2, 3))
    );
}

#[test]
fn test_vertex_locations() {
    let vs = HexCell::origin().vertex_locations();
    assert_eq!(vs.len(), 6);
    assert_eq!(vs[0], CartesianPoint::new(0, 1000));
    assert_eq!(vs[1], CartesianPoint::new(500, 500));
    assert_eq!(vs[2], CartesianPoint::new(500, -500));
    assert_eq!(vs[3], CartesianPoint::new(0, -1000));
    assert_eq!(vs[4], CartesianPoint::new(-500, -500));
    assert_eq!(vs[5], CartesianPoint::new(-500, 500));

    let shifted = HexCell::new(0, -2).vertex_locations();
    assert_eq!(shifted[0], CartesianPoint::new(-1000, 4000));
}

#[test]
fn test_point_arithmetic() {
    let a = CartesianPoint::new(100, -200);
    let b = CartesianPoint::new(-30, 50);
    assert_eq!(a + b, CartesianPoint::new(70, -150));
    assert_eq!(a - b, CartesianPoint::new(130, -250));
}
