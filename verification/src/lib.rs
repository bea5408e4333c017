//! A bounded hexagonal-grid spatial index.
//!
//! The grid is a hexagon of radius `N` around the origin, addressed by axial
//! coordinates.  It offers membership testing, point-location in a continuous
//! plane, neighbor enumeration, and two route queries over caller-supplied
//! passability and cost models: an unweighted breadth-first shortest path and
//! a weighted A* cheapest path.

pub mod cartesian_point;
pub mod cell_attributes;
pub mod hex_cell;
pub mod honeycomb;
pub mod search;
pub mod weighted_search;
