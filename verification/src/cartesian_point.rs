//! Points of the continuous plane, in exact fixed-point units.
//!
//! A pointy-top hexagonal layout places every cell center and vertex at a
//! coordinate of the form `(sqrt(3) * a / 2, b / 2)` with `a`, `b` integers.
//! Storing `x` in thousandths of `sqrt(3)` and `y` in plain thousandths
//! therefore represents all of them exactly, with no floating point, while
//! still giving a fine resolution for arbitrary query points.

use vstd::prelude::*;

verus! {

/// A 2D point: `x_milli` counts thousandths of `sqrt(3)` along the x axis,
/// `y_milli` counts plain thousandths along the y axis.
#[derive(Copy, Clone, Debug, PartialEq, Eq, Hash, Structural)]
pub struct CartesianPoint {
    pub x_milli: i64,
    pub y_milli: i64,
}

impl CartesianPoint {
    /// Builds the point with the given fixed-point coordinates.
    pub fn new(x_milli: i64, y_milli: i64) -> (p: Self)
        ensures
            p == (CartesianPoint { x_milli, y_milli }),
    {
        Self { x_milli, y_milli }
    }
}

impl std::ops::Add for CartesianPoint {
    type Output = CartesianPoint;

    /// Componentwise vector addition.
    fn add(self, rhs: CartesianPoint) -> (p: CartesianPoint) {
        CartesianPoint { x_milli: self.x_milli + rhs.x_milli, y_milli: self.y_milli + rhs.y_milli }
    }
}

impl vstd::std_specs::ops::AddSpecImpl for CartesianPoint {
    open spec fn obeys_add_spec() -> bool {
        true
    }

    open spec fn add_req(self, rhs: CartesianPoint) -> bool {
        &&& i64::MIN <= self.x_milli + rhs.x_milli <= i64::MAX
        &&& i64::MIN <= self.y_milli + rhs.y_milli <= i64::MAX
    }

    open spec fn add_spec(self, rhs: CartesianPoint) -> CartesianPoint {
        CartesianPoint {
            x_milli: (self.x_milli + rhs.x_milli) as i64,
            y_milli: (self.y_milli + rhs.y_milli) as i64,
        }
    }
}

impl std::ops::Sub for CartesianPoint {
    type Output = CartesianPoint;

    /// Componentwise vector subtraction.
    fn sub(self, rhs: CartesianPoint) -> (p: CartesianPoint) {
        CartesianPoint { x_milli: self.x_milli - rhs.x_milli, y_milli: self.y_milli - rhs.y_milli }
    }
}

impl vstd::std_specs::ops::SubSpecImpl for CartesianPoint {
    open spec fn obeys_sub_spec() -> bool {
        true
    }

    open spec fn sub_req(self, rhs: CartesianPoint) -> bool {
        &&& i64::MIN <= self.x_milli - rhs.x_milli <= i64::MAX
        &&& i64::MIN <= self.y_milli - rhs.y_milli <= i64::MAX
    }

    open spec fn sub_spec(self, rhs: CartesianPoint) -> CartesianPoint {
        CartesianPoint {
            x_milli: (self.x_milli - rhs.x_milli) as i64,
            y_milli: (self.y_milli - rhs.y_milli) as i64,
        }
    }
}

} // verus!
