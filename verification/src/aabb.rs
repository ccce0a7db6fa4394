//! Axis-aligned bounding boxes.

use vstd::prelude::*;
use crate::point::Point;

verus! {

/// An axis-aligned box in `D` dimensions, given by two opposite corners.
#[derive(Clone, Debug)]
pub struct Aabb<const D: usize> {
    /// The corner with the smallest coordinates.
    pub min: Point<D>,
    /// The corner with the largest coordinates.
    pub max: Point<D>,
}

/// The four corners of a box in the plane, in the order min/min, min/max,
/// max/min, max/max.
pub open spec fn rectangle_corners(min: Seq<real>, max: Seq<real>) -> Seq<Seq<real>> {
    seq![
        seq![min[0], min[1]],
        seq![min[0], max[1]],
        seq![max[0], min[1]],
        seq![max[0], max[1]],
    ]
}

impl Aabb<2> {
    /// The four corners of the box, in the order min/min, min/max, max/min,
    /// max/max.
    pub fn corners(&self) -> (r: [Point<2>; 4])
        ensures
            forall|k: int| 0 <= k < 4 ==> (#[trigger] r@[k])@ == rectangle_corners(self.min@, self.max@)[k],
    {
        let r = [
            Point::from_coords([self.min.coordinate(0), self.min.coordinate(1)]),
            Point::from_coords([self.min.coordinate(0), self.max.coordinate(1)]),
            Point::from_coords([self.max.coordinate(0), self.min.coordinate(1)]),
            Point::from_coords([self.max.coordinate(0), self.max.coordinate(1)]),
        ];
        proof {
            let c = rectangle_corners(self.min@, self.max@);
            assert(r@[0]@ =~= c[0]);
            assert(r@[1]@ =~= c[1]);
            assert(r@[2]@ =~= c[2]);
            assert(r@[3]@ =~= c[3]);
        }
        r
    }
}

} // verus!
