//! The primitive shapes whose geometry is fixed: the unit sphere and the
//! unit cube, both centered at the origin. Their ray intersections and
//! surface sampling are floating-point and live in the application layer;
//! what is exact about them is their extent, given here as a bounding box
//! on the integer coordinate grid at a chosen fixed-point scale.

use vstd::prelude::*;
use crate::kdtree::{BoundingBox, Vec3i, COORD_LIMIT};

verus! {

/// A unit sphere centered at the origin.
#[derive(Clone, Copy, Debug, PartialEq, Eq, Structural)]
pub struct Sphere;

/// A unit cube centered at the origin.
#[derive(Clone, Copy, Debug, PartialEq, Eq, Structural)]
pub struct Cube;

impl Sphere {
    /// The sphere's bounding box on a grid with `scale` units per world
    /// unit: radius 1 reaches `scale` in every direction.
    pub fn bounding_box(&self, scale: i64) -> (b: BoundingBox)
        requires
            0 <= scale <= COORD_LIMIT,
        ensures
            b.p_min.x == -scale && b.p_min.y == -scale && b.p_min.z == -scale,
            b.p_max.x == scale && b.p_max.y == scale && b.p_max.z == scale,
            b.wf(),
            b.in_range(),
    {
        BoundingBox {
            p_min: Vec3i { x: -scale, y: -scale, z: -scale },
            p_max: Vec3i { x: scale, y: scale, z: scale },
        }
    }
}

impl Cube {
    /// The cube's bounding box on a grid with `scale` units per world
    /// unit: side 1 reaches half a scale in every direction. The scale
    /// must be even so that the half is exact on the grid.
    pub fn bounding_box(&self, scale: i64) -> (b: BoundingBox)
        requires
            0 <= scale <= COORD_LIMIT,
            scale % 2 == 0,
        ensures
            b.p_min.x == -(scale / 2) && b.p_min.y == -(scale / 2) && b.p_min.z == -(scale / 2),
            b.p_max.x == scale / 2 && b.p_max.y == scale / 2 && b.p_max.z == scale / 2,
            b.wf(),
            b.in_range(),
    {
        let half = scale / 2;
        BoundingBox {
            p_min: Vec3i { x: -half, y: -half, z: -half },
            p_max: Vec3i { x: half, y: half, z: half },
        }
    }
}

/// Helper function to construct a sphere.
pub fn sphere() -> (s: Sphere)
    ensures
        s == Sphere,
{
    Sphere
}

/// Helper function to construct a cube.
pub fn cube() -> (c: Cube)
    ensures
        c == Cube,
{
    Cube
}

} // verus!
