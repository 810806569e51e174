//! The eye and the window it looks through.
use crate::format::Binary32;
use crate::ray::Ray;
use crate::vec::Vec3;
use vstd::prelude::*;

verus! {

/// An eye point and an axis-aligned window, given by its lower left corner
/// and the two vectors that span it.
#[derive(Clone, Copy, Debug)]
pub struct Camera {
    pub lower_left: Vec3,
    pub horizon: Vec3,
    pub vertical: Vec3,
    pub origin: Vec3,
}

impl Camera {
    /// The eye at the origin, looking at a window four wide and two high,
    /// one unit away.
    pub open spec fn standard() -> Camera {
        Camera {
            lower_left: Vec3 {
                x: Binary32 { bits: 0xc000_0000 },
                y: Binary32 { bits: 0xbf80_0000 },
                z: Binary32 { bits: 0xbf80_0000 },
            },
            horizon: Vec3 {
                x: Binary32 { bits: 0x4080_0000 },
                y: Binary32::zero(),
                z: Binary32::zero(),
            },
            vertical: Vec3 {
                x: Binary32::zero(),
                y: Binary32 { bits: 0x4000_0000 },
                z: Binary32::zero(),
            },
            origin: Vec3::origin(),
        }
    }

    /// The ray from the eye through the window at `(u, v)`, both counted
    /// from the lower left corner in fractions of the window.
    pub open spec fn ray_through(self, u: Binary32, v: Binary32) -> Ray {
        Ray {
            a: self.origin,
            b: self.lower_left.plus(self.horizon.scaled(u)).plus(self.vertical.scaled(v)),
        }
    }

    pub fn new() -> (r: Camera)
        ensures
            r == Camera::standard(),
    {
        let zero: Binary32 = Binary32 { bits: 0 };
        Camera {
            lower_left: Vec3::new(
                Binary32 { bits: 0xc000_0000 },
                Binary32 { bits: 0xbf80_0000 },
                Binary32 { bits: 0xbf80_0000 },
            ),
            horizon: Vec3::new(Binary32 { bits: 0x4080_0000 }, zero, zero),
            vertical: Vec3::new(zero, Binary32 { bits: 0x4000_0000 }, zero),
            origin: Vec3::new(zero, zero, zero),
        }
    }

    pub fn get_ray(&self, u: Binary32, v: Binary32) -> (r: Ray)
        ensures
            r == self.ray_through(u, v),
    {
        let mut target: Vec3 = self.lower_left;
        target.add_assign(
            Vec3::new(self.horizon.x.mul(u), self.horizon.y.mul(u), self.horizon.z.mul(u)),
        );
        target.add_assign(
            Vec3::new(self.vertical.x.mul(v), self.vertical.y.mul(v), self.vertical.z.mul(v)),
        );
        Ray::new(self.origin, target)
    }
}

} // verus!
