//! Fixed-point vectors and axis-aligned bounding boxes.
//!
//! Coordinates are `i32` values in Q16.16 fixed point: `FP_ONE` stands for
//! the real number one. All derived arithmetic (extents, midpoints,
//! centroids) is carried out in `i64`, which cannot overflow on `i32`
//! inputs.

use vstd::prelude::*;

verus! {

/// The real number one in fixed point.
pub const FP_ONE: i32 = 65536;

/// The real number one half in fixed point.
pub const FP_HALF: i32 = 32768;

/// Minus one in fixed point.
pub const FP_NEG_ONE: i32 = -65536;

/// Minus one half in fixed point.
pub const FP_NEG_HALF: i32 = -32768;

/// Minimum of two mathematical integers.
pub open spec fn imin(a: int, b: int) -> int {
    if a <= b {
        a
    } else {
        b
    }
}

/// Maximum of two mathematical integers.
pub open spec fn imax(a: int, b: int) -> int {
    if a >= b {
        a
    } else {
        b
    }
}

/// A point or direction, one fixed-point coordinate per axis.
#[derive(Clone, Copy, Debug, PartialEq, Eq, Structural)]
pub struct Vec3 {
    pub x: i32,
    pub y: i32,
    pub z: i32,
}

/// One of the three coordinate axes.
#[derive(Clone, Copy, Debug, PartialEq, Eq, Structural)]
pub enum Axis {
    X,
    Y,
    Z,
}

impl Vec3 {
    /// The coordinate of `self` on `axis`, as a mathematical integer.
    pub open spec fn on_axis(self, axis: Axis) -> int {
        match axis {
            Axis::X => self.x as int,
            Axis::Y => self.y as int,
            Axis::Z => self.z as int,
        }
    }

    /// Component-wise minimum of two vectors.
    pub open spec fn spec_min(self, o: Vec3) -> Vec3 {
        Vec3 { x: imin(self.x as int, o.x as int) as i32,
               y: imin(self.y as int, o.y as int) as i32,
               z: imin(self.z as int, o.z as int) as i32 }
    }

    /// Component-wise maximum of two vectors.
    pub open spec fn spec_max(self, o: Vec3) -> Vec3 {
        Vec3 { x: imax(self.x as int, o.x as int) as i32,
               y: imax(self.y as int, o.y as int) as i32,
               z: imax(self.z as int, o.z as int) as i32 }
    }

    pub fn min(self, o: Vec3) -> (r: Vec3)
        ensures
            r == self.spec_min(o),
    {
        Vec3 {
            x: if self.x <= o.x { self.x } else { o.x },
            y: if self.y <= o.y { self.y } else { o.y },
            z: if self.z <= o.z { self.z } else { o.z },
        }
    }

    pub fn max(self, o: Vec3) -> (r: Vec3)
        ensures
            r == self.spec_max(o),
    {
        Vec3 {
            x: if self.x >= o.x { self.x } else { o.x },
            y: if self.y >= o.y { self.y } else { o.y },
            z: if self.z >= o.z { self.z } else { o.z },
        }
    }
}

/// An axis-aligned bounding box: lower and upper corner.
#[derive(Clone, Copy, Debug, PartialEq, Eq, Structural)]
pub struct AABB {
    pub lb: Vec3,
    pub ub: Vec3,
}

impl AABB {
    /// A finalized box has its lower corner at or below its upper corner on
    /// every axis.
    pub open spec fn wf(self) -> bool {
        &&& self.lb.x <= self.ub.x
        &&& self.lb.y <= self.ub.y
        &&& self.lb.z <= self.ub.z
    }

    /// The smallest box containing both `self` and `o`.
    pub open spec fn spec_union(self, o: AABB) -> AABB {
        AABB { lb: self.lb.spec_min(o.lb), ub: self.ub.spec_max(o.ub) }
    }

    /// `inner` lies entirely within `self`.
    pub open spec fn covers(self, inner: AABB) -> bool {
        &&& self.lb.x <= inner.lb.x
        &&& self.lb.y <= inner.lb.y
        &&& self.lb.z <= inner.lb.z
        &&& inner.ub.x <= self.ub.x
        &&& inner.ub.y <= self.ub.y
        &&& inner.ub.z <= self.ub.z
    }

    pub fn union(&self, other: &AABB) -> (r: AABB)
        ensures
            r == self.spec_union(*other),
    {
        AABB { lb: self.lb.min(other.lb), ub: self.ub.max(other.ub) }
    }

    /// The extent (upper minus lower corner) on `axis`; nonnegative for a
    /// well-formed box.
    pub open spec fn extent_on(self, axis: Axis) -> int {
        self.ub.on_axis(axis) - self.lb.on_axis(axis)
    }
}


/// Truncating (toward zero) division by 3, the rounding convention of
/// the centroid computation.
pub open spec fn div3_trunc(x: int) -> int {
    if x >= 0 {
        x / 3
    } else {
        -((-x) / 3)
    }
}

/// Divide by 3, rounding toward zero.
pub fn div3(x: i64) -> (r: i64)
    requires
        i64::MIN < x,
    ensures
        r as int == div3_trunc(x as int),
{
    if x >= 0 {
        ((x as u64) / 3) as i64
    } else {
        -((((-x) as u64) / 3) as i64)
    }
}


/// Truncating (toward zero) division by 2.
pub open spec fn div2_trunc(x: int) -> int {
    if x >= 0 {
        x / 2
    } else {
        -((-x) / 2)
    }
}

/// Divide by 2, rounding toward zero.
pub fn div2(x: i64) -> (r: i64)
    requires
        i64::MIN < x,
    ensures
        r as int == div2_trunc(x as int),
{
    if x >= 0 {
        ((x as u64) / 2) as i64
    } else {
        -((((-x) as u64) / 2) as i64)
    }
}

/// Rescale a product of two fixed-point values back to fixed point:
/// truncating division by `FP_ONE`.
pub open spec fn fp_scale(prod: int) -> int {
    if prod >= 0 {
        prod / 65536
    } else {
        -((-prod) / 65536)
    }
}

/// The fixed-point product of two coordinates, rescaled.
pub fn fp_mul(a: i32, b: i32) -> (r: i64)
    ensures
        r as int == fp_scale(a as int * b as int),
        -0x1_0000_0000_0000 <= r as int <= 0x1_0000_0000_0000,
{
    proof {
        assert((a as int) * (b as int) <= 0x8000_0000 * 0x8000_0000) by (nonlinear_arith)
            requires
                -0x8000_0000 <= a as int <= 0x7fff_ffff,
                -0x8000_0000 <= b as int <= 0x7fff_ffff,
        ;
        assert((a as int) * (b as int) >= -0x8000_0000 * 0x8000_0000) by (nonlinear_arith)
            requires
                -0x8000_0000 <= a as int <= 0x7fff_ffff,
                -0x8000_0000 <= b as int <= 0x7fff_ffff,
        ;
    }
    let prod: i64 = (a as i64) * (b as i64);
    let r = if prod >= 0 {
        ((prod as u64) / 65536) as i64
    } else {
        -((((-prod) as u64) / 65536) as i64)
    };
    proof {
        if prod >= 0 {
            assert(prod as int / 65536 <= 0x1_0000_0000_0000) by (nonlinear_arith)
                requires
                    0 <= prod as int <= 0x4000_0000_0000_0000,
            ;
        } else {
            assert((-(prod as int)) / 65536 <= 0x1_0000_0000_0000) by (nonlinear_arith)
                requires
                    0 < -(prod as int) <= 0x4000_0000_0000_0000,
            ;
        }
    }
    r
}

} // verus!
