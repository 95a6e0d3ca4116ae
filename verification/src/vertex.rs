//! Geometry value types: fixed-point 3-vectors and screen points.

use vstd::prelude::*;
use crate::fixed::{FX_ONE, fx_mul, fx_mul_spec, isqrt, lemma_fx_mul_bound};

verus! {

/// Coordinate bound for model-space vertices (and for every vertex a clip
/// step appends to a model).
pub const MODEL_LIM: i64 = 0x40_0000;

/// Coordinate bound for camera-space points produced by a transform.
pub const WORLD_LIM: i64 = 0x4000_0000;

/// Coordinate bound under which every vector operation here stays exact
/// and free of overflow.
pub const VEC_LIM: i64 = 0x8000_0000;

/// A point or direction in model or camera space, fixed-point coordinates.
#[derive(Clone, Copy, Debug, PartialEq, Eq, Structural)]
pub struct Vec3 {
    pub x: i64,
    pub y: i64,
    pub z: i64,
}

/// The fixed-point dot product of two vectors.
pub open spec fn dot_spec(a: Vec3, b: Vec3) -> int {
    fx_mul_spec(a.x as int, b.x as int)
        + fx_mul_spec(a.y as int, b.y as int)
        + fx_mul_spec(a.z as int, b.z as int)
}

/// The fixed-point squared distance between two points.
pub open spec fn sq_dist_spec(a: Vec3, b: Vec3) -> int {
    fx_mul_spec(a.x - b.x, a.x - b.x)
        + fx_mul_spec(a.y - b.y, a.y - b.y)
        + fx_mul_spec(a.z - b.z, a.z - b.z)
}

impl Vec3 {
    /// Every coordinate lies within `lim` in magnitude.
    pub open spec fn in_range(self, lim: int) -> bool {
        &&& -lim <= self.x <= lim
        &&& -lim <= self.y <= lim
        &&& -lim <= self.z <= lim
    }

    pub fn new(x: i64, y: i64, z: i64) -> (v: Vec3)
        ensures
            v == (Vec3 { x, y, z }),
    {
        Vec3 { x, y, z }
    }

    /// Componentwise sum.
    pub fn add(self, other: Vec3) -> (v: Vec3)
        requires
            self.in_range(VEC_LIM as int),
            other.in_range(VEC_LIM as int),
        ensures
            v.x == self.x + other.x,
            v.y == self.y + other.y,
            v.z == self.z + other.z,
    {
        Vec3 { x: self.x + other.x, y: self.y + other.y, z: self.z + other.z }
    }

    /// Componentwise difference.
    pub fn sub(self, other: Vec3) -> (v: Vec3)
        requires
            self.in_range(VEC_LIM as int),
            other.in_range(VEC_LIM as int),
        ensures
            v.x == self.x - other.x,
            v.y == self.y - other.y,
            v.z == self.z - other.z,
    {
        Vec3 { x: self.x - other.x, y: self.y - other.y, z: self.z - other.z }
    }

    /// Fixed-point dot product.
    pub fn dot(self, other: Vec3) -> (r: i64)
        requires
            self.in_range(VEC_LIM as int),
            other.in_range(VEC_LIM as int),
        ensures
            r == dot_spec(self, other),
            -0xC000_0000_0000 <= r <= 0xC000_0000_0000,
    {
        proof {
            lemma_fx_mul_bound(self.x as int, other.x as int, VEC_LIM as int, VEC_LIM as int);
            lemma_fx_mul_bound(self.y as int, other.y as int, VEC_LIM as int, VEC_LIM as int);
            lemma_fx_mul_bound(self.z as int, other.z as int, VEC_LIM as int, VEC_LIM as int);
            assert((VEC_LIM as int) * (VEC_LIM as int) / (FX_ONE as int) == 0x4000_0000_0000)
                by (nonlinear_arith);
        }
        fx_mul(self.x, other.x) + fx_mul(self.y, other.y) + fx_mul(self.z, other.z)
    }

    /// Fixed-point length: the integer square root of the squared length,
    /// after rescaling by one unit.
    pub fn length(self) -> (r: i64)
        requires
            self.in_range(VEC_LIM as int),
        ensures
            0 <= r <= 0x1_0000_0000,
            (r as int) * (r as int) <= dot_spec(self, self) * FX_ONE,
            ((r as int) + 1) * ((r as int) + 1) > dot_spec(self, self) * FX_ONE,
    {
        let d: i64 = self.dot(self);
        proof {
            assert(self.x as int * self.x as int >= 0
                && self.y as int * self.y as int >= 0
                && self.z as int * self.z as int >= 0) by (nonlinear_arith);
            assert(fx_mul_spec(self.x as int, self.x as int) >= 0
                && fx_mul_spec(self.y as int, self.y as int) >= 0
                && fx_mul_spec(self.z as int, self.z as int) >= 0);
            assert((0x1_0000_0000int) * (0x1_0000_0000int) > 0xC000_0000_0000int * 65536)
                by (nonlinear_arith);
        }
        let n: u128 = (d as u128) * 65536;
        let r: u64 = isqrt(n);
        proof {
            if r > 0x1_0000_0000 {
                assert((r as int) * (r as int) > (0x1_0000_0000int) * (0x1_0000_0000int))
                    by (nonlinear_arith)
                    requires r > 0x1_0000_0000u64;
            }
        }
        r as i64
    }
}

/// A screen point with integer pixel coordinates and a shading attribute.
#[derive(Clone, Copy, Debug, PartialEq, Eq, Structural)]
pub struct Point2D {
    pub x: i32,
    pub y: i32,
    /// Shading intensity, fixed-point; one unit when unspecified.
    pub h: i64,
}

impl Point2D {
    pub fn new(x: i32, y: i32, h: Option<i64>) -> (p: Point2D)
        ensures
            p.x == x,
            p.y == y,
            p.h == (match h { Some(v) => v, None => FX_ONE }),
    {
        Point2D { x, y, h: match h { Some(v) => v, None => FX_ONE } }
    }
}

/// A projected vertex: integer pixel coordinates plus the per-vertex
/// attributes the rasterizer interpolates (inverse depth and shading).
#[derive(Clone, Copy, Debug, PartialEq, Eq, Structural)]
pub struct Point3D {
    pub x: i32,
    pub y: i32,
    /// Inverse depth `1/z`, fixed-point; larger is nearer.
    pub z: i64,
    /// Shading intensity, fixed-point; one unit when unspecified.
    pub h: i64,
}

impl Point3D {
    pub fn new(x: i32, y: i32, z: i64, h: Option<i64>) -> (p: Point3D)
        ensures
            p.x == x,
            p.y == y,
            p.z == z,
            p.h == (match h { Some(v) => v, None => FX_ONE }),
    {
        Point3D { x, y, z, h: match h { Some(v) => v, None => FX_ONE } }
    }
}

} // verus!
