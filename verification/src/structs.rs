//! Scene data: triangles, models, transforms, instances with bounding
//! spheres, and clip planes.

use vstd::prelude::*;
use crate::colors::{Color, unpack_rgb};
use crate::fixed::{FX_ONE, fx_mul, fx_mul_spec, div_trunc, div_trunc_i64, lemma_fx_mul_bound,
    lemma_div_trunc_bound};
use crate::vertex::{Vec3, MODEL_LIM, WORLD_LIM, dot_spec, sq_dist_spec};

verus! {

/// Magnitude bound on an instance's uniform scale factor.
pub const SCALE_LIM: i64 = 0x40_0000;

/// Magnitude bound on an instance's translation coordinates.
pub const TRANS_LIM: i64 = 0x2000_0000;

/// Magnitude bound on a clip plane's offset.
pub const PLANE_D_LIM: i64 = 0x1_0000_0000;

/// Upper bound on a bounding-sphere radius.
pub const RADIUS_LIM: i64 = 0x1_0000_0000;

/// Three indices into a model's vertex list, plus a fill color.
#[derive(Clone, Copy, Debug, PartialEq, Eq, Structural)]
pub struct Triangle {
    pub v0: usize,
    pub v1: usize,
    pub v2: usize,
    pub color: Color,
}

impl Triangle {
    pub fn new(v0: usize, v1: usize, v2: usize, color: u32) -> (t: Triangle)
        ensures
            t == (Triangle { v0, v1, v2, color: unpack_rgb(color) }),
    {
        Triangle { v0, v1, v2, color: Color::new(color) }
    }

    /// All three indices point below `n`.
    pub open spec fn indices_lt(self, n: int) -> bool {
        self.v0 < n && self.v1 < n && self.v2 < n
    }
}

/// An ordered vertex list and the triangles referencing it by index.
#[derive(Clone)]
pub struct Model {
    pub vertices: Vec<Vec3>,
    pub triangles: Vec<Triangle>,
}

impl Model {
    /// Every triangle references existing vertices and every vertex lies
    /// in the model coordinate range.
    pub open spec fn wf(self) -> bool {
        &&& forall|i: int| 0 <= i < self.triangles@.len()
            ==> (#[trigger] self.triangles@[i]).indices_lt(self.vertices@.len() as int)
        &&& forall|i: int| 0 <= i < self.vertices@.len()
            ==> (#[trigger] self.vertices@[i]).in_range(MODEL_LIM as int)
    }
}

/// A rigid placement: uniform scale, then rotation about the y axis, then
/// translation. The rotation angle is carried as its fixed-point sine and
/// cosine, which the caller supplies.
#[derive(Clone, Copy, Debug, PartialEq, Eq, Structural)]
pub struct Transform {
    pub scale: i64,
    pub rot_sin: i64,
    pub rot_cos: i64,
    pub translation: Vec3,
}

/// One model coordinate after uniform scaling.
pub open spec fn scaled_coord(t: Transform, c: int) -> int {
    fx_mul_spec(c, t.scale as int)
}

/// The x coordinate of a transformed vertex.
pub open spec fn tv_x(t: Transform, v: Vec3) -> int {
    fx_mul_spec(scaled_coord(t, v.x as int), t.rot_cos as int)
        + fx_mul_spec(scaled_coord(t, v.z as int), t.rot_sin as int)
        + t.translation.x
}

/// The y coordinate of a transformed vertex (unchanged by a y rotation).
pub open spec fn tv_y(t: Transform, v: Vec3) -> int {
    scaled_coord(t, v.y as int) + t.translation.y
}

/// The z coordinate of a transformed vertex.
pub open spec fn tv_z(t: Transform, v: Vec3) -> int {
    fx_mul_spec(scaled_coord(t, v.z as int), t.rot_cos as int)
        - fx_mul_spec(scaled_coord(t, v.x as int), t.rot_sin as int)
        + t.translation.z
}

/// A vertex carried through scale, rotation and translation, in that order.
pub open spec fn transform_vertex_spec(t: Transform, v: Vec3) -> Vec3 {
    Vec3 { x: tv_x(t, v) as i64, y: tv_y(t, v) as i64, z: tv_z(t, v) as i64 }
}

impl Transform {
    /// The scale, trigonometric values and translation all lie in range.
    pub open spec fn wf(self) -> bool {
        &&& -SCALE_LIM <= self.scale <= SCALE_LIM
        &&& -FX_ONE <= self.rot_sin <= FX_ONE
        &&& -FX_ONE <= self.rot_cos <= FX_ONE
        &&& self.translation.in_range(TRANS_LIM as int)
    }

    /// Applies scale, then the y rotation, then translation.
    pub fn get_transformed_vertex(&self, v: &Vec3) -> (r: Vec3)
        requires
            self.wf(),
            v.in_range(MODEL_LIM as int),
        ensures
            r.x == tv_x(*self, *v),
            r.y == tv_y(*self, *v),
            r.z == tv_z(*self, *v),
            r == transform_vertex_spec(*self, *v),
            r.in_range(WORLD_LIM as int),
    {
        proof {
            lemma_fx_mul_bound(v.x as int, self.scale as int, MODEL_LIM as int, SCALE_LIM as int);
            lemma_fx_mul_bound(v.y as int, self.scale as int, MODEL_LIM as int, SCALE_LIM as int);
            lemma_fx_mul_bound(v.z as int, self.scale as int, MODEL_LIM as int, SCALE_LIM as int);
            assert((MODEL_LIM as int) * (SCALE_LIM as int) / (FX_ONE as int) == 0x1000_0000)
                by (nonlinear_arith);
        }
        let sx: i64 = fx_mul(v.x, self.scale);
        let sy: i64 = fx_mul(v.y, self.scale);
        let sz: i64 = fx_mul(v.z, self.scale);
        proof {
            lemma_fx_mul_bound(sx as int, self.rot_cos as int, 0x1000_0000, FX_ONE as int);
            lemma_fx_mul_bound(sz as int, self.rot_sin as int, 0x1000_0000, FX_ONE as int);
            lemma_fx_mul_bound(sz as int, self.rot_cos as int, 0x1000_0000, FX_ONE as int);
            lemma_fx_mul_bound(sx as int, self.rot_sin as int, 0x1000_0000, FX_ONE as int);
            assert(0x1000_0000 * (FX_ONE as int) / (FX_ONE as int) == 0x1000_0000)
                by (nonlinear_arith);
        }
        let rx: i64 = fx_mul(sx, self.rot_cos) + fx_mul(sz, self.rot_sin);
        let ry: i64 = sy;
        let rz: i64 = fx_mul(sz, self.rot_cos) - fx_mul(sx, self.rot_sin);
        Vec3 {
            x: rx + self.translation.x,
            y: ry + self.translation.y,
            z: rz + self.translation.z,
        }
    }
}

/// A camera-space sphere enclosing all of an instance's transformed
/// vertices, used for trivial accept or reject during clipping.
#[derive(Clone, Copy, Debug, PartialEq, Eq, Structural)]
pub struct BoundingSphere {
    pub center: Vec3,
    pub radius: i64,
}

/// A half-space boundary: the inside is where `dot(normal, p) + d >= 0`.
#[derive(Clone, Copy, Debug, PartialEq, Eq, Structural)]
pub struct Plane {
    pub normal: Vec3,
    pub d: i64,
}

impl Plane {
    /// The normal's coordinates stay within one unit and the offset in range.
    pub open spec fn wf(self) -> bool {
        self.normal.in_range(FX_ONE as int) && -PLANE_D_LIM <= self.d <= PLANE_D_LIM
    }

    pub fn new(normal: Vec3, d: i64) -> (p: Plane)
        ensures
            p == (Plane { normal, d }),
    {
        Plane { normal, d }
    }
}

/// A model placed in the scene, with the bounding sphere of its
/// transformed vertices.
#[derive(Clone)]
pub struct Instance {
    pub model: Model,
    pub transform: Transform,
    pub bounding_sphere: BoundingSphere,
}

/// Componentwise sum of the transformed vertices, for the sphere center.
pub open spec fn centroid_sum(t: Transform, vs: Seq<Vec3>) -> (int, int, int)
    decreases vs.len(),
{
    if vs.len() == 0 {
        (0, 0, 0)
    } else {
        let rest = centroid_sum(t, vs.drop_last());
        let v = vs.last();
        (rest.0 + tv_x(t, v), rest.1 + tv_y(t, v), rest.2 + tv_z(t, v))
    }
}

/// The squared fixed-point distance from the sphere center to vertex `i`
/// after transforming, rescaled for comparison with a squared radius.
pub open spec fn sq_dist_to_center(t: Transform, vs: Seq<Vec3>, c: Vec3, i: int) -> int {
    sq_dist_spec(transform_vertex_spec(t, vs[i]), c) * FX_ONE
}

impl Instance {
    /// The model is consistent, the transform in range, and the bounding
    /// sphere within the camera-space coordinate bounds.
    pub open spec fn wf(self) -> bool {
        &&& self.model.wf()
        &&& self.transform.wf()
        &&& self.bounding_sphere.center.in_range(WORLD_LIM as int)
        &&& 0 <= self.bounding_sphere.radius <= RADIUS_LIM
    }

    /// Places a model: builds the transform from scale, rotation (as its
    /// fixed-point sine and cosine) and translation, and derives the
    /// bounding sphere of the transformed vertices: center at their
    /// centroid, radius reaching the farthest of them.
    pub fn new(model: Model, scale: i64, rot_sin: i64, rot_cos: i64, translation: Vec3)
        -> (inst: Instance)
        requires
            model.wf(),
            1 <= model.vertices@.len() <= 0x10_0000,
            -SCALE_LIM <= scale <= SCALE_LIM,
            -FX_ONE <= rot_sin <= FX_ONE,
            -FX_ONE <= rot_cos <= FX_ONE,
            translation.in_range(TRANS_LIM as int),
        ensures
            inst.model == model,
            inst.transform == (Transform { scale, rot_sin, rot_cos, translation }),
            inst.bounding_sphere.center.x
                == div_trunc(centroid_sum(inst.transform, model.vertices@).0, model.vertices@.len() as int),
            inst.bounding_sphere.center.y
                == div_trunc(centroid_sum(inst.transform, model.vertices@).1, model.vertices@.len() as int),
            inst.bounding_sphere.center.z
                == div_trunc(centroid_sum(inst.transform, model.vertices@).2, model.vertices@.len() as int),
            forall|i: int| 0 <= i < model.vertices@.len()
                ==> #[trigger] sq_dist_to_center(inst.transform, model.vertices@,
                        inst.bounding_sphere.center, i)
                    < (inst.bounding_sphere.radius + 1) * (inst.bounding_sphere.radius + 1),
            exists|i: int| 0 <= i < model.vertices@.len()
                && (inst.bounding_sphere.radius as int) * (inst.bounding_sphere.radius as int)
                    <= #[trigger] sq_dist_to_center(inst.transform, model.vertices@,
                        inst.bounding_sphere.center, i),
            inst.wf(),
    {
        let transform = Transform { scale, rot_sin, rot_cos, translation };
        let n: usize = model.vertices.len();

        let mut transformed: Vec<Vec3> = Vec::new();
        let mut i: usize = 0;
        while i < n
            invariant
                transform.wf(),
                model.wf(),
                n == model.vertices@.len(),
                i <= n,
                transformed@.len() == i as int,
                forall|j: int| 0 <= j < i as int
                    ==> #[trigger] transformed@[j]
                        == transform_vertex_spec(transform, model.vertices@[j]),
                forall|j: int| 0 <= j < i as int
                    ==> (#[trigger] transformed@[j]).x == tv_x(transform, model.vertices@[j])
                        && transformed@[j].y == tv_y(transform, model.vertices@[j])
                        && transformed@[j].z == tv_z(transform, model.vertices@[j]),
                forall|j: int| 0 <= j < i as int
                    ==> (#[trigger] transformed@[j]).in_range(WORLD_LIM as int),
            decreases n - i,
        {
            let tv = transform.get_transformed_vertex(&model.vertices[i]);
            transformed.push(tv);
            i = i + 1;
        }

        let mut sx: i64 = 0;
        let mut sy: i64 = 0;
        let mut sz: i64 = 0;
        let mut i: usize = 0;
        while i < n
            invariant
                transform.wf(),
                model.wf(),
                n == model.vertices@.len(),
                n <= 0x10_0000,
                i <= n,
                transformed@.len() == n as int,
                forall|j: int| 0 <= j < n as int
                    ==> #[trigger] transformed@[j]
                        == transform_vertex_spec(transform, model.vertices@[j]),
                forall|j: int| 0 <= j < n as int
                    ==> (#[trigger] transformed@[j]).x == tv_x(transform, model.vertices@[j])
                        && transformed@[j].y == tv_y(transform, model.vertices@[j])
                        && transformed@[j].z == tv_z(transform, model.vertices@[j]),
                forall|j: int| 0 <= j < n as int
                    ==> (#[trigger] transformed@[j]).in_range(WORLD_LIM as int),
                sx == centroid_sum(transform, model.vertices@.take(i as int)).0,
                sy == centroid_sum(transform, model.vertices@.take(i as int)).1,
                sz == centroid_sum(transform, model.vertices@.take(i as int)).2,
                -(i as int) * (WORLD_LIM as int) <= sx <= (i as int) * (WORLD_LIM as int),
                -(i as int) * (WORLD_LIM as int) <= sy <= (i as int) * (WORLD_LIM as int),
                -(i as int) * (WORLD_LIM as int) <= sz <= (i as int) * (WORLD_LIM as int),
            decreases n - i,
        {
            let v = transformed[i];
            proof {
                let pre = model.vertices@.take(i as int);
                let post = model.vertices@.take(i as int + 1);
                assert(post.drop_last() =~= pre);
                assert(post.last() == model.vertices@[i as int]);
                assert(centroid_sum(transform, post).0
                    == centroid_sum(transform, pre).0 + tv_x(transform, model.vertices@[i as int]));
                assert(centroid_sum(transform, post).1
                    == centroid_sum(transform, pre).1 + tv_y(transform, model.vertices@[i as int]));
                assert(centroid_sum(transform, post).2
                    == centroid_sum(transform, pre).2 + tv_z(transform, model.vertices@[i as int]));
                lemma_sum_step_bound(i as int, WORLD_LIM as int, sx as int, v.x as int);
                lemma_sum_step_bound(i as int, WORLD_LIM as int, sy as int, v.y as int);
                lemma_sum_step_bound(i as int, WORLD_LIM as int, sz as int, v.z as int);
            }
            sx = sx + v.x;
            sy = sy + v.y;
            sz = sz + v.z;
            i = i + 1;
        }
        proof {
            assert(model.vertices@.take(n as int) =~= model.vertices@);
            lemma_centroid_in_range(n as int, WORLD_LIM as int, sx as int);
            lemma_centroid_in_range(n as int, WORLD_LIM as int, sy as int);
            lemma_centroid_in_range(n as int, WORLD_LIM as int, sz as int);
        }
        let ni: i64 = n as i64;
        let center = Vec3 {
            x: div_trunc_i64(sx, ni),
            y: div_trunc_i64(sy, ni),
            z: div_trunc_i64(sz, ni),
        };

        let v0 = transformed[0].sub(center);
        let l0 = v0.length();
        let mut radius: i64 = l0;
        let ghost mut far: int = 0;
        proof {
            assert(dot_spec(v0, v0) == sq_dist_spec(transformed@[0], center));
        }
        let mut i: usize = 1;
        while i < n
            invariant
                n == model.vertices@.len(),
                1 <= i <= n,
                transformed@.len() == n as int,
                center.in_range(WORLD_LIM as int),
                forall|j: int| 0 <= j < n as int
                    ==> #[trigger] transformed@[j]
                        == transform_vertex_spec(transform, model.vertices@[j]),
                forall|j: int| 0 <= j < n as int
                    ==> (#[trigger] transformed@[j]).in_range(WORLD_LIM as int),
                0 <= radius <= RADIUS_LIM,
                forall|j: int| 0 <= j < i as int
                    ==> #[trigger] sq_dist_spec(transformed@[j], center) * FX_ONE
                        < (radius + 1) * (radius + 1),
                0 <= far < i as int,
                (radius as int) * (radius as int)
                    <= sq_dist_spec(transformed@[far], center) * FX_ONE,
            decreases n - i,
        {
            let d = transformed[i].sub(center);
            let li = d.length();
            proof {
                assert(dot_spec(d, d) == sq_dist_spec(transformed@[i as int], center));
            }
            if li > radius {
                proof {
                    lemma_square_ordered(radius as int + 1, li as int + 1);
                }
                radius = li;
                proof { far = i as int; }
            } else {
                proof {
                    lemma_square_ordered(li as int + 1, radius as int + 1);
                }
            }
            i = i + 1;
        }

        proof {
            assert forall|j: int| 0 <= j < n as int
                implies #[trigger] sq_dist_to_center(transform, model.vertices@, center, j)
                    < (radius + 1) * (radius + 1) by {
                assert(transformed@[j] == transform_vertex_spec(transform, model.vertices@[j]));
                assert(sq_dist_spec(transformed@[j], center) * FX_ONE
                    < (radius + 1) * (radius + 1));
            }
            assert(transformed@[far] == transform_vertex_spec(transform, model.vertices@[far]));
            assert((radius as int) * (radius as int)
                <= sq_dist_to_center(transform, model.vertices@, center, far));
        }
        Instance {
            model,
            transform,
            bounding_sphere: BoundingSphere { center, radius },
        }
    }
}

/// One more bounded term keeps a partial sum bounded.
proof fn lemma_sum_step_bound(i: int, lim: int, s: int, v: int)
    requires
        i >= 0,
        lim >= 0,
        -i * lim <= s <= i * lim,
        -lim <= v <= lim,
    ensures
        -(i + 1) * lim <= s + v <= (i + 1) * lim,
{
    assert(-(i + 1) * lim <= s + v <= (i + 1) * lim) by (nonlinear_arith)
        requires i >= 0, lim >= 0, -i * lim <= s <= i * lim, -lim <= v <= lim;
}

/// The truncated mean of `n` terms bounded by `lim` is bounded by `lim`.
proof fn lemma_centroid_in_range(n: int, lim: int, s: int)
    requires
        n >= 1,
        lim >= 0,
        -n * lim <= s <= n * lim,
    ensures
        -lim <= div_trunc(s, n) <= lim,
{
    assert(-n * lim == -(n * lim)) by {
        vstd::arithmetic::mul::lemma_mul_unary_negation(n, lim);
    }
    lemma_div_trunc_bound(s, n, n * lim);
    assert((n * lim) / n == lim) by {
        vstd::arithmetic::div_mod::lemma_div_multiples_vanish(lim, n);
    }
}

/// Squaring preserves order on nonnegative values.
proof fn lemma_square_ordered(a: int, b: int)
    requires
        0 <= a <= b,
    ensures
        a * a <= b * b,
{
    assert(a * a <= b * b) by (nonlinear_arith)
        requires 0 <= a <= b;
}

} // verus!
