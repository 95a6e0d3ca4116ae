//! The pipeline's free functions: linear interpolation, perspective
//! projection, and frustum clipping.

use vstd::prelude::*;
use crate::colors::lemma_color_round_trip;
use crate::fixed::{FX_ONE, FX_HALF, div_trunc, fx_div, fx_div_spec, fx_mul, fx_mul_spec,
    fx_round, fx_round_spec, lemma_fx_mul_bound, lemma_fx_scale_between, lemma_round_monotone,
    lemma_round_near_multiple};
use crate::structs::{Instance, Model, Plane, Triangle};
use crate::vertex::{Vec3, MODEL_LIM, WORLD_LIM, VEC_LIM, dot_spec};
use arrayvec::ArrayVec;

verus! {

/// Canvas width in pixels.
pub const CANVAS_WIDTH: i32 = 640;

/// Canvas height in pixels.
pub const CANVAS_HEIGHT: i32 = 640;

/// Largest magnitude of a centered x pixel coordinate.
pub const CANVAS_BOUND_X: i32 = 320;

/// Largest magnitude of a centered y pixel coordinate.
pub const CANVAS_BOUND_Y: i32 = 320;

/// Virtual viewport width, one unit in fixed point.
pub const VIEWPORT_WIDTH: i64 = 65536;

/// Virtual viewport height, one unit in fixed point.
pub const VIEWPORT_HEIGHT: i64 = 65536;

/// Distance from the camera to the viewport plane, one unit in fixed point.
pub const VIEWPORT_DISTANCE: i64 = 65536;

/// Magnitude bound on the dependent values handed to `interpolate`.
pub const INTERP_LIM: i64 = 0x1_0000_0000;

/// The slope of the interpolation series: the per-step increment,
/// truncated toward zero.
pub open spec fn lerp_slope(d0: int, d1: int, n: int) -> int {
    if d1 >= d0 {
        (d1 - d0) / n
    } else {
        -((d0 - d1) / n)
    }
}

/// The interpolated value after `k` of `n` steps from `d0` toward `d1`.
pub open spec fn lerp_val(d0: int, d1: int, n: int, k: int) -> int {
    d0 + lerp_slope(d0, d1, n) * k
}

pub proof fn lemma_slope_props(d0: int, d1: int, n: int)
    requires
        n >= 1,
    ensures
        d0 <= d1 ==> 0 <= lerp_slope(d0, d1, n),
        d0 <= d1 ==> d1 - d0 - n < lerp_slope(d0, d1, n) * n <= d1 - d0,
        d1 < d0 ==> lerp_slope(d0, d1, n) <= 0,
        d1 < d0 ==> d1 - d0 <= lerp_slope(d0, d1, n) * n < d1 - d0 + n,
{
    if d1 >= d0 {
        let q = (d1 - d0) / n;
        vstd::arithmetic::div_mod::lemma_fundamental_div_mod(d1 - d0, n);
        vstd::arithmetic::div_mod::lemma_remainder_lower(d1 - d0, n);
        vstd::arithmetic::div_mod::lemma_remainder_upper(d1 - d0, n);
        vstd::arithmetic::div_mod::lemma_div_pos_is_pos(d1 - d0, n);
        assert(n * q == q * n) by {
            vstd::arithmetic::mul::lemma_mul_is_commutative(n, q);
        }
    } else {
        let q = (d0 - d1) / n;
        vstd::arithmetic::div_mod::lemma_fundamental_div_mod(d0 - d1, n);
        vstd::arithmetic::div_mod::lemma_div_pos_is_pos(d0 - d1, n);
        assert(n * q == q * n) by {
            vstd::arithmetic::mul::lemma_mul_is_commutative(n, q);
        }
        assert((-q) * n == -(q * n)) by {
            vstd::arithmetic::mul::lemma_mul_unary_negation(q, n);
        }
    }
}

proof fn lemma_lerp_val_between(d0: int, d1: int, n: int, k: int)
    requires
        n >= 1,
        0 <= k <= n,
    ensures
        d0 <= d1 ==> d0 <= lerp_val(d0, d1, n, k) <= d1,
        d1 < d0 ==> d1 <= lerp_val(d0, d1, n, k) <= d0,
{
    lemma_slope_props(d0, d1, n);
    let a = lerp_slope(d0, d1, n);
    if d1 >= d0 {
        assert(0 <= a * k <= a * n) by (nonlinear_arith)
            requires 0 <= a, 0 <= k <= n;
    } else {
        assert(a * n <= a * k <= 0) by (nonlinear_arith)
            requires a <= 0, 0 <= k <= n;
    }
}

proof fn lemma_lerp_monotone(d0: int, d1: int, n: int, k1: int, k2: int)
    requires
        n >= 1,
        0 <= k1 <= k2 <= n,
    ensures
        d0 <= d1 ==> lerp_val(d0, d1, n, k1) <= lerp_val(d0, d1, n, k2),
        d1 < d0 ==> lerp_val(d0, d1, n, k1) >= lerp_val(d0, d1, n, k2),
{
    lemma_slope_props(d0, d1, n);
    let a = lerp_slope(d0, d1, n);
    if d1 >= d0 {
        vstd::arithmetic::mul::lemma_mul_inequality(k1, k2, a);
        assert(k1 * a == a * k1 && k2 * a == a * k2) by {
            vstd::arithmetic::mul::lemma_mul_is_commutative(k1, a);
            vstd::arithmetic::mul::lemma_mul_is_commutative(k2, a);
        }
    } else {
        vstd::arithmetic::mul::lemma_mul_inequality(k1, k2, -a);
        assert(k1 * (-a) == -(a * k1) && k2 * (-a) == -(a * k2)) by {
            vstd::arithmetic::mul::lemma_mul_is_commutative(k1, -a);
            vstd::arithmetic::mul::lemma_mul_is_commutative(k2, -a);
            vstd::arithmetic::mul::lemma_mul_unary_negation(a, k1);
            vstd::arithmetic::mul::lemma_mul_unary_negation(a, k2);
        }
    }
}

/// Evenly interpolates the dependent value from `d0` at `i0` to `d1` at
/// `i1`, one value per integer step, endpoints included. For a
/// zero-length range the single value is `d0`. The series is monotonic
/// from `d0` toward `d1` and stays between them; the final value lands
/// within one slope step of `d1`.
pub fn interpolate(i0: i32, d0: i64, i1: i32, d1: i64) -> (values: Vec<i64>)
    requires
        i0 <= i1,
        -INTERP_LIM <= d0 <= INTERP_LIM,
        -INTERP_LIM <= d1 <= INTERP_LIM,
    ensures
        values@.len() == i1 - i0 + 1,
        values@[0] == d0,
        i0 < i1 ==> forall|k: int| 0 <= k <= i1 - i0
            ==> #[trigger] values@[k] == lerp_val(d0 as int, d1 as int, i1 - i0, k),
        forall|k: int| 0 <= k < values@.len()
            ==> (d0 <= d1 ==> d0 <= #[trigger] values@[k] <= d1)
                && (d1 <= d0 ==> d1 <= values@[k] <= d0),
        forall|k1: int, k2: int|
            #![trigger values@[k1], values@[k2]]
            0 <= k1 <= k2 < values@.len()
            ==> (d0 <= d1 ==> values@[k1] <= values@[k2])
                && (d1 <= d0 ==> values@[k1] >= values@[k2]),
        i0 < i1 && d0 <= d1 ==> d1 - (i1 - i0) < values@[i1 - i0] <= d1,
        i0 < i1 && d1 <= d0 ==> d1 <= values@[i1 - i0] < d1 + (i1 - i0),
{
    if i0 == i1 {
        let mut values: Vec<i64> = Vec::new();
        values.push(d0);
        return values;
    }
    let n: i64 = (i1 as i64) - (i0 as i64);
    let a: i64 = if d1 >= d0 {
        (((d1 - d0) as u64) / (n as u64)) as i64
    } else {
        -((((d0 - d1) as u64) / (n as u64)) as i64)
    };
    proof {
        assert(a == lerp_slope(d0 as int, d1 as int, n as int));
        lemma_slope_props(d0 as int, d1 as int, n as int);
    }
    let mut values: Vec<i64> = Vec::new();
    let mut k: i64 = 0;
    while k <= n
        invariant
            1 <= n <= 0x1_0000_0000,
            -INTERP_LIM <= d0 <= INTERP_LIM,
            -INTERP_LIM <= d1 <= INTERP_LIM,
            a == lerp_slope(d0 as int, d1 as int, n as int),
            0 <= k <= n + 1,
            values@.len() == k as int,
            forall|j: int| 0 <= j < k as int
                ==> #[trigger] values@[j] == lerp_val(d0 as int, d1 as int, n as int, j),
        decreases n + 1 - k,
    {
        proof {
            lemma_lerp_val_between(d0 as int, d1 as int, n as int, k as int);
            lemma_slope_props(d0 as int, d1 as int, n as int);
        }
        let value: i64 = d0 + a * k;
        values.push(value);
        k = k + 1;
    }
    proof {
        assert forall|k2: int| 0 <= k2 < values@.len()
            implies (d0 <= d1 ==> d0 <= #[trigger] values@[k2] <= d1)
                && (d1 <= d0 ==> d1 <= values@[k2] <= d0) by {
            lemma_lerp_val_between(d0 as int, d1 as int, n as int, k2);
        }
        assert forall|k1: int, k2: int|
            #![trigger values@[k1], values@[k2]]
            0 <= k1 <= k2 < values@.len()
            implies (d0 <= d1 ==> values@[k1] <= values@[k2])
                && (d1 <= d0 ==> values@[k1] >= values@[k2]) by {
            lemma_lerp_monotone(d0 as int, d1 as int, n as int, k1, k2);
        }
        lemma_slope_props(d0 as int, d1 as int, n as int);
    }
    values
}

/// The projected x coordinate in fixed point, before pixel rounding:
/// `x * d / z`, mapped from viewport to canvas width.
pub open spec fn project_x_fx(v: Vec3) -> int {
    div_trunc(
        v.x * (VIEWPORT_DISTANCE as int) * (CANVAS_WIDTH as int) * (FX_ONE as int),
        (VIEWPORT_WIDTH as int) * (v.z as int),
    )
}

/// The projected y coordinate in fixed point, before pixel rounding.
pub open spec fn project_y_fx(v: Vec3) -> int {
    div_trunc(
        v.y * (VIEWPORT_DISTANCE as int) * (CANVAS_HEIGHT as int) * (FX_ONE as int),
        (VIEWPORT_HEIGHT as int) * (v.z as int),
    )
}

/// One projected coordinate: `c * VIEWPORT_DISTANCE * size / (vp * z)`,
/// in fixed point, truncated toward zero.
fn project_coord_fx(c: i64, z: i64, size: i32, vp: i64) -> (r: i64)
    requires
        -WORLD_LIM <= c <= WORLD_LIM,
        z >= FX_HALF,
        1 <= size <= 4096,
        vp == 65536,
    ensures
        r == div_trunc(
            c * (VIEWPORT_DISTANCE as int) * (size as int) * (FX_ONE as int),
            (vp as int) * (z as int)),
        -0x800_0000_0000 <= r <= 0x800_0000_0000,
{
    proof {
        assert(-0x400_0000_0000_0000 <= (c as int) * 65536 * (size as int)
            <= 0x400_0000_0000_0000) by (nonlinear_arith)
            requires -0x4000_0000 <= c <= 0x4000_0000, 1 <= size <= 4096;
        assert((65536int) * (z as int) >= 0x8000_0000) by (nonlinear_arith)
            requires z >= 32768;
    }
    let num: i128 = (c as i128) * (VIEWPORT_DISTANCE as i128) * (size as i128) * 65536;
    let den: i128 = (vp as i128) * (z as i128);
    let neg: bool = (num < 0) != (den < 0);
    let mn: u128 = if num < 0 { (-num) as u128 } else { num as u128 };
    let md: u128 = if den < 0 { (-den) as u128 } else { den as u128 };
    let q: u128 = mn / md;
    proof {
        vstd::arithmetic::div_mod::lemma_div_is_ordered(
            mn as int, 0x400_0000_0000_0000_0000, md as int);
        vstd::arithmetic::div_mod::lemma_div_is_ordered_by_denominator(
            0x400_0000_0000_0000_0000, 0x8000_0000, md as int);
        assert(0x400_0000_0000_0000_0000int / 0x8000_0000int == 0x800_0000_0000)
            by (nonlinear_arith);
    }
    let qi: i64 = q as i64;
    if neg { -qi } else { qi }
}

/// Projects a camera-space point onto the canvas: perspective-divides by
/// depth onto the viewport, scales to canvas pixels, and rounds to the
/// nearest integer pixel. Meaningful only for points in front of the
/// camera, which the near-plane clip guarantees.
pub fn project_vertex(v: Vec3) -> (p: crate::vertex::Point2D)
    requires
        v.in_range(WORLD_LIM as int),
        v.z >= FX_HALF,
    ensures
        p.x == fx_round_spec(project_x_fx(v)),
        p.y == fx_round_spec(project_y_fx(v)),
        p.h == FX_ONE,
{
    let px_fx: i64 = project_coord_fx(v.x, v.z, CANVAS_WIDTH, VIEWPORT_WIDTH);
    let py_fx: i64 = project_coord_fx(v.y, v.z, CANVAS_HEIGHT, VIEWPORT_HEIGHT);
    let px: i64 = fx_round(px_fx);
    let py: i64 = fx_round(py_fx);
    proof {
        lemma_round_fits_i32(px_fx as int);
        lemma_round_fits_i32(py_fx as int);
    }
    crate::vertex::Point2D { x: px as i32, y: py as i32, h: FX_ONE }
}

/// Rounding a moderately bounded fixed-point value fits a 32-bit pixel
/// coordinate.
proof fn lemma_round_fits_i32(a: int)
    requires
        -0x800_0000_0000 <= a <= 0x800_0000_0000,
    ensures
        -0x800_0000 <= fx_round_spec(a) <= 0x800_0000,
{
    lemma_round_monotone(a, 0x800_0000_0000);
    lemma_round_monotone(-0x800_0000_0000, a);
    lemma_round_near_multiple(0x800_0000, 0);
    lemma_round_near_multiple(-0x800_0000, 0);
    assert(0x800_0000_0000int == 0x800_0000int * (FX_ONE as int)) by (nonlinear_arith);
    assert(-0x800_0000_0000int == (-0x800_0000int) * (FX_ONE as int)) by (nonlinear_arith);
}

/// The signed distance from `v` to the plane, positive on the inside of
/// the half-space.
pub open spec fn sd_spec(p: Plane, v: Vec3) -> int {
    dot_spec(v, p.normal) + p.d
}

/// Signed distance of a point to a plane.
pub fn signed_distance(p: &Plane, v: Vec3) -> (r: i64)
    requires
        p.wf(),
        v.in_range(VEC_LIM as int),
    ensures
        r == sd_spec(*p, v),
        -0x1_0000_0000_0000 <= r <= 0x1_0000_0000_0000,
{
    v.dot(p.normal) + p.d
}

/// A fixed-point interpolation parameter confined to the unit interval.
pub open spec fn clamp01_fx(t: int) -> int {
    if t < 0 {
        0
    } else if t > FX_ONE {
        FX_ONE as int
    } else {
        t
    }
}

/// Where the segment from `a` to `b` meets the plane: `a + t (b - a)`
/// with `t = (-d - normal.a) / (normal.(b - a))`. The parameter is kept
/// inside the segment, and an edge whose direction has no fixed-point
/// component along the normal yields `a` itself; exact arithmetic meets
/// neither case on the edges the clipper hands over.
pub open spec fn intersect_spec(p: Plane, a: Vec3, b: Vec3) -> Vec3 {
    let diff = Vec3 { x: (b.x - a.x) as i64, y: (b.y - a.y) as i64, z: (b.z - a.z) as i64 };
    let den = dot_spec(diff, p.normal);
    if den == 0 {
        a
    } else {
        let t = clamp01_fx(fx_div_spec(-p.d - dot_spec(a, p.normal), den));
        Vec3 {
            x: (a.x + fx_mul_spec(t, b.x - a.x)) as i64,
            y: (a.y + fx_mul_spec(t, b.y - a.y)) as i64,
            z: (a.z + fx_mul_spec(t, b.z - a.z)) as i64,
        }
    }
}

/// Parametric line-plane intersection, staying within the segment.
pub fn intersect(p: &Plane, a: Vec3, b: Vec3) -> (r: Vec3)
    requires
        p.wf(),
        a.in_range(MODEL_LIM as int),
        b.in_range(MODEL_LIM as int),
    ensures
        r == intersect_spec(*p, a, b),
        r.in_range(MODEL_LIM as int),
{
    let diff = b.sub(a);
    let den = diff.dot(p.normal);
    if den == 0 {
        return a;
    }
    proof {
        lemma_fx_mul_bound(a.x as int, p.normal.x as int, MODEL_LIM as int, FX_ONE as int);
        lemma_fx_mul_bound(a.y as int, p.normal.y as int, MODEL_LIM as int, FX_ONE as int);
        lemma_fx_mul_bound(a.z as int, p.normal.z as int, MODEL_LIM as int, FX_ONE as int);
        assert((MODEL_LIM as int) * (FX_ONE as int) / (FX_ONE as int) == MODEL_LIM as int)
            by (nonlinear_arith);
    }
    let num: i64 = -p.d - a.dot(p.normal);
    let t_raw: i64 = fx_div(num, den);
    let t: i64 = if t_raw < 0 { 0 } else if t_raw > FX_ONE { FX_ONE } else { t_raw };
    proof {
        lemma_fx_scale_between(t as int, b.x - a.x);
        lemma_fx_scale_between(t as int, b.y - a.y);
        lemma_fx_scale_between(t as int, b.z - a.z);
    }
    Vec3 {
        x: a.x + fx_mul(t, diff.x),
        y: a.y + fx_mul(t, diff.y),
        z: a.z + fx_mul(t, diff.z),
    }
}

/// Three (signed distance, vertex index) pairs ordered by ascending
/// distance, stably: the exchange network the clipper uses.
pub open spec fn sort3_spec(p0: (int, int), p1: (int, int), p2: (int, int))
    -> ((int, int), (int, int), (int, int)) {
    let (q0, q1) = if p1.0 < p0.0 { (p1, p0) } else { (p0, p1) };
    let (r1, r2) = if p2.0 < q1.0 { (p2, q1) } else { (q1, p2) };
    let (s0, s1) = if r1.0 < q0.0 { (r1, q0) } else { (q0, r1) };
    (s0, s1, r2)
}

/// What clipping one triangle against one plane yields: the full vertex
/// list afterwards (intersection points are appended at the end) and the
/// zero, one or two triangles that replace it. A vertex exactly on the
/// plane counts as inside.
pub open spec fn clip_triangle_spec(vs: Seq<Vec3>, t: Triangle, p: Plane)
    -> (Seq<Vec3>, Seq<Triangle>) {
    let s = sort3_spec(
        (sd_spec(p, vs[t.v0 as int]), t.v0 as int),
        (sd_spec(p, vs[t.v1 as int]), t.v1 as int),
        (sd_spec(p, vs[t.v2 as int]), t.v2 as int),
    );
    let n = vs.len() as int;
    if s.0.0 >= 0 {
        (vs, seq![t])
    } else if s.1.0 >= 0 {
        let c = s.0.1;
        let a = s.1.1;
        let b = s.2.1;
        let i1 = intersect_spec(p, vs[a], vs[c]);
        let i2 = intersect_spec(p, vs[b], vs[c]);
        (vs + seq![i1, i2], seq![
            Triangle { v0: a as usize, v1: b as usize, v2: n as usize, color: t.color },
            Triangle { v0: n as usize, v1: b as usize, v2: (n + 1) as usize, color: t.color },
        ])
    } else if s.2.0 >= 0 {
        let a = s.2.1;
        let i1 = intersect_spec(p, vs[a], vs[s.1.1]);
        let i2 = intersect_spec(p, vs[a], vs[s.0.1]);
        (vs + seq![i1, i2], seq![
            Triangle { v0: a as usize, v1: n as usize, v2: (n + 1) as usize, color: t.color },
        ])
    } else {
        (vs, Seq::empty())
    }
}

/// Relies on arrayvec::ArrayVec: the elements a clip buffer holds, in
/// insertion order.
pub uninterp spec fn clip_buf_view(v: ArrayVec<Triangle, 2>) -> Seq<Triangle>;

#[verifier::external_type_specification]
#[verifier::external_body]
#[verifier::reject_recursive_types(T)]
pub struct ExArrayVec<T, const CAP: usize>(ArrayVec<T, CAP>);

/// Relies on arrayvec::ArrayVec::new: a fresh vector holds nothing.
#[verifier::external_body]
fn clip_buf_new() -> (r: ArrayVec<Triangle, 2>)
    ensures
        clip_buf_view(r) == Seq::<Triangle>::empty(),
{
    ArrayVec::new()
}

/// Relies on arrayvec::ArrayVec::push: appends the element at the end;
/// panics only at capacity, which the precondition rules out.
#[verifier::external_body]
fn clip_buf_push(v: &mut ArrayVec<Triangle, 2>, t: Triangle)
    requires
        clip_buf_view(*old(v)).len() < 2,
    ensures
        clip_buf_view(*final(v)) == clip_buf_view(*old(v)).push(t),
{
    v.push(t)
}

/// Relies on arrayvec::ArrayVec::as_slice: hands back all elements in
/// insertion order.
#[verifier::external_body]
fn clip_buf_items(v: &ArrayVec<Triangle, 2>) -> (r: Vec<Triangle>)
    ensures
        r@ == clip_buf_view(*v),
{
    v.as_slice().to_vec()
}

/// Orders three (distance, index) pairs by ascending distance, stably.
fn sort3(p0: (i64, usize), p1: (i64, usize), p2: (i64, usize))
    -> (r: ((i64, usize), (i64, usize), (i64, usize)))
    ensures
        r.0.0 == sort3_spec((p0.0 as int, p0.1 as int), (p1.0 as int, p1.1 as int),
            (p2.0 as int, p2.1 as int)).0.0,
        r.0.1 == sort3_spec((p0.0 as int, p0.1 as int), (p1.0 as int, p1.1 as int),
            (p2.0 as int, p2.1 as int)).0.1,
        r.1.0 == sort3_spec((p0.0 as int, p0.1 as int), (p1.0 as int, p1.1 as int),
            (p2.0 as int, p2.1 as int)).1.0,
        r.1.1 == sort3_spec((p0.0 as int, p0.1 as int), (p1.0 as int, p1.1 as int),
            (p2.0 as int, p2.1 as int)).1.1,
        r.2.0 == sort3_spec((p0.0 as int, p0.1 as int), (p1.0 as int, p1.1 as int),
            (p2.0 as int, p2.1 as int)).2.0,
        r.2.1 == sort3_spec((p0.0 as int, p0.1 as int), (p1.0 as int, p1.1 as int),
            (p2.0 as int, p2.1 as int)).2.1,
{
    let mut a = p0;
    let mut b = p1;
    let mut c = p2;
    if b.0 < a.0 {
        let t = a;
        a = b;
        b = t;
    }
    if c.0 < b.0 {
        let t = b;
        b = c;
        c = t;
    }
    if b.0 < a.0 {
        let t = a;
        a = b;
        b = t;
    }
    (a, b, c)
}

/// Clips one triangle against one plane. Classifies the three vertices
/// by signed distance (on-plane counts as inside), appends any edge
/// intersection points to the vertex list, and returns the up to two
/// triangles covering the inside part.
#[verifier::rlimit(100)]
pub fn clip_triangle(vertices: &mut Vec<Vec3>, t: &Triangle, plane: &Plane)
    -> (result: ArrayVec<Triangle, 2>)
    requires
        plane.wf(),
        t.indices_lt(old(vertices)@.len() as int),
        forall|i: int| 0 <= i < old(vertices)@.len()
            ==> (#[trigger] old(vertices)@[i]).in_range(MODEL_LIM as int),
    ensures
        final(vertices)@ == clip_triangle_spec(old(vertices)@, *t, *plane).0,
        clip_buf_view(result) == clip_triangle_spec(old(vertices)@, *t, *plane).1,
        old(vertices)@.len() <= final(vertices)@.len() <= old(vertices)@.len() + 2,
        forall|i: int| 0 <= i < old(vertices)@.len()
            ==> final(vertices)@[i] == old(vertices)@[i],
        forall|i: int| 0 <= i < final(vertices)@.len()
            ==> (#[trigger] final(vertices)@[i]).in_range(MODEL_LIM as int),
        forall|j: int| 0 <= j < clip_buf_view(result).len()
            ==> (#[trigger] clip_buf_view(result)[j]).indices_lt(final(vertices)@.len() as int)
                && clip_buf_view(result)[j].color == t.color,
{
    let d0 = signed_distance(plane, vertices[t.v0]);
    let d1 = signed_distance(plane, vertices[t.v1]);
    let d2 = signed_distance(plane, vertices[t.v2]);

    let sorted = sort3((d0, t.v0), (d1, t.v1), (d2, t.v2));
    let da: i64 = sorted.0.0;
    let ia: usize = sorted.0.1;
    let db: i64 = sorted.1.0;
    let ib: usize = sorted.1.1;
    let dc: i64 = sorted.2.0;
    let ic: usize = sorted.2.1;
    proof {
        lemma_color_round_trip(t.color);
    }

    let mut result = clip_buf_new();
    let color: u32 = t.color.as_u32();

    if da >= 0 {
        clip_buf_push(&mut result, *t);
    } else if db >= 0 {
        let a1: usize = vertices.len();
        let p1 = intersect(plane, vertices[ib], vertices[ia]);
        vertices.push(p1);
        let b1: usize = vertices.len();
        let p2 = intersect(plane, vertices[ic], vertices[ia]);
        vertices.push(p2);
        clip_buf_push(&mut result, Triangle::new(ib, ic, a1, color));
        clip_buf_push(&mut result, Triangle::new(a1, ic, b1, color));
    } else if dc >= 0 {
        let b1: usize = vertices.len();
        let p1 = intersect(plane, vertices[ic], vertices[ib]);
        vertices.push(p1);
        let c1: usize = vertices.len();
        let p2 = intersect(plane, vertices[ic], vertices[ia]);
        vertices.push(p2);
        clip_buf_push(&mut result, Triangle::new(ic, b1, c1, color));
    }

    result
}

/// Clipping a whole triangle list against one plane: each triangle's
/// replacements in order, over the vertex list as it grows.
pub open spec fn clip_triangles_spec(vs: Seq<Vec3>, ts: Seq<Triangle>, p: Plane)
    -> (Seq<Vec3>, Seq<Triangle>)
    decreases ts.len(),
{
    if ts.len() == 0 {
        (vs, Seq::empty())
    } else {
        let prev = clip_triangles_spec(vs, ts.drop_last(), p);
        let last = clip_triangle_spec(prev.0, ts.last(), p);
        (last.0, prev.1 + last.1)
    }
}

/// Clips every triangle in the list against the plane, appending any new
/// intersection vertices, and returns the surviving triangle list.
pub fn clip_triangles_against_plane(
    vertices: &mut Vec<Vec3>,
    triangles: Vec<Triangle>,
    plane: &Plane,
) -> (clipped: Vec<Triangle>)
    requires
        plane.wf(),
        forall|j: int| 0 <= j < triangles@.len()
            ==> (#[trigger] triangles@[j]).indices_lt(old(vertices)@.len() as int),
        forall|i: int| 0 <= i < old(vertices)@.len()
            ==> (#[trigger] old(vertices)@[i]).in_range(MODEL_LIM as int),
    ensures
        final(vertices)@ == clip_triangles_spec(old(vertices)@, triangles@, *plane).0,
        clipped@ == clip_triangles_spec(old(vertices)@, triangles@, *plane).1,
        old(vertices)@.len() <= final(vertices)@.len(),
        forall|i: int| 0 <= i < old(vertices)@.len()
            ==> final(vertices)@[i] == old(vertices)@[i],
        forall|i: int| 0 <= i < final(vertices)@.len()
            ==> (#[trigger] final(vertices)@[i]).in_range(MODEL_LIM as int),
        forall|j: int| 0 <= j < clipped@.len()
            ==> (#[trigger] clipped@[j]).indices_lt(final(vertices)@.len() as int),
{
    let ghost orig_vs = vertices@;
    let mut clipped: Vec<Triangle> = Vec::new();
    let mut i: usize = 0;
    while i < triangles.len()
        invariant
            plane.wf(),
            i <= triangles@.len(),
            forall|j: int| 0 <= j < triangles@.len()
                ==> (#[trigger] triangles@[j]).indices_lt(orig_vs.len() as int),
            vertices@ == clip_triangles_spec(orig_vs, triangles@.take(i as int), *plane).0,
            clipped@ == clip_triangles_spec(orig_vs, triangles@.take(i as int), *plane).1,
            orig_vs.len() <= vertices@.len(),
            forall|k: int| 0 <= k < orig_vs.len() ==> vertices@[k] == orig_vs[k],
            forall|k: int| 0 <= k < vertices@.len()
                ==> (#[trigger] vertices@[k]).in_range(MODEL_LIM as int),
            forall|j: int| 0 <= j < clipped@.len()
                ==> (#[trigger] clipped@[j]).indices_lt(vertices@.len() as int),
        decreases triangles@.len() - i,
    {
        let ghost pre_vs = vertices@;
        let ghost pre_clipped = clipped@;
        let buf = clip_triangle(vertices, &triangles[i], plane);
        let mut items = clip_buf_items(&buf);
        clipped.append(&mut items);
        proof {
            let pre_ts = triangles@.take(i as int);
            let post_ts = triangles@.take(i as int + 1);
            assert(post_ts.drop_last() =~= pre_ts);
            assert(post_ts.last() == triangles@[i as int]);
            assert(clipped@ =~= pre_clipped
                + clip_triangle_spec(pre_vs, triangles@[i as int], *plane).1);
        }
        i = i + 1;
    }
    proof {
        assert(triangles@.take(triangles@.len() as int) =~= triangles@);
    }
    clipped
}

/// Clipping an instance against one plane: trivially kept when its
/// sphere is wholly inside, dropped when wholly outside, and otherwise
/// clipped triangle by triangle.
pub fn clip_instance_against_plane(instance: Instance, plane: &Plane) -> (r: Option<Instance>)
    requires
        plane.wf(),
        instance.wf(),
    ensures
        sd_spec(*plane, instance.bounding_sphere.center) > instance.bounding_sphere.radius
            ==> r == Some(instance),
        sd_spec(*plane, instance.bounding_sphere.center) < -instance.bounding_sphere.radius
            ==> r is None,
        -instance.bounding_sphere.radius
            <= sd_spec(*plane, instance.bounding_sphere.center)
            <= instance.bounding_sphere.radius
            ==> (r matches Some(inst2)
                && inst2.model.vertices@ == clip_triangles_spec(
                    instance.model.vertices@, instance.model.triangles@, *plane).0
                && inst2.model.triangles@ == clip_triangles_spec(
                    instance.model.vertices@, instance.model.triangles@, *plane).1
                && inst2.transform == instance.transform
                && inst2.bounding_sphere == instance.bounding_sphere),
        r matches Some(inst2) ==> inst2.wf() && inst2.transform == instance.transform
            && inst2.bounding_sphere == instance.bounding_sphere,
{
    let dist = signed_distance(plane, instance.bounding_sphere.center);
    let radi = instance.bounding_sphere.radius;
    if dist > radi {
        Some(instance)
    } else if dist < -radi {
        None
    } else {
        let Instance { model, transform, bounding_sphere } = instance;
        let Model { mut vertices, triangles } = model;
        let clipped = clip_triangles_against_plane(&mut vertices, triangles, plane);
        Some(Instance {
            model: Model { vertices, triangles: clipped },
            transform,
            bounding_sphere,
        })
    }
}

/// Folding an instance's geometry through the plane list in order:
/// `None` once any plane rejects the bounding sphere outright.
pub open spec fn clip_model_planes_spec(
    vs: Seq<Vec3>,
    ts: Seq<Triangle>,
    sphere: crate::structs::BoundingSphere,
    planes: Seq<Plane>,
) -> Option<(Seq<Vec3>, Seq<Triangle>)>
    decreases planes.len(),
{
    if planes.len() == 0 {
        Some((vs, ts))
    } else {
        let p = planes.first();
        let dist = sd_spec(p, sphere.center);
        if dist > sphere.radius {
            clip_model_planes_spec(vs, ts, sphere, planes.drop_first())
        } else if dist < -sphere.radius {
            None
        } else {
            let r = clip_triangles_spec(vs, ts, p);
            clip_model_planes_spec(r.0, r.1, sphere, planes.drop_first())
        }
    }
}

/// Clips an instance against every plane in order, dropping it as soon
/// as one plane rejects its bounding sphere.
pub fn clip_instance(instance: Instance, planes: &Vec<Plane>) -> (r: Option<Instance>)
    requires
        instance.wf(),
        forall|j: int| 0 <= j < planes@.len() ==> (#[trigger] planes@[j]).wf(),
    ensures
        (r is None) == (clip_model_planes_spec(instance.model.vertices@,
            instance.model.triangles@, instance.bounding_sphere, planes@) is None),
        r matches Some(inst2) ==> {
            &&& clip_model_planes_spec(instance.model.vertices@, instance.model.triangles@,
                instance.bounding_sphere, planes@)
                == Some((inst2.model.vertices@, inst2.model.triangles@))
            &&& inst2.transform == instance.transform
            &&& inst2.bounding_sphere == instance.bounding_sphere
            &&& inst2.wf()
        },
{
    let ghost ovs = instance.model.vertices@;
    let ghost ots = instance.model.triangles@;
    let ghost sphere = instance.bounding_sphere;
    let mut inst = instance;
    let mut i: usize = 0;
    proof {
        assert(planes@.skip(0) =~= planes@);
    }
    while i < planes.len()
        invariant
            i <= planes@.len(),
            forall|j: int| 0 <= j < planes@.len() ==> (#[trigger] planes@[j]).wf(),
            inst.wf(),
            inst.transform == instance.transform,
            inst.bounding_sphere == instance.bounding_sphere,
            sphere == instance.bounding_sphere,
            ovs == instance.model.vertices@,
            ots == instance.model.triangles@,
            clip_model_planes_spec(inst.model.vertices@, inst.model.triangles@, sphere,
                planes@.skip(i as int))
                == clip_model_planes_spec(ovs, ots, sphere, planes@),
        decreases planes@.len() - i,
    {
        let ghost pre = planes@.skip(i as int);
        let ghost prev = inst;
        proof {
            assert(pre.first() == planes@[i as int]);
            assert(pre.drop_first() =~= planes@.skip(i as int + 1));
        }
        match clip_instance_against_plane(inst, &planes[i]) {
            Some(x) => {
                inst = x;
            }
            None => {
                proof {
                    assert(sd_spec(planes@[i as int], sphere.center) < -sphere.radius);
                    assert(clip_model_planes_spec(prev.model.vertices@, prev.model.triangles@,
                        sphere, pre) is None);
                }
                return None;
            }
        }
        i = i + 1;
    }
    proof {
        assert(planes@.skip(planes@.len() as int) =~= Seq::<Plane>::empty());
    }
    Some(inst)
}

/// The instances a scene keeps after clipping, each with its clipped
/// geometry, in scene order.
pub open spec fn clip_scene_kept(scene: Seq<Instance>, planes: Seq<Plane>)
    -> Seq<(Instance, (Seq<Vec3>, Seq<Triangle>))>
    decreases scene.len(),
{
    if scene.len() == 0 {
        Seq::empty()
    } else {
        let rest = clip_scene_kept(scene.drop_last(), planes);
        let inst = scene.last();
        match clip_model_planes_spec(inst.model.vertices@, inst.model.triangles@,
            inst.bounding_sphere, planes) {
            Some(sol) => rest.push((inst, sol)),
            None => rest,
        }
    }
}

/// Clips every instance of the scene against the frustum planes,
/// keeping the survivors in order.
pub fn clip_scene(scene: Vec<Instance>, planes: &Vec<Plane>) -> (clipped: Vec<Instance>)
    requires
        forall|k: int| 0 <= k < scene@.len() ==> (#[trigger] scene@[k]).wf(),
        forall|j: int| 0 <= j < planes@.len() ==> (#[trigger] planes@[j]).wf(),
    ensures
        clipped@.len() == clip_scene_kept(scene@, planes@).len(),
        forall|k: int| 0 <= k < clipped@.len() ==> {
            let kept = clip_scene_kept(scene@, planes@)[k];
            &&& (#[trigger] clipped@[k]).transform == kept.0.transform
            &&& clipped@[k].bounding_sphere == kept.0.bounding_sphere
            &&& clipped@[k].model.vertices@ == kept.1.0
            &&& clipped@[k].model.triangles@ == kept.1.1
            &&& clipped@[k].wf()
        },
{
    let ghost orig = scene@;
    let mut scene = scene;
    let mut clipped: Vec<Instance> = Vec::new();
    let ghost mut p: int = 0;
    while scene.len() > 0
        invariant
            0 <= p <= orig.len(),
            scene@ == orig.skip(p),
            forall|k: int| 0 <= k < orig.len() ==> (#[trigger] orig[k]).wf(),
            forall|j: int| 0 <= j < planes@.len() ==> (#[trigger] planes@[j]).wf(),
            clipped@.len() == clip_scene_kept(orig.take(p), planes@).len(),
            forall|k: int| 0 <= k < clipped@.len() ==> {
                let kept = clip_scene_kept(orig.take(p), planes@)[k];
                &&& (#[trigger] clipped@[k]).transform == kept.0.transform
                &&& clipped@[k].bounding_sphere == kept.0.bounding_sphere
                &&& clipped@[k].model.vertices@ == kept.1.0
                &&& clipped@[k].model.triangles@ == kept.1.1
                &&& clipped@[k].wf()
            },
        decreases scene@.len(),
    {
        let inst = scene.remove(0);
        proof {
            assert(inst == orig[p]);
            assert(scene@ =~= orig.skip(p + 1));
            assert(orig.take(p + 1).drop_last() =~= orig.take(p));
            assert(orig.take(p + 1).last() == orig[p]);
        }
        let ghost pre_kept = clip_scene_kept(orig.take(p), planes@);
        match clip_instance(inst, planes) {
            Some(ci) => {
                clipped.push(ci);
            }
            None => {}
        }
        proof {
            p = p + 1;
        }
    }
    proof {
        assert(orig.take(p) =~= orig);
    }
    clipped
}

} // verus!
