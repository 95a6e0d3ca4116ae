//! The canvas: pixel and depth buffers, line drawing, scanline triangle
//! filling with depth testing, and scene rendering.

use vstd::prelude::*;
use crate::colors::{Color, pack_rgb, scaled_spec};
use crate::fixed::{FX_ONE, FX_HALF, fx_round, fx_round_spec, fx_div,
    lemma_round_monotone, lemma_round_near_multiple};
use crate::structs::{Instance, Plane, Transform, Triangle, transform_vertex_spec};
use crate::utils::{CANVAS_WIDTH, CANVAS_BOUND_X, CANVAS_BOUND_Y, INTERP_LIM,
    VIEWPORT_DISTANCE, interpolate, project_vertex, project_x_fx, project_y_fx, clip_scene,
    clip_scene_kept};
use crate::vertex::{Vec3, Point2D, Point3D, MODEL_LIM, dot_spec};

verus! {

/// The background color the buffer starts from.
pub const BACKGROUND: u32 = 0x1B1E1F;

/// Number of pixels in the canvas.
pub const CANVAS_PIXELS: usize = 409600;

/// Whether a centered pixel coordinate lies on the canvas: x in
/// `[-width/2, width/2)` and y in `[-height/2, height/2)`.
pub open spec fn in_canvas(x: int, y: int) -> bool {
    &&& -CANVAS_BOUND_X <= x < CANVAS_BOUND_X
    &&& -CANVAS_BOUND_Y <= y < CANVAS_BOUND_Y
}

/// The flat buffer index of a centered pixel coordinate: row-major, top
/// row first, y increasing upward, so y = height/2 - 1 is the top row.
pub open spec fn px_index(x: int, y: int) -> int {
    (CANVAS_BOUND_Y - 1 - y) * (CANVAS_WIDTH as int) + CANVAS_BOUND_X + x
}

/// A canvas coordinate's index lies inside the buffer.
pub proof fn lemma_px_index_bounds(x: int, y: int)
    requires
        in_canvas(x, y),
    ensures
        0 <= px_index(x, y) < CANVAS_PIXELS,
{
    let row = CANVAS_BOUND_Y - 1 - y;
    assert(0 <= row * 640 <= 639 * 640) by (nonlinear_arith)
        requires 0 <= row <= 639;
}

/// Distinct canvas coordinates use distinct buffer indices.
pub proof fn lemma_px_index_injective(x1: int, y1: int, x2: int, y2: int)
    requires
        in_canvas(x1, y1),
        in_canvas(x2, y2),
        px_index(x1, y1) == px_index(x2, y2),
    ensures
        x1 == x2 && y1 == y2,
{
    let r1 = CANVAS_BOUND_Y - 1 - y1;
    let r2 = CANVAS_BOUND_Y - 1 - y2;
    assert(r1 == r2 && x1 == x2) by (nonlinear_arith)
        requires
            0 <= r1 <= 639,
            0 <= r2 <= 639,
            0 <= CANVAS_BOUND_X + x1 < 640,
            0 <= CANVAS_BOUND_X + x2 < 640,
            r1 * 640 + CANVAS_BOUND_X + x1 == r2 * 640 + CANVAS_BOUND_X + x2;
}

/// One depth-tested pixel write: the pixel and its stored depth change
/// exactly when the new inverse depth is strictly nearer.
pub open spec fn depth_write_spec(buf: Seq<u32>, dep: Seq<i64>, i: int, z: i64, c: u32)
    -> (Seq<u32>, Seq<i64>) {
    if z > dep[i] {
        (buf.update(i, c), dep.update(i, z))
    } else {
        (buf, dep)
    }
}

/// Depth-tested writes at two pixels commute whenever they cannot tie:
/// at distinct pixels always, at the same pixel whenever the two depths
/// differ. With depth testing on, the final image does not depend on
/// the order in which such pixels are drawn.
pub proof fn lemma_depth_write_commutes(
    buf: Seq<u32>, dep: Seq<i64>,
    i1: int, z1: i64, c1: u32,
    i2: int, z2: i64, c2: u32,
)
    requires
        buf.len() == dep.len(),
        0 <= i1 < dep.len(),
        0 <= i2 < dep.len(),
        i1 == i2 ==> z1 != z2,
    ensures
        ({
            let first = depth_write_spec(buf, dep, i1, z1, c1);
            let ab = depth_write_spec(first.0, first.1, i2, z2, c2);
            let second = depth_write_spec(buf, dep, i2, z2, c2);
            let ba = depth_write_spec(second.0, second.1, i1, z1, c1);
            ab.0 == ba.0 && ab.1 == ba.1
        }),
{
    let first = depth_write_spec(buf, dep, i1, z1, c1);
    let ab = depth_write_spec(first.0, first.1, i2, z2, c2);
    let second = depth_write_spec(buf, dep, i2, z2, c2);
    let ba = depth_write_spec(second.0, second.1, i1, z1, c1);
    assert(ab.0 =~= ba.0);
    assert(ab.1 =~= ba.1);
}

/// Whether buffer index `i` addresses a writable pixel inside the given
/// coordinate box.
pub open spec fn covered_box(i: int, x0: int, x1: int, y0: int, y1: int) -> bool {
    exists|x: int, y: int| x0 <= x <= x1 && y0 <= y <= y1 && in_canvas(x, y)
        && i == #[trigger] px_index(x, y)
}

/// The five frustum planes: the near plane one viewport distance out,
/// and four side planes at forty-five degrees through the origin.
pub open spec fn frustum_planes_spec() -> Seq<Plane> {
    seq![
        Plane { normal: Vec3 { x: 0, y: 0, z: 65536 }, d: -65536i64 },
        Plane { normal: Vec3 { x: 46341, y: 0, z: 46341 }, d: 0 },
        Plane { normal: Vec3 { x: -46341i64, y: 0, z: 46341 }, d: 0 },
        Plane { normal: Vec3 { x: 0, y: 46341, z: 46341 }, d: 0 },
        Plane { normal: Vec3 { x: 0, y: -46341i64, z: 46341 }, d: 0 },
    ]
}

/// The three points ordered by ascending y, stably: the exchange
/// network the filler uses.
pub open spec fn ysort3_spec(p0: Point3D, p1: Point3D, p2: Point3D)
    -> (Point3D, Point3D, Point3D) {
    let (a1, b1) = if p0.y > p1.y { (p1, p0) } else { (p0, p1) };
    let (a2, c2) = if a1.y > p2.y { (p2, a1) } else { (a1, p2) };
    let (b3, c3) = if b1.y > c2.y { (c2, b1) } else { (b1, c2) };
    (a2, b3, c3)
}

/// One interpolated boundary value at integer step `i`, matching
/// `interpolate`: the start value alone on an empty span.
pub open spec fn edge_val(i0: int, v0: int, i1: int, v1: int, i: int) -> int {
    if i0 == i1 {
        v0
    } else {
        crate::utils::lerp_val(v0, v1, i1 - i0, i - i0)
    }
}

/// The concatenated short-edge boundary (top-to-middle then
/// middle-to-bottom, dropping the duplicate join row) at scanline `y`,
/// for an attribute with per-vertex values `va`, `vb`, `vc` at the
/// y-sorted vertices.
pub open spec fn combined_val(a: Point3D, b: Point3D, c: Point3D,
    va: int, vb: int, vc: int, y: int) -> int {
    if y < b.y {
        edge_val(a.y as int, va, b.y as int, vb, y)
    } else {
        edge_val(b.y as int, vb, c.y as int, vc, y)
    }
}

/// One of the two boundaries: the long edge when `long` holds, else the
/// concatenated short edges.
pub open spec fn side_val(a: Point3D, b: Point3D, c: Point3D,
    va: int, vb: int, vc: int, long: bool, y: int) -> int {
    if long {
        edge_val(a.y as int, va, c.y as int, vc, y)
    } else {
        combined_val(a, b, c, va, vb, vc, y)
    }
}

/// Whether the long edge is the left boundary: decided once, by
/// comparing the two boundaries' x at the middle scanline.
pub open spec fn long_edge_is_left(a: Point3D, b: Point3D, c: Point3D) -> bool {
    let ym = a.y + ((c.y as int - a.y as int) + 1) / 2;
    side_val(a, b, c, a.x as int * 65536, b.x as int * 65536, c.x as int * 65536, true, ym)
        < side_val(a, b, c, a.x as int * 65536, b.x as int * 65536, c.x as int * 65536, false, ym)
}

/// The left x pixel bound of scanline `y`.
pub open spec fn row_xl(a: Point3D, b: Point3D, c: Point3D, y: int) -> int {
    fx_round_spec(side_val(a, b, c, a.x as int * 65536, b.x as int * 65536,
        c.x as int * 65536, long_edge_is_left(a, b, c), y))
}

/// The right x pixel bound of scanline `y`.
pub open spec fn row_xr(a: Point3D, b: Point3D, c: Point3D, y: int) -> int {
    fx_round_spec(side_val(a, b, c, a.x as int * 65536, b.x as int * 65536,
        c.x as int * 65536, !long_edge_is_left(a, b, c), y))
}

/// The interpolated inverse depth the fill computes at pixel (x, y).
pub open spec fn row_z(a: Point3D, b: Point3D, c: Point3D, x: int, y: int) -> int {
    let sel = long_edge_is_left(a, b, c);
    edge_val(
        row_xl(a, b, c, y),
        side_val(a, b, c, a.z as int, b.z as int, c.z as int, sel, y),
        row_xr(a, b, c, y),
        side_val(a, b, c, a.z as int, b.z as int, c.z as int, !sel, y),
        x)
}

/// The interpolated shading intensity the fill computes at pixel (x, y).
pub open spec fn row_h(a: Point3D, b: Point3D, c: Point3D, x: int, y: int) -> int {
    let sel = long_edge_is_left(a, b, c);
    edge_val(
        row_xl(a, b, c, y),
        side_val(a, b, c, a.h as int, b.h as int, c.h as int, sel, y),
        row_xr(a, b, c, y),
        side_val(a, b, c, a.h as int, b.h as int, c.h as int, !sel, y),
        x)
}

/// Whether the fill of the y-sorted triangle visits pixel (x, y).
pub open spec fn tri_covers(a: Point3D, b: Point3D, c: Point3D, x: int, y: int) -> bool {
    a.y <= y <= c.y && row_xl(a, b, c, y) <= x <= row_xr(a, b, c, y)
}

/// The word a color scaled by the fixed-point intensity `h` packs to.
pub open spec fn shade_word(c: Color, h: int) -> u32 {
    pack_rgb(scaled_spec(c, h).r, scaled_spec(c, h).g, scaled_spec(c, h).b)
}

/// The pixel the fill leaves at writable coordinate (x, y): the shaded
/// color where the triangle covers the pixel and its interpolated
/// inverse depth beats the stored one, the old pixel otherwise.
pub open spec fn fill_buf_at(obuf: Seq<u32>, odep: Seq<i64>,
    p0: Point3D, p1: Point3D, p2: Point3D, color: Color, x: int, y: int) -> u32 {
    let (a, b, c) = ysort3_spec(p0, p1, p2);
    let i = px_index(x, y);
    if tri_covers(a, b, c, x, y) && row_z(a, b, c, x, y) > odep[i] {
        shade_word(color, row_h(a, b, c, x, y))
    } else {
        obuf[i]
    }
}

/// The stored inverse depth the fill leaves at writable coordinate (x, y).
pub open spec fn fill_dep_at(odep: Seq<i64>,
    p0: Point3D, p1: Point3D, p2: Point3D, x: int, y: int) -> i64 {
    let (a, b, c) = ysort3_spec(p0, p1, p2);
    let i = px_index(x, y);
    if tri_covers(a, b, c, x, y) && row_z(a, b, c, x, y) > odep[i] {
        row_z(a, b, c, x, y) as i64
    } else {
        odep[i]
    }
}

/// An interpolation series over one span matches `edge_val` pointwise.
proof fn lemma_edge_rows(s: Seq<i64>, i0: int, v0: int, i1: int, v1: int)
    requires
        i0 <= i1,
        s.len() == i1 - i0 + 1,
        s[0] == v0,
        i0 < i1 ==> forall|k: int| 0 <= k <= i1 - i0
            ==> #[trigger] s[k] == crate::utils::lerp_val(v0, v1, i1 - i0, k),
    ensures
        forall|k: int| 0 <= k <= i1 - i0
            ==> #[trigger] s[k] == edge_val(i0, v0, i1, v1, i0 + k),
{
}

/// The concatenation of the two short-edge series, with the duplicate
/// join row dropped, matches `combined_val` pointwise.
proof fn lemma_combined_rows(
    s01: Seq<i64>, s12: Seq<i64>, s: Seq<i64>,
    a: Point3D, b: Point3D, c: Point3D, va: int, vb: int, vc: int,
)
    requires
        a.y <= b.y <= c.y,
        s01.len() == b.y - a.y + 1,
        s12.len() == c.y - b.y + 1,
        s == s01.drop_last() + s12,
        s01[0] == va,
        a.y < b.y ==> forall|k: int| 0 <= k <= b.y - a.y
            ==> #[trigger] s01[k] == crate::utils::lerp_val(va, vb,
                b.y as int - a.y as int, k),
        s12[0] == vb,
        b.y < c.y ==> forall|k: int| 0 <= k <= c.y - b.y
            ==> #[trigger] s12[k] == crate::utils::lerp_val(vb, vc,
                c.y as int - b.y as int, k),
    ensures
        s.len() == c.y - a.y + 1,
        forall|k: int| 0 <= k <= c.y - a.y
            ==> #[trigger] s[k] == combined_val(a, b, c, va, vb, vc, a.y + k),
{
    let n01 = b.y as int - a.y as int;
    assert forall|k: int| 0 <= k <= c.y - a.y
        implies #[trigger] s[k] == combined_val(a, b, c, va, vb, vc, a.y + k) by {
        if k < n01 {
            assert(s[k] == s01[k]);
        } else {
            assert(s[k] == s12[k - n01]);
        }
    }
}

/// After one depth-tested write at (x, y), everything up to and
/// including that pixel holds its final fill value, and everything
/// after it is still untouched.
proof fn lemma_fill_write_frame(
    obuf: Seq<u32>, odep: Seq<i64>,
    pre_buf: Seq<u32>, pre_dep: Seq<i64>,
    post_buf: Seq<u32>, post_dep: Seq<i64>,
    p0: Point3D, p1: Point3D, p2: Point3D, color: Color,
    x: int, y: int, zz: i64, w: u32, hh: i64,
)
    requires
        obuf.len() == CANVAS_PIXELS,
        odep.len() == CANVAS_PIXELS,
        pre_buf.len() == CANVAS_PIXELS,
        pre_dep.len() == CANVAS_PIXELS,
        in_canvas(x, y),
        tri_covers(ysort3_spec(p0, p1, p2).0, ysort3_spec(p0, p1, p2).1,
            ysort3_spec(p0, p1, p2).2, x, y),
        zz == row_z(ysort3_spec(p0, p1, p2).0, ysort3_spec(p0, p1, p2).1,
            ysort3_spec(p0, p1, p2).2, x, y),
        hh == row_h(ysort3_spec(p0, p1, p2).0, ysort3_spec(p0, p1, p2).1,
            ysort3_spec(p0, p1, p2).2, x, y),
        w == shade_word(color, hh as int),
        post_buf == depth_write_spec(pre_buf, pre_dep, px_index(x, y), zz, w).0,
        post_dep == depth_write_spec(pre_buf, pre_dep, px_index(x, y), zz, w).1,
        forall|xx: int, yy: int| in_canvas(xx, yy) && (yy < y || (yy == y && xx < x))
            ==> pre_buf[#[trigger] px_index(xx, yy)]
                    == fill_buf_at(obuf, odep, p0, p1, p2, color, xx, yy)
                && pre_dep[px_index(xx, yy)] == fill_dep_at(odep, p0, p1, p2, xx, yy),
        forall|xx: int, yy: int| in_canvas(xx, yy) && (yy > y || (yy == y && xx >= x))
            ==> pre_buf[#[trigger] px_index(xx, yy)] == obuf[px_index(xx, yy)]
                && pre_dep[px_index(xx, yy)] == odep[px_index(xx, yy)],
    ensures
        forall|xx: int, yy: int| in_canvas(xx, yy) && (yy < y || (yy == y && xx < x + 1))
            ==> post_buf[#[trigger] px_index(xx, yy)]
                    == fill_buf_at(obuf, odep, p0, p1, p2, color, xx, yy)
                && post_dep[px_index(xx, yy)] == fill_dep_at(odep, p0, p1, p2, xx, yy),
        forall|xx: int, yy: int| in_canvas(xx, yy) && (yy > y || (yy == y && xx >= x + 1))
            ==> post_buf[#[trigger] px_index(xx, yy)] == obuf[px_index(xx, yy)]
                && post_dep[px_index(xx, yy)] == odep[px_index(xx, yy)],
{
    let idx = px_index(x, y);
    lemma_px_index_bounds(x, y);
    assert(pre_buf[idx] == obuf[idx] && pre_dep[idx] == odep[idx]);
    assert forall|xx: int, yy: int| in_canvas(xx, yy) && (yy < y || (yy == y && xx < x + 1))
        implies post_buf[#[trigger] px_index(xx, yy)]
                == fill_buf_at(obuf, odep, p0, p1, p2, color, xx, yy)
            && post_dep[px_index(xx, yy)] == fill_dep_at(odep, p0, p1, p2, xx, yy) by {
        if xx == x && yy == y {
            if zz > odep[idx] {
                assert(post_buf[idx] == w && post_dep[idx] == zz);
            } else {
                assert(post_buf[idx] == obuf[idx] && post_dep[idx] == odep[idx]);
            }
        } else {
            if px_index(xx, yy) == idx {
                lemma_px_index_injective(xx, yy, x, y);
            }
            lemma_px_index_bounds(xx, yy);
            assert(post_buf[px_index(xx, yy)] == pre_buf[px_index(xx, yy)]);
            assert(post_dep[px_index(xx, yy)] == pre_dep[px_index(xx, yy)]);
        }
    }
    assert forall|xx: int, yy: int| in_canvas(xx, yy) && (yy > y || (yy == y && xx >= x + 1))
        implies post_buf[#[trigger] px_index(xx, yy)] == obuf[px_index(xx, yy)]
            && post_dep[px_index(xx, yy)] == odep[px_index(xx, yy)] by {
        if px_index(xx, yy) == idx {
            lemma_px_index_injective(xx, yy, x, y);
        }
        lemma_px_index_bounds(xx, yy);
    }
}

/// Builds the six per-scanline boundary series for a y-sorted triangle:
/// left and right x, shading and inverse depth, already ordered by the
/// middle-scanline side test.
#[verifier::rlimit(100)]
fn fill_boundaries(a: Point3D, b: Point3D, c: Point3D)
    -> (r: (Vec<i64>, Vec<i64>, Vec<i64>, Vec<i64>, Vec<i64>, Vec<i64>))
    requires
        a.y <= b.y <= c.y,
        -CANVAS_BOUND_X <= a.x < CANVAS_BOUND_X,
        -CANVAS_BOUND_X <= b.x < CANVAS_BOUND_X,
        -CANVAS_BOUND_X <= c.x < CANVAS_BOUND_X,
        -INTERP_LIM <= a.h <= INTERP_LIM,
        -INTERP_LIM <= b.h <= INTERP_LIM,
        -INTERP_LIM <= c.h <= INTERP_LIM,
        -INTERP_LIM <= a.z <= INTERP_LIM,
        -INTERP_LIM <= b.z <= INTERP_LIM,
        -INTERP_LIM <= c.z <= INTERP_LIM,
    ensures
        ({
            let sel = long_edge_is_left(a, b, c);
            let n = c.y as int - a.y as int;
            let xa = a.x as int * 65536;
            let xb = b.x as int * 65536;
            let xc = c.x as int * 65536;
            let lo = vstd::math::min(vstd::math::min(xa, xb), xc);
            let hi = vstd::math::max(vstd::math::max(xa, xb), xc);
            &&& r.0@.len() == n + 1
            &&& r.1@.len() == n + 1
            &&& r.2@.len() == n + 1
            &&& r.3@.len() == n + 1
            &&& r.4@.len() == n + 1
            &&& r.5@.len() == n + 1
            &&& forall|k: int| 0 <= k <= n
                ==> #[trigger] r.0@[k] == side_val(a, b, c, xa, xb, xc, sel, a.y + k)
                    && lo <= r.0@[k] <= hi
            &&& forall|k: int| 0 <= k <= n
                ==> #[trigger] r.1@[k] == side_val(a, b, c, xa, xb, xc, !sel, a.y + k)
                    && lo <= r.1@[k] <= hi
            &&& forall|k: int| 0 <= k <= n
                ==> #[trigger] r.2@[k] == side_val(a, b, c, a.h as int, b.h as int, c.h as int,
                        sel, a.y + k)
                    && -INTERP_LIM <= r.2@[k] <= INTERP_LIM
            &&& forall|k: int| 0 <= k <= n
                ==> #[trigger] r.3@[k] == side_val(a, b, c, a.h as int, b.h as int, c.h as int,
                        !sel, a.y + k)
                    && -INTERP_LIM <= r.3@[k] <= INTERP_LIM
            &&& forall|k: int| 0 <= k <= n
                ==> #[trigger] r.4@[k] == side_val(a, b, c, a.z as int, b.z as int, c.z as int,
                        sel, a.y + k)
                    && -INTERP_LIM <= r.4@[k] <= INTERP_LIM
            &&& forall|k: int| 0 <= k <= n
                ==> #[trigger] r.5@[k] == side_val(a, b, c, a.z as int, b.z as int, c.z as int,
                        !sel, a.y + k)
                    && -INTERP_LIM <= r.5@[k] <= INTERP_LIM
        }),
{
    let ghost xa = a.x as int * 65536;
    let ghost xb = b.x as int * 65536;
    let ghost xc = c.x as int * 65536;
    let ghost nrows = c.y as int - a.y as int;

    let x01 = interpolate(a.y, (a.x as i64) * 65536, b.y, (b.x as i64) * 65536);
    let h01 = interpolate(a.y, a.h, b.y, b.h);
    let z01 = interpolate(a.y, a.z, b.y, b.z);
    let x12 = interpolate(b.y, (b.x as i64) * 65536, c.y, (c.x as i64) * 65536);
    let h12 = interpolate(b.y, b.h, c.y, c.h);
    let z12 = interpolate(b.y, b.z, c.y, c.z);
    let x02 = interpolate(a.y, (a.x as i64) * 65536, c.y, (c.x as i64) * 65536);
    let h02 = interpolate(a.y, a.h, c.y, c.h);
    let z02 = interpolate(a.y, a.z, c.y, c.z);

    let ghost gx01 = x01@;
    let ghost gh01 = h01@;
    let ghost gz01 = z01@;
    let ghost gx12 = x12@;
    let ghost gh12 = h12@;
    let ghost gz12 = z12@;

    let mut x012 = x01;
    x012.pop();
    let mut x12m = x12;
    x012.append(&mut x12m);
    let mut h012 = h01;
    h012.pop();
    let mut h12m = h12;
    h012.append(&mut h12m);
    let mut z012 = z01;
    z012.pop();
    let mut z12m = z12;
    z012.append(&mut z12m);

    proof {
        assert(x012@.len() == nrows + 1);
        assert(x02@.len() == nrows + 1);
        lemma_combined_rows(gx01, gx12, x012@, a, b, c, xa, xb, xc);
        lemma_combined_rows(gh01, gh12, h012@, a, b, c, a.h as int, b.h as int, c.h as int);
        lemma_combined_rows(gz01, gz12, z012@, a, b, c, a.z as int, b.z as int, c.z as int);
        lemma_edge_rows(x02@, a.y as int, xa, c.y as int, xc);
        lemma_edge_rows(h02@, a.y as int, a.h as int, c.y as int, c.h as int);
        lemma_edge_rows(z02@, a.y as int, a.z as int, c.y as int, c.z as int);
        assert forall|k: int| 0 <= k <= nrows
            implies vstd::math::min(vstd::math::min(xa, xb), xc) <= #[trigger] x012@[k]
                    <= vstd::math::max(vstd::math::max(xa, xb), xc)
                && -INTERP_LIM <= h012@[k] <= INTERP_LIM
                && -INTERP_LIM <= z012@[k] <= INTERP_LIM by {
            let n01 = b.y as int - a.y as int;
            if k < n01 {
                assert(x012@[k] == gx01[k]);
                assert(h012@[k] == gh01[k]);
                assert(z012@[k] == gz01[k]);
            } else {
                assert(x012@[k] == gx12[k - n01]);
                assert(h012@[k] == gh12[k - n01]);
                assert(z012@[k] == gz12[k - n01]);
            }
        }
        assert forall|k: int| 0 <= k <= nrows
            implies vstd::math::min(vstd::math::min(xa, xb), xc) <= #[trigger] x02@[k]
                    <= vstd::math::max(vstd::math::max(xa, xb), xc)
                && -INTERP_LIM <= h02@[k] <= INTERP_LIM
                && -INTERP_LIM <= z02@[k] <= INTERP_LIM by {}
    }

    let m: usize = x02.len() / 2;
    let cond: bool = x02[m] < x012[m];
    proof {
        assert(m as int == (nrows + 1) / 2);
        assert(cond == long_edge_is_left(a, b, c));
    }
    if cond {
        (x02, x012, h02, h012, z02, z012)
    } else {
        (x012, x02, h012, h02, z012, z02)
    }
}


/// Whether a model vertex, once transformed, sits far enough in front
/// of the camera to project and lands on the canvas: what rasterizing
/// a triangle that references it needs. Clipping can leave vertices
/// behind a plane in the list — referenced by no surviving triangle —
/// and those need not satisfy this.
pub open spec fn vertex_renders(t: Transform, v: Vec3) -> bool {
    let w = transform_vertex_spec(t, v);
    w.z >= FX_HALF
        && in_canvas(fx_round_spec(project_x_fx(w)), fx_round_spec(project_y_fx(w)))
}

/// Whether all three vertices the triangle references render under the
/// transform.
pub open spec fn triangle_renders(t: Transform, vs: Seq<Vec3>, tri: Triangle) -> bool {
    vertex_renders(t, vs[tri.v0 as int])
        && vertex_renders(t, vs[tri.v1 as int])
        && vertex_renders(t, vs[tri.v2 as int])
}

/// A projected point the rasterizer can take: on the canvas, with its
/// attributes inside the interpolation range.
pub open spec fn point_ok(p: Point3D) -> bool {
    in_canvas(p.x as int, p.y as int)
        && -INTERP_LIM <= p.z <= INTERP_LIM
        && -INTERP_LIM <= p.h <= INTERP_LIM
}

/// The screen point a model vertex reaches after the instance transform
/// and perspective projection, paired with its inverse depth and the
/// default shading. A vertex too close to or behind the camera — one
/// only clipping leftovers hold, never a rasterized triangle — takes a
/// fixed placeholder instead of a projection.
pub open spec fn projected_point_spec(t: Transform, v: Vec3) -> Point3D {
    let w = transform_vertex_spec(t, v);
    if w.z >= FX_HALF {
        Point3D {
            x: fx_round_spec(project_x_fx(w)) as i32,
            y: fx_round_spec(project_y_fx(w)) as i32,
            z: crate::fixed::fx_div_spec(FX_ONE as int, w.z as int) as i64,
            h: FX_ONE,
        }
    } else {
        Point3D { x: 0, y: 0, z: 0, h: FX_ONE }
    }
}

/// The projected points of a whole vertex list.
pub open spec fn projected_points(t: Transform, vs: Seq<Vec3>) -> Seq<Point3D> {
    Seq::new(vs.len(), |j: int| projected_point_spec(t, vs[j]))
}

/// A vertex that renders projects to a point the rasterizer can take.
proof fn lemma_projected_point_ok(t: Transform, v: Vec3)
    requires
        vertex_renders(t, v),
    ensures
        point_ok(projected_point_spec(t, v)),
{
    let w = transform_vertex_spec(t, v);
    vstd::arithmetic::div_mod::lemma_div_is_ordered_by_denominator(
        65536int * 65536int, 32768, w.z as int);
    assert((65536int * 65536int) / 32768int == 131072) by (nonlinear_arith);
    vstd::arithmetic::div_mod::lemma_div_pos_is_pos(65536int * 65536int, w.z as int);
}

/// The x pixel coordinate a buffer index addresses.
pub open spec fn px_x(i: int) -> int {
    i % 640 - 320
}

/// The y pixel coordinate a buffer index addresses.
pub open spec fn px_y(i: int) -> int {
    319 - i / 640
}

/// Buffer indexing and the centered coordinates invert each other.
pub proof fn lemma_px_index_inverse(i: int)
    requires
        0 <= i < CANVAS_PIXELS,
    ensures
        in_canvas(px_x(i), px_y(i)),
        px_index(px_x(i), px_y(i)) == i,
{
    vstd::arithmetic::div_mod::lemma_fundamental_div_mod(i, 640);
    vstd::arithmetic::div_mod::lemma_mod_division_less_than_divisor(i, 640);
    vstd::arithmetic::div_mod::lemma_div_pos_is_pos(i, 640);
    vstd::arithmetic::div_mod::lemma_div_is_ordered(i, 409599, 640);
    assert(409599int / 640int == 639) by (nonlinear_arith);
    assert((CANVAS_BOUND_Y - 1 - px_y(i)) * (CANVAS_WIDTH as int) == (i / 640) * 640);
    assert((i / 640) * 640 == 640 * (i / 640)) by {
        vstd::arithmetic::mul::lemma_mul_is_commutative(i / 640, 640);
    }
}

/// The whole pixel buffer after one fill: the per-pixel fill outcome at
/// every coordinate.
pub open spec fn fill_bufs(buf: Seq<u32>, dep: Seq<i64>,
    p0: Point3D, p1: Point3D, p2: Point3D, color: Color) -> Seq<u32> {
    Seq::new(buf.len(), |i: int| fill_buf_at(buf, dep, p0, p1, p2, color, px_x(i), px_y(i)))
}

/// The whole depth buffer after one fill.
pub open spec fn fill_deps(dep: Seq<i64>,
    p0: Point3D, p1: Point3D, p2: Point3D) -> Seq<i64> {
    Seq::new(dep.len(), |i: int| fill_dep_at(dep, p0, p1, p2, px_x(i), px_y(i)))
}

/// Both buffers after filling the listed triangles over the projected
/// points, in order.
pub open spec fn render_tris(buf: Seq<u32>, dep: Seq<i64>,
    proj: Seq<Point3D>, ts: Seq<Triangle>) -> (Seq<u32>, Seq<i64>)
    decreases ts.len(),
{
    if ts.len() == 0 {
        (buf, dep)
    } else {
        let prev = render_tris(buf, dep, proj, ts.drop_last());
        let t = ts.last();
        (fill_bufs(prev.0, prev.1, proj[t.v0 as int], proj[t.v1 as int], proj[t.v2 as int],
            t.color),
         fill_deps(prev.1, proj[t.v0 as int], proj[t.v1 as int], proj[t.v2 as int]))
    }
}

/// Both buffers after rendering the kept, clipped instances in scene
/// order, each over its own projected vertices.
pub open spec fn render_scene_spec(buf: Seq<u32>, dep: Seq<i64>,
    kept: Seq<(Instance, (Seq<Vec3>, Seq<Triangle>))>) -> (Seq<u32>, Seq<i64>)
    decreases kept.len(),
{
    if kept.len() == 0 {
        (buf, dep)
    } else {
        let prev = render_scene_spec(buf, dep, kept.drop_last());
        let inst = kept.last();
        render_tris(prev.0, prev.1, projected_points(inst.0.transform, inst.1.0), inst.1.1)
    }
}


/// Filling two triangles in either order leaves the same pixel and
/// depth buffers, provided the two never interpolate equal inverse
/// depths at a pixel both cover: with depth testing on, the drawn image
/// does not depend on draw order.
pub proof fn lemma_fill_order_independent(
    buf: Seq<u32>, dep: Seq<i64>,
    a0: Point3D, a1: Point3D, a2: Point3D, ca: Color,
    b0: Point3D, b1: Point3D, b2: Point3D, cb: Color,
)
    requires
        buf.len() == CANVAS_PIXELS,
        dep.len() == CANVAS_PIXELS,
        forall|x: int, y: int| in_canvas(x, y)
            && #[trigger] tri_covers(ysort3_spec(a0, a1, a2).0, ysort3_spec(a0, a1, a2).1,
                ysort3_spec(a0, a1, a2).2, x, y)
            ==> i64::MIN <= row_z(ysort3_spec(a0, a1, a2).0, ysort3_spec(a0, a1, a2).1,
                ysort3_spec(a0, a1, a2).2, x, y) <= i64::MAX,
        forall|x: int, y: int| in_canvas(x, y)
            && #[trigger] tri_covers(ysort3_spec(b0, b1, b2).0, ysort3_spec(b0, b1, b2).1,
                ysort3_spec(b0, b1, b2).2, x, y)
            ==> i64::MIN <= row_z(ysort3_spec(b0, b1, b2).0, ysort3_spec(b0, b1, b2).1,
                ysort3_spec(b0, b1, b2).2, x, y) <= i64::MAX,
        forall|x: int, y: int| in_canvas(x, y)
            && #[trigger] tri_covers(ysort3_spec(a0, a1, a2).0, ysort3_spec(a0, a1, a2).1,
                ysort3_spec(a0, a1, a2).2, x, y)
            && #[trigger] tri_covers(ysort3_spec(b0, b1, b2).0, ysort3_spec(b0, b1, b2).1,
                ysort3_spec(b0, b1, b2).2, x, y)
            ==> row_z(ysort3_spec(a0, a1, a2).0, ysort3_spec(a0, a1, a2).1,
                    ysort3_spec(a0, a1, a2).2, x, y)
                != row_z(ysort3_spec(b0, b1, b2).0, ysort3_spec(b0, b1, b2).1,
                    ysort3_spec(b0, b1, b2).2, x, y),
    ensures
        fill_bufs(fill_bufs(buf, dep, a0, a1, a2, ca), fill_deps(dep, a0, a1, a2),
            b0, b1, b2, cb)
            == fill_bufs(fill_bufs(buf, dep, b0, b1, b2, cb), fill_deps(dep, b0, b1, b2),
                a0, a1, a2, ca),
        fill_deps(fill_deps(dep, a0, a1, a2), b0, b1, b2)
            == fill_deps(fill_deps(dep, b0, b1, b2), a0, a1, a2),
{
    let ab_buf = fill_bufs(fill_bufs(buf, dep, a0, a1, a2, ca), fill_deps(dep, a0, a1, a2),
        b0, b1, b2, cb);
    let ab_dep = fill_deps(fill_deps(dep, a0, a1, a2), b0, b1, b2);
    let ba_buf = fill_bufs(fill_bufs(buf, dep, b0, b1, b2, cb), fill_deps(dep, b0, b1, b2),
        a0, a1, a2, ca);
    let ba_dep = fill_deps(fill_deps(dep, b0, b1, b2), a0, a1, a2);
    assert forall|i: int| 0 <= i < CANVAS_PIXELS
        implies ab_buf[i] == ba_buf[i] && ab_dep[i] == ba_dep[i] by {
        {
            lemma_px_index_inverse(i);
            let x = px_x(i);
            let y = px_y(i);
            let sa = ysort3_spec(a0, a1, a2);
            let sb = ysort3_spec(b0, b1, b2);
            let cov_a = tri_covers(sa.0, sa.1, sa.2, x, y);
            let cov_b = tri_covers(sb.0, sb.1, sb.2, x, y);
            let za = row_z(sa.0, sa.1, sa.2, x, y);
            let zb = row_z(sb.0, sb.1, sb.2, x, y);
            assert(px_index(x, y) == i);
            assert(fill_deps(dep, a0, a1, a2)[i] == fill_dep_at(dep, a0, a1, a2, x, y));
            assert(fill_deps(dep, b0, b1, b2)[i] == fill_dep_at(dep, b0, b1, b2, x, y));
            assert(fill_bufs(buf, dep, a0, a1, a2, ca)[i]
                == fill_buf_at(buf, dep, a0, a1, a2, ca, x, y));
            assert(fill_bufs(buf, dep, b0, b1, b2, cb)[i]
                == fill_buf_at(buf, dep, b0, b1, b2, cb, x, y));
            if cov_a && cov_b {
                assert(za != zb);
                assert(za as i64 == za && zb as i64 == zb);
            }
        }
    }
    assert(ab_buf =~= ba_buf);
    assert(ab_dep =~= ba_dep);
}


/// Whether the segment from `p0` to `p1` steps along x: strictly wider
/// than tall.
pub open spec fn line_major_x(p0: Point2D, p1: Point2D) -> bool {
    vstd::math::abs(p0.x - p1.x) > vstd::math::abs(p0.y - p1.y)
}

/// Whether drawing the segment paints pixel (x, y): exactly one pixel
/// per integer step of the major axis, at the rounded interpolated
/// minor coordinate, with the endpoints normalized along the stepping
/// axis first.
pub open spec fn line_covers(p0: Point2D, p1: Point2D, x: int, y: int) -> bool {
    if line_major_x(p0, p1) {
        let (a, b) = if p0.x > p1.x { (p1, p0) } else { (p0, p1) };
        a.x <= x <= b.x
            && y == fx_round_spec(edge_val(a.x as int, a.y as int * 65536,
                b.x as int, b.y as int * 65536, x))
    } else {
        let (a, b) = if p0.y > p1.y { (p1, p0) } else { (p0, p1) };
        a.y <= y <= b.y
            && x == fx_round_spec(edge_val(a.y as int, a.x as int * 65536,
                b.y as int, b.x as int * 65536, y))
    }
}

/// The pixel the segment leaves at canvas coordinate (x, y).
pub open spec fn line_buf_at(obuf: Seq<u32>, p0: Point2D, p1: Point2D, color: Color,
    x: int, y: int) -> u32 {
    if line_covers(p0, p1, x, y) {
        pack_rgb(color.r, color.g, color.b)
    } else {
        obuf[px_index(x, y)]
    }
}

/// The whole pixel buffer after drawing the segment.
pub open spec fn line_bufs(obuf: Seq<u32>, p0: Point2D, p1: Point2D, color: Color) -> Seq<u32> {
    Seq::new(obuf.len(), |i: int| line_buf_at(obuf, p0, p1, color, px_x(i), px_y(i)))
}

/// Reading the buffer a segment leaves at a canvas coordinate gives
/// that coordinate's per-pixel outcome.
proof fn lemma_line_buf_value(obuf: Seq<u32>, p0: Point2D, p1: Point2D, color: Color,
    x: int, y: int)
    requires
        obuf.len() == CANVAS_PIXELS,
        in_canvas(x, y),
    ensures
        line_bufs(obuf, p0, p1, color)[px_index(x, y)] == line_buf_at(obuf, p0, p1, color, x, y),
{
    let i = px_index(x, y);
    lemma_px_index_bounds(x, y);
    lemma_px_index_inverse(i);
    lemma_px_index_injective(px_x(i), px_y(i), x, y);
}

/// A segment covers both of its endpoints.
proof fn lemma_line_covers_endpoints(p0: Point2D, p1: Point2D)
    requires
        in_canvas(p0.x as int, p0.y as int),
        in_canvas(p1.x as int, p1.y as int),
    ensures
        line_covers(p0, p1, p0.x as int, p0.y as int),
        line_covers(p0, p1, p1.x as int, p1.y as int),
{
    if line_major_x(p0, p1) {
        let (a, b) = if p0.x > p1.x { (p1, p0) } else { (p0, p1) };
        let n = b.x as int - a.x as int;
        assert(n >= 1);
        let d0 = a.y as int * 65536;
        let d1 = b.y as int * 65536;
        assert(edge_val(a.x as int, d0, b.x as int, d1, a.x as int) == d0) by {
            assert(crate::utils::lerp_slope(d0, d1, n) * 0 == 0) by (nonlinear_arith);
        }
        lemma_round_near_multiple(a.y as int, 0);
        crate::utils::lemma_slope_props(d0, d1, n);
        let v = edge_val(a.x as int, d0, b.x as int, d1, b.x as int);
        assert(v == crate::utils::lerp_val(d0, d1, n, n));
        lemma_round_near_endpoint(b.y as int, v, n);
    } else {
        let (a, b) = if p0.y > p1.y { (p1, p0) } else { (p0, p1) };
        let n = b.y as int - a.y as int;
        let d0 = a.x as int * 65536;
        let d1 = b.x as int * 65536;
        if n == 0 {
            assert(a.x == b.x && a.y == b.y);
            lemma_round_near_multiple(a.x as int, 0);
        } else {
            assert(edge_val(a.y as int, d0, b.y as int, d1, a.y as int) == d0) by {
                assert(crate::utils::lerp_slope(d0, d1, n) * 0 == 0) by (nonlinear_arith);
            }
            lemma_round_near_multiple(a.x as int, 0);
            crate::utils::lemma_slope_props(d0, d1, n);
            let v = edge_val(a.y as int, d0, b.y as int, d1, b.y as int);
            assert(v == crate::utils::lerp_val(d0, d1, n, n));
            lemma_round_near_endpoint(b.x as int, v, n);
        }
    }
}

/// Drawing a segment from either endpoint paints the same pixels: the
/// stepping axis and the order along it are normalized before
/// interpolating, so the painted set is symmetric in the endpoints.
pub proof fn lemma_line_order_independent(obuf: Seq<u32>, p0: Point2D, p1: Point2D, color: Color)
    ensures
        line_bufs(obuf, p0, p1, color) == line_bufs(obuf, p1, p0, color),
{
    assert forall|i: int| 0 <= i < obuf.len()
        implies line_bufs(obuf, p0, p1, color)[i] == line_bufs(obuf, p1, p0, color)[i] by {
        assert(line_covers(p0, p1, px_x(i), px_y(i)) == line_covers(p1, p0, px_x(i), px_y(i)));
    }
    assert(line_bufs(obuf, p0, p1, color) =~= line_bufs(obuf, p1, p0, color));
}

/// The five frustum planes as concrete values: what `render_scene`
/// clips against.
pub fn frustum_planes() -> (planes: Vec<Plane>)
    ensures
        planes@ == frustum_planes_spec(),
        forall|j: int| 0 <= j < planes@.len() ==> (#[trigger] planes@[j]).wf(),
{
    let mut planes: Vec<Plane> = Vec::new();
    planes.push(Plane::new(Vec3::new(0, 0, 65536), -VIEWPORT_DISTANCE));
    planes.push(Plane::new(Vec3::new(46341, 0, 46341), 0));
    planes.push(Plane::new(Vec3::new(-46341, 0, 46341), 0));
    planes.push(Plane::new(Vec3::new(0, 46341, 46341), 0));
    planes.push(Plane::new(Vec3::new(0, -46341, 46341), 0));
    proof {
        assert(planes@ =~= frustum_planes_spec());
        assert forall|j: int| 0 <= j < planes@.len()
            implies (#[trigger] planes@[j]).wf() by {}
    }
    planes
}


/// On the near plane the signed distance is exactly the depth beyond
/// the viewport plane: `dot(normal, v) + d == v.z - VIEWPORT_DISTANCE`
/// in this fixed-point model. So a vertex the near-plane clip keeps
/// (signed distance at least zero) sits at least one full viewport
/// distance in front of the camera, well inside the projection's
/// domain: clipping against the near plane first is what makes the
/// kept geometry projectable.
pub proof fn lemma_near_plane_distance_is_depth(v: Vec3)
    ensures
        crate::utils::sd_spec(frustum_planes_spec()[0], v) == v.z - VIEWPORT_DISTANCE,
        crate::utils::sd_spec(frustum_planes_spec()[0], v) >= 0 ==> v.z >= FX_ONE > FX_HALF,
{
    crate::fixed::lemma_fx_mul_zero(v.x as int);
    crate::fixed::lemma_fx_mul_zero(v.y as int);
    crate::fixed::lemma_fx_mul_unit(v.z as int);
}


/// A vertex the near-plane clip appends lies on the plane within
/// fixed-point tolerance: its depth sits at the viewport distance,
/// overshooting it by less than 129 units (about two thousandths of a
/// unit), and in particular never undershooting. `a` is the inside end
/// of the clipped edge, `b` the outside end.
pub proof fn lemma_near_clip_point_on_plane(a: Vec3, b: Vec3)
    requires
        a.in_range(MODEL_LIM as int),
        b.in_range(MODEL_LIM as int),
        a.z >= FX_ONE,
        b.z < FX_ONE,
    ensures
        ({
            let r = crate::utils::intersect_spec(frustum_planes_spec()[0], a, b);
            FX_ONE <= r.z <= FX_ONE + 128
        }),
{
    let p = frustum_planes_spec()[0];
    let s = 65536int;
    let az = a.z as int;
    let bz = b.z as int;
    let aa = az - s;
    let dd = az - bz;
    let dx = (b.x - a.x) as i64;
    let dy = (b.y - a.y) as i64;
    let dz = (b.z - a.z) as i64;

    // the near normal collapses both dot products to plain depths
    crate::fixed::lemma_fx_mul_zero(dx as int);
    crate::fixed::lemma_fx_mul_zero(dy as int);
    crate::fixed::lemma_fx_mul_unit(dz as int);
    crate::fixed::lemma_fx_mul_zero(a.x as int);
    crate::fixed::lemma_fx_mul_zero(a.y as int);
    crate::fixed::lemma_fx_mul_unit(az);
    let den = dot_spec(Vec3 { x: dx, y: dy, z: dz }, p.normal);
    assert(den == bz - az);
    assert(den != 0);
    let num = -p.d - dot_spec(a, p.normal);
    assert(num == s - az);

    // the interpolation parameter is the exact ratio, inside the unit interval
    let traw = crate::fixed::fx_div_spec(num, den);
    assert(num * s == -(aa * s)) by (nonlinear_arith)
        requires num == s - az, aa == az - s, s == 65536;
    assert(aa * s >= 0) by (nonlinear_arith) requires aa >= 0, s == 65536;
    assert(traw == (aa * s) / dd) by {
        assert(vstd::math::abs(num * s) == aa * s);
        assert(vstd::math::abs(den as int) == dd);
    }
    assert(traw >= 0) by {
        vstd::arithmetic::div_mod::lemma_div_pos_is_pos(aa * s, dd);
    }
    assert(traw <= s) by {
        assert(aa * s <= dd * s) by {
            vstd::arithmetic::mul::lemma_mul_inequality(aa, dd, s);
        }
        vstd::arithmetic::div_mod::lemma_div_is_ordered(aa * s, dd * s, dd);
        assert((dd * s) / dd == s) by {
            vstd::arithmetic::div_mod::lemma_div_multiples_vanish(s, dd);
        }
    }
    let t = crate::utils::clamp01_fx(traw);
    assert(t == traw);

    // the stored depth lands within a sliver above the plane
    let q = (t * dd) / s;
    assert(crate::fixed::fx_mul_spec(t, bz - az) == -q) by {
        assert(t * (bz - az) == -(t * dd)) by (nonlinear_arith)
            requires dd == az - bz;
        assert(t * dd >= 0) by {
            vstd::arithmetic::mul::lemma_mul_nonnegative(t, dd);
        }
        if t * dd == 0 {
            vstd::arithmetic::div_mod::lemma_div_of0(s);
        } else {
            assert(vstd::math::abs(t * (bz - az)) == t * dd);
        }
    }
    assert(q <= aa) by {
        assert(t * dd <= aa * s) by {
            vstd::arithmetic::div_mod::lemma_fundamental_div_mod(aa * s, dd);
            vstd::arithmetic::div_mod::lemma_remainder_lower(aa * s, dd);
            assert(dd * t == t * dd) by {
                vstd::arithmetic::mul::lemma_mul_is_commutative(dd, t);
            }
        }
        vstd::arithmetic::div_mod::lemma_div_is_ordered(t * dd, aa * s, s);
        assert((aa * s) / s == aa) by {
            vstd::arithmetic::div_mod::lemma_div_by_multiple(aa, s);
        }
    }
    assert(q >= aa - 128) by {
        assert(t * dd > aa * s - dd) by {
            vstd::arithmetic::div_mod::lemma_fundamental_div_mod(aa * s, dd);
            vstd::arithmetic::div_mod::lemma_remainder_upper(aa * s, dd);
            assert(dd * t == t * dd) by {
                vstd::arithmetic::mul::lemma_mul_is_commutative(dd, t);
            }
        }
        assert(dd <= 128 * s);
        assert(aa * s - 128 * s == s * (aa - 128)) by (nonlinear_arith);
        vstd::arithmetic::div_mod::lemma_div_is_ordered(s * (aa - 128), t * dd, s);
        assert((s * (aa - 128)) / s == aa - 128) by {
            vstd::arithmetic::div_mod::lemma_div_multiples_vanish(aa - 128, s);
        }
        vstd::arithmetic::div_mod::lemma_div_pos_is_pos(t * dd, s);
    }
    assert(az - q >= s && az - q <= s + 128);
}

/// The word some brightness scaling of `c` packs to.
pub open spec fn is_shade_of(w: u32, c: Color) -> bool {
    exists|f: int| w == pack_rgb(
        scaled_spec(c, f).r,
        #[trigger] scaled_spec(c, f).g,
        scaled_spec(c, f).b,
    )
}

/// The pixel buffer and its parallel depth buffer.
pub struct Canvas {
    pub buffer: Vec<u32>,
    pub depth_buffer: Vec<i64>,
}

impl Canvas {
    /// Both buffers cover every pixel.
    pub open spec fn wf(self) -> bool {
        self.buffer@.len() == CANVAS_PIXELS && self.depth_buffer@.len() == CANVAS_PIXELS
    }

    /// A canvas filled with the background color, every depth at the
    /// farthest sentinel.
    pub fn new() -> (c: Canvas)
        ensures
            c.wf(),
            forall|i: int| 0 <= i < CANVAS_PIXELS ==> c.buffer@[i] == BACKGROUND,
            forall|i: int| 0 <= i < CANVAS_PIXELS ==> c.depth_buffer@[i] == 0,
    {
        let mut buffer: Vec<u32> = Vec::new();
        let mut depth_buffer: Vec<i64> = Vec::new();
        let mut i: usize = 0;
        while i < CANVAS_PIXELS
            invariant
                i <= CANVAS_PIXELS,
                buffer@.len() == i,
                depth_buffer@.len() == i,
                forall|j: int| 0 <= j < i ==> buffer@[j] == BACKGROUND,
                forall|j: int| 0 <= j < i ==> depth_buffer@[j] == 0,
            decreases CANVAS_PIXELS - i,
        {
            buffer.push(BACKGROUND);
            depth_buffer.push(0);
            i = i + 1;
        }
        Canvas { buffer, depth_buffer }
    }

    /// Writes one pixel, leaving the depth buffer alone. The coordinate
    /// must be writable: a write outside the canvas is a bug upstream.
    pub fn put_pixel(&mut self, p: Point2D, color: &Color)
        requires
            old(self).wf(),
            in_canvas(p.x as int, p.y as int),
        ensures
            final(self).wf(),
            final(self).buffer@ == old(self).buffer@.update(
                px_index(p.x as int, p.y as int),
                pack_rgb(color.r, color.g, color.b)),
            final(self).depth_buffer@ == old(self).depth_buffer@,
    {
        proof {
            lemma_px_index_bounds(p.x as int, p.y as int);
        }
        let row: i64 = (CANVAS_BOUND_Y as i64) - 1 - (p.y as i64);
        let idx: usize = (row * (CANVAS_WIDTH as i64) + (CANVAS_BOUND_X as i64) + (p.x as i64))
            as usize;
        let w: u32 = color.as_u32();
        self.buffer.set(idx, w);
    }

    /// One depth-tested pixel write: paints the pixel and raises the
    /// stored depth only when the new inverse depth is strictly nearer.
    pub fn put_pixel_depth(&mut self, x: i32, y: i32, z: i64, color: &Color)
        requires
            old(self).wf(),
            in_canvas(x as int, y as int),
        ensures
            final(self).wf(),
            final(self).buffer@ == depth_write_spec(
                old(self).buffer@, old(self).depth_buffer@,
                px_index(x as int, y as int), z,
                pack_rgb(color.r, color.g, color.b)).0,
            final(self).depth_buffer@ == depth_write_spec(
                old(self).buffer@, old(self).depth_buffer@,
                px_index(x as int, y as int), z,
                pack_rgb(color.r, color.g, color.b)).1,
    {
        proof {
            lemma_px_index_bounds(x as int, y as int);
        }
        let row: i64 = (CANVAS_BOUND_Y as i64) - 1 - (y as i64);
        let idx: usize = (row * (CANVAS_WIDTH as i64) + (CANVAS_BOUND_X as i64) + (x as i64))
            as usize;
        if z > self.depth_buffer[idx] {
            let w: u32 = color.as_u32();
            self.depth_buffer.set(idx, z);
            self.buffer.set(idx, w);
        }
    }

    /// Draws the segment from `p0` to `p1`: steps along the longer
    /// axis, one pixel per integer step, interpolating and rounding the
    /// other coordinate. The final buffer holds the line color exactly
    /// on the stepped pixels and is untouched elsewhere; both endpoints
    /// are painted; the depth buffer is untouched.
    #[verifier::rlimit(100)]
    pub fn draw_line(&mut self, p0: Point2D, p1: Point2D, color: &Color)
        requires
            old(self).wf(),
            in_canvas(p0.x as int, p0.y as int),
            in_canvas(p1.x as int, p1.y as int),
        ensures
            final(self).wf(),
            final(self).depth_buffer@ == old(self).depth_buffer@,
            final(self).buffer@ == line_bufs(old(self).buffer@, p0, p1, *color),
            final(self).buffer@[px_index(p0.x as int, p0.y as int)]
                == pack_rgb(color.r, color.g, color.b),
            final(self).buffer@[px_index(p1.x as int, p1.y as int)]
                == pack_rgb(color.r, color.g, color.b),
    {
        let ghost obuf = old(self).buffer@;
        let dx: i32 = if p0.x >= p1.x { p0.x - p1.x } else { p1.x - p0.x };
        let dy: i32 = if p0.y >= p1.y { p0.y - p1.y } else { p1.y - p0.y };
        if dx > dy {
            // Mostly horizontal.
            proof {
                assert(line_major_x(p0, p1));
            }
            let (a, b) = if p0.x > p1.x { (p1, p0) } else { (p0, p1) };
            let x0: i32 = a.x;
            let x1: i32 = b.x;
            let ys = interpolate(x0, (a.y as i64) * 65536, x1, (b.y as i64) * 65536);
            let ghost n = x1 as int - x0 as int;
            proof {
                lemma_edge_rows(ys@, x0 as int, a.y as int * 65536, x1 as int,
                    b.y as int * 65536);
            }
            let mut x: i32 = x0;
            while x <= x1
                invariant
                    self.wf(),
                    self.depth_buffer@ == old(self).depth_buffer@,
                    obuf == old(self).buffer@,
                    obuf.len() == CANVAS_PIXELS,
                    in_canvas(a.x as int, a.y as int),
                    in_canvas(b.x as int, b.y as int),
                    line_major_x(p0, p1),
                    a == (if p0.x > p1.x { p1 } else { p0 }),
                    b == (if p0.x > p1.x { p0 } else { p1 }),
                    a.x == x0 <= x <= x1 + 1,
                    x1 == b.x,
                    x0 < x1,
                    n == x1 - x0,
                    ys@.len() == n + 1,
                    forall|k: int| 0 <= k <= n
                        ==> #[trigger] ys@[k] == edge_val(a.x as int, a.y as int * 65536,
                            b.x as int, b.y as int * 65536, a.x + k),
                    forall|k: int| 0 <= k <= n
                        ==> (a.y as int) * 65536 <= #[trigger] ys@[k] <= (b.y as int) * 65536
                            || (b.y as int) * 65536 <= ys@[k] <= (a.y as int) * 65536,
                    forall|xx: int, yy: int| in_canvas(xx, yy) && xx < x
                        ==> self.buffer@[#[trigger] px_index(xx, yy)]
                            == line_buf_at(obuf, p0, p1, *color, xx, yy),
                    forall|xx: int, yy: int| in_canvas(xx, yy) && xx >= x
                        ==> self.buffer@[#[trigger] px_index(xx, yy)] == obuf[px_index(xx, yy)],
                decreases x1 + 1 - x,
            {
                let yv: i64 = ys[(x - x0) as usize];
                let y: i64 = fx_round(yv);
                proof {
                    lemma_round_between(a.y as int, b.y as int, yv as int);
                }
                let ghost pre = self.buffer@;
                self.put_pixel(Point2D { x, y: y as i32, h: FX_ONE }, color);
                proof {
                    let idx = px_index(x as int, y as int);
                    lemma_px_index_bounds(x as int, y as int);
                    assert(y as int == fx_round_spec(edge_val(a.x as int, a.y as int * 65536,
                        b.x as int, b.y as int * 65536, x as int)));
                    assert(line_covers(p0, p1, x as int, y as int));
                    assert forall|xx: int, yy: int| in_canvas(xx, yy) && xx < x + 1
                        implies self.buffer@[#[trigger] px_index(xx, yy)]
                            == line_buf_at(obuf, p0, p1, *color, xx, yy) by {
                        if xx == x as int && yy == y as int {
                            assert(self.buffer@[idx] == pack_rgb(color.r, color.g, color.b));
                        } else {
                            if px_index(xx, yy) == idx {
                                lemma_px_index_injective(xx, yy, x as int, y as int);
                            }
                            lemma_px_index_bounds(xx, yy);
                            assert(self.buffer@[px_index(xx, yy)] == pre[px_index(xx, yy)]);
                            if xx == x as int {
                                assert(!line_covers(p0, p1, xx, yy));
                            }
                        }
                    }
                    assert forall|xx: int, yy: int| in_canvas(xx, yy) && xx >= x + 1
                        implies self.buffer@[#[trigger] px_index(xx, yy)]
                            == obuf[px_index(xx, yy)] by {
                        if px_index(xx, yy) == idx {
                            lemma_px_index_injective(xx, yy, x as int, y as int);
                        }
                        lemma_px_index_bounds(xx, yy);
                    }
                }
                x = x + 1;
            }
            proof {
                assert forall|i: int| 0 <= i < CANVAS_PIXELS
                    implies self.buffer@[i] == line_bufs(obuf, p0, p1, *color)[i] by {
                    lemma_px_index_inverse(i);
                    if px_x(i) >= x {
                        assert(!line_covers(p0, p1, px_x(i), px_y(i)));
                    }
                }
                assert(self.buffer@ =~= line_bufs(obuf, p0, p1, *color));
            }
        } else {
            // Mostly vertical.
            proof {
                assert(!line_major_x(p0, p1));
            }
            let (a, b) = if p0.y > p1.y { (p1, p0) } else { (p0, p1) };
            let y0: i32 = a.y;
            let y1: i32 = b.y;
            let xs = interpolate(y0, (a.x as i64) * 65536, y1, (b.x as i64) * 65536);
            let ghost n = y1 as int - y0 as int;
            proof {
                lemma_edge_rows(xs@, y0 as int, a.x as int * 65536, y1 as int,
                    b.x as int * 65536);
            }
            let mut y: i32 = y0;
            while y <= y1
                invariant
                    self.wf(),
                    self.depth_buffer@ == old(self).depth_buffer@,
                    obuf == old(self).buffer@,
                    obuf.len() == CANVAS_PIXELS,
                    in_canvas(a.x as int, a.y as int),
                    in_canvas(b.x as int, b.y as int),
                    !line_major_x(p0, p1),
                    a == (if p0.y > p1.y { p1 } else { p0 }),
                    b == (if p0.y > p1.y { p0 } else { p1 }),
                    a.y == y0 <= y <= y1 + 1,
                    y1 == b.y,
                    y0 <= y1,
                    n == y1 - y0,
                    xs@.len() == n + 1,
                    forall|k: int| 0 <= k <= n
                        ==> #[trigger] xs@[k] == edge_val(a.y as int, a.x as int * 65536,
                            b.y as int, b.x as int * 65536, a.y + k),
                    forall|k: int| 0 <= k <= n
                        ==> (a.x as int) * 65536 <= #[trigger] xs@[k] <= (b.x as int) * 65536
                            || (b.x as int) * 65536 <= xs@[k] <= (a.x as int) * 65536,
                    forall|xx: int, yy: int| in_canvas(xx, yy) && yy < y
                        ==> self.buffer@[#[trigger] px_index(xx, yy)]
                            == line_buf_at(obuf, p0, p1, *color, xx, yy),
                    forall|xx: int, yy: int| in_canvas(xx, yy) && yy >= y
                        ==> self.buffer@[#[trigger] px_index(xx, yy)] == obuf[px_index(xx, yy)],
                decreases y1 + 1 - y,
            {
                let xv: i64 = xs[(y - y0) as usize];
                let xr: i64 = fx_round(xv);
                proof {
                    lemma_round_between(a.x as int, b.x as int, xv as int);
                }
                let ghost pre = self.buffer@;
                self.put_pixel(Point2D { x: xr as i32, y, h: FX_ONE }, color);
                proof {
                    let idx = px_index(xr as int, y as int);
                    lemma_px_index_bounds(xr as int, y as int);
                    assert(xr as int == fx_round_spec(edge_val(a.y as int, a.x as int * 65536,
                        b.y as int, b.x as int * 65536, y as int)));
                    assert(line_covers(p0, p1, xr as int, y as int));
                    assert forall|xx: int, yy: int| in_canvas(xx, yy) && yy < y + 1
                        implies self.buffer@[#[trigger] px_index(xx, yy)]
                            == line_buf_at(obuf, p0, p1, *color, xx, yy) by {
                        if xx == xr as int && yy == y as int {
                            assert(self.buffer@[idx] == pack_rgb(color.r, color.g, color.b));
                        } else {
                            if px_index(xx, yy) == idx {
                                lemma_px_index_injective(xx, yy, xr as int, y as int);
                            }
                            lemma_px_index_bounds(xx, yy);
                            assert(self.buffer@[px_index(xx, yy)] == pre[px_index(xx, yy)]);
                            if yy == y as int {
                                assert(!line_covers(p0, p1, xx, yy));
                            }
                        }
                    }
                    assert forall|xx: int, yy: int| in_canvas(xx, yy) && yy >= y + 1
                        implies self.buffer@[#[trigger] px_index(xx, yy)]
                            == obuf[px_index(xx, yy)] by {
                        if px_index(xx, yy) == idx {
                            lemma_px_index_injective(xx, yy, xr as int, y as int);
                        }
                        lemma_px_index_bounds(xx, yy);
                    }
                }
                y = y + 1;
            }
            proof {
                assert forall|i: int| 0 <= i < CANVAS_PIXELS
                    implies self.buffer@[i] == line_bufs(obuf, p0, p1, *color)[i] by {
                    lemma_px_index_inverse(i);
                    if px_y(i) >= y {
                        assert(!line_covers(p0, p1, px_x(i), px_y(i)));
                    }
                }
                assert(self.buffer@ =~= line_bufs(obuf, p0, p1, *color));
            }
        }
        proof {
            lemma_line_covers_endpoints(p0, p1);
            lemma_line_buf_value(obuf, p0, p1, *color, p0.x as int, p0.y as int);
            lemma_line_buf_value(obuf, p0, p1, *color, p1.x as int, p1.y as int);
        }
    }

    /// Fills the triangle with the color, shaded per pixel by the
    /// interpolated intensity, writing only pixels that pass the strict
    /// depth test. Every writable pixel ends exactly as one depth-tested
    /// write of the scanline fill's interpolated depth and shading
    /// leaves it; in particular the stored depth never falls, every
    /// touched pixel's depth strictly rises and its color becomes a
    /// shade of the fill color, and nothing outside the triangle's
    /// bounding box changes.
    #[verifier::rlimit(100)]
    pub fn draw_filled_triangle(&mut self, p0: Point3D, p1: Point3D, p2: Point3D, color: &Color)
        requires
            old(self).wf(),
            in_canvas(p0.x as int, p0.y as int),
            in_canvas(p1.x as int, p1.y as int),
            in_canvas(p2.x as int, p2.y as int),
            -INTERP_LIM <= p0.h <= INTERP_LIM,
            -INTERP_LIM <= p1.h <= INTERP_LIM,
            -INTERP_LIM <= p2.h <= INTERP_LIM,
            -INTERP_LIM <= p0.z <= INTERP_LIM,
            -INTERP_LIM <= p1.z <= INTERP_LIM,
            -INTERP_LIM <= p2.z <= INTERP_LIM,
        ensures
            final(self).wf(),
            forall|xx: int, yy: int| in_canvas(xx, yy)
                ==> final(self).buffer@[#[trigger] px_index(xx, yy)]
                        == fill_buf_at(old(self).buffer@, old(self).depth_buffer@,
                            p0, p1, p2, *color, xx, yy)
                    && final(self).depth_buffer@[px_index(xx, yy)]
                        == fill_dep_at(old(self).depth_buffer@, p0, p1, p2, xx, yy),
            final(self).buffer@ == fill_bufs(old(self).buffer@, old(self).depth_buffer@,
                p0, p1, p2, *color),
            final(self).depth_buffer@ == fill_deps(old(self).depth_buffer@, p0, p1, p2),
            forall|i: int| 0 <= i < CANVAS_PIXELS
                ==> final(self).depth_buffer@[i] >= old(self).depth_buffer@[i],
            forall|i: int| 0 <= i < CANVAS_PIXELS
                && (final(self).buffer@[i] != old(self).buffer@[i]
                    || final(self).depth_buffer@[i] != old(self).depth_buffer@[i])
                ==> final(self).depth_buffer@[i] > old(self).depth_buffer@[i]
                    && is_shade_of(final(self).buffer@[i], *color)
                    && covered_box(i,
                        vstd::math::min(vstd::math::min(p0.x as int, p1.x as int), p2.x as int),
                        vstd::math::max(vstd::math::max(p0.x as int, p1.x as int), p2.x as int),
                        vstd::math::min(vstd::math::min(p0.y as int, p1.y as int), p2.y as int),
                        vstd::math::max(vstd::math::max(p0.y as int, p1.y as int), p2.y as int)),
    {
        let ghost obuf = old(self).buffer@;
        let ghost odep = old(self).depth_buffer@;
        let ghost lox = vstd::math::min(vstd::math::min(p0.x as int, p1.x as int), p2.x as int);
        let ghost hix = vstd::math::max(vstd::math::max(p0.x as int, p1.x as int), p2.x as int);
        let ghost loy = vstd::math::min(vstd::math::min(p0.y as int, p1.y as int), p2.y as int);
        let ghost hiy = vstd::math::max(vstd::math::max(p0.y as int, p1.y as int), p2.y as int);

        let mut a = p0;
        let mut b = p1;
        let mut c = p2;
        if a.y > b.y {
            let t = a;
            a = b;
            b = t;
        }
        if a.y > c.y {
            let t = a;
            a = c;
            c = t;
        }
        if b.y > c.y {
            let t = b;
            b = c;
            c = t;
        }
        proof {
            assert(a.y <= b.y <= c.y);
            assert(loy == a.y && hiy == c.y);
            assert((a, b, c) == ysort3_spec(p0, p1, p2));
        }
        let ghost xa = a.x as int * 65536;
        let ghost xb = b.x as int * 65536;
        let ghost xc = c.x as int * 65536;
        let ghost nrows = c.y as int - a.y as int;

        let series = fill_boundaries(a, b, c);
        let (x_left, x_right, h_left, h_right, z_left, z_right) = series;
        let ghost sel = long_edge_is_left(a, b, c);
        proof {
            assert(lox == vstd::math::min(vstd::math::min(a.x as int, b.x as int), c.x as int));
            assert(hix == vstd::math::max(vstd::math::max(a.x as int, b.x as int), c.x as int));
            assert(lox * 65536 == vstd::math::min(vstd::math::min(xa, xb), xc));
            assert(hix * 65536 == vstd::math::max(vstd::math::max(xa, xb), xc));
        }

        let y0i: i32 = a.y;
        let y2i: i32 = c.y;
        let mut y: i32 = y0i;
        while y <= y2i
            invariant
                self.wf(),
                obuf == old(self).buffer@,
                odep == old(self).depth_buffer@,
                obuf.len() == CANVAS_PIXELS,
                odep.len() == CANVAS_PIXELS,
                (a, b, c) == ysort3_spec(p0, p1, p2),
                a.y <= b.y <= c.y,
                sel == long_edge_is_left(a, b, c),
                xa == a.x as int * 65536,
                xb == b.x as int * 65536,
                xc == c.x as int * 65536,
                y0i == a.y && y2i == c.y,
                loy == a.y && hiy == c.y,
                nrows == c.y as int - a.y as int,
                y0i <= y <= y2i + 1,
                -CANVAS_BOUND_X <= lox <= hix < CANVAS_BOUND_X,
                -CANVAS_BOUND_Y <= loy && hiy < CANVAS_BOUND_Y,
                x_left@.len() == nrows + 1,
                x_right@.len() == nrows + 1,
                h_left@.len() == nrows + 1,
                h_right@.len() == nrows + 1,
                z_left@.len() == nrows + 1,
                z_right@.len() == nrows + 1,
                forall|k: int| 0 <= k <= nrows
                    ==> lox * 65536 <= #[trigger] x_left@[k] <= hix * 65536
                        && x_left@[k] == side_val(a, b, c, xa, xb, xc, sel, a.y + k),
                forall|k: int| 0 <= k <= nrows
                    ==> lox * 65536 <= #[trigger] x_right@[k] <= hix * 65536
                        && x_right@[k] == side_val(a, b, c, xa, xb, xc, !sel, a.y + k),
                forall|k: int| 0 <= k <= nrows
                    ==> -INTERP_LIM <= #[trigger] h_left@[k] <= INTERP_LIM
                        && h_left@[k] == side_val(a, b, c, a.h as int, b.h as int, c.h as int,
                            sel, a.y + k),
                forall|k: int| 0 <= k <= nrows
                    ==> -INTERP_LIM <= #[trigger] h_right@[k] <= INTERP_LIM
                        && h_right@[k] == side_val(a, b, c, a.h as int, b.h as int, c.h as int,
                            !sel, a.y + k),
                forall|k: int| 0 <= k <= nrows
                    ==> -INTERP_LIM <= #[trigger] z_left@[k] <= INTERP_LIM
                        && z_left@[k] == side_val(a, b, c, a.z as int, b.z as int, c.z as int,
                            sel, a.y + k),
                forall|k: int| 0 <= k <= nrows
                    ==> -INTERP_LIM <= #[trigger] z_right@[k] <= INTERP_LIM
                        && z_right@[k] == side_val(a, b, c, a.z as int, b.z as int, c.z as int,
                            !sel, a.y + k),
                forall|xx: int, yy: int| in_canvas(xx, yy) && yy < y
                    ==> self.buffer@[#[trigger] px_index(xx, yy)]
                            == fill_buf_at(obuf, odep, p0, p1, p2, *color, xx, yy)
                        && self.depth_buffer@[px_index(xx, yy)]
                            == fill_dep_at(odep, p0, p1, p2, xx, yy),
                forall|xx: int, yy: int| in_canvas(xx, yy) && yy >= y
                    ==> self.buffer@[#[trigger] px_index(xx, yy)] == obuf[px_index(xx, yy)]
                        && self.depth_buffer@[px_index(xx, yy)] == odep[px_index(xx, yy)],
                forall|i: int| 0 <= i < CANVAS_PIXELS
                    ==> self.depth_buffer@[i] >= odep[i],
                forall|i: int| 0 <= i < CANVAS_PIXELS
                    && (self.buffer@[i] != obuf[i] || self.depth_buffer@[i] != odep[i])
                    ==> self.depth_buffer@[i] > odep[i]
                        && is_shade_of(self.buffer@[i], *color)
                        && covered_box(i, lox, hix, loy, hiy),
            decreases y2i + 1 - y,
        {
            let dy: usize = (y - y0i) as usize;
            let xl_fx: i64 = x_left[dy];
            let xr_fx: i64 = x_right[dy];
            let xl64: i64 = fx_round(xl_fx);
            let xr64: i64 = fx_round(xr_fx);
            proof {
                lemma_round_between(lox, hix, xl_fx as int);
                lemma_round_between(lox, hix, xr_fx as int);
                assert(xl64 == row_xl(a, b, c, y as int));
                assert(xr64 == row_xr(a, b, c, y as int));
            }
            let xl: i32 = xl64 as i32;
            let xr: i32 = xr64 as i32;
            if xl <= xr {
                let h_seg = interpolate(xl, h_left[dy], xr, h_right[dy]);
                let z_seg = interpolate(xl, z_left[dy], xr, z_right[dy]);
                proof {
                    assert forall|k: int| 0 <= k < h_seg@.len()
                        implies -INTERP_LIM <= #[trigger] h_seg@[k] <= INTERP_LIM
                            && h_seg@[k] == row_h(a, b, c, xl as int + k, y as int) by {
                        assert(h_left@[dy as int] <= h_seg@[k] <= h_right@[dy as int]
                            || h_right@[dy as int] <= h_seg@[k] <= h_left@[dy as int]);
                    }
                    assert forall|k: int| 0 <= k < z_seg@.len()
                        implies #[trigger] z_seg@[k] == row_z(a, b, c, xl as int + k, y as int) by {
                    }
                }
                let mut x: i32 = xl;
                while x <= xr
                    invariant
                        self.wf(),
                        obuf == old(self).buffer@,
                        odep == old(self).depth_buffer@,
                        obuf.len() == CANVAS_PIXELS,
                        odep.len() == CANVAS_PIXELS,
                        (a, b, c) == ysort3_spec(p0, p1, p2),
                        xl <= x <= xr + 1,
                        lox <= xl <= xr <= hix,
                        -CANVAS_BOUND_X <= lox <= hix < CANVAS_BOUND_X,
                        -CANVAS_BOUND_Y <= loy <= y <= hiy < CANVAS_BOUND_Y,
                        loy == a.y && hiy == c.y,
                        xl == row_xl(a, b, c, y as int),
                        xr == row_xr(a, b, c, y as int),
                        h_seg@.len() == xr - xl + 1,
                        z_seg@.len() == xr - xl + 1,
                        forall|k: int| 0 <= k < h_seg@.len()
                            ==> -INTERP_LIM <= #[trigger] h_seg@[k] <= INTERP_LIM
                                && h_seg@[k] == row_h(a, b, c, xl as int + k, y as int),
                        forall|k: int| 0 <= k < z_seg@.len()
                            ==> #[trigger] z_seg@[k] == row_z(a, b, c, xl as int + k, y as int),
                        forall|xx: int, yy: int| in_canvas(xx, yy)
                            && (yy < y || (yy == y && xx < x))
                            ==> self.buffer@[#[trigger] px_index(xx, yy)]
                                    == fill_buf_at(obuf, odep, p0, p1, p2, *color, xx, yy)
                                && self.depth_buffer@[px_index(xx, yy)]
                                    == fill_dep_at(odep, p0, p1, p2, xx, yy),
                        forall|xx: int, yy: int| in_canvas(xx, yy)
                            && (yy > y || (yy == y && xx >= x))
                            ==> self.buffer@[#[trigger] px_index(xx, yy)] == obuf[px_index(xx, yy)]
                                && self.depth_buffer@[px_index(xx, yy)] == odep[px_index(xx, yy)],
                        forall|i: int| 0 <= i < CANVAS_PIXELS
                            ==> self.depth_buffer@[i] >= odep[i],
                        forall|i: int| 0 <= i < CANVAS_PIXELS
                            && (self.buffer@[i] != obuf[i] || self.depth_buffer@[i] != odep[i])
                            ==> self.depth_buffer@[i] > odep[i]
                                && is_shade_of(self.buffer@[i], *color)
                                && covered_box(i, lox, hix, loy, hiy),
                    decreases xr + 1 - x,
                {
                    let zz: i64 = z_seg[(x - xl) as usize];
                    let hh: i64 = h_seg[(x - xl) as usize];
                    let shaded = color.scaled(hh);
                    let ghost pre_buf = self.buffer@;
                    let ghost pre_dep = self.depth_buffer@;
                    self.put_pixel_depth(x, y, zz, &shaded);
                    proof {
                        let idx = px_index(x as int, y as int);
                        lemma_px_index_bounds(x as int, y as int);
                        assert(zz == row_z(a, b, c, x as int, y as int));
                        assert(hh == row_h(a, b, c, x as int, y as int));
                        assert(tri_covers(a, b, c, x as int, y as int));
                        assert(pack_rgb(shaded.r, shaded.g, shaded.b)
                            == shade_word(*color, hh as int));
                        lemma_fill_write_frame(obuf, odep, pre_buf, pre_dep,
                            self.buffer@, self.depth_buffer@,
                            p0, p1, p2, *color, x as int, y as int, zz,
                            pack_rgb(shaded.r, shaded.g, shaded.b), hh);
                        assert forall|i: int| 0 <= i < CANVAS_PIXELS
                            implies self.depth_buffer@[i] >= odep[i] by {
                            if i != idx {
                                assert(self.depth_buffer@[i] == pre_dep[i]);
                            } else {
                                assert(pre_dep[idx] == odep[idx]);
                            }
                        }
                        assert forall|i: int| 0 <= i < CANVAS_PIXELS
                            && (self.buffer@[i] != obuf[i] || self.depth_buffer@[i] != odep[i])
                            implies self.depth_buffer@[i] > odep[i]
                                && is_shade_of(self.buffer@[i], *color)
                                && covered_box(i, lox, hix, loy, hiy) by {
                            if self.buffer@[i] != pre_buf[i] || self.depth_buffer@[i] != pre_dep[i] {
                                assert(i == idx);
                                assert(zz > pre_dep[idx]);
                                assert(self.buffer@[i] == pack_rgb(
                                    scaled_spec(*color, hh as int).r,
                                    scaled_spec(*color, hh as int).g,
                                    scaled_spec(*color, hh as int).b));
                                assert(is_shade_of(self.buffer@[i], *color));
                                assert(in_canvas(x as int, y as int)
                                    && i == px_index(x as int, y as int));
                                assert(covered_box(i, lox, hix, loy, hiy));
                            }
                        }
                    }
                    x = x + 1;
                }
            }
            proof {
                assert forall|xx: int, yy: int| in_canvas(xx, yy) && yy < y + 1
                    implies self.buffer@[#[trigger] px_index(xx, yy)]
                            == fill_buf_at(obuf, odep, p0, p1, p2, *color, xx, yy)
                        && self.depth_buffer@[px_index(xx, yy)]
                            == fill_dep_at(odep, p0, p1, p2, xx, yy) by {
                    lemma_px_index_bounds(xx, yy);
                    if yy == y {
                        if row_xl(a, b, c, y as int) > row_xr(a, b, c, y as int) {
                            assert(!tri_covers(a, b, c, xx, yy));
                        } else if xx > row_xr(a, b, c, y as int) {
                            assert(!tri_covers(a, b, c, xx, yy));
                        }
                    }
                }
            }
            y = y + 1;
        }
        proof {
            assert forall|xx: int, yy: int| in_canvas(xx, yy) && yy > c.y
                implies !tri_covers(a, b, c, xx, yy) by {}
            assert forall|i: int| 0 <= i < CANVAS_PIXELS
                implies self.buffer@[i]
                        == fill_bufs(obuf, odep, p0, p1, p2, *color)[i]
                    && self.depth_buffer@[i]
                        == fill_deps(odep, p0, p1, p2)[i] by {
                lemma_px_index_inverse(i);
            }
            assert(self.buffer@ =~= fill_bufs(obuf, odep, p0, p1, p2, *color));
            assert(self.depth_buffer@ =~= fill_deps(odep, p0, p1, p2));
        }
    }

    /// Fills one of a model's triangles from its projected vertices.
    pub fn render_triangle(&mut self, triangle: &Triangle, projected: &Vec<Point3D>)
        requires
            old(self).wf(),
            triangle.indices_lt(projected@.len() as int),
            point_ok(projected@[triangle.v0 as int]),
            point_ok(projected@[triangle.v1 as int]),
            point_ok(projected@[triangle.v2 as int]),
        ensures
            final(self).wf(),
            final(self).buffer@ == fill_bufs(old(self).buffer@, old(self).depth_buffer@,
                projected@[triangle.v0 as int], projected@[triangle.v1 as int],
                projected@[triangle.v2 as int], triangle.color),
            final(self).depth_buffer@ == fill_deps(old(self).depth_buffer@,
                projected@[triangle.v0 as int], projected@[triangle.v1 as int],
                projected@[triangle.v2 as int]),
            forall|i: int| 0 <= i < CANVAS_PIXELS
                ==> final(self).depth_buffer@[i] >= old(self).depth_buffer@[i],
            forall|i: int| 0 <= i < CANVAS_PIXELS
                && (final(self).buffer@[i] != old(self).buffer@[i]
                    || final(self).depth_buffer@[i] != old(self).depth_buffer@[i])
                ==> final(self).depth_buffer@[i] > old(self).depth_buffer@[i]
                    && is_shade_of(final(self).buffer@[i], triangle.color),
    {
        self.draw_filled_triangle(
            projected[triangle.v0],
            projected[triangle.v1],
            projected[triangle.v2],
            &triangle.color,
        );
    }

    /// Transforms and projects every vertex of the instance's model
    /// once, pairing each screen point with its inverse depth, then
    /// rasterizes every triangle over that shared projection. Vertices
    /// no triangle references (a split triangle's outside corners,
    /// which clipping leaves in the list) may sit behind the camera;
    /// they take a placeholder and are never rasterized.
    pub fn render_instance(&mut self, instance: &Instance, transform: &Transform)
        requires
            old(self).wf(),
            instance.model.wf(),
            transform.wf(),
            forall|k: int| 0 <= k < instance.model.triangles@.len()
                ==> triangle_renders(*transform, instance.model.vertices@,
                    #[trigger] instance.model.triangles@[k]),
        ensures
            final(self).wf(),
            (final(self).buffer@, final(self).depth_buffer@)
                == render_tris(old(self).buffer@, old(self).depth_buffer@,
                    projected_points(*transform, instance.model.vertices@),
                    instance.model.triangles@),
            forall|i: int| 0 <= i < CANVAS_PIXELS
                ==> final(self).depth_buffer@[i] >= old(self).depth_buffer@[i],
            forall|i: int| 0 <= i < CANVAS_PIXELS
                && (final(self).buffer@[i] != old(self).buffer@[i]
                    || final(self).depth_buffer@[i] != old(self).depth_buffer@[i])
                ==> final(self).depth_buffer@[i] > old(self).depth_buffer@[i],
    {
        let n: usize = instance.model.vertices.len();
        let mut projected: Vec<Point3D> = Vec::new();
        let mut i: usize = 0;
        while i < n
            invariant
                instance.model.wf(),
                transform.wf(),
                n == instance.model.vertices@.len(),
                i <= n,
                projected@.len() == i as int,
                forall|j: int| 0 <= j < i as int
                    ==> #[trigger] projected@[j]
                        == projected_point_spec(*transform, instance.model.vertices@[j]),
            decreases n - i,
        {
            let v_t = transform.get_transformed_vertex(&instance.model.vertices[i]);
            if v_t.z >= FX_HALF {
                let proj = project_vertex(v_t);
                let zinv: i64 = fx_div(FX_ONE, v_t.z);
                projected.push(Point3D { x: proj.x, y: proj.y, z: zinv, h: FX_ONE });
            } else {
                projected.push(Point3D { x: 0, y: 0, z: 0, h: FX_ONE });
            }
            i = i + 1;
        }

        proof {
            assert(projected@ =~= projected_points(*transform, instance.model.vertices@));
        }
        let ghost obuf = old(self).buffer@;
        let ghost odep = old(self).depth_buffer@;
        let nt: usize = instance.model.triangles.len();
        let mut k: usize = 0;
        proof {
            assert(instance.model.triangles@.take(0) =~= Seq::<Triangle>::empty());
        }
        while k < nt
            invariant
                self.wf(),
                obuf == old(self).buffer@,
                odep == old(self).depth_buffer@,
                instance.model.wf(),
                transform.wf(),
                nt == instance.model.triangles@.len(),
                k <= nt,
                projected@.len() == instance.model.vertices@.len(),
                projected@ == projected_points(*transform, instance.model.vertices@),
                forall|k2: int| 0 <= k2 < instance.model.triangles@.len()
                    ==> triangle_renders(*transform, instance.model.vertices@,
                        #[trigger] instance.model.triangles@[k2]),
                (self.buffer@, self.depth_buffer@)
                    == render_tris(obuf, odep, projected@,
                        instance.model.triangles@.take(k as int)),
                forall|i2: int| 0 <= i2 < CANVAS_PIXELS
                    ==> self.depth_buffer@[i2] >= odep[i2],
                forall|i2: int| 0 <= i2 < CANVAS_PIXELS
                    && (self.buffer@[i2] != obuf[i2] || self.depth_buffer@[i2] != odep[i2])
                    ==> self.depth_buffer@[i2] > odep[i2],
            decreases nt - k,
        {
            proof {
                let tri = instance.model.triangles@[k as int];
                assert(triangle_renders(*transform, instance.model.vertices@, tri));
                lemma_projected_point_ok(*transform,
                    instance.model.vertices@[tri.v0 as int]);
                lemma_projected_point_ok(*transform,
                    instance.model.vertices@[tri.v1 as int]);
                lemma_projected_point_ok(*transform,
                    instance.model.vertices@[tri.v2 as int]);
                assert(projected@[tri.v0 as int]
                    == projected_point_spec(*transform, instance.model.vertices@[tri.v0 as int]));
                assert(projected@[tri.v1 as int]
                    == projected_point_spec(*transform, instance.model.vertices@[tri.v1 as int]));
                assert(projected@[tri.v2 as int]
                    == projected_point_spec(*transform, instance.model.vertices@[tri.v2 as int]));
            }
            let ghost pre_buf = self.buffer@;
            let ghost pre_dep = self.depth_buffer@;
            self.render_triangle(&instance.model.triangles[k], &projected);
            proof {
                let ts = instance.model.triangles@;
                assert(ts.take(k as int + 1).drop_last() =~= ts.take(k as int));
                assert(ts.take(k as int + 1).last() == ts[k as int]);
                assert((self.buffer@, self.depth_buffer@)
                    == render_tris(obuf, odep, projected@, ts.take(k as int + 1)));
                assert forall|i2: int| 0 <= i2 < CANVAS_PIXELS
                    && (self.buffer@[i2] != obuf[i2] || self.depth_buffer@[i2] != odep[i2])
                    implies self.depth_buffer@[i2] > odep[i2] by {
                    if self.buffer@[i2] != pre_buf[i2] || self.depth_buffer@[i2] != pre_dep[i2] {
                        assert(self.depth_buffer@[i2] > pre_dep[i2] >= odep[i2]);
                    }
                }
            }
            k = k + 1;
        }
        proof {
            assert(instance.model.triangles@.take(nt as int) =~= instance.model.triangles@);
        }
    }

    /// Draws the triangle's three edges: the segment from `p0` to `p1`,
    /// then `p1` to `p2`, then `p2` to `p0`. The final buffer is exactly
    /// the three segments' paint applied in that order: the union of the
    /// three stepped edge lines holds the color and everything else is
    /// untouched. The corners are painted; the depth buffer is untouched.
    pub fn draw_wireframe_triangle(&mut self, p0: Point2D, p1: Point2D, p2: Point2D, color: &Color)
        requires
            old(self).wf(),
            in_canvas(p0.x as int, p0.y as int),
            in_canvas(p1.x as int, p1.y as int),
            in_canvas(p2.x as int, p2.y as int),
        ensures
            final(self).wf(),
            final(self).depth_buffer@ == old(self).depth_buffer@,
            final(self).buffer@ == line_bufs(line_bufs(line_bufs(old(self).buffer@,
                p0, p1, *color), p1, p2, *color), p2, p0, *color),
            forall|i: int| 0 <= i < CANVAS_PIXELS
                && final(self).buffer@[i] != old(self).buffer@[i]
                ==> final(self).buffer@[i] == pack_rgb(color.r, color.g, color.b),
            final(self).buffer@[px_index(p0.x as int, p0.y as int)]
                == pack_rgb(color.r, color.g, color.b),
            final(self).buffer@[px_index(p1.x as int, p1.y as int)]
                == pack_rgb(color.r, color.g, color.b),
            final(self).buffer@[px_index(p2.x as int, p2.y as int)]
                == pack_rgb(color.r, color.g, color.b),
    {
        let ghost obuf = old(self).buffer@;
        self.draw_line(p0, p1, color);
        let ghost b1 = self.buffer@;
        self.draw_line(p1, p2, color);
        let ghost b2 = self.buffer@;
        self.draw_line(p2, p0, color);
        proof {
            assert forall|i: int| 0 <= i < CANVAS_PIXELS
                && self.buffer@[i] != obuf[i]
                implies self.buffer@[i] == pack_rgb(color.r, color.g, color.b) by {
                assert(self.buffer@[i] == line_buf_at(b2, p2, p0, *color, px_x(i), px_y(i)));
                assert(b2[i] == line_buf_at(b1, p1, p2, *color, px_x(i), px_y(i)));
                assert(b1[i] == line_buf_at(obuf, p0, p1, *color, px_x(i), px_y(i)));
                lemma_px_index_inverse(i);
            }
            lemma_px_index_bounds(p1.x as int, p1.y as int);
            lemma_line_buf_value(b2, p2, p0, *color, p1.x as int, p1.y as int);
        }
    }

    /// Renders a whole scene: clips every instance against the frustum
    /// in camera space, then transforms, projects and rasterizes what
    /// survives, in scene order, with the camera at the origin.
    pub fn render_scene(&mut self, scene: Vec<Instance>)
        requires
            old(self).wf(),
            forall|k: int| 0 <= k < scene@.len() ==> (#[trigger] scene@[k]).wf(),
            forall|k: int, j: int|
                #![trigger clip_scene_kept(scene@, frustum_planes_spec())[k].1.1[j]]
                ({
                let kept = clip_scene_kept(scene@, frustum_planes_spec());
                0 <= k < kept.len() && 0 <= j < kept[k].1.1.len()
                    ==> triangle_renders(kept[k].0.transform, kept[k].1.0, kept[k].1.1[j])
            }),
        ensures
            final(self).wf(),
            (final(self).buffer@, final(self).depth_buffer@)
                == render_scene_spec(old(self).buffer@, old(self).depth_buffer@,
                    clip_scene_kept(scene@, frustum_planes_spec())),
            forall|i: int| 0 <= i < CANVAS_PIXELS
                ==> final(self).depth_buffer@[i] >= old(self).depth_buffer@[i],
            forall|i: int| 0 <= i < CANVAS_PIXELS
                && (final(self).buffer@[i] != old(self).buffer@[i]
                    || final(self).depth_buffer@[i] != old(self).depth_buffer@[i])
                ==> final(self).depth_buffer@[i] > old(self).depth_buffer@[i],
    {
        let planes = frustum_planes();
        let clipped = clip_scene(scene, &planes);
        let ghost kept = clip_scene_kept(scene@, frustum_planes_spec());
        let ghost obuf = old(self).buffer@;
        let ghost odep = old(self).depth_buffer@;

        let nc: usize = clipped.len();
        let mut k: usize = 0;
        proof {
            assert(kept.take(0) =~= Seq::<(Instance, (Seq<Vec3>, Seq<Triangle>))>::empty());
        }
        while k < nc
            invariant
                (self.buffer@, self.depth_buffer@)
                    == render_scene_spec(obuf, odep, kept.take(k as int)),
                self.wf(),
                obuf == old(self).buffer@,
                odep == old(self).depth_buffer@,
                nc == clipped@.len(),
                k <= nc,
                kept == clip_scene_kept(scene@, frustum_planes_spec()),
                clipped@.len() == kept.len(),
                forall|k2: int| 0 <= k2 < clipped@.len() ==> {
                    let kp = kept[k2];
                    &&& (#[trigger] clipped@[k2]).transform == kp.0.transform
                    &&& clipped@[k2].model.vertices@ == kp.1.0
                    &&& clipped@[k2].model.triangles@ == kp.1.1
                    &&& clipped@[k2].wf()
                },
                forall|k2: int, j: int|
                    #![trigger kept[k2].1.1[j]]
                    ({
                    0 <= k2 < kept.len() && 0 <= j < kept[k2].1.1.len()
                        ==> triangle_renders(kept[k2].0.transform, kept[k2].1.0, kept[k2].1.1[j])
                }),
                forall|i2: int| 0 <= i2 < CANVAS_PIXELS
                    ==> self.depth_buffer@[i2] >= odep[i2],
                forall|i2: int| 0 <= i2 < CANVAS_PIXELS
                    && (self.buffer@[i2] != obuf[i2] || self.depth_buffer@[i2] != odep[i2])
                    ==> self.depth_buffer@[i2] > odep[i2],
            decreases nc - k,
        {
            let inst = &clipped[k];
            let tr: Transform = inst.transform;
            proof {
                assert(clipped@[k as int].model.vertices@ == kept[k as int].1.0);
                assert(clipped@[k as int].model.triangles@ == kept[k as int].1.1);
                assert forall|j: int| 0 <= j < inst.model.triangles@.len()
                    implies triangle_renders(tr, inst.model.vertices@,
                        #[trigger] inst.model.triangles@[j]) by {
                    assert(inst.model.triangles@[j] == kept[k as int].1.1[j]);
                    assert(triangle_renders(kept[k as int].0.transform, kept[k as int].1.0,
                        kept[k as int].1.1[j]));
                }
            }
            let ghost pre_buf = self.buffer@;
            let ghost pre_dep = self.depth_buffer@;
            self.render_instance(inst, &tr);
            proof {
                assert(kept.take(k as int + 1).drop_last() =~= kept.take(k as int));
                assert(kept.take(k as int + 1).last() == kept[k as int]);
                assert(clipped@[k as int].transform == kept[k as int].0.transform);
                assert(clipped@[k as int].model.vertices@ == kept[k as int].1.0);
                assert(clipped@[k as int].model.triangles@ == kept[k as int].1.1);
                assert((self.buffer@, self.depth_buffer@)
                    == render_scene_spec(obuf, odep, kept.take(k as int + 1)));
                assert forall|i2: int| 0 <= i2 < CANVAS_PIXELS
                    && (self.buffer@[i2] != obuf[i2] || self.depth_buffer@[i2] != odep[i2])
                    implies self.depth_buffer@[i2] > odep[i2] by {
                    if self.buffer@[i2] != pre_buf[i2] || self.depth_buffer@[i2] != pre_dep[i2] {
                        assert(self.depth_buffer@[i2] > pre_dep[i2] >= odep[i2]);
                    }
                }
            }
            k = k + 1;
        }
        proof {
            assert(kept.take(nc as int) =~= kept);
        }
    }
}

/// Scaling the ends of an interval to fixed point keeps contained
/// integers' scalings contained.
proof fn lemma_scaled_interval(a: int, b: int, c: int, lo: int, hi: int)
    requires
        lo <= a <= hi,
        lo <= b <= hi,
        lo <= c <= hi,
    ensures
        lo * 65536 <= a * 65536 <= hi * 65536,
        lo * 65536 <= b * 65536 <= hi * 65536,
        lo * 65536 <= c * 65536 <= hi * 65536,
{
}

/// A fixed-point value between two integer multiples of the unit rounds
/// to an integer between them.
proof fn lemma_round_between(m0: int, m1: int, v: int)
    requires
        m0 * 65536 <= v <= m1 * 65536 || m1 * 65536 <= v <= m0 * 65536,
    ensures
        vstd::math::min(m0, m1) <= fx_round_spec(v) <= vstd::math::max(m0, m1),
{
    lemma_round_near_multiple(m0, 0);
    lemma_round_near_multiple(m1, 0);
    if m0 * 65536 <= v <= m1 * 65536 {
        lemma_round_monotone(m0 * 65536, v);
        lemma_round_monotone(v, m1 * 65536);
        assert(m0 <= m1) by (nonlinear_arith) requires m0 * 65536 <= m1 * 65536;
    } else {
        lemma_round_monotone(m1 * 65536, v);
        lemma_round_monotone(v, m0 * 65536);
        assert(m1 <= m0) by (nonlinear_arith) requires m1 * 65536 <= m0 * 65536;
    }
}

/// A value within less than half a unit of an integer multiple rounds
/// to that integer; the interpolation series ends that close to its
/// target whenever the span stays under half a unit.
proof fn lemma_round_near_endpoint(m: int, v: int, n: int)
    requires
        1 <= n < FX_HALF,
        m * 65536 - n < v < m * 65536 + n,
    ensures
        fx_round_spec(v) == m,
{
    if v >= m * 65536 {
        lemma_round_near_multiple(m, v - m * 65536);
    } else {
        lemma_round_near_multiple(m, m * 65536 - v);
    }
}

} // verus!
