use rastar::fixed::FX_ONE;
use rastar::structs::{Instance, Model, Plane, Triangle};
use rastar::utils::{clip_scene, clip_triangle};
use rastar::vertex::Vec3;


fn near_plane() -> Plane {
    Plane::new(Vec3::new(0, 0, FX_ONE), -FX_ONE)
}

fn frustum() -> Vec<Plane> {
    vec![
        Plane::new(Vec3::new(0, 0, FX_ONE), -FX_ONE),
        Plane::new(Vec3::new(46341, 0, 46341), 0),
        Plane::new(Vec3::new(-46341, 0, 46341), 0),
        Plane::new(Vec3::new(0, 46341, 46341), 0),
        Plane::new(Vec3::new(0, -46341, 46341), 0),
    ]
}

fn cube_model() -> Model {
    Model {
        vertices: vec![
            Vec3::new(FX_ONE, FX_ONE, FX_ONE),
            Vec3::new(-FX_ONE, FX_ONE, FX_ONE),
            Vec3::new(-FX_ONE, -FX_ONE, FX_ONE),
            Vec3::new(FX_ONE, -FX_ONE, FX_ONE),
            Vec3::new(FX_ONE, FX_ONE, -FX_ONE),
            Vec3::new(-FX_ONE, FX_ONE, -FX_ONE),
            Vec3::new(-FX_ONE, -FX_ONE, -FX_ONE),
            Vec3::new(FX_ONE, -FX_ONE, -FX_ONE),
        ],
        triangles: vec![
            Triangle::new(0, 1, 2, 0xff0000),
            Triangle::new(0, 2, 3, 0xff0000),
            Triangle::new(4, 0, 3, 0x00ff00),
            Triangle::new(4, 3, 7, 0x00ff00),
            Triangle::new(5, 4, 7, 0x0000ff),
            Triangle::new(5, 7, 6, 0x0000ff),
            Triangle::new(1, 5, 6, 0xffff00),
            Triangle::new(1, 6, 2, 0xffff00),
            Triangle::new(4, 5, 1, 0xff00ff),
            Triangle::new(4, 1, 0, 0xff00ff),
            Triangle::new(2, 6, 7, 0x00ffff),
            Triangle::new(2, 7, 3, 0x00ffff),
        ],
    }
}

#[test]
fn fully_inside_triangle_is_kept_unchanged() {
    let mut vs = vec![
        Vec3::new(0, 0, 2 * FX_ONE),
        Vec3::new(FX_ONE, 0, 3 * FX_ONE),
        Vec3::new(0, FX_ONE, 4 * FX_ONE),
    ];
    let t = Triangle::new(0, 1, 2, 0xff0000);
    let out = clip_triangle(&mut vs, &t, &near_plane());
    let s = out.as_slice();
    assert_eq!(s.len(), 1);
    assert_eq!((s[0].v0, s[0].v1, s[0].v2), (0, 1, 2));
    assert_eq!(s[0].color.as_u32(), 0xff0000);
    assert_eq!(vs.len(), 3);
}

#[test]
fn vertex_exactly_on_the_plane_counts_as_inside() {
    let mut vs = vec![
        Vec3::new(0, 0, FX_ONE),
        Vec3::new(FX_ONE, 0, 2 * FX_ONE),
        Vec3::new(0, FX_ONE, 2 * FX_ONE),
    ];
    let t = Triangle::new(0, 1, 2, 0x00ff00);
    let out = clip_triangle(&mut vs, &t, &near_plane());
    let s = out.as_slice();
    assert_eq!(s.len(), 1);
    assert_eq!((s[0].v0, s[0].v1, s[0].v2), (0, 1, 2));
    assert_eq!(vs.len(), 3);
}

#[test]
fn fully_outside_triangle_is_dropped() {
    let mut vs = vec![
        Vec3::new(0, 0, 0),
        Vec3::new(FX_ONE, 0, -FX_ONE),
        Vec3::new(0, FX_ONE, -2 * FX_ONE),
    ];
    let t = Triangle::new(0, 1, 2, 0xff0000);
    let out = clip_triangle(&mut vs, &t, &near_plane());
    assert_eq!(out.as_slice().len(), 0);
    assert_eq!(vs.len(), 3);
}

#[test]
fn straddling_triangle_splits_on_the_plane() {
    // Two vertices in front of the near plane, one behind it.
    let mut vs = vec![
        Vec3::new(0, 0, 2 * FX_ONE),
        Vec3::new(FX_ONE, 0, 2 * FX_ONE),
        Vec3::new(0, 0, 0),
    ];
    let t = Triangle::new(0, 1, 2, 0x00ffff);
    let out = clip_triangle(&mut vs, &t, &near_plane());
    let s = out.as_slice();
    assert_eq!(s.len(), 2);
    assert_eq!(vs.len(), 5);

    // The emitted triangles reference only surviving or appended vertices,
    // and keep the original color.
    for tri in s {
        for idx in [tri.v0, tri.v1, tri.v2] {
            assert!(idx == 0 || idx == 1 || idx >= 3);
            assert!(idx < vs.len());
        }
        assert_eq!(tri.color.as_u32(), 0x00ffff);
    }

    // Appended vertices lie on the plane within fixed-point tolerance.
    for v in &vs[3..] {
        let sd = v.z - FX_ONE;
        assert!(sd.abs() <= 8, "intersection not on the plane: {sd}");
    }

    // The clipped pieces together cover the inside part of the triangle:
    // the original has area 1, the cut corner area 1/4.
    let area = |a: usize, b: usize, c: usize| -> f64 {
        let p = |i: usize| {
            (vs[i].x as f64 / 65536.0, vs[i].y as f64 / 65536.0, vs[i].z as f64 / 65536.0)
        };
        let (ax, ay, az) = p(a);
        let (bx, by, bz) = p(b);
        let (cx, cy, cz) = p(c);
        let u = (bx - ax, by - ay, bz - az);
        let v = (cx - ax, cy - ay, cz - az);
        let cr = (
            u.1 * v.2 - u.2 * v.1,
            u.2 * v.0 - u.0 * v.2,
            u.0 * v.1 - u.1 * v.0,
        );
        0.5 * (cr.0 * cr.0 + cr.1 * cr.1 + cr.2 * cr.2).sqrt()
    };
    let covered: f64 = s.iter().map(|tri| area(tri.v0, tri.v1, tri.v2)).sum();
    assert!((covered - 0.75).abs() < 0.01, "covered area {covered}");
}

#[test]
fn instance_fully_outside_one_plane_is_dropped_from_the_scene() {
    let inst = Instance::new(cube_model(), FX_ONE, 0, FX_ONE, Vec3::new(0, 0, -7 * FX_ONE));
    let clipped = clip_scene(vec![inst], &frustum());
    assert_eq!(clipped.len(), 0);
}

#[test]
fn instance_fully_inside_every_plane_is_kept_unchanged() {
    let inst = Instance::new(cube_model(), FX_ONE, 0, FX_ONE, Vec3::new(0, 0, 7 * FX_ONE));
    let clipped = clip_scene(vec![inst], &frustum());
    assert_eq!(clipped.len(), 1);
    assert_eq!(clipped[0].model.vertices.len(), 8);
    assert_eq!(clipped[0].model.triangles.len(), 12);
    for (k, tri) in clipped[0].model.triangles.iter().enumerate() {
        let orig = &cube_model().triangles[k];
        assert_eq!((tri.v0, tri.v1, tri.v2), (orig.v0, orig.v1, orig.v2));
        assert_eq!(tri.color.as_u32(), orig.color.as_u32());
    }
}

#[test]
fn straddling_instance_gets_its_triangles_replaced() {
    // One triangle whose transformed footprint straddles the near plane;
    // the bounding sphere is built from transformed vertices, the
    // per-triangle clip runs on the model coordinates.
    let model = Model {
        vertices: vec![
            Vec3::new(0, 0, 2 * FX_ONE),
            Vec3::new(FX_ONE, 0, 2 * FX_ONE),
            Vec3::new(0, 0, 0),
        ],
        triangles: vec![Triangle::new(0, 1, 2, 0x123456)],
    };
    let inst = Instance::new(model, FX_ONE, 0, FX_ONE, Vec3::new(0, 0, 0));
    let clipped = clip_scene(vec![inst], &vec![near_plane()]);
    assert_eq!(clipped.len(), 1);
    assert_eq!(clipped[0].model.triangles.len(), 2);
    assert_eq!(clipped[0].model.vertices.len(), 5);
    for tri in &clipped[0].model.triangles {
        assert_eq!(tri.color.as_u32(), 0x123456);
    }
}
