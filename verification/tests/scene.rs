use rastar::canvas::{Canvas, BACKGROUND};
use rastar::colors::Color;
use rastar::fixed::FX_ONE;
use rastar::structs::{Instance, Model, Transform, Triangle};
use rastar::utils::project_vertex;
use rastar::vertex::Vec3;

fn idx(x: i32, y: i32) -> usize {
    ((319 - y) * 640 + 320 + x) as usize
}

fn cube_model() -> Model {
    Model {
        vertices: vec![
            Vec3::new(FX_ONE, FX_ONE, FX_ONE),
            Vec3::new(-FX_ONE, FX_ONE, FX_ONE),
            Vec3::new(-FX_ONE, -FX_ONE, FX_ONE),
            Vec3::new(FX_ONE, -FX_ONE, FX_ONE),
            Vec3::new(FX_ONE, FX_ONE, -FX_ONE),
            Vec3::new(-FX_ONE, FX_ONE, -FX_ONE),
            Vec3::new(-FX_ONE, -FX_ONE, -FX_ONE),
            Vec3::new(FX_ONE, -FX_ONE, -FX_ONE),
        ],
        triangles: vec![
            Triangle::new(0, 1, 2, 0xff0000),
            Triangle::new(0, 2, 3, 0xff0000),
            Triangle::new(4, 0, 3, 0x00ff00),
            Triangle::new(4, 3, 7, 0x00ff00),
            Triangle::new(5, 4, 7, 0x0000ff),
            Triangle::new(5, 7, 6, 0x0000ff),
            Triangle::new(1, 5, 6, 0xffff00),
            Triangle::new(1, 6, 2, 0xffff00),
            Triangle::new(4, 5, 1, 0xff00ff),
            Triangle::new(4, 1, 0, 0xff00ff),
            Triangle::new(2, 6, 7, 0x00ffff),
            Triangle::new(2, 7, 3, 0x00ffff),
        ],
    }
}

#[test]
fn cube_at_distance_seven_projects_to_twelve_distinct_edges_on_screen() {
    let inst = Instance::new(cube_model(), FX_ONE, 0, FX_ONE, Vec3::new(0, 0, 7 * FX_ONE));

    let mut screen: Vec<(i32, i32)> = Vec::new();
    for v in &inst.model.vertices {
        let w = inst.transform.get_transformed_vertex(v);
        let p = project_vertex(w);
        assert!(-320 <= p.x && p.x < 320, "x off screen: {}", p.x);
        assert!(-320 <= p.y && p.y < 320, "y off screen: {}", p.y);
        screen.push((p.x, p.y));
    }

    let cube_edges: [(usize, usize); 12] = [
        (0, 1), (1, 2), (2, 3), (3, 0),
        (4, 5), (5, 6), (6, 7), (7, 4),
        (0, 4), (1, 5), (2, 6), (3, 7),
    ];
    let mut segments: Vec<((i32, i32), (i32, i32))> = Vec::new();
    for &(a, b) in &cube_edges {
        let (p, q) = (screen[a], screen[b]);
        let seg = if p <= q { (p, q) } else { (q, p) };
        assert!(!segments.contains(&seg), "duplicate segment {:?}", seg);
        segments.push(seg);
    }
    assert_eq!(segments.len(), 12);

    // Drawing the wireframe stays inside the canvas (no write asserts).
    let mut canvas = Canvas::new();
    let color = Color::new(0xffffff);
    for t in &inst.model.triangles {
        let p0 = rastar::vertex::Point2D::new(screen[t.v0].0, screen[t.v0].1, None);
        let p1 = rastar::vertex::Point2D::new(screen[t.v1].0, screen[t.v1].1, None);
        let p2 = rastar::vertex::Point2D::new(screen[t.v2].0, screen[t.v2].1, None);
        canvas.draw_wireframe_triangle(p0, p1, p2, &color);
    }
    assert!(canvas.buffer.iter().any(|&w| w == 0xffffff));
}

#[test]
fn two_cube_scene_renders_with_correct_occlusion() {
    let cube1 = Instance::new(
        cube_model(), FX_ONE, 0, FX_ONE,
        Vec3::new(-3 * FX_ONE / 2, 0, 7 * FX_ONE),
    );
    let cube2 = Instance::new(
        cube_model(), FX_ONE, 0, FX_ONE,
        Vec3::new(3 * FX_ONE / 2, 3 * FX_ONE / 2, 7 * FX_ONE),
    );
    let mut canvas = Canvas::new();
    canvas.render_scene(vec![cube1, cube2]);

    // A pixel in the middle of the first cube's near face (z = 6) shows
    // that face's color: the near face occludes the far one.
    assert_eq!(canvas.buffer[idx(-160, 0)], 0x0000ff);
    // A pixel inside the second cube's near face.
    assert_eq!(canvas.buffer[idx(160, 160)], 0x0000ff);
    // A pixel far outside both cubes stays background.
    assert_eq!(canvas.buffer[idx(-300, 300)], BACKGROUND);
    // Depth was raised where pixels were painted.
    assert!(canvas.depth_buffer[idx(-160, 0)] > 0);
}

#[test]
fn scene_rendered_in_either_instance_order_paints_the_same_image() {
    let near = Instance::new(cube_model(), FX_ONE, 0, FX_ONE, Vec3::new(0, 0, 5 * FX_ONE));
    let far = Instance::new(cube_model(), FX_ONE, 0, FX_ONE, Vec3::new(FX_ONE, 0, 9 * FX_ONE));

    let mut one = Canvas::new();
    one.render_scene(vec![near.clone(), far.clone()]);
    let mut other = Canvas::new();
    other.render_scene(vec![far, near]);

    assert_eq!(one.buffer, other.buffer);
    assert_eq!(one.depth_buffer, other.depth_buffer);
}

#[test]
fn quarter_turn_rotation_swaps_x_and_z() {
    let t = Transform {
        scale: FX_ONE,
        rot_sin: FX_ONE,
        rot_cos: 0,
        translation: Vec3::new(0, 0, 0),
    };
    let v = t.get_transformed_vertex(&Vec3::new(FX_ONE, 2 * FX_ONE, 3 * FX_ONE));
    assert_eq!((v.x, v.y, v.z), (3 * FX_ONE, 2 * FX_ONE, -FX_ONE));
}

#[test]
fn transform_applies_scale_then_translation() {
    let t = Transform {
        scale: 2 * FX_ONE,
        rot_sin: 0,
        rot_cos: FX_ONE,
        translation: Vec3::new(FX_ONE, 0, 10 * FX_ONE),
    };
    let v = t.get_transformed_vertex(&Vec3::new(FX_ONE, -FX_ONE, FX_ONE));
    assert_eq!((v.x, v.y, v.z), (3 * FX_ONE, -2 * FX_ONE, 12 * FX_ONE));
}

#[test]
fn bounding_sphere_centers_on_the_cube_and_reaches_its_corners() {
    let inst = Instance::new(cube_model(), FX_ONE, 0, FX_ONE, Vec3::new(0, 0, 7 * FX_ONE));
    let c = inst.bounding_sphere.center;
    assert_eq!((c.x, c.y, c.z), (0, 0, 7 * FX_ONE));
    let expected = ((3.0f64).sqrt() * 65536.0) as i64;
    assert!((inst.bounding_sphere.radius - expected).abs() <= 1);
}

#[test]
fn near_straddling_instance_is_clipped_and_rendered() {
    // One triangle pokes through the near plane: two vertices well in
    // front, one behind it. Clipping splits the triangle and leaves the
    // behind-the-plane vertex in the list unreferenced; the scene must
    // still render, painting the surviving part.
    let model = Model {
        vertices: vec![
            Vec3::new(-FX_ONE, -FX_ONE, 3 * FX_ONE),
            Vec3::new(FX_ONE, -FX_ONE, 3 * FX_ONE),
            Vec3::new(0, FX_ONE, FX_ONE / 4),
        ],
        triangles: vec![Triangle::new(0, 1, 2, 0xff8800)],
    };
    let inst = Instance::new(model, FX_ONE, 0, FX_ONE, Vec3::new(0, 0, 0));
    let mut canvas = Canvas::new();
    canvas.render_scene(vec![inst]);

    // A pixel deep inside the surviving quadrilateral shows the color.
    assert_eq!(canvas.buffer[idx(0, -100)], 0xff8800);
    // The part behind the near plane was cut away: nothing paints the
    // upper reaches the unclipped triangle would have covered.
    assert!(canvas.buffer.iter().any(|&w| w != BACKGROUND));
    assert!(canvas.depth_buffer[idx(0, -100)] > 0);
}
