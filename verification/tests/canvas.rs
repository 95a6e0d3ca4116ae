use rastar::canvas::{Canvas, BACKGROUND};
use rastar::colors::Color;
use rastar::fixed::FX_ONE;
use rastar::vertex::{Point2D, Point3D};

fn idx(x: i32, y: i32) -> usize {
    ((319 - y) * 640 + 320 + x) as usize
}

#[test]
fn new_canvas_is_background_and_far() {
    let c = Canvas::new();
    assert_eq!(c.buffer.len(), 640 * 640);
    assert_eq!(c.depth_buffer.len(), 640 * 640);
    assert!(c.buffer.iter().all(|&w| w == BACKGROUND));
    assert!(c.depth_buffer.iter().all(|&z| z == 0));
}

#[test]
fn put_pixel_writes_the_centered_coordinate() {
    let mut c = Canvas::new();
    c.put_pixel(Point2D::new(0, 1, None), &Color::new(0xabcdef));
    assert_eq!(c.buffer[idx(0, 1)], 0xabcdef);
    c.put_pixel(Point2D::new(-320, 319, None), &Color::new(0x112233));
    assert_eq!(c.buffer[idx(-320, 319)], 0x112233);
    assert_eq!(
        c.buffer.iter().filter(|&&w| w != BACKGROUND).count(),
        2
    );
}

#[test]
fn put_pixel_depth_tests_strictly() {
    let mut c = Canvas::new();
    c.put_pixel_depth(5, 5, 100, &Color::new(0xff0000));
    assert_eq!(c.buffer[idx(5, 5)], 0xff0000);
    assert_eq!(c.depth_buffer[idx(5, 5)], 100);
    // Equal depth loses: the first write stays.
    c.put_pixel_depth(5, 5, 100, &Color::new(0x00ff00));
    assert_eq!(c.buffer[idx(5, 5)], 0xff0000);
    // Farther loses.
    c.put_pixel_depth(5, 5, 99, &Color::new(0x0000ff));
    assert_eq!(c.buffer[idx(5, 5)], 0xff0000);
    // Strictly nearer wins.
    c.put_pixel_depth(5, 5, 101, &Color::new(0x00ffff));
    assert_eq!(c.buffer[idx(5, 5)], 0x00ffff);
    assert_eq!(c.depth_buffer[idx(5, 5)], 101);
}

#[test]
fn draw_line_paints_endpoints_and_only_its_color() {
    let mut c = Canvas::new();
    let color = Color::new(0x00ff00);
    c.draw_line(Point2D::new(-100, -50, None), Point2D::new(80, 40, None), &color);
    assert_eq!(c.buffer[idx(-100, -50)], 0x00ff00);
    assert_eq!(c.buffer[idx(80, 40)], 0x00ff00);
    let painted = c.buffer.iter().filter(|&&w| w != BACKGROUND).count();
    assert_eq!(painted, 181, "one pixel per x step");
    assert!(c.buffer.iter().all(|&w| w == BACKGROUND || w == 0x00ff00));
    assert!(c.depth_buffer.iter().all(|&z| z == 0));
}

#[test]
fn draw_vertical_line_steps_over_y() {
    let mut c = Canvas::new();
    let color = Color::new(0x0000ff);
    c.draw_line(Point2D::new(10, 100, None), Point2D::new(-10, -100, None), &color);
    let painted = c.buffer.iter().filter(|&&w| w != BACKGROUND).count();
    assert_eq!(painted, 201, "one pixel per y step");
    assert_eq!(c.buffer[idx(10, 100)], 0x0000ff);
    assert_eq!(c.buffer[idx(-10, -100)], 0x0000ff);
}

#[test]
fn wireframe_triangle_paints_all_corners() {
    let mut c = Canvas::new();
    let color = Color::new(0xffffff);
    let p0 = Point2D::new(-50, -40, None);
    let p1 = Point2D::new(60, -10, None);
    let p2 = Point2D::new(0, 70, None);
    c.draw_wireframe_triangle(p0, p1, p2, &color);
    assert_eq!(c.buffer[idx(-50, -40)], 0xffffff);
    assert_eq!(c.buffer[idx(60, -10)], 0xffffff);
    assert_eq!(c.buffer[idx(0, 70)], 0xffffff);
}

#[test]
fn filled_triangle_paints_its_interior_with_its_color() {
    let mut c = Canvas::new();
    let color = Color::new(0xff00ff);
    let p0 = Point3D::new(-50, -50, 1000, None);
    let p1 = Point3D::new(50, -50, 1000, None);
    let p2 = Point3D::new(0, 60, 1000, None);
    c.draw_filled_triangle(p0, p1, p2, &color);
    // The centroid is covered; unspecified shading defaults to one unit,
    // so the pixel holds the exact fill color.
    assert_eq!(c.buffer[idx(0, -10)], 0xff00ff);
    let painted = c.buffer.iter().filter(|&&w| w != BACKGROUND).count();
    assert!(painted > 4000, "the triangle covers thousands of pixels, painted {painted}");
    assert!(c.buffer.iter().all(|&w| w == BACKGROUND || w == 0xff00ff));
}

#[test]
fn filled_triangle_shades_by_vertex_intensity() {
    let mut c = Canvas::new();
    let color = Color::new(0xffffff);
    // All three vertices at half intensity: every painted pixel is gray.
    let h = Some(FX_ONE / 2);
    let p0 = Point3D::new(-40, -40, 1000, h);
    let p1 = Point3D::new(40, -40, 1000, h);
    let p2 = Point3D::new(0, 40, 1000, h);
    c.draw_filled_triangle(p0, p1, p2, &color);
    assert_eq!(c.buffer[idx(0, -10)], 0x808080);
}

fn triangle_a() -> (Point3D, Point3D, Point3D, Color) {
    (
        Point3D::new(-50, -50, 2000, None),
        Point3D::new(50, -50, 2000, None),
        Point3D::new(0, 60, 2000, None),
        Color::new(0xff0000),
    )
}

fn triangle_b() -> (Point3D, Point3D, Point3D, Color) {
    (
        Point3D::new(-10, -50, 1000, None),
        Point3D::new(90, -50, 1000, None),
        Point3D::new(40, 60, 1000, None),
        Color::new(0x0000ff),
    )
}

#[test]
fn depth_tested_drawing_is_order_independent() {
    let (a0, a1, a2, ca) = triangle_a();
    let (b0, b1, b2, cb) = triangle_b();

    let mut first = Canvas::new();
    first.draw_filled_triangle(a0, a1, a2, &ca);
    first.draw_filled_triangle(b0, b1, b2, &cb);

    let mut second = Canvas::new();
    second.draw_filled_triangle(b0, b1, b2, &cb);
    second.draw_filled_triangle(a0, a1, a2, &ca);

    assert_eq!(first.buffer, second.buffer);
    assert_eq!(first.depth_buffer, second.depth_buffer);
}

#[test]
fn nearer_triangle_occludes_the_farther_in_the_overlap() {
    let (a0, a1, a2, ca) = triangle_a();
    let (b0, b1, b2, cb) = triangle_b();
    let mut c = Canvas::new();
    // Draw the nearer red triangle first: the farther blue one must not
    // paint over it where they overlap.
    c.draw_filled_triangle(a0, a1, a2, &ca);
    c.draw_filled_triangle(b0, b1, b2, &cb);
    // (20, 0) lies inside both triangles.
    assert_eq!(c.buffer[idx(20, 0)], 0xff0000);
    // (70, -20) lies only inside the blue one.
    assert_eq!(c.buffer[idx(70, -20)], 0x0000ff);
}

#[test]
fn every_row_of_the_centered_rectangle_is_writable() {
    let mut c = Canvas::new();
    // Top row (y = 319 maps to buffer row 0) and bottom row (y = -320
    // maps to the last row) both take writes.
    c.put_pixel(Point2D::new(0, 319, None), &Color::new(0x111111));
    c.put_pixel(Point2D::new(0, -320, None), &Color::new(0x222222));
    assert_eq!(c.buffer[320], 0x111111);
    assert_eq!(c.buffer[639 * 640 + 320], 0x222222);
}

#[test]
fn line_drawn_from_either_endpoint_paints_the_same_pixels() {
    let p0 = Point2D::new(-100, -50, None);
    let p1 = Point2D::new(80, 40, None);
    let color = Color::new(0x00ff00);
    let mut one = Canvas::new();
    one.draw_line(p0, p1, &color);
    let mut other = Canvas::new();
    other.draw_line(p1, p0, &color);
    assert_eq!(one.buffer, other.buffer);

    let q0 = Point2D::new(10, 100, None);
    let q1 = Point2D::new(-10, -100, None);
    let mut third = Canvas::new();
    third.draw_line(q0, q1, &color);
    let mut fourth = Canvas::new();
    fourth.draw_line(q1, q0, &color);
    assert_eq!(third.buffer, fourth.buffer);
}
