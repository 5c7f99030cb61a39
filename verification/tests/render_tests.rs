use rasterizer::{Color, FrameBuffer, Point2D, PolygonRenderer};

fn black() -> Color {
    Color::rgb(0, 0, 0)
}

fn scene() -> Vec<Vec<Point2D>> {
    vec![
        vec![
            Point2D::new(2, 2),
            Point2D::new(14, 3),
            Point2D::new(12, 12),
            Point2D::new(3, 10),
        ],
        vec![
            Point2D::new(8, 8),
            Point2D::new(18, 8),
            Point2D::new(18, 16),
            Point2D::new(8, 16),
        ],
    ]
}

#[test]
fn rendering_twice_is_byte_identical() {
    let renderer = PolygonRenderer::new();
    let polygons = scene();

    let mut fb1 = FrameBuffer::new(24, 24, black()).unwrap();
    fb1.clear(black());
    renderer.render(&mut fb1, &polygons);

    let mut fb2 = FrameBuffer::new(24, 24, black()).unwrap();
    fb2.clear(black());
    renderer.render(&mut fb2, &polygons);

    assert_eq!(fb1.to_rgb_bytes(), fb2.to_rgb_bytes());
}

#[test]
fn render_fills_interior_and_outlines_edges() {
    let renderer = PolygonRenderer::new();
    let mut fb = FrameBuffer::new(24, 24, black()).unwrap();
    renderer.render(
        &mut fb,
        &vec![vec![
            Point2D::new(2, 2),
            Point2D::new(10, 2),
            Point2D::new(10, 10),
            Point2D::new(2, 10),
        ]],
    );
    let red = Color::rgb(255, 0, 0);
    let white = Color::rgb(255, 255, 255);
    // Outline drawn after the fill keeps the border white.
    assert_eq!(fb.pixels[(2 * 24 + 2) as usize], white);
    assert_eq!(fb.pixels[(10 * 24 + 10) as usize], white);
    assert_eq!(fb.pixels[(6 * 24 + 2) as usize], white);
    // Interior stays red.
    assert_eq!(fb.pixels[(5 * 24 + 5) as usize], red);
    // Untouched pixels stay black.
    assert_eq!(fb.pixels[(20 * 24 + 20) as usize], black());
}

#[test]
fn later_polygons_paint_over_earlier_ones() {
    let renderer = PolygonRenderer::new();
    let mut fb = FrameBuffer::new(24, 24, black()).unwrap();
    renderer.render(&mut fb, &scene());
    let red = Color::rgb(255, 0, 0);
    // (10, 10) is interior to both polygons; the second one wins.
    assert_eq!(fb.pixels[(10 * 24 + 10) as usize], red);
}

#[test]
fn three_vertex_polygon_is_filled_but_not_outlined() {
    let renderer = PolygonRenderer::new();
    let mut fb = FrameBuffer::new(24, 24, black()).unwrap();
    renderer.render(
        &mut fb,
        &vec![vec![Point2D::new(2, 2), Point2D::new(16, 2), Point2D::new(2, 16)]],
    );
    let white = Color::rgb(255, 255, 255);
    for p in &fb.pixels {
        assert_ne!(*p, white);
    }
    let red = Color::rgb(255, 0, 0);
    assert_eq!(fb.pixels[(4 * 24 + 4) as usize], red);
}
