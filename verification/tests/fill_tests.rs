use rasterizer::{draw_polygon_outline, fill_polygon, Color, FrameBuffer, Point2D, PolygonRenderer, RasterError};

fn black() -> Color {
    Color::rgb(0, 0, 0)
}

fn square() -> Vec<Point2D> {
    vec![
        Point2D::new(0, 0),
        Point2D::new(10, 0),
        Point2D::new(10, 10),
        Point2D::new(0, 10),
    ]
}

#[test]
fn rendered_square_colors_exactly_the_inclusive_block() {
    // Interior fill plus outline: together they color the 11 x 11 block
    // with inclusive bounds, and nothing outside it.
    let mut fb = FrameBuffer::new(20, 20, black()).unwrap();
    let renderer = PolygonRenderer::new();
    renderer.render(&mut fb, &vec![square()]);
    for y in 0..20 {
        for x in 0..20 {
            let inside = x <= 10 && y <= 10;
            let colored = fb.pixels[(y * 20 + x) as usize] != black();
            assert_eq!(colored, inside, "pixel ({}, {})", x, y);
        }
    }
}

#[test]
fn filled_square_interior_follows_the_half_open_rule() {
    // The fill alone covers scanlines min_y..max_y-1: the half-open
    // crossing rule leaves the top row to the outline pass.
    let mut fb = FrameBuffer::new(20, 20, black()).unwrap();
    let red = Color::rgb(255, 0, 0);
    fill_polygon(&mut fb, &square(), red);
    for y in 0..20 {
        for x in 0..20 {
            let expected = x <= 10 && y <= 9;
            let got = fb.pixels[(y * 20 + x) as usize] == red;
            assert_eq!(got, expected, "pixel ({}, {})", x, y);
        }
    }
}

#[test]
fn convex_fill_rows_are_contiguous_spans() {
    // With exactly two crossings per scanline the filled span is the
    // closed interval between them, so each row's red run is contiguous.
    let mut fb = FrameBuffer::new(40, 40, black()).unwrap();
    let red = Color::rgb(255, 0, 0);
    let triangle = vec![Point2D::new(5, 5), Point2D::new(30, 8), Point2D::new(12, 25)];
    fill_polygon(&mut fb, &triangle, red);
    for y in 0..40 {
        let xs: Vec<i32> = (0..40)
            .filter(|&x| fb.pixels[(y * 40 + x) as usize] == red)
            .collect();
        if !xs.is_empty() {
            let lo = xs[0];
            let hi = xs[xs.len() - 1];
            assert_eq!(xs.len() as i32, hi - lo + 1, "row {} not contiguous", y);
        }
    }
}

#[test]
fn fill_clips_silently_at_buffer_edge() {
    let mut fb = FrameBuffer::new(6, 6, black()).unwrap();
    let red = Color::rgb(255, 0, 0);
    fill_polygon(
        &mut fb,
        &vec![
            Point2D::new(-4, -4),
            Point2D::new(12, -4),
            Point2D::new(12, 12),
            Point2D::new(-4, 12),
        ],
        red,
    );
    for p in &fb.pixels {
        assert_eq!(*p, red);
    }
}

#[test]
fn interpolation_truncates_as_expected() {
    // Edge (0,0)-(7,3): intersections x = (y * 7) / 3 truncated, so rows
    // 0, 1, 2 span x = 0..0, 0..2 and 0..4; row 3 gets no crossing.
    let mut fb = FrameBuffer::new(10, 6, black()).unwrap();
    let red = Color::rgb(255, 0, 0);
    fill_polygon(
        &mut fb,
        &vec![Point2D::new(0, 0), Point2D::new(7, 3), Point2D::new(0, 3)],
        red,
    );
    let mut expected = vec![vec![0], vec![0, 1, 2], vec![0, 1, 2, 3, 4], vec![]];
    expected.push(vec![]);
    expected.push(vec![]);
    for y in 0..6 {
        let xs: Vec<i32> = (0..10)
            .filter(|&x| fb.pixels[(y * 10 + x) as usize] == red)
            .collect();
        assert_eq!(xs, expected[y as usize], "row {}", y);
    }
}

#[test]
fn interpolation_truncates_toward_zero() {
    // Edge (5,0)-(1,3): the interpolation offset is negative, and
    // truncation toward zero (not flooring) gives spans 5..5, 4..5, 3..5.
    let mut fb = FrameBuffer::new(10, 6, black()).unwrap();
    let red = Color::rgb(255, 0, 0);
    fill_polygon(
        &mut fb,
        &vec![Point2D::new(5, 0), Point2D::new(1, 3), Point2D::new(5, 3)],
        red,
    );
    let expected: Vec<Vec<i32>> = vec![
        vec![5],
        vec![4, 5],
        vec![3, 4, 5],
        vec![],
        vec![],
        vec![],
    ];
    for y in 0..6 {
        let xs: Vec<i32> = (0..10)
            .filter(|&x| fb.pixels[(y * 10 + x) as usize] == red)
            .collect();
        assert_eq!(xs, expected[y as usize], "row {}", y);
    }
}

#[test]
fn outline_rejects_degenerate_polygon() {
    let mut fb = FrameBuffer::new(8, 8, black()).unwrap();
    let white = Color::rgb(255, 255, 255);
    let before = fb.pixels.clone();
    let r = draw_polygon_outline(
        &mut fb,
        &vec![Point2D::new(0, 0), Point2D::new(4, 0), Point2D::new(4, 4)],
        white,
    );
    assert_eq!(r.unwrap_err(), RasterError::DegenerateInput);
    assert_eq!(fb.pixels, before);
}

#[test]
fn outline_draws_all_four_edges() {
    let mut fb = FrameBuffer::new(12, 12, black()).unwrap();
    let white = Color::rgb(255, 255, 255);
    let r = draw_polygon_outline(
        &mut fb,
        &vec![
            Point2D::new(1, 1),
            Point2D::new(6, 1),
            Point2D::new(6, 6),
            Point2D::new(1, 6),
        ],
        white,
    );
    assert!(r.is_ok());
    for i in 1..=6 {
        assert_eq!(fb.pixels[(1 * 12 + i) as usize], white);
        assert_eq!(fb.pixels[(6 * 12 + i) as usize], white);
        assert_eq!(fb.pixels[(i * 12 + 1) as usize], white);
        assert_eq!(fb.pixels[(i * 12 + 6) as usize], white);
    }
    assert_eq!(fb.pixels[(3 * 12 + 3) as usize], black());
}
