use rasterizer::{draw_line, Color, FrameBuffer, Point2D};

fn black() -> Color {
    Color::rgb(0, 0, 0)
}

fn colored_cells(fb: &FrameBuffer, c: Color) -> Vec<(i32, i32)> {
    let mut out = Vec::new();
    for y in 0..fb.height {
        for x in 0..fb.width {
            if fb.pixels[(y * fb.width + x) as usize] == c {
                out.push((x, y));
            }
        }
    }
    out
}

#[test]
fn coincident_endpoints_plot_exactly_one_pixel() {
    let mut fb = FrameBuffer::new(16, 16, black()).unwrap();
    let white = Color::rgb(255, 255, 255);
    draw_line(&mut fb, Point2D::new(5, 5), Point2D::new(5, 5), white);
    assert_eq!(colored_cells(&fb, white), vec![(5, 5)]);
}

#[test]
fn line_visits_both_endpoints_with_expected_length() {
    let mut fb = FrameBuffer::new(16, 16, black()).unwrap();
    let white = Color::rgb(255, 255, 255);
    draw_line(&mut fb, Point2D::new(1, 2), Point2D::new(8, 5), white);
    let cells = colored_cells(&fb, white);
    // max(|8-1|, |5-2|) + 1 pixels, both endpoints among them.
    assert_eq!(cells.len(), 8);
    assert!(cells.contains(&(1, 2)));
    assert!(cells.contains(&(8, 5)));
}

#[test]
fn horizontal_and_vertical_lines_are_solid_runs() {
    let white = Color::rgb(255, 255, 255);
    let mut fb = FrameBuffer::new(16, 16, black()).unwrap();
    draw_line(&mut fb, Point2D::new(2, 7), Point2D::new(9, 7), white);
    let expected: Vec<(i32, i32)> = (2..=9).map(|x| (x, 7)).collect();
    assert_eq!(colored_cells(&fb, white), expected);

    let mut fb2 = FrameBuffer::new(16, 16, black()).unwrap();
    draw_line(&mut fb2, Point2D::new(3, 9), Point2D::new(3, 4), white);
    let expected2: Vec<(i32, i32)> = (4..=9).map(|y| (3, y)).collect();
    assert_eq!(colored_cells(&fb2, white), expected2);
}

#[test]
fn line_path_is_connected() {
    let mut fb = FrameBuffer::new(32, 32, black()).unwrap();
    let white = Color::rgb(255, 255, 255);
    draw_line(&mut fb, Point2D::new(1, 1), Point2D::new(20, 9), white);
    let cells = colored_cells(&fb, white);
    assert_eq!(cells.len(), 20);
    // Every plotted pixel except the last has a neighbor one step toward
    // the far endpoint within one unit in each axis.
    for &(x, y) in &cells {
        if (x, y) == (20, 9) {
            continue;
        }
        let has_next = cells
            .iter()
            .any(|&(a, b)| (a, b) != (x, y) && (a - x).abs() <= 1 && (b - y).abs() <= 1 && a >= x);
        assert!(has_next, "pixel ({}, {}) has no forward neighbor", x, y);
    }
}

#[test]
fn line_clips_silently_at_buffer_edge() {
    let mut fb = FrameBuffer::new(8, 8, black()).unwrap();
    let white = Color::rgb(255, 255, 255);
    draw_line(&mut fb, Point2D::new(-3, 4), Point2D::new(12, 4), white);
    let expected: Vec<(i32, i32)> = (0..8).map(|x| (x, 4)).collect();
    assert_eq!(colored_cells(&fb, white), expected);
}
