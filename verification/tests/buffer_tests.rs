use rasterizer::{Color, FrameBuffer, RasterError};

fn black() -> Color {
    Color::rgb(0, 0, 0)
}

#[test]
fn new_allocates_and_initializes() {
    let fb = FrameBuffer::new(4, 3, black()).unwrap();
    assert_eq!(fb.width, 4);
    assert_eq!(fb.height, 3);
    assert_eq!(fb.pixels.len(), 12);
    for p in &fb.pixels {
        assert_eq!(*p, black());
    }
}

#[test]
fn new_rejects_non_positive_dimensions() {
    assert_eq!(
        FrameBuffer::new(0, 5, black()).unwrap_err(),
        RasterError::NonPositiveDimensions
    );
    assert_eq!(
        FrameBuffer::new(5, -1, black()).unwrap_err(),
        RasterError::NonPositiveDimensions
    );
}

#[test]
fn set_pixel_writes_in_bounds() {
    let mut fb = FrameBuffer::new(4, 3, black()).unwrap();
    let red = Color::rgb(255, 0, 0);
    fb.set_pixel(2, 1, red);
    assert_eq!(fb.pixels[1 * 4 + 2], red);
}

#[test]
fn set_pixel_out_of_range_is_harmless() {
    let mut fb = FrameBuffer::new(4, 3, black()).unwrap();
    let red = Color::rgb(255, 0, 0);
    fb.set_pixel(1, 1, red);
    let before = fb.pixels.clone();
    fb.set_pixel(-1, 0, Color::rgb(1, 2, 3));
    fb.set_pixel(0, -1, Color::rgb(1, 2, 3));
    fb.set_pixel(4, 0, Color::rgb(1, 2, 3));
    fb.set_pixel(0, 3, Color::rgb(1, 2, 3));
    fb.set_pixel(i32::MIN, i32::MAX, Color::rgb(1, 2, 3));
    assert_eq!(fb.pixels, before);
}

#[test]
fn clear_overwrites_every_cell() {
    let mut fb = FrameBuffer::new(3, 3, black()).unwrap();
    fb.set_pixel(1, 1, Color::rgb(9, 9, 9));
    let gray = Color::rgb(17, 17, 17);
    fb.clear(gray);
    for p in &fb.pixels {
        assert_eq!(*p, gray);
    }
}

#[test]
fn rgb_bytes_layout_and_length() {
    let mut fb = FrameBuffer::new(2, 2, black()).unwrap();
    fb.set_pixel(0, 0, Color::rgb(1, 2, 3));
    fb.set_pixel(1, 0, Color::rgb(4, 5, 6));
    fb.set_pixel(0, 1, Color::rgb(7, 8, 9));
    fb.set_pixel(1, 1, Color::rgb(10, 11, 12));
    let bytes = fb.to_rgb_bytes();
    assert_eq!(bytes.len(), 2 * 2 * 3);
    assert_eq!(bytes, vec![1, 2, 3, 4, 5, 6, 7, 8, 9, 10, 11, 12]);
}
