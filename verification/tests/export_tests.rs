use rasterizer::{Color, ExportError, FrameBuffer, Point2D, PolygonRenderer};

fn black() -> Color {
    Color::rgb(0, 0, 0)
}

fn decode(bytes: &[u8]) -> (u32, u32, Vec<u8>) {
    let decoder = png::Decoder::new(std::io::Cursor::new(bytes.to_vec()));
    let mut reader = decoder.read_info().unwrap();
    let mut buf = vec![0u8; reader.output_buffer_size().unwrap()];
    let info = reader.next_frame(&mut buf).unwrap();
    assert_eq!(info.color_type, png::ColorType::Rgb);
    assert_eq!(info.bit_depth, png::BitDepth::Eight);
    let n = (info.width * info.height * 3) as usize;
    buf.truncate(n);
    (info.width, info.height, buf)
}

#[test]
fn png_round_trip_reproduces_every_pixel() {
    let mut fb = FrameBuffer::new(9, 7, black()).unwrap();
    let renderer = PolygonRenderer::new();
    renderer.render(
        &mut fb,
        &vec![vec![
            Point2D::new(1, 1),
            Point2D::new(7, 1),
            Point2D::new(7, 5),
            Point2D::new(1, 5),
        ]],
    );
    fb.set_pixel(0, 6, Color::rgb(12, 34, 56));
    let raw = fb.to_rgb_bytes();
    let encoded = fb.encode_png().unwrap();
    // A PNG stream is a real encoding, not the raw bytes handed back.
    assert_ne!(encoded, raw);
    let (w, h, decoded) = decode(&encoded);
    assert_eq!(w, 9);
    assert_eq!(h, 7);
    assert_eq!(decoded, raw);
}

#[test]
fn round_trip_of_a_uniform_buffer() {
    let mut fb = FrameBuffer::new(3, 3, Color::rgb(5, 6, 7)).unwrap();
    fb.clear(Color::rgb(200, 100, 50));
    let encoded = fb.encode_png().unwrap();
    let (w, h, decoded) = decode(&encoded);
    assert_eq!((w, h), (3, 3));
    assert_eq!(decoded, fb.to_rgb_bytes());
}

#[test]
fn encode_rejects_non_positive_dimensions() {
    let fb = FrameBuffer {
        width: 0,
        height: 5,
        pixels: Vec::new(),
    };
    assert_eq!(fb.encode_png().unwrap_err(), ExportError::NonPositiveDimensions);
    let fb2 = FrameBuffer {
        width: 5,
        height: -2,
        pixels: Vec::new(),
    };
    assert_eq!(fb2.encode_png().unwrap_err(), ExportError::NonPositiveDimensions);
}

#[test]
fn encode_rejects_mismatched_pixel_store() {
    let fb = FrameBuffer {
        width: 4,
        height: 4,
        pixels: vec![black(); 15],
    };
    assert_eq!(fb.encode_png().unwrap_err(), ExportError::ByteLengthMismatch);
}

#[test]
fn encode_is_idempotent() {
    let fb = FrameBuffer::new(5, 4, Color::rgb(9, 8, 7)).unwrap();
    let first = fb.encode_png().unwrap();
    let second = fb.encode_png().unwrap();
    assert_eq!(first, second);
}
