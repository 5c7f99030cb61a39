use vstd::prelude::*;
use crate::framebuffer::{FrameBuffer, rgb_bytes_spec};

verus! {

/// Errors from serializing a buffer to an image byte stream. Writing the
/// stream anywhere is the caller's business, as are its failures.
#[derive(Debug, Clone, Copy, PartialEq, Eq, Structural)]
pub enum ExportError {
    /// The buffer's width or height is zero or less.
    NonPositiveDimensions,
    /// The buffer does not hold width * height pixels.
    ByteLengthMismatch,
    /// The encoder itself refused the image. In-memory encoding of a
    /// validated buffer never produces it; it is the mapping target for the
    /// encoder's own error type.
    EncodingFailed,
}

/// The PNG stream encoding a w x h RGB8 image with the given pixel bytes;
/// with fixed encoder settings it is a function of these arguments alone.
pub uninterp spec fn png_rgb8_of(w: int, h: int, data: Seq<u8>) -> Seq<u8>;

/// Relies on png::Encoder and png::Writer::write_image_data: with the
/// default settings, encoding an RGB8 image of the stated dimensions into
/// an in-memory buffer depends on the dimensions and pixel bytes alone,
/// and it succeeds: writing to a Vec cannot fail, and the encoder's error
/// paths (zero dimensions, invalid color/depth pairing, data of the wrong
/// length) are all excluded by the preconditions.
#[verifier::external_body]
fn png_encode_rgb8(width: u32, height: u32, data: &Vec<u8>) -> (r: Result<Vec<u8>, ()>)
    requires
        1 <= width,
        1 <= height,
        data@.len() == width * height * 3,
    ensures
        r is Ok,
        r matches Ok(b) ==> b@ == png_rgb8_of(width as int, height as int, data@),
{
    let mut out: Vec<u8> = Vec::new();
    let mut encoder = png::Encoder::new(&mut out, width, height);
    encoder.set_color(png::ColorType::Rgb);
    encoder.set_depth(png::BitDepth::Eight);
    let mut writer = match encoder.write_header() {
        Ok(wr) => wr,
        Err(_) => return Err(()),
    };
    if writer.write_image_data(data).is_err() {
        return Err(());
    }
    if writer.finish().is_err() {
        return Err(());
    }
    Ok(out)
}

impl FrameBuffer {
    /// Serializes the buffer to a PNG byte stream: 8-bit depth, RGB, no
    /// alpha, lossless. Non-positive dimensions and a pixel store that does
    /// not match them are rejected before the encoder runs.
    pub fn encode_png(&self) -> (r: Result<Vec<u8>, ExportError>)
        ensures
            self.width < 1 || self.height < 1 ==> r == Err::<Vec<u8>, ExportError>(
                ExportError::NonPositiveDimensions,
            ),
            self.width >= 1 && self.height >= 1 && self.pixels@.len() != self.width * self.height
                ==> r == Err::<Vec<u8>, ExportError>(ExportError::ByteLengthMismatch),
            self.wf() ==> (r matches Ok(b) && b@ == png_rgb8_of(
                self.width as int,
                self.height as int,
                rgb_bytes_spec(self.pixels@),
            )),
    {
        if self.width < 1 || self.height < 1 {
            return Err(ExportError::NonPositiveDimensions);
        }
        proof {
            assert((self.width as u64) * (self.height as u64) == self.width * self.height
                && (self.width as u64) * (self.height as u64) < 0x4000_0000_0000_0000)
                by (nonlinear_arith)
                requires
                    1 <= self.width < 0x1_0000_0000,
                    1 <= self.height < 0x1_0000_0000,
            ;
        }
        let expected: u64 = (self.width as u64) * (self.height as u64);
        if (self.pixels.len() as u64) != expected {
            return Err(ExportError::ByteLengthMismatch);
        }
        let bytes: Vec<u8> = self.to_rgb_bytes();
        proof {
            assert(bytes@.len() == (self.width as u32) * (self.height as u32) * 3)
                by (nonlinear_arith)
                requires
                    1 <= self.width < 0x1_0000_0000,
                    1 <= self.height < 0x1_0000_0000,
                    bytes@.len() == 3 * self.width * self.height,
            ;
        }
        match png_encode_rgb8(self.width as u32, self.height as u32, &bytes) {
            Ok(b) => Ok(b),
            Err(_) => Err(ExportError::EncodingFailed),
        }
    }
}

} // verus!
