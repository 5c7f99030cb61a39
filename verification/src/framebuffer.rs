use vstd::prelude::*;
use crate::geometry::Color;

verus! {

/// Errors raised when a buffer or a drawing request is rejected outright.
#[derive(Debug, Clone, Copy, PartialEq, Eq, Structural)]
pub enum RasterError {
    /// A buffer was requested with a width or height of zero or less.
    NonPositiveDimensions,
    /// A polygon had fewer vertices than the outline renderer accepts.
    DegenerateInput,
}

/// A fixed-size width x height grid of colors, row-major, that all
/// rasterization writes into.
#[derive(Debug)]
pub struct FrameBuffer {
    pub width: i32,
    pub height: i32,
    pub pixels: Vec<Color>,
}

/// The flat RGB byte layout of a row-major pixel sequence: three bytes per
/// pixel, in pixel order.
pub open spec fn rgb_bytes_spec(s: Seq<Color>) -> Seq<u8>
    decreases s.len(),
{
    if s.len() == 0 {
        Seq::empty()
    } else {
        rgb_bytes_spec(s.drop_last()) + seq![s.last().r, s.last().g, s.last().b]
    }
}

pub proof fn lemma_rgb_bytes_len(s: Seq<Color>)
    ensures
        rgb_bytes_spec(s).len() == 3 * s.len(),
    decreases s.len(),
{
    if s.len() > 0 {
        lemma_rgb_bytes_len(s.drop_last());
    }
}

/// A flat row-major cell index decomposes into the column `i % w` and the
/// row `i / w`.
pub proof fn lemma_cell_coords(w: int, h: int, i: int)
    requires
        1 <= w,
        1 <= h,
        0 <= i < w * h,
    ensures
        0 <= i % w < w,
        0 <= i / w < h,
        i == (i / w) * w + (i % w),
{
    vstd::arithmetic::div_mod::lemma_fundamental_div_mod(i, w);
    vstd::arithmetic::div_mod::lemma_mod_bound(i, w);
    assert(w * (i / w) == (i / w) * w) by (nonlinear_arith);
    assert(0 <= i / w < h) by (nonlinear_arith)
        requires
            1 <= w,
            1 <= h,
            0 <= i < w * h,
            i == w * (i / w) + (i % w),
            0 <= i % w < w,
    ;
}

/// The in-bounds coordinate pair (x, y) addresses exactly the flat cell
/// `y * w + x`.
pub proof fn lemma_coords_cell(w: int, x: int, y: int)
    requires
        1 <= w,
        0 <= x < w,
        0 <= y,
    ensures
        (y * w + x) / w == y,
        (y * w + x) % w == x,
{
    vstd::arithmetic::div_mod::lemma_fundamental_div_mod_converse(y * w + x, w, y, x);
}

impl FrameBuffer {
    /// The buffer's storage matches its stated dimensions.
    pub open spec fn wf(&self) -> bool {
        &&& 1 <= self.width
        &&& 1 <= self.height
        &&& self.pixels@.len() == self.width * self.height
    }

    /// The coordinate pair addresses a cell of this buffer.
    pub open spec fn in_bounds(&self, x: int, y: int) -> bool {
        0 <= x < self.width && 0 <= y < self.height
    }

    /// Allocates a width x height grid with every cell set to `color`.
    /// Non-positive dimensions are rejected with an explicit error.
    pub fn new(width: i32, height: i32, color: Color) -> (r: Result<Self, RasterError>)
        requires
            width >= 1 && height >= 1 ==> width * height <= usize::MAX,
        ensures
            width >= 1 && height >= 1 <==> r is Ok,
            r matches Ok(fb) ==> {
                &&& fb.wf()
                &&& fb.width == width
                &&& fb.height == height
                &&& forall|i: int| 0 <= i < fb.pixels@.len() ==> fb.pixels@[i] == color
            },
            r matches Err(e) ==> e == RasterError::NonPositiveDimensions,
    {
        if width < 1 || height < 1 {
            return Err(RasterError::NonPositiveDimensions);
        }
        let count: usize = (width as usize) * (height as usize);
        let mut pixels: Vec<Color> = Vec::new();
        let mut i: usize = 0;
        while i < count
            invariant
                i <= count,
                pixels@.len() == i,
                forall|j: int| 0 <= j < i ==> pixels@[j] == color,
            decreases count - i,
        {
            pixels.push(color);
            i = i + 1;
        }
        proof {
            assert(count == width * height) by (nonlinear_arith)
                requires
                    1 <= width,
                    1 <= height,
                    count == (width as usize) * (height as usize),
            ;
        }
        Ok(FrameBuffer { width, height, pixels })
    }

    /// Writes `color` at (x, y) if in-bounds; silently does nothing otherwise.
    pub fn set_pixel(&mut self, x: i32, y: i32, color: Color)
        requires
            old(self).wf(),
        ensures
            final(self).wf(),
            final(self).width == old(self).width,
            final(self).height == old(self).height,
            old(self).in_bounds(x as int, y as int) ==> final(self).pixels@
                == old(self).pixels@.update(y * old(self).width + x, color),
            !old(self).in_bounds(x as int, y as int) ==> final(self).pixels@
                == old(self).pixels@,
    {
        if x >= 0 && x < self.width && y >= 0 && y < self.height {
            let n: usize = self.pixels.len();
            proof {
                assert(0 <= y * self.width && y * self.width + x < self.width * self.height)
                    by (nonlinear_arith)
                    requires
                        0 <= x < self.width,
                        0 <= y < self.height,
                ;
            }
            let index: usize = (y as usize) * (self.width as usize) + (x as usize);
            self.pixels[index] = color;
        }
    }

    /// Overwrites every cell with `color`.
    pub fn clear(&mut self, color: Color)
        requires
            old(self).wf(),
        ensures
            final(self).wf(),
            final(self).width == old(self).width,
            final(self).height == old(self).height,
            final(self).pixels@.len() == old(self).pixels@.len(),
            forall|i: int| 0 <= i < final(self).pixels@.len()
                ==> final(self).pixels@[i] == color,
    {
        let n: usize = self.pixels.len();
        let mut i: usize = 0;
        while i < n
            invariant
                i <= n,
                self.pixels@.len() == n,
                self.width == old(self).width,
                self.height == old(self).height,
                self.wf(),
                forall|j: int| 0 <= j < i ==> self.pixels@[j] == color,
            decreases n - i,
        {
            self.pixels[i] = color;
            i = i + 1;
        }
    }

    /// Produces the flat byte sequence, row-major, three bytes (R, G, B) per
    /// pixel; its length is always exactly three bytes per stored pixel, so
    /// `width * height * 3` for a well-formed buffer.
    pub fn to_rgb_bytes(&self) -> (r: Vec<u8>)
        ensures
            r@ == rgb_bytes_spec(self.pixels@),
            r@.len() == 3 * self.pixels@.len(),
            self.wf() ==> r@.len() == 3 * self.width * self.height,
    {
        let n: usize = self.pixels.len();
        let mut out: Vec<u8> = Vec::new();
        let mut i: usize = 0;
        while i < n
            invariant
                i <= n,
                self.pixels@.len() == n,
                out@ == rgb_bytes_spec(self.pixels@.take(i as int)),
                out@.len() == 3 * i,
            decreases n - i,
        {
            let p = self.pixels[i];
            out.push(p.r);
            out.push(p.g);
            out.push(p.b);
            proof {
                let s = self.pixels@;
                assert(s.take(i + 1).drop_last() =~= s.take(i as int));
                assert(s.take(i + 1).last() == s[i as int]);
                assert(out@ =~= rgb_bytes_spec(s.take(i + 1)));
            }
            i = i + 1;
        }
        proof {
            assert(self.pixels@.take(n as int) =~= self.pixels@);
            lemma_rgb_bytes_len(self.pixels@);
            if self.wf() {
                assert(3 * self.pixels@.len() == 3 * self.width * self.height)
                    by (nonlinear_arith)
                    requires
                        self.pixels@.len() == self.width * self.height,
                ;
            }
        }
        out
    }
}

} // verus!
