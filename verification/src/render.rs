use vstd::prelude::*;
use crate::geometry::{Color, Point2D};
use crate::framebuffer::{FrameBuffer, RasterError};
use crate::line::{draw_line, line_points, paint};
use crate::fill::{fill_image, fill_polygon};

verus! {

/// Buffer contents after drawing the first k outline edges of the closed
/// polygon vs (edge i joins vertex i to vertex (i+1) mod n).
pub open spec fn edges_image(
    v: Seq<Color>,
    vs: Seq<Point2D>,
    k: int,
    color: Color,
    w: int,
) -> Seq<Color>
    decreases k,
{
    if k <= 0 {
        v
    } else {
        paint(
            edges_image(v, vs, k - 1, color, w),
            line_points(vs[k - 1], vs[k % vs.len() as int]),
            color,
            w,
        )
    }
}

/// Buffer contents after drawing every outline edge of polygon vs.
pub open spec fn outline_image(v: Seq<Color>, vs: Seq<Point2D>, color: Color, w: int) -> Seq<Color> {
    edges_image(v, vs, vs.len() as int, color, w)
}

/// Buffer contents after rendering one polygon: interior first (three or
/// more vertices), then outline (at least `minv` vertices), so edges are
/// not overwritten by the fill.
pub open spec fn render_one(
    v: Seq<Color>,
    vs: Seq<Point2D>,
    fill_color: Color,
    outline_color: Color,
    minv: int,
    w: int,
) -> Seq<Color> {
    let filled = if vs.len() >= 3 {
        fill_image(v, vs, fill_color, w)
    } else {
        v
    };
    if vs.len() >= minv && vs.len() >= 1 {
        outline_image(filled, vs, outline_color, w)
    } else {
        filled
    }
}

/// Buffer contents after rendering a polygon list in order; later polygons
/// paint over earlier ones at shared pixels.
pub open spec fn render_image(
    v: Seq<Color>,
    polys: Seq<Seq<Point2D>>,
    fill_color: Color,
    outline_color: Color,
    minv: int,
    w: int,
) -> Seq<Color>
    decreases polys.len(),
{
    if polys.len() == 0 {
        v
    } else {
        render_one(
            render_image(v, polys.drop_last(), fill_color, outline_color, minv, w),
            polys.last(),
            fill_color,
            outline_color,
            minv,
            w,
        )
    }
}

/// The vertex sequences of a list of vertex vectors.
pub open spec fn poly_views(ps: Seq<Vec<Point2D>>) -> Seq<Seq<Point2D>> {
    ps.map_values(|p: Vec<Point2D>| p@)
}

/// Draws every edge of the closed polygon, wrapping the last vertex back to
/// the first.
fn draw_edges(fb: &mut FrameBuffer, vertices: &Vec<Point2D>, color: Color)
    requires
        old(fb).wf(),
        vertices@.len() >= 1,
    ensures
        final(fb).wf(),
        final(fb).width == old(fb).width,
        final(fb).height == old(fb).height,
        final(fb).pixels@ == outline_image(
            old(fb).pixels@,
            vertices@,
            color,
            old(fb).width as int,
        ),
{
    let ghost vs = vertices@;
    let ghost w = old(fb).width as int;
    let ghost v0 = old(fb).pixels@;
    let n: usize = vertices.len();
    let mut i: usize = 0;
    while i < n
        invariant
            i <= n,
            n == vs.len(),
            1 <= n,
            vs == vertices@,
            fb.wf(),
            fb.width == old(fb).width,
            fb.height == old(fb).height,
            w == fb.width as int,
            v0 == old(fb).pixels@,
            fb.pixels@ == edges_image(v0, vs, i as int, color, w),
        decreases n - i,
    {
        let ni: usize = if i + 1 == n {
            0
        } else {
            i + 1
        };
        proof {
            if i + 1 == n {
                vstd::arithmetic::div_mod::lemma_mod_self_0(n as int);
            } else {
                vstd::arithmetic::div_mod::lemma_small_mod((i + 1) as nat, n as nat);
            }
            assert(vs[(i + 1) % (n as int)] == vs[ni as int]);
        }
        let a: Point2D = vertices[i];
        let b: Point2D = vertices[ni];
        draw_line(fb, a, b, color);
        i = i + 1;
    }
}

/// Draws the polygon's outline in `color`. A polygon with fewer than four
/// vertices is rejected as degenerate and nothing is drawn.
pub fn draw_polygon_outline(fb: &mut FrameBuffer, vertices: &Vec<Point2D>, color: Color) -> (r:
    Result<(), RasterError>)
    requires
        old(fb).wf(),
    ensures
        final(fb).wf(),
        final(fb).width == old(fb).width,
        final(fb).height == old(fb).height,
        vertices@.len() >= 4 ==> r is Ok && final(fb).pixels@ == outline_image(
            old(fb).pixels@,
            vertices@,
            color,
            old(fb).width as int,
        ),
        vertices@.len() < 4 ==> r == Err::<(), RasterError>(RasterError::DegenerateInput)
            && final(fb).pixels@ == old(fb).pixels@,
{
    if vertices.len() < 4 {
        return Err(RasterError::DegenerateInput);
    }
    draw_edges(fb, vertices, color);
    Ok(())
}

/// Renders each polygon of a list: interior first, then outline. The fill
/// color, outline color and the outline's minimum vertex count are the
/// renderer's configuration.
pub struct PolygonRenderer {
    pub fill_color: Color,
    pub outline_color: Color,
    pub min_outline_vertices: usize,
}

impl PolygonRenderer {
    /// The default configuration: red interior, white outline, outlines
    /// drawn for polygons of at least four vertices.
    pub fn new() -> (r: Self)
        ensures
            r.fill_color == (Color { r: 255u8, g: 0u8, b: 0u8 }),
            r.outline_color == (Color { r: 255u8, g: 255u8, b: 255u8 }),
            r.min_outline_vertices == 4,
    {
        PolygonRenderer {
            fill_color: Color { r: 255, g: 0, b: 0 },
            outline_color: Color { r: 255, g: 255, b: 255 },
            min_outline_vertices: 4,
        }
    }

    /// Renders the polygon list in order into the buffer: for each polygon
    /// the interior is filled (three or more vertices), then the outline is
    /// drawn over it (at least the configured vertex count).
    pub fn render(&self, fb: &mut FrameBuffer, polygons: &Vec<Vec<Point2D>>)
        requires
            old(fb).wf(),
        ensures
            final(fb).wf(),
            final(fb).width == old(fb).width,
            final(fb).height == old(fb).height,
            final(fb).pixels@ == render_image(
                old(fb).pixels@,
                poly_views(polygons@),
                self.fill_color,
                self.outline_color,
                self.min_outline_vertices as int,
                old(fb).width as int,
            ),
    {
        let ghost polys = poly_views(polygons@);
        let ghost w = old(fb).width as int;
        let ghost v0 = old(fb).pixels@;
        let n: usize = polygons.len();
        let mut i: usize = 0;
        proof {
            assert(polys.take(0) =~= Seq::<Seq<Point2D>>::empty());
        }
        while i < n
            invariant
                i <= n,
                n == polygons@.len(),
                polys == poly_views(polygons@),
                fb.wf(),
                fb.width == old(fb).width,
                fb.height == old(fb).height,
                w == fb.width as int,
                v0 == old(fb).pixels@,
                fb.pixels@ == render_image(
                    v0,
                    polys.take(i as int),
                    self.fill_color,
                    self.outline_color,
                    self.min_outline_vertices as int,
                    w,
                ),
            decreases n - i,
        {
            let poly: &Vec<Point2D> = &polygons[i];
            proof {
                assert(polys[i as int] == poly@);
            }
            if poly.len() >= 3 {
                fill_polygon(fb, poly, self.fill_color);
            }
            if poly.len() >= self.min_outline_vertices && poly.len() >= 1 {
                draw_edges(fb, poly, self.outline_color);
            }
            proof {
                assert(polys.take(i + 1).drop_last() =~= polys.take(i as int));
                assert(polys.take(i + 1).last() == polys[i as int]);
                assert(fb.pixels@ == render_image(
                    v0,
                    polys.take(i + 1),
                    self.fill_color,
                    self.outline_color,
                    self.min_outline_vertices as int,
                    w,
                ));
            }
            i = i + 1;
        }
        proof {
            assert(polys.take(n as int) =~= polys);
        }
    }
}

/// LAW: rendering is deterministic. Two buffers of identical size and
/// identical contents, given the same polygon list and configuration,
/// render to identical contents.
pub proof fn lemma_render_deterministic(
    v1: Seq<Color>,
    v2: Seq<Color>,
    polys: Seq<Seq<Point2D>>,
    fill_color: Color,
    outline_color: Color,
    minv: int,
    w: int,
)
    requires
        v1 == v2,
    ensures
        render_image(v1, polys, fill_color, outline_color, minv, w) == render_image(
            v2,
            polys,
            fill_color,
            outline_color,
            minv,
            w,
        ),
{
}

} // verus!
