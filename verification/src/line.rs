use vstd::prelude::*;
use crate::geometry::{Color, Point2D, iabs, max_int, min_int};
use crate::framebuffer::FrameBuffer;

verus! {

/// Two grid points are at most one unit apart in each axis.
pub open spec fn step_adjacent(a: (int, int), b: (int, int)) -> bool {
    iabs(b.0 - a.0) <= 1 && iabs(b.1 - a.1) <= 1
}

/// The pixel path of the integer incremental line rasterizer, unfolded from
/// the state (x, y, err); dx, dy, sx, sy are fixed by the segment's
/// endpoints. `fuel` bounds the unfolding; the rasterizer itself never
/// exhausts it.
pub open spec fn bres_seq(
    x: int,
    y: int,
    err: int,
    x1: int,
    y1: int,
    dx: int,
    dy: int,
    sx: int,
    sy: int,
    fuel: nat,
) -> Seq<(int, int)>
    decreases fuel,
{
    if (x == x1 && y == y1) || fuel == 0 {
        seq![(x, y)]
    } else {
        let e2 = 2 * err;
        let xn = if e2 > -dy {
            x + sx
        } else {
            x
        };
        let ex = if e2 > -dy {
            err - dy
        } else {
            err
        };
        let yn = if e2 < dx {
            y + sy
        } else {
            y
        };
        let en = if e2 < dx {
            ex + dx
        } else {
            ex
        };
        seq![(x, y)] + bres_seq(xn, yn, en, x1, y1, dx, dy, sx, sy, (fuel - 1) as nat)
    }
}

/// The discrete pixel path the line rasterizer plots from `start` to `end`.
pub open spec fn line_points(start: Point2D, end: Point2D) -> Seq<(int, int)> {
    let dx = iabs(end.x - start.x);
    let dy = iabs(end.y - start.y);
    let sx: int = if start.x < end.x {
        1int
    } else {
        -1int
    };
    let sy: int = if start.y < end.y {
        1int
    } else {
        -1int
    };
    bres_seq(
        start.x as int,
        start.y as int,
        dx - dy,
        end.x as int,
        end.y as int,
        dx,
        dy,
        sx,
        sy,
        max_int(dx, dy) as nat,
    )
}

/// The buffer contents after painting `color` over every listed grid point
/// that falls inside the w-column row-major grid holding v.len() cells.
pub open spec fn paint(v: Seq<Color>, pts: Seq<(int, int)>, color: Color, w: int) -> Seq<Color> {
    Seq::new(
        v.len(),
        |i: int|
            if exists|k: int| 0 <= k < pts.len() && pts[k] == (i % w, i / w) {
                color
            } else {
                v[i]
            },
    )
}

/// The error term the rasterizer maintains after px steps in x and py steps
/// in y, together with the bounds that keep it on track.
pub open spec fn bres_inv(px: int, py: int, err: int, dx: int, dy: int) -> bool {
    &&& 0 <= px <= dx
    &&& 0 <= py <= dy
    &&& err == dx - dy + py * dx - px * dy
    &&& (dx > dy ==> dx - 2 * dy <= 2 * err <= 3 * dx - 2 * dy - 1)
    &&& (dy > dx ==> 2 * dx + 1 - 3 * dy <= 2 * err <= 2 * dx - dy)
    &&& (dx == dy ==> px == py && err == 0)
}

/// One iteration of the rasterizer advances x, or y, or both, keeps the
/// error bounds, and brings max(remaining x, remaining y) down by one.
pub proof fn lemma_bres_inv_step(px: int, py: int, err: int, dx: int, dy: int)
    requires
        0 <= dx,
        0 <= dy,
        bres_inv(px, py, err, dx, dy),
        !(px == dx && py == dy),
    ensures
        ({
            let e2 = 2 * err;
            let advx = e2 > -dy;
            let advy = e2 < dx;
            let px2 = if advx {
                px + 1
            } else {
                px
            };
            let py2 = if advy {
                py + 1
            } else {
                py
            };
            let err2 = (if advx {
                err - dy
            } else {
                err
            }) + (if advy {
                dx
            } else {
                0
            });
            &&& (advx || advy)
            &&& (advx ==> px < dx)
            &&& (advy ==> py < dy)
            &&& bres_inv(px2, py2, err2, dx, dy)
            &&& max_int(dx - px2, dy - py2) == max_int(dx - px, dy - py) - 1
        }),
{
    let e2 = 2 * err;
    if dx > dy {
        // x always advances in this regime.
        assert(e2 > -dy);
        assert(px < dx) by (nonlinear_arith)
            requires
                err == dx - dy + py * dx - px * dy,
                dx - 2 * dy <= 2 * err <= 3 * dx - 2 * dy - 1,
                0 <= py <= dy,
                0 <= px <= dx,
                dx > dy >= 0,
                !(px == dx && py == dy),
        ;
        // The slack between the two axes never goes negative.
        let delta = (dx - px) - (dy - py);
        assert(delta >= 0) by (nonlinear_arith)
            requires
                err == dx - dy + py * dx - px * dy,
                dx - 2 * dy <= 2 * err,
                0 <= py <= dy,
                0 <= px < dx,
                dx > dy >= 0,
                delta == (dx - px) - (dy - py),
        ;
        if e2 < dx {
            assert(py < dy) by (nonlinear_arith)
                requires
                    err == dx - dy + py * dx - px * dy,
                    2 * err < dx,
                    0 <= py <= dy,
                    0 <= px < dx,
                    dx > dy >= 0,
            ;
            let err2 = err - dy + dx;
            assert(err2 == dx - dy + (py + 1) * dx - (px + 1) * dy) by (nonlinear_arith)
                requires
                    err == dx - dy + py * dx - px * dy,
                    err2 == err - dy + dx,
            ;
            assert(bres_inv(px + 1, py + 1, err2, dx, dy));
        } else {
            // y stands still only while x is strictly ahead.
            assert(delta >= 1) by (nonlinear_arith)
                requires
                    err == dx - dy + py * dx - px * dy,
                    2 * err >= dx,
                    0 <= py <= dy,
                    0 <= px < dx,
                    dx > dy >= 0,
                    delta == (dx - px) - (dy - py),
            ;
            let err2 = err - dy;
            assert(err2 == dx - dy + py * dx - (px + 1) * dy) by (nonlinear_arith)
                requires
                    err == dx - dy + py * dx - px * dy,
                    err2 == err - dy,
            ;
            assert(bres_inv(px + 1, py, err2, dx, dy));
        }
    } else if dy > dx {
        // y always advances in this regime.
        assert(e2 < dx);
        assert(py < dy) by (nonlinear_arith)
            requires
                err == dx - dy + py * dx - px * dy,
                2 * dx + 1 - 3 * dy <= 2 * err <= 2 * dx - dy,
                0 <= py <= dy,
                0 <= px <= dx,
                dy > dx >= 0,
                !(px == dx && py == dy),
        ;
        let delta = (dy - py) - (dx - px);
        assert(delta >= 0) by (nonlinear_arith)
            requires
                err == dx - dy + py * dx - px * dy,
                2 * err <= 2 * dx - dy,
                0 <= py < dy,
                0 <= px <= dx,
                dy > dx >= 0,
                delta == (dy - py) - (dx - px),
        ;
        if e2 > -dy {
            assert(px < dx) by (nonlinear_arith)
                requires
                    err == dx - dy + py * dx - px * dy,
                    2 * err > -dy,
                    0 <= py < dy,
                    0 <= px <= dx,
                    dy > dx >= 0,
            ;
            let err2 = err - dy + dx;
            assert(err2 == dx - dy + (py + 1) * dx - (px + 1) * dy) by (nonlinear_arith)
                requires
                    err == dx - dy + py * dx - px * dy,
                    err2 == err - dy + dx,
            ;
            assert(bres_inv(px + 1, py + 1, err2, dx, dy));
        } else {
            assert(delta >= 1) by (nonlinear_arith)
                requires
                    err == dx - dy + py * dx - px * dy,
                    2 * err <= -dy,
                    0 <= py < dy,
                    0 <= px <= dx,
                    dy > dx >= 0,
                    delta == (dy - py) - (dx - px),
            ;
            let err2 = err + dx;
            assert(err2 == dx - dy + (py + 1) * dx - px * dy) by (nonlinear_arith)
                requires
                    err == dx - dy + py * dx - px * dy,
                    err2 == err + dx,
            ;
            assert(bres_inv(px, py + 1, err2, dx, dy));
        }
    } else {
        // dx == dy: the two axes advance in lockstep.
        assert(px == py && err == 0);
        assert(px < dx && py < dy);
        assert(e2 > -dy && e2 < dx);
        let err2 = err - dy + dx;
        assert(err2 == dx - dy + (py + 1) * dx - (px + 1) * dy) by (nonlinear_arith)
            requires
                err == 0,
                dx == dy,
                err == dx - dy + py * dx - px * dy,
                err2 == err - dy + dx,
        ;
        assert(bres_inv(px + 1, py + 1, err2, dx, dy));
    }
}

/// Under the rasterizer's invariant, the unfolded path has exactly
/// max(remaining x, remaining y) + 1 points, starts at the current point,
/// ends at the far endpoint, stays between the endpoints in each axis, and
/// moves at most one unit per axis per step.
pub proof fn lemma_bres_props(
    x: int,
    y: int,
    err: int,
    x1: int,
    y1: int,
    dx: int,
    dy: int,
    sx: int,
    sy: int,
    px: int,
    py: int,
    fuel: nat,
)
    requires
        0 <= dx,
        0 <= dy,
        sx == 1 || sx == -1,
        sy == 1 || sy == -1,
        bres_inv(px, py, err, dx, dy),
        sx * (x1 - x) == dx - px,
        sy * (y1 - y) == dy - py,
        fuel >= max_int(dx - px, dy - py),
    ensures
        ({
            let s = bres_seq(x, y, err, x1, y1, dx, dy, sx, sy, fuel);
            &&& s.len() == max_int(dx - px, dy - py) + 1
            &&& s[0] == (x, y)
            &&& s[s.len() - 1] == (x1, y1)
            &&& forall|i: int|
                0 <= i < s.len() ==> min_int(x, x1) <= (#[trigger] s[i]).0 <= max_int(x, x1)
                    && min_int(y, y1) <= s[i].1 <= max_int(y, y1)
            &&& forall|i: int| 0 <= i < s.len() - 1 ==> #[trigger] step_adjacent(s[i], s[i + 1])
        }),
    decreases fuel,
{
    let s = bres_seq(x, y, err, x1, y1, dx, dy, sx, sy, fuel);
    if px == dx && py == dy {
        assert(sx * (x1 - x) == 0);
        assert(x1 == x) by (nonlinear_arith)
            requires
                sx * (x1 - x) == 0,
                sx == 1 || sx == -1,
        ;
        assert(y1 == y) by (nonlinear_arith)
            requires
                sy * (y1 - y) == 0,
                sy == 1 || sy == -1,
        ;
        assert(s =~= seq![(x, y)]);
    } else {
        assert(!(x == x1 && y == y1)) by (nonlinear_arith)
            requires
                sx * (x1 - x) == dx - px,
                sy * (y1 - y) == dy - py,
                sx == 1 || sx == -1,
                sy == 1 || sy == -1,
                px <= dx,
                py <= dy,
                !(px == dx && py == dy),
        ;
        assert(fuel >= 1);
        lemma_bres_inv_step(px, py, err, dx, dy);
        let e2 = 2 * err;
        let advx = e2 > -dy;
        let advy = e2 < dx;
        let px2 = if advx {
            px + 1
        } else {
            px
        };
        let py2 = if advy {
            py + 1
        } else {
            py
        };
        let err2 = (if advx {
            err - dy
        } else {
            err
        }) + (if advy {
            dx
        } else {
            0
        });
        let xn = if advx {
            x + sx
        } else {
            x
        };
        let yn = if advy {
            y + sy
        } else {
            y
        };
        assert(sx * (x1 - xn) == dx - px2) by (nonlinear_arith)
            requires
                sx * (x1 - x) == dx - px,
                sx == 1 || sx == -1,
                xn == if advx {
                    x + sx
                } else {
                    x
                },
                px2 == if advx {
                    px + 1
                } else {
                    px
                },
        ;
        assert(sy * (y1 - yn) == dy - py2) by (nonlinear_arith)
            requires
                sy * (y1 - y) == dy - py,
                sy == 1 || sy == -1,
                yn == if advy {
                    y + sy
                } else {
                    y
                },
                py2 == if advy {
                    py + 1
                } else {
                    py
                },
        ;
        lemma_bres_props(xn, yn, err2, x1, y1, dx, dy, sx, sy, px2, py2, (fuel - 1) as nat);
        let s2 = bres_seq(xn, yn, err2, x1, y1, dx, dy, sx, sy, (fuel - 1) as nat);
        assert(s == seq![(x, y)] + s2);
        assert(s.len() == 1 + s2.len());
        // The first hop moves at most one unit per axis.
        assert(iabs(xn - x) <= 1 && iabs(yn - y) <= 1) by (nonlinear_arith)
            requires
                sx == 1 || sx == -1,
                sy == 1 || sy == -1,
                (xn == x + sx || xn == x),
                (yn == y + sy || yn == y),
        ;
        assert(step_adjacent(s[0], s[1]));
        // The new current point still lies between the endpoints.
        assert(min_int(x, x1) <= xn <= max_int(x, x1) && min_int(xn, x1) >= min_int(x, x1)
            && max_int(xn, x1) <= max_int(x, x1)) by (nonlinear_arith)
            requires
                sx == 1 || sx == -1,
                sx * (x1 - x) == dx - px,
                sx * (x1 - xn) == dx - px2,
                0 <= px <= dx,
                0 <= px2 <= dx,
                (xn == x + sx || xn == x),
        ;
        assert(min_int(y, y1) <= yn <= max_int(y, y1) && min_int(yn, y1) >= min_int(y, y1)
            && max_int(yn, y1) <= max_int(y, y1)) by (nonlinear_arith)
            requires
                sy == 1 || sy == -1,
                sy * (y1 - y) == dy - py,
                sy * (y1 - yn) == dy - py2,
                0 <= py <= dy,
                0 <= py2 <= dy,
                (yn == y + sy || yn == y),
        ;
        assert forall|i: int| 0 <= i < s.len() implies min_int(x, x1) <= (#[trigger] s[i]).0
            <= max_int(x, x1) && min_int(y, y1) <= s[i].1 <= max_int(y, y1) by {
            if i > 0 {
                assert(s[i] == s2[i - 1]);
            }
        }
        assert forall|i: int| 0 <= i < s.len() - 1 implies #[trigger] step_adjacent(
            s[i],
            s[i + 1],
        ) by {
            if i > 0 {
                assert(s[i] == s2[i - 1] && s[i + 1] == s2[i]);
                assert(step_adjacent(s2[i - 1], s2[i - 1 + 1]));
            }
        }
        assert(s[s.len() - 1] == s2[s2.len() - 1]);
    }
}

/// Painting one more listed point either recolors exactly that point's cell
/// (when it lies on the grid) or changes nothing (when it lies off it).
pub proof fn lemma_paint_extend(v: Seq<Color>, pts: Seq<(int, int)>, k: int, color: Color, w: int, h: int)
    requires
        1 <= w,
        1 <= h,
        v.len() == w * h,
        0 <= k < pts.len(),
    ensures
        ({
            let p = pts[k];
            let before = paint(v, pts.take(k), color, w);
            let after = paint(v, pts.take(k + 1), color, w);
            &&& (0 <= p.0 < w && 0 <= p.1 < h ==> after == before.update(p.1 * w + p.0, color))
            &&& (!(0 <= p.0 < w && 0 <= p.1 < h) ==> after == before)
        }),
{
    let p = pts[k];
    let before = paint(v, pts.take(k), color, w);
    let after = paint(v, pts.take(k + 1), color, w);
    let a = pts.take(k);
    let b = pts.take(k + 1);
    assert(forall|j: int| 0 <= j < a.len() ==> a[j] == b[j]);
    assert(b[k] == p);
    if 0 <= p.0 < w && 0 <= p.1 < h {
        let target = p.1 * w + p.0;
        crate::framebuffer::lemma_coords_cell(w, p.0, p.1);
        assert(0 <= target < w * h) by (nonlinear_arith)
            requires
                0 <= p.0 < w,
                0 <= p.1 < h,
                target == p.1 * w + p.0,
        ;
        assert forall|i: int| 0 <= i < v.len() implies after[i] == before.update(target, color)[i] by {
            crate::framebuffer::lemma_cell_coords(w, h, i);
            if i == target {
                assert(b[k] == (i % w, i / w));
                assert(after[i] == color);
            } else {
                // A different cell decodes to a different coordinate pair.
                assert(!(p == ((i % w), (i / w))));
                assert forall|m: int| 0 <= m < b.len() && b[m] == (i % w, i / w) implies 0 <= m < a.len() by {
                    if m == k {
                        assert(false);
                    }
                }
            }
        }
        assert(after =~= before.update(target, color));
    } else {
        assert forall|i: int| 0 <= i < v.len() implies after[i] == before[i] by {
            crate::framebuffer::lemma_cell_coords(w, h, i);
            assert forall|m: int| 0 <= m < b.len() && b[m] == (i % w, i / w) implies 0 <= m < a.len() by {
                if m == k {
                    assert(false);
                }
            }
        }
        assert(after =~= before);
    }
}

/// LAW: for any two endpoints, the rasterized path visits both endpoints,
/// has exactly max(|x1 - x0|, |y1 - y0|) + 1 points, and never moves more
/// than one unit per axis between consecutive points.
pub proof fn lemma_line_points_path(start: Point2D, end: Point2D)
    ensures
        ({
            let pts = line_points(start, end);
            let dx = iabs(end.x - start.x);
            let dy = iabs(end.y - start.y);
            &&& pts.len() == max_int(dx, dy) + 1
            &&& pts[0] == (start.x as int, start.y as int)
            &&& pts[pts.len() - 1] == (end.x as int, end.y as int)
            &&& forall|i: int|
                0 <= i < pts.len() ==> min_int(start.x as int, end.x as int) <= (
                #[trigger] pts[i]).0 <= max_int(start.x as int, end.x as int)
                    && min_int(start.y as int, end.y as int) <= pts[i].1 <= max_int(
                    start.y as int,
                    end.y as int,
                )
            &&& forall|i: int| 0 <= i < pts.len() - 1 ==> #[trigger] step_adjacent(pts[i], pts[i + 1])
        }),
{
    let dx = iabs(end.x - start.x);
    let dy = iabs(end.y - start.y);
    let sx: int = if start.x < end.x {
        1int
    } else {
        -1int
    };
    let sy: int = if start.y < end.y {
        1int
    } else {
        -1int
    };
    assert(sx * (end.x - start.x) == dx) by (nonlinear_arith)
        requires
            sx == if start.x < end.x {
                1int
            } else {
                -1int
            },
            dx == iabs(end.x - start.x),
    ;
    assert(sy * (end.y - start.y) == dy) by (nonlinear_arith)
        requires
            sy == if start.y < end.y {
                1int
            } else {
                -1int
            },
            dy == iabs(end.y - start.y),
    ;
    assert(bres_inv(0, 0, dx - dy, dx, dy)) by (nonlinear_arith)
        requires
            0 <= dx,
            0 <= dy,
    ;
    lemma_bres_props(
        start.x as int,
        start.y as int,
        dx - dy,
        end.x as int,
        end.y as int,
        dx,
        dy,
        sx,
        sy,
        0,
        0,
        max_int(dx, dy) as nat,
    );
}

/// Writes to the buffer the discrete pixel path approximating the straight
/// segment from `start` to `end`, clipping silently at the buffer edge.
pub fn draw_line(fb: &mut FrameBuffer, start: Point2D, end: Point2D, color: Color)
    requires
        old(fb).wf(),
    ensures
        final(fb).wf(),
        final(fb).width == old(fb).width,
        final(fb).height == old(fb).height,
        final(fb).pixels@ == paint(
            old(fb).pixels@,
            line_points(start, end),
            color,
            old(fb).width as int,
        ),
{
    let ghost w = old(fb).width as int;
    let ghost h = old(fb).height as int;
    let ghost v0 = old(fb).pixels@;
    let x1: i64 = end.x as i64;
    let y1: i64 = end.y as i64;
    let mut x: i64 = start.x as i64;
    let mut y: i64 = start.y as i64;
    let dx: i64 = if x1 >= x {
        x1 - x
    } else {
        x - x1
    };
    let dy: i64 = if y1 >= y {
        y1 - y
    } else {
        y - y1
    };
    let sx: i64 = if start.x < end.x {
        1
    } else {
        -1
    };
    let sy: i64 = if start.y < end.y {
        1
    } else {
        -1
    };
    let mut err: i64 = dx - dy;
    let ghost pts = line_points(start, end);
    let ghost mut px: int = 0;
    let ghost mut py: int = 0;
    let ghost mut k: int = 0;
    proof {
        lemma_line_points_path(start, end);
        assert(bres_inv(0, 0, dx as int - dy as int, dx as int, dy as int)) by (nonlinear_arith)
            requires
                0 <= dx,
                0 <= dy,
        ;
        assert(sx * (x1 - x) == dx - px) by (nonlinear_arith)
            requires
                px == 0,
                sx == (if start.x < end.x {
                    1int
                } else {
                    -1int
                }),
                x == start.x,
                x1 == end.x,
                dx == iabs(end.x - start.x),
        ;
        assert(sy * (y1 - y) == dy - py) by (nonlinear_arith)
            requires
                py == 0,
                sy == (if start.y < end.y {
                    1int
                } else {
                    -1int
                }),
                y == start.y,
                y1 == end.y,
                dy == iabs(end.y - start.y),
        ;
        assert(pts.skip(0) =~= pts);
        assert(pts.take(0) =~= Seq::<(int, int)>::empty());
        assert(fb.pixels@ =~= paint(v0, pts.take(0), color, w));
    }
    loop
        invariant_except_break
            x1 == end.x,
            y1 == end.y,
            dx == iabs(end.x - start.x),
            dy == iabs(end.y - start.y),
            sx as int == (if start.x < end.x {
                1int
            } else {
                -1int
            }),
            sy as int == (if start.y < end.y {
                1int
            } else {
                -1int
            }),
            bres_inv(px, py, err as int, dx as int, dy as int),
            sx * (x1 - x) == dx - px,
            sy * (y1 - y) == dy - py,
            min_int(start.x as int, end.x as int) <= x as int <= max_int(
                start.x as int,
                end.x as int,
            ),
            min_int(start.y as int, end.y as int) <= y as int <= max_int(
                start.y as int,
                end.y as int,
            ),
            pts.len() == max_int(dx as int, dy as int) + 1,
            k + max_int(dx - px, dy - py) + 1 == pts.len(),
            pts.skip(k) == bres_seq(
                x as int,
                y as int,
                err as int,
                x1 as int,
                y1 as int,
                dx as int,
                dy as int,
                sx as int,
                sy as int,
                max_int(dx - px, dy - py) as nat,
            ),
        invariant
            fb.wf(),
            fb.width == old(fb).width,
            fb.height == old(fb).height,
            w == fb.width as int,
            h == fb.height as int,
            v0 == old(fb).pixels@,
            v0.len() == w * h,
            0 <= k <= pts.len(),
            pts == line_points(start, end),
            fb.pixels@ == paint(v0, pts.take(k), color, w),
        ensures
            fb.wf(),
            fb.width == old(fb).width,
            fb.height == old(fb).height,
            fb.pixels@ == paint(v0, pts, color, w),
        decreases max_int(dx - px, dy - py),
    {
        let ghost rem = max_int(dx - px, dy - py);
        proof {
            assert(pts.skip(k)[0] == pts[k]);
            assert(pts[k] == (x as int, y as int));
        }
        fb.set_pixel(x as i32, y as i32, color);
        proof {
            lemma_paint_extend(v0, pts, k, color, w, h);
            if 0 <= x < w && 0 <= y < h {
                assert(fb.pixels@ == paint(v0, pts.take(k), color, w).update(
                    (y as int) * w + (x as int),
                    color,
                ));
            }
            assert(fb.pixels@ == paint(v0, pts.take(k + 1), color, w));
            k = k + 1;
        }
        if x == x1 && y == y1 {
            proof {
                assert(dx - px == 0 && dy - py == 0) by (nonlinear_arith)
                    requires
                        sx * (x1 - x) == dx - px,
                        sy * (y1 - y) == dy - py,
                        x == x1,
                        y == y1,
                ;
                assert(k == pts.len());
                assert(pts.take(k) =~= pts);
            }
            break;
        }
        proof {
            assert(!(px == dx && py == dy)) by (nonlinear_arith)
                requires
                    sx * (x1 - x) == dx - px,
                    sy * (y1 - y) == dy - py,
                    sx as int == 1 || sx as int == -1,
                    sy as int == 1 || sy as int == -1,
                    !(x == x1 && y == y1),
            ;
            lemma_bres_inv_step(px, py, err as int, dx as int, dy as int);
        }
        let ghost x_old = x as int;
        let ghost y_old = y as int;
        let ghost err_old = err as int;
        let e2 = 2 * err;
        if e2 > -dy {
            err = err - dy;
            x = x + sx;
            proof {
                px = px + 1;
            }
        }
        if e2 < dx {
            err = err + dx;
            y = y + sy;
            proof {
                py = py + 1;
            }
        }
        proof {
            assert(sx * (x1 - x) == dx - px) by (nonlinear_arith)
                requires
                    sx * (x1 - (x - sx)) == dx - (px - 1) || sx * (x1 - x) == dx - px,
                    sx as int == 1 || sx as int == -1,
            ;
            assert(sy * (y1 - y) == dy - py) by (nonlinear_arith)
                requires
                    sy * (y1 - (y - sy)) == dy - (py - 1) || sy * (y1 - y) == dy - py,
                    sy as int == 1 || sy as int == -1,
            ;
            assert(min_int(start.x as int, end.x as int) <= x as int <= max_int(
                start.x as int,
                end.x as int,
            )) by (nonlinear_arith)
                requires
                    sx * (x1 - x) == dx - px,
                    sx as int == 1 || sx as int == -1,
                    0 <= px <= dx,
                    x1 == end.x,
                    dx == iabs(end.x - start.x),
                    sx as int == (if start.x < end.x {
                        1int
                    } else {
                        -1int
                    }),
            ;
            assert(min_int(start.y as int, end.y as int) <= y as int <= max_int(
                start.y as int,
                end.y as int,
            )) by (nonlinear_arith)
                requires
                    sy * (y1 - y) == dy - py,
                    sy as int == 1 || sy as int == -1,
                    0 <= py <= dy,
                    y1 == end.y,
                    dy == iabs(end.y - start.y),
                    sy as int == (if start.y < end.y {
                        1int
                    } else {
                        -1int
                    }),
            ;
            assert(rem >= 1);
            assert(max_int(dx - px, dy - py) == rem - 1);
            let tail = bres_seq(
                x as int,
                y as int,
                err as int,
                x1 as int,
                y1 as int,
                dx as int,
                dy as int,
                sx as int,
                sy as int,
                (rem - 1) as nat,
            );
            // One unfolding of the path spec mirrors the step just taken.
            assert(bres_seq(
                x_old,
                y_old,
                err_old,
                x1 as int,
                y1 as int,
                dx as int,
                dy as int,
                sx as int,
                sy as int,
                rem as nat,
            ) == seq![(x_old, y_old)] + tail);
            assert(pts.skip(k - 1) == bres_seq(
                x_old,
                y_old,
                err_old,
                x1 as int,
                y1 as int,
                dx as int,
                dy as int,
                sx as int,
                sy as int,
                rem as nat,
            ));
            assert(pts.skip(k - 1) == seq![(x_old, y_old)] + tail);
            assert(pts.skip(k - 1).len() == pts.len() - (k - 1));
            assert((seq![(x_old, y_old)] + tail).len() == 1 + tail.len());
            assert(tail.len() == pts.len() - k);
            assert(pts.skip(k).len() == pts.len() - k);
            assert forall|i: int| 0 <= i < pts.len() - k implies pts.skip(k)[i] == tail[i] by {
                assert(pts.skip(k)[i] == pts[k + i]);
                assert(pts.skip(k - 1)[i + 1] == pts[k + i]);
                assert(pts.skip(k - 1)[i + 1] == (seq![(x_old, y_old)] + tail)[i + 1]);
                assert(seq![(x_old, y_old)].len() == 1);
                assert(0 <= i < tail.len());
                assert((seq![(x_old, y_old)] + tail)[i + 1] == tail[i]);
            }
            assert(pts.skip(k) =~= tail);
        }
    }
}

} // verus!
