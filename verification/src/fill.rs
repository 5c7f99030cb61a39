use vstd::prelude::*;
use crate::geometry::{Color, Point2D, iabs, max_int, min_int, tdiv};
use crate::framebuffer::FrameBuffer;
use crate::line::paint;

verus! {

/// The edge from `c` to `n` crosses scanline `y` under the half-open rule,
/// which counts each shared vertex for exactly one of its two edges.
pub open spec fn edge_crosses(c: Point2D, n: Point2D, y: int) -> bool {
    (c.y <= y && n.y > y) || (c.y > y && n.y <= y)
}

/// The x-coordinate where the edge from (cx, cy) to (nx, ny) meets scanline
/// `y`: linear interpolation with integer division truncating toward zero.
pub open spec fn edge_ix(cx: int, cy: int, nx: int, ny: int, y: int) -> int {
    cx + tdiv((y - cy) * (nx - cx), ny - cy)
}

/// The intersection x-coordinates of scanline `y` with the first `k` edges
/// of the closed polygon `vs` (edge i joins vertex i to vertex (i+1) mod n),
/// in edge order.
pub open spec fn crossings_upto(vs: Seq<Point2D>, y: int, k: int) -> Seq<int>
    decreases k,
{
    if k <= 0 {
        Seq::empty()
    } else {
        crossings_upto(vs, y, k - 1) + if edge_crosses(vs[k - 1], vs[k % vs.len() as int], y) {
            seq![
                edge_ix(
                    vs[k - 1].x as int,
                    vs[k - 1].y as int,
                    vs[k % vs.len() as int].x as int,
                    vs[k % vs.len() as int].y as int,
                    y,
                ),
            ]
        } else {
            Seq::empty()
        }
    }
}

/// All intersection x-coordinates of scanline `y` with polygon `vs`.
pub open spec fn crossings(vs: Seq<Point2D>, y: int) -> Seq<int> {
    crossings_upto(vs, y, vs.len() as int)
}

/// The sequence is in ascending order.
pub open spec fn sorted_ints(s: Seq<int>) -> bool {
    forall|a: int, b: int| 0 <= a < b < s.len() ==> s[a] <= s[b]
}

/// `v` inserted in front of the first element not below it.
pub open spec fn insert_sorted(s: Seq<int>, v: int) -> Seq<int>
    decreases s.len(),
{
    if s.len() == 0 {
        seq![v]
    } else if v <= s[0] {
        seq![v] + s
    } else {
        seq![s[0]] + insert_sorted(s.drop_first(), v)
    }
}

/// The ascending rearrangement of `s`.
pub open spec fn sort_ints(s: Seq<int>) -> Seq<int>
    decreases s.len(),
{
    if s.len() == 0 {
        Seq::empty()
    } else {
        insert_sorted(sort_ints(s.drop_last()), s.last())
    }
}

/// The crossing x-coordinates of scanline `y`, sorted ascending.
pub open spec fn sorted_crossings(vs: Seq<Point2D>, y: int) -> Seq<int> {
    sort_ints(crossings(vs, y))
}

/// x lies in one of the consecutively paired spans among the first m sorted
/// intersections (1st-2nd, 3rd-4th, ...); a final unpaired one fills nothing.
pub open spec fn covered_upto(xs: Seq<int>, x: int, m: int) -> bool {
    exists|j: int| #![trigger xs[j]] 0 <= j && j % 2 == 0 && j + 1 < m && xs[j] <= x <= xs[j + 1]
}

/// x lies in one of the consecutively paired spans of `xs`.
pub open spec fn span_covered(xs: Seq<int>, x: int) -> bool {
    covered_upto(xs, x, xs.len() as int)
}

/// The smallest vertex y of a non-empty vertex list.
pub open spec fn poly_min_y(vs: Seq<Point2D>) -> int
    decreases vs.len(),
{
    if vs.len() <= 1 {
        vs[0].y as int
    } else {
        min_int(poly_min_y(vs.drop_last()), vs.last().y as int)
    }
}

/// The largest vertex y of a non-empty vertex list.
pub open spec fn poly_max_y(vs: Seq<Point2D>) -> int
    decreases vs.len(),
{
    if vs.len() <= 1 {
        vs[0].y as int
    } else {
        max_int(poly_max_y(vs.drop_last()), vs.last().y as int)
    }
}

/// The scanline fill algorithm colors pixel (x, y) of polygon `vs`.
pub open spec fn fills(vs: Seq<Point2D>, x: int, y: int) -> bool {
    poly_min_y(vs) <= y <= poly_max_y(vs) && span_covered(sorted_crossings(vs, y), x)
}

/// Buffer contents after filling polygon `vs` with `color` on a w-column
/// grid.
pub open spec fn fill_image(v: Seq<Color>, vs: Seq<Point2D>, color: Color, w: int) -> Seq<Color> {
    Seq::new(
        v.len(),
        |i: int|
            if fills(vs, i % w, i / w) {
                color
            } else {
                v[i]
            },
    )
}

/// Buffer contents after filling only the scanlines of `vs` below `y_upto`.
pub open spec fn fill_image_rows(
    v: Seq<Color>,
    vs: Seq<Point2D>,
    color: Color,
    w: int,
    y_from: int,
    y_upto: int,
) -> Seq<Color> {
    Seq::new(
        v.len(),
        |i: int|
            if y_from <= i / w < y_upto && span_covered(sorted_crossings(vs, i / w), i % w) {
                color
            } else {
                v[i]
            },
    )
}

/// One scanline, filled up to the pair starting at index m of xs.
pub open spec fn row_fill_upto(
    v: Seq<Color>,
    xs: Seq<int>,
    y: int,
    m: int,
    color: Color,
    w: int,
) -> Seq<Color> {
    Seq::new(
        v.len(),
        |i: int|
            if i / w == y && covered_upto(xs, i % w, m) {
                color
            } else {
                v[i]
            },
    )
}

/// The horizontal run of grid points from (x0, y) to (x1, y).
pub open spec fn span_pts(x0: int, x1: int, y: int) -> Seq<(int, int)> {
    Seq::new((x1 - x0 + 1) as nat, |i: int| (x0 + i, y))
}

pub proof fn lemma_insert_sorted_props(s: Seq<int>, v: int)
    requires
        sorted_ints(s),
    ensures
        insert_sorted(s, v).len() == s.len() + 1,
        sorted_ints(insert_sorted(s, v)),
        forall|m: int|
            0 <= m < insert_sorted(s, v).len() ==> (#[trigger] insert_sorted(s, v)[m] == v
                || exists|t: int| 0 <= t < s.len() && s[t] == insert_sorted(s, v)[m]),
    decreases s.len(),
{
    let r = insert_sorted(s, v);
    if s.len() == 0 {
        assert(r =~= seq![v]);
    } else if v <= s[0] {
        assert(r =~= seq![v] + s);
        assert forall|m: int| 0 <= m < r.len() implies (#[trigger] r[m] == v || exists|t: int|
            0 <= t < s.len() && s[t] == r[m]) by {
            if m > 0 {
                assert(s[m - 1] == r[m]);
            }
        }
    } else {
        let rest = s.drop_first();
        assert(sorted_ints(rest)) by {
            assert(forall|a: int, b: int|
                0 <= a < b < rest.len() ==> rest[a] == s[a + 1] && rest[b] == s[b + 1]);
        }
        lemma_insert_sorted_props(rest, v);
        let r2 = insert_sorted(rest, v);
        assert(r =~= seq![s[0]] + r2);
        // Every element of r2 is either v or an element of rest, both at
        // least s[0].
        assert forall|m: int| 0 <= m < r.len() implies (#[trigger] r[m] == v || exists|t: int|
            0 <= t < s.len() && s[t] == r[m]) by {
            if m > 0 {
                assert(r[m] == r2[m - 1]);
                if r2[m - 1] != v {
                    let t = choose|t: int| 0 <= t < rest.len() && rest[t] == r2[m - 1];
                    assert(s[t + 1] == r[m]);
                }
            }
        }
        assert forall|a: int, b: int| 0 <= a < b < r.len() implies r[a] <= r[b] by {
            if a == 0 {
                assert(r[b] == r2[b - 1]);
                if r2[b - 1] == v {
                    assert(s[0] <= v);
                } else {
                    let t = choose|t: int| 0 <= t < rest.len() && rest[t] == r2[b - 1];
                    assert(s[0] <= s[t + 1]);
                }
            } else {
                assert(r[a] == r2[a - 1] && r[b] == r2[b - 1]);
            }
        }
    }
}

pub proof fn lemma_sort_ints_props(s: Seq<int>)
    ensures
        sort_ints(s).len() == s.len(),
        sorted_ints(sort_ints(s)),
    decreases s.len(),
{
    if s.len() == 0 {
    } else {
        lemma_sort_ints_props(s.drop_last());
        lemma_insert_sorted_props(sort_ints(s.drop_last()), s.last());
    }
}

/// Inserting at the boundary position reproduces `insert_sorted`.
pub proof fn lemma_insert_sorted_at(s: Seq<int>, v: int, p: int)
    requires
        sorted_ints(s),
        0 <= p <= s.len(),
        forall|i: int| 0 <= i < p ==> s[i] < v,
        forall|i: int| p <= i < s.len() ==> v <= s[i],
    ensures
        insert_sorted(s, v) == s.take(p) + seq![v] + s.skip(p),
    decreases s.len(),
{
    if s.len() == 0 {
        assert(insert_sorted(s, v) =~= s.take(p) + seq![v] + s.skip(p));
    } else if v <= s[0] {
        assert(p == 0);
        assert(insert_sorted(s, v) =~= s.take(0) + seq![v] + s.skip(0));
    } else {
        assert(p >= 1);
        let rest = s.drop_first();
        assert(sorted_ints(rest)) by {
            assert(forall|a: int, b: int|
                0 <= a < b < rest.len() ==> rest[a] == s[a + 1] && rest[b] == s[b + 1]);
        }
        assert(forall|i: int| 0 <= i < p - 1 ==> #[trigger] rest[i] == s[i + 1]);
        assert(forall|i: int| p - 1 <= i < rest.len() ==> #[trigger] rest[i] == s[i + 1]);
        lemma_insert_sorted_at(rest, v, p - 1);
        assert(insert_sorted(s, v) =~= s.take(p) + seq![v] + s.skip(p)) by {
            assert(insert_sorted(s, v) == seq![s[0]] + (rest.take(p - 1) + seq![v] + rest.skip(
                p - 1,
            )));
            assert(forall|i: int| 0 <= i < p - 1 ==> #[trigger] rest.take(p - 1)[i] == s[i + 1]);
            assert(forall|i: int|
                0 <= i < rest.len() - (p - 1) ==> #[trigger] rest.skip(p - 1)[i] == s[i + p]);
        }
    }
}

/// Extending the paired spans by one pair covers exactly the old spans plus
/// the new pair's interval.
pub proof fn lemma_covered_step(xs: Seq<int>, x: int, m: int)
    requires
        0 <= m,
        m % 2 == 0,
        m + 1 < xs.len(),
    ensures
        covered_upto(xs, x, m + 2) <==> (covered_upto(xs, x, m) || (xs[m] <= x <= xs[m + 1])),
{
    if covered_upto(xs, x, m + 2) {
        let j = choose|j: int|
            #![trigger xs[j]]
            0 <= j && j % 2 == 0 && j + 1 < m + 2 && xs[j] <= x <= xs[j + 1];
        if j + 1 < m {
            assert(covered_upto(xs, x, m));
        } else {
            assert(j != m - 1);
            assert(j == m);
        }
    }
    if covered_upto(xs, x, m) {
        let j = choose|j: int|
            #![trigger xs[j]]
            0 <= j && j % 2 == 0 && j + 1 < m && xs[j] <= x <= xs[j + 1];
        assert(0 <= j && j % 2 == 0 && j + 1 < m + 2 && xs[j] <= x <= xs[j + 1]);
    }
    if xs[m] <= x <= xs[m + 1] {
        let j = m;
        assert(0 <= j && j % 2 == 0 && j + 1 < m + 2 && xs[j] <= x <= xs[j + 1]);
    }
}

/// Once the pair index has passed the last full pair, the paired spans are
/// complete.
pub proof fn lemma_covered_end(xs: Seq<int>, x: int, m: int)
    requires
        0 <= m,
        m % 2 == 0,
        xs.len() - 1 <= m <= xs.len(),
    ensures
        covered_upto(xs, x, m) <==> span_covered(xs, x),
{
    if covered_upto(xs, x, m) {
        let j = choose|j: int|
            #![trigger xs[j]]
            0 <= j && j % 2 == 0 && j + 1 < m && xs[j] <= x <= xs[j + 1];
        assert(j + 1 < xs.len());
        assert(covered_upto(xs, x, xs.len() as int));
    }
    if span_covered(xs, x) {
        let j = choose|j: int|
            #![trigger xs[j]]
            0 <= j && j % 2 == 0 && j + 1 < xs.len() && xs[j] <= x <= xs[j + 1];
        assert(j + 1 != m);
        assert(j + 1 < m);
        assert(covered_upto(xs, x, m));
    }
}

/// Painting a horizontal run recolors exactly the cells of that run's row
/// segment.
pub proof fn lemma_span_paint(v: Seq<Color>, x0: int, x1: int, y: int, color: Color, w: int, h: int)
    requires
        1 <= w,
        1 <= h,
        v.len() == w * h,
        x0 <= x1,
    ensures
        forall|i: int|
            0 <= i < v.len() ==> #[trigger] paint(v, span_pts(x0, x1, y), color, w)[i] == (
            if i / w == y && x0 <= i % w <= x1 {
                color
            } else {
                v[i]
            }),
{
    let pts = span_pts(x0, x1, y);
    assert forall|i: int| 0 <= i < v.len() implies #[trigger] paint(v, pts, color, w)[i] == (
    if i / w == y && x0 <= i % w <= x1 {
        color
    } else {
        v[i]
    }) by {
        crate::framebuffer::lemma_cell_coords(w, h, i);
        if i / w == y && x0 <= i % w <= x1 {
            let k = i % w - x0;
            assert(pts[k] == (i % w, i / w));
        } else {
            assert forall|k: int| 0 <= k < pts.len() implies pts[k] != ((i % w), (i / w)) by {
                assert(pts[k] == (x0 + k, y));
            }
        }
    }
}

/// LAW: every scanline meets the closed edge loop of any polygon an even
/// number of times under the half-open crossing rule.
pub proof fn lemma_even_crossings(vs: Seq<Point2D>, y: int)
    requires
        vs.len() >= 1,
    ensures
        crossings(vs, y).len() % 2 == 0,
{
    lemma_crossings_parity(vs, y, vs.len() as int);
}

/// The parity of the crossing count over the first k edges tracks whether
/// the walk has switched sides of the scanline.
proof fn lemma_crossings_parity(vs: Seq<Point2D>, y: int, k: int)
    requires
        vs.len() >= 1,
        0 <= k <= vs.len(),
    ensures
        crossings_upto(vs, y, k).len() % 2 == (if (vs[0].y <= y) == (vs[k % vs.len() as int].y
            <= y) {
            0int
        } else {
            1int
        }),
    decreases k,
{
    if k > 0 {
        lemma_crossings_parity(vs, y, k - 1);
        let c = vs[k - 1];
        let n = vs[k % vs.len() as int];
        assert(edge_crosses(c, n, y) <==> ((c.y <= y) != (n.y <= y)));
        if k - 1 < vs.len() {
            assert((k - 1) % vs.len() as int == k - 1) by {
                vstd::arithmetic::div_mod::lemma_small_mod((k - 1) as nat, vs.len());
            }
        }
    } else {
        assert(k % vs.len() as int == 0) by {
            vstd::arithmetic::div_mod::lemma_small_mod(0nat, vs.len());
        }
    }
}

/// LAW: when a scanline meets the polygon in exactly two points, the filled
/// span on that scanline is exactly the closed interval between the smaller
/// and the larger of the two.
pub proof fn lemma_two_crossings_span(vs: Seq<Point2D>, y: int, x: int)
    requires
        crossings(vs, y).len() == 2,
    ensures
        ({
            let c = crossings(vs, y);
            let lo = min_int(c[0], c[1]);
            let hi = max_int(c[0], c[1]);
            span_covered(sorted_crossings(vs, y), x) <==> lo <= x <= hi
        }),
{
    let c = crossings(vs, y);
    let s = sorted_crossings(vs, y);
    assert(c.drop_last() =~= seq![c[0]]);
    assert(c.drop_last().drop_last() =~= Seq::<int>::empty());
    assert(sort_ints(c.drop_last().drop_last()) =~= Seq::<int>::empty());
    assert(sort_ints(c.drop_last()) =~= seq![c[0]]);
    assert(s == insert_sorted(seq![c[0]], c[1]));
    if c[1] <= c[0] {
        assert(s =~= seq![c[1], c[0]]);
    } else {
        assert(insert_sorted(seq![c[0]].drop_first(), c[1]) =~= seq![c[1]]);
        assert(s =~= seq![c[0], c[1]]);
    }
    let lo = min_int(c[0], c[1]);
    let hi = max_int(c[0], c[1]);
    if lo <= x <= hi {
        let j: int = 0;
        assert(0 <= j && j % 2 == 0 && j + 1 < s.len() && s[j] <= x <= s[j + 1]);
    }
    if span_covered(s, x) {
        let j = choose|j: int|
            #![trigger s[j]]
            0 <= j && j % 2 == 0 && j + 1 < s.len() && s[j] <= x <= s[j + 1];
        assert(j == 0);
    }
}

/// A sequence of i32 values read as mathematical integers.
pub open spec fn to_int_seq(s: Seq<i32>) -> Seq<int> {
    s.map_values(|t: i32| t as int)
}

/// The truncating interpolation of the crossing edge, computed without
/// overflow; the result always lies between the edge's two x-coordinates.
fn intersect_edge(cx: i32, cy: i32, nx: i32, ny: i32, y: i64) -> (r: i32)
    requires
        (cy as int <= y as int && (y as int) < ny as int) || (ny as int <= y as int && (y as int)
            < cy as int),
    ensures
        r as int == edge_ix(cx as int, cy as int, nx as int, ny as int, y as int),
        min_int(cx as int, nx as int) <= r as int <= max_int(cx as int, nx as int),
{
    let dy_off: i64 = y - (cy as i64);
    let den: i64 = (ny as i64) - (cy as i64);
    let dxe: i64 = (nx as i64) - (cx as i64);
    let a_mag: u64 = if dy_off >= 0 {
        dy_off as u64
    } else {
        (-dy_off) as u64
    };
    let d_mag: u64 = if den >= 0 {
        den as u64
    } else {
        (-den) as u64
    };
    let b_mag: u64 = if dxe >= 0 {
        dxe as u64
    } else {
        (-dxe) as u64
    };
    proof {
        assert(a_mag as int == iabs(dy_off as int));
        assert(d_mag as int == iabs(den as int));
        assert(b_mag as int == iabs(dxe as int));
        assert(a_mag <= d_mag);
        assert(1 <= d_mag);
        assert(a_mag * b_mag <= d_mag * b_mag <= 0xffff_ffffu64 * 0xffff_ffffu64)
            by (nonlinear_arith)
            requires
                a_mag <= d_mag <= 0xffff_ffffu64,
                b_mag <= 0xffff_ffffu64,
        ;
    }
    let num: u64 = a_mag * b_mag;
    let q: u64 = num / d_mag;
    proof {
        vstd::arithmetic::div_mod::lemma_div_is_ordered(
            num as int,
            (d_mag * b_mag) as int,
            d_mag as int,
        );
        vstd::arithmetic::div_mod::lemma_div_multiples_vanish(b_mag as int, d_mag as int);
        assert(q <= b_mag);
    }
    let t: i64 = if dxe >= 0 {
        q as i64
    } else {
        -(q as i64)
    };
    proof {
        let a: int = (dy_off as int) * (dxe as int);
        let b: int = den as int;
        assert(iabs(a) == (a_mag as int) * (b_mag as int)) by (nonlinear_arith)
            requires
                a == (dy_off as int) * (dxe as int),
                a_mag as int == iabs(dy_off as int),
                b_mag as int == iabs(dxe as int),
        ;
        assert((a < 0 || a > 0) ==> ((a < 0) == (((dy_off as int) < 0) != ((dxe as int) < 0))))
            by (nonlinear_arith)
            requires
                a == (dy_off as int) * (dxe as int),
        ;
        assert(a == 0 ==> dy_off as int == 0 || dxe as int == 0) by (nonlinear_arith)
            requires
                a == (dy_off as int) * (dxe as int),
        ;
        if a == 0 {
            assert(q as int == iabs(a) / iabs(b)) by {
                assert((a_mag as int) * (b_mag as int) == 0) by (nonlinear_arith)
                    requires
                        a == (dy_off as int) * (dxe as int),
                        a == 0,
                        a_mag as int == iabs(dy_off as int),
                        b_mag as int == iabs(dxe as int),
                ;
            }
            assert(q == 0) by {
                vstd::arithmetic::div_mod::lemma_div_multiples_vanish(0int, d_mag as int);
            }
            assert(t as int == tdiv(a, b));
        } else {
            // The offset and the edge's y-extent share a sign, so the sign
            // of the quotient is the sign of the edge's x-extent.
            assert(((dy_off as int) < 0) == (b < 0));
            assert(t as int == tdiv(a, b));
        }
        assert(t as int == tdiv(a, b));
    }
    let r64: i64 = (cx as i64) + t;
    proof {
        assert(min_int(cx as int, nx as int) <= r64 as int <= max_int(cx as int, nx as int));
        assert(r64 as int == edge_ix(cx as int, cy as int, nx as int, ny as int, y as int));
    }
    r64 as i32
}

/// The intersections of one scanline, in ascending order.
fn sorted_copy(xs: &Vec<i32>) -> (r: Vec<i32>)
    ensures
        to_int_seq(r@) == sort_ints(to_int_seq(xs@)),
        sorted_ints(to_int_seq(r@)),
        r@.len() == xs@.len(),
{
    let n: usize = xs.len();
    let mut out: Vec<i32> = Vec::new();
    let mut i: usize = 0;
    proof {
        assert(to_int_seq(xs@).take(0) =~= Seq::<int>::empty());
        assert(to_int_seq(out@) =~= Seq::<int>::empty());
        lemma_sort_ints_props(to_int_seq(xs@).take(0));
    }
    while i < n
        invariant
            i <= n,
            n == xs@.len(),
            out@.len() == i,
            to_int_seq(out@) == sort_ints(to_int_seq(xs@).take(i as int)),
            sorted_ints(to_int_seq(out@)),
        decreases n - i,
    {
        let v: i32 = xs[i];
        let ghost out_old = to_int_seq(out@);
        let mut p: usize = 0;
        while p < out.len() && out[p] < v
            invariant
                p <= out@.len(),
                out@.len() == i,
                forall|t: int| 0 <= t < p ==> #[trigger] out@[t] < v,
            decreases out@.len() - p,
        {
            p = p + 1;
        }
        proof {
            assert(forall|t: int| 0 <= t < p ==> #[trigger] out_old[t] < v as int);
            assert forall|t: int| p <= t < out_old.len() implies v as int <= #[trigger] out_old[t] by {
                assert(out_old[p as int] <= out_old[t]);
            }
            lemma_insert_sorted_at(out_old, v as int, p as int);
        }
        out.insert(p, v);
        proof {
            assert(to_int_seq(out@) =~= out_old.take(p as int) + seq![v as int] + out_old.skip(
                p as int,
            )) by {
                assert(out@ == out@.subrange(0, out@.len() as int));
                assert(forall|t: int| 0 <= t < out@.len() ==> #[trigger] to_int_seq(out@)[t]
                    == out@[t] as int);
            }
            assert(to_int_seq(out@) == insert_sorted(out_old, v as int));
            let pre = to_int_seq(xs@).take(i as int);
            let cur = to_int_seq(xs@).take(i + 1);
            assert(cur.drop_last() =~= pre);
            assert(cur.last() == v as int);
            assert(to_int_seq(out@) == sort_ints(cur));
            lemma_sort_ints_props(cur);
        }
        i = i + 1;
    }
    proof {
        assert(to_int_seq(xs@).take(n as int) =~= to_int_seq(xs@));
    }
    out
}

/// Fills the interior of the polygon by horizontal-scanline edge
/// intersection: for each scanline in the polygon's vertical extent, the
/// crossing x-coordinates are collected, sorted, paired consecutively, and
/// each pair's span is colored inclusively; writes are clipped at the
/// buffer edge.
pub fn fill_polygon(fb: &mut FrameBuffer, vertices: &Vec<Point2D>, color: Color)
    requires
        old(fb).wf(),
        vertices@.len() >= 3,
    ensures
        final(fb).wf(),
        final(fb).width == old(fb).width,
        final(fb).height == old(fb).height,
        final(fb).pixels@ == fill_image(old(fb).pixels@, vertices@, color, old(fb).width as int),
{
    let ghost vs = vertices@;
    let ghost w = old(fb).width as int;
    let ghost h = old(fb).height as int;
    let ghost v0 = old(fb).pixels@;
    let n: usize = vertices.len();
    let mut miny: i32 = vertices[0].y;
    let mut maxy: i32 = vertices[0].y;
    let mut vi: usize = 1;
    proof {
        assert(vs.take(1).len() == 1 && vs.take(1)[0] == vs[0]);
    }
    while vi < n
        invariant
            1 <= vi <= n,
            n == vs.len(),
            vs == vertices@,
            miny as int == poly_min_y(vs.take(vi as int)),
            maxy as int == poly_max_y(vs.take(vi as int)),
        decreases n - vi,
    {
        let vy: i32 = vertices[vi].y;
        proof {
            assert(vs.take(vi + 1).drop_last() =~= vs.take(vi as int));
            assert(vs.take(vi + 1).last() == vs[vi as int]);
            assert(vs.take(vi + 1).len() == vi + 1 >= 2);
        }
        if vy < miny {
            miny = vy;
        }
        if vy > maxy {
            maxy = vy;
        }
        vi = vi + 1;
    }
    proof {
        assert(vs.take(n as int) =~= vs);
        assert(fb.pixels@ =~= fill_image_rows(v0, vs, color, w, miny as int, miny as int));
    }
    let mut y: i64 = miny as i64;
    while y <= maxy as i64
        invariant
            fb.wf(),
            fb.width == old(fb).width,
            fb.height == old(fb).height,
            w == fb.width as int,
            h == fb.height as int,
            v0 == old(fb).pixels@,
            v0.len() == w * h,
            vs == vertices@,
            n == vs.len(),
            3 <= n,
            miny as int == poly_min_y(vs),
            maxy as int == poly_max_y(vs),
            miny as int <= y as int <= maxy as int + 1,
            fb.pixels@ == fill_image_rows(v0, vs, color, w, miny as int, y as int),
        decreases maxy as int + 1 - y as int,
    {
        // Collect this scanline's crossing x-coordinates, in edge order.
        let mut xs: Vec<i32> = Vec::new();
        let mut i: usize = 0;
        proof {
            assert(to_int_seq(xs@) =~= crossings_upto(vs, y as int, 0));
        }
        while i < n
            invariant
                i <= n,
                n == vs.len(),
                3 <= n,
                vs == vertices@,
                to_int_seq(xs@) == crossings_upto(vs, y as int, i as int),
            decreases n - i,
        {
            let current: Point2D = vertices[i];
            let ni: usize = if i + 1 == n {
                0
            } else {
                i + 1
            };
            let next: Point2D = vertices[ni];
            proof {
                if i + 1 == n {
                    assert((i + 1) % (n as int) == 0) by {
                        vstd::arithmetic::div_mod::lemma_mod_self_0(n as int);
                    }
                } else {
                    vstd::arithmetic::div_mod::lemma_small_mod((i + 1) as nat, n as nat);
                }
                assert(vs[(i + 1) % (n as int)] == vs[ni as int]);
            }
            let ghost pre = to_int_seq(xs@);
            if ((current.y as i64) <= y && (next.y as i64) > y) || ((current.y as i64) > y
                && (next.y as i64) <= y) {
                let ix: i32 = intersect_edge(current.x, current.y, next.x, next.y, y);
                xs.push(ix);
                proof {
                    assert(edge_crosses(vs[i as int], vs[(i + 1) % (n as int)], y as int));
                    assert(to_int_seq(xs@) =~= pre + seq![
                        edge_ix(
                            vs[i as int].x as int,
                            vs[i as int].y as int,
                            vs[(i + 1) % (n as int)].x as int,
                            vs[(i + 1) % (n as int)].y as int,
                            y as int,
                        ),
                    ]);
                    assert(to_int_seq(xs@) == crossings_upto(vs, y as int, i + 1));
                }
            } else {
                proof {
                    assert(!edge_crosses(vs[i as int], vs[(i + 1) % (n as int)], y as int));
                    assert(crossings_upto(vs, y as int, i + 1) =~= crossings_upto(
                        vs,
                        y as int,
                        i as int,
                    ));
                }
            }
            i = i + 1;
        }
        let xs_sorted: Vec<i32> = sorted_copy(&xs);
        let ghost sc = sorted_crossings(vs, y as int);
        proof {
            assert(to_int_seq(xs@) == crossings(vs, y as int));
            assert(to_int_seq(xs_sorted@) == sc);
        }
        // Pair consecutive intersections and fill each span inclusively.
        let ghost v_row = fb.pixels@;
        let m: usize = xs_sorted.len();
        let mut j: usize = 0;
        proof {
            assert(fb.pixels@ =~= row_fill_upto(v_row, sc, y as int, 0, color, w)) by {
                assert(forall|x: int, mm: int| mm <= 0 ==> !covered_upto(sc, x, mm));
            }
        }
        while j + 1 < m
            invariant
                fb.wf(),
                fb.width == old(fb).width,
                fb.height == old(fb).height,
                w == fb.width as int,
                h == fb.height as int,
                v_row.len() == w * h,
                j % 2 == 0,
                j <= m,
                miny as int <= y as int <= maxy as int,
                m == xs_sorted@.len(),
                to_int_seq(xs_sorted@) == sc,
                sorted_ints(sc),
                fb.pixels@ == row_fill_upto(v_row, sc, y as int, j as int, color, w),
            decreases m - j,
        {
            let x0: i32 = xs_sorted[j];
            let x1v: i32 = xs_sorted[j + 1];
            proof {
                assert(sc[j as int] <= sc[j + 1]);
                assert(x0 <= x1v);
            }
            let ghost v_pair = fb.pixels@;
            let ghost spts = span_pts(x0 as int, x1v as int, y as int);
            let ghost mut kk: int = 0;
            let mut xc: i64 = x0 as i64;
            proof {
                assert(fb.pixels@ =~= paint(v_pair, spts.take(0), color, w));
            }
            while xc <= x1v as i64
                invariant
                    fb.wf(),
                    fb.width == old(fb).width,
                    fb.height == old(fb).height,
                    w == fb.width as int,
                    h == fb.height as int,
                    v_pair.len() == w * h,
                    x0 <= x1v,
                    miny as int <= y as int <= maxy as int,
                    spts == span_pts(x0 as int, x1v as int, y as int),
                    spts.len() == x1v as int - x0 as int + 1,
                    kk == xc as int - x0 as int,
                    0 <= kk <= spts.len(),
                    xc as int <= x1v as int + 1,
                    fb.pixels@ == paint(v_pair, spts.take(kk), color, w),
                decreases x1v as int + 1 - xc as int,
            {
                proof {
                    assert(spts[kk] == (xc as int, y as int));
                }
                fb.set_pixel(xc as i32, y as i32, color);
                proof {
                    crate::line::lemma_paint_extend(v_pair, spts, kk, color, w, h);
                    assert(fb.pixels@ == paint(v_pair, spts.take(kk + 1), color, w));
                    kk = kk + 1;
                }
                xc = xc + 1;
            }
            proof {
                assert(spts.take(kk) =~= spts);
                lemma_span_paint(v_pair, x0 as int, x1v as int, y as int, color, w, h);
                assert forall|i2: int| 0 <= i2 < v_row.len() implies fb.pixels@[i2]
                    == row_fill_upto(v_row, sc, y as int, j + 2, color, w)[i2] by {
                    crate::framebuffer::lemma_cell_coords(w, h, i2);
                    lemma_covered_step(sc, i2 % w, j as int);
                }
                assert(fb.pixels@ =~= row_fill_upto(v_row, sc, y as int, j + 2, color, w));
            }
            j = j + 2;
        }
        proof {
            assert(m - 1 <= j <= m || m == 0);
            assert forall|i2: int| 0 <= i2 < v_row.len() implies fb.pixels@[i2]
                == fill_image_rows(v0, vs, color, w, miny as int, y as int + 1)[i2] by {
                crate::framebuffer::lemma_cell_coords(w, h, i2);
                if m == 0 {
                    assert(!covered_upto(sc, i2 % w, j as int));
                    assert(!span_covered(sc, i2 % w));
                } else {
                    lemma_covered_end(sc, i2 % w, j as int);
                }
            }
            assert(fb.pixels@ =~= fill_image_rows(v0, vs, color, w, miny as int, y as int + 1));
        }
        y = y + 1;
    }
    proof {
        assert forall|i2: int| 0 <= i2 < v0.len() implies fb.pixels@[i2] == fill_image(
            v0,
            vs,
            color,
            w,
        )[i2] by {
            crate::framebuffer::lemma_cell_coords(w, h, i2);
        }
        assert(fb.pixels@ =~= fill_image(v0, vs, color, w));
    }
}

} // verus!
