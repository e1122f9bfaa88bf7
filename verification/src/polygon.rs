//! Even-odd scanline filling and outlining of polygons.

use crate::framebuffer::{unpack, Canvas, Framebuffer, Rgb};
use crate::line::{
    draw_line, lemma_line_in_box, lemma_span_cells, line_points, round_div, Point,
};
use vstd::arithmetic::div_mod::{lemma_fundamental_div_mod, lemma_mod_bound};
use vstd::prelude::*;
use vstd::relations::{sorted_by, total_ordering};
use vstd::seq_lib::lemma_sorted_unique;

verus! {

/// Whether the edge from `a` to `b` crosses the scanline `y`: exactly one of
/// its ends lies on or below the line. An end on the line counts as below,
/// so a vertex shared by two edges is not counted twice.
pub open spec fn crosses(a: (int, int), b: (int, int), y: int) -> bool {
    (a.1 <= y && b.1 > y) || (b.1 <= y && a.1 > y)
}

/// The column in which the edge from `a` to `b` crosses the scanline `y`:
/// `a.0 + (y - a.1) * (b.0 - a.0) / (b.1 - a.1)`, rounded to the nearest
/// integer with a tie going away from zero.
pub open spec fn crossing_x(a: (int, int), b: (int, int), y: int) -> int
    recommends
        crosses(a, b, y),
{
    let rise = b.1 - a.1;
    let p = a.0 * rise + (y - a.1) * (b.0 - a.0);
    if rise > 0 {
        round_div(p, rise)
    } else {
        round_div(-p, -rise)
    }
}

/// `x / d` lies on the side of `k` on which `x` lies of `k * d`.
proof fn lemma_div_bounds(x: int, d: int, k: int)
    requires
        d > 0,
    ensures
        x < (k + 1) * d ==> x / d <= k,
        x >= k * d ==> x / d >= k,
{
    lemma_fundamental_div_mod(x, d);
    lemma_mod_bound(x, d);
    let q = x / d;
    let r = x % d;
    assert(x < (k + 1) * d ==> q <= k) by (nonlinear_arith)
        requires
            d > 0,
            x == d * q + r,
            0 <= r < d,
    ;
    assert(x >= k * d ==> q >= k) by (nonlinear_arith)
        requires
            d > 0,
            x == d * q + r,
            0 <= r < d,
    ;
}

/// Rounding keeps a quotient between two integers that bound it.
proof fn lemma_round_div_between(p: int, q: int, lo: int, hi: int)
    requires
        q > 0,
        lo * q <= p <= hi * q,
    ensures
        lo <= round_div(p, q) <= hi,
{
    if p >= 0 {
        lemma_div_bounds(2 * p + q, 2 * q, hi);
        lemma_div_bounds(2 * p + q, 2 * q, lo);
        lemma_div_bounds(2 * p + q, 2 * q, 0);
        assert(2 * p + q < (hi + 1) * (2 * q)) by (nonlinear_arith)
            requires
                p <= hi * q,
                q > 0,
        ;
        assert(2 * p + q >= lo * (2 * q)) by (nonlinear_arith)
            requires
                p >= lo * q,
                q > 0,
        ;
        assert(0 * (2 * q) == 0) by (nonlinear_arith);
    } else {
        lemma_div_bounds(q - 2 * p, 2 * q, -lo);
        lemma_div_bounds(q - 2 * p, 2 * q, -hi);
        lemma_div_bounds(q - 2 * p, 2 * q, 0);
        assert(q - 2 * p < (-lo + 1) * (2 * q)) by (nonlinear_arith)
            requires
                p >= lo * q,
                q > 0,
        ;
        assert(q - 2 * p >= (-hi) * (2 * q)) by (nonlinear_arith)
            requires
                p <= hi * q,
                q > 0,
        ;
        assert(0 * (2 * q) == 0) by (nonlinear_arith);
    }
}

/// An edge crosses a scanline between the columns of its two ends.
pub proof fn lemma_crossing_between(a: (int, int), b: (int, int), y: int)
    requires
        crosses(a, b, y),
    ensures
        a.0 <= crossing_x(a, b, y) <= b.0 || b.0 <= crossing_x(a, b, y) <= a.0,
{
    let rise = b.1 - a.1;
    let p = a.0 * rise + (y - a.1) * (b.0 - a.0);
    let lo = if a.0 <= b.0 { a.0 } else { b.0 };
    let hi = if a.0 <= b.0 { b.0 } else { a.0 };
    if rise > 0 {
        assert(lo * rise <= p <= hi * rise) by (nonlinear_arith)
            requires
                p == a.0 * rise + (y - a.1) * (b.0 - a.0),
                0 <= y - a.1 <= rise,
                lo <= a.0 <= hi,
                lo <= b.0 <= hi,
                lo == a.0 || lo == b.0,
                hi == a.0 || hi == b.0,
        ;
        lemma_round_div_between(p, rise, lo, hi);
    } else {
        assert(lo * (-rise) <= -p <= hi * (-rise)) by (nonlinear_arith)
            requires
                p == a.0 * rise + (y - a.1) * (b.0 - a.0),
                0 <= a.1 - y <= -rise,
                lo <= a.0 <= hi,
                lo <= b.0 <= hi,
                lo == a.0 || lo == b.0,
                hi == a.0 || hi == b.0,
        ;
        lemma_round_div_between(-p, -rise, lo, hi);
    }
}

/// The integers that a sequence of machine integers stands for.
pub open spec fn ints(s: Seq<i32>) -> Seq<int> {
    s.map_values(|v: i32| v as int)
}

/// The grid points that a sequence of vertices stands for.
pub open spec fn grid(s: Seq<Point>) -> Seq<(int, int)> {
    s.map_values(|p: Point| p@)
}

/// The vertex that follows vertex `i` round the polygon: the last one is
/// followed by the first.
pub open spec fn vertex_after(points: Seq<(int, int)>, i: int) -> (int, int) {
    if i + 1 == points.len() {
        points[0]
    } else {
        points[i + 1]
    }
}

/// The columns in which the first `k` edges of the polygon cross the
/// scanline `y`, in the order of the edges.
pub open spec fn crossings_of_edges(points: Seq<(int, int)>, y: int, k: nat) -> Seq<int>
    decreases k,
{
    if k == 0 {
        Seq::empty()
    } else {
        let before = crossings_of_edges(points, y, (k - 1) as nat);
        let a = points[k - 1];
        let b = vertex_after(points, k - 1);
        if crosses(a, b, y) {
            before.push(crossing_x(a, b, y))
        } else {
            before
        }
    }
}

/// The columns in which the polygon's boundary crosses the scanline `y`, in
/// the order of the edges.
pub open spec fn crossings(points: Seq<(int, int)>, y: int) -> Seq<int> {
    crossings_of_edges(points, y, points.len())
}

/// The canvas after drawing the first `k` spans of the scanline `y`: span
/// `j` runs from column `xs[2 * j]` to column `xs[2 * j + 1]`.
pub open spec fn paint_spans(canvas: Canvas, xs: Seq<int>, y: int, k: nat) -> Canvas
    decreases k,
{
    if k == 0 {
        canvas
    } else {
        paint_spans(canvas, xs, y, (k - 1) as nat).paint_all(
            line_points((xs[2 * k - 2], y), (xs[2 * k - 1], y)),
        )
    }
}

/// The canvas after filling the scanline `y` between the crossings `xs` by
/// the even-odd rule: the crossings are paired off from the left, and a last
/// one without a partner is dropped.
pub open spec fn paint_row(canvas: Canvas, xs: Seq<int>, y: int) -> Canvas {
    paint_spans(canvas, xs, y, xs.len() / 2)
}

/// The canvas after filling the scanlines `lo` to `hi` of the polygon, from
/// the lowest up, each between its crossings in ascending order.
pub open spec fn paint_rows(canvas: Canvas, points: Seq<(int, int)>, lo: int, hi: int) -> Canvas
    decreases hi - lo + 1,
{
    if hi < lo {
        canvas
    } else {
        paint_row(paint_rows(canvas, points, lo, hi - 1), crossings(points, hi).sort(), hi)
    }
}

/// The least `y` among the first `k` vertices, for `k > 0`.
pub open spec fn lowest(points: Seq<(int, int)>, k: nat) -> int
    decreases k,
{
    if k <= 1 {
        points[0].1
    } else if points[k - 1].1 < lowest(points, (k - 1) as nat) {
        points[k - 1].1
    } else {
        lowest(points, (k - 1) as nat)
    }
}

/// The greatest `y` among the first `k` vertices, for `k > 0`.
pub open spec fn highest(points: Seq<(int, int)>, k: nat) -> int
    decreases k,
{
    if k <= 1 {
        points[0].1
    } else if points[k - 1].1 > highest(points, (k - 1) as nat) {
        points[k - 1].1
    } else {
        highest(points, (k - 1) as nat)
    }
}

/// The canvas after filling the polygon: every scanline from its lowest
/// vertex to its highest.
pub open spec fn paint_interior(canvas: Canvas, points: Seq<(int, int)>) -> Canvas {
    paint_rows(canvas, points, lowest(points, points.len()), highest(points, points.len()))
}

/// The canvas after drawing the first `k` edges of the polygon.
pub open spec fn paint_edges(canvas: Canvas, points: Seq<(int, int)>, k: nat) -> Canvas
    decreases k,
{
    if k == 0 {
        canvas
    } else {
        paint_edges(canvas, points, (k - 1) as nat).paint_all(
            line_points(points[k - 1], vertex_after(points, k - 1)),
        )
    }
}

/// The canvas after drawing a polygon: nothing for fewer than two vertices;
/// else the interior in `fill`, then every edge in `border` on top of it,
/// the last edge closing the loop. `border` stays the drawing colour.
pub open spec fn paint_polygon(
    canvas: Canvas,
    points: Seq<(int, int)>,
    border: Rgb,
    fill: Rgb,
) -> Canvas {
    if points.len() < 2 {
        canvas
    } else {
        paint_edges(
            paint_interior(canvas.with_color(fill), points).with_color(border),
            points,
            points.len(),
        )
    }
}

/// Whether `s` is in ascending order.
pub open spec fn ascending(s: Seq<int>) -> bool {
    forall|i: int, j: int| 0 <= i < j < s.len() ==> s[i] <= s[j]
}

/// There is one ascending arrangement of the elements of a sequence:
/// `s.sort()`.
pub proof fn lemma_sort_unique(s: Seq<int>, t: Seq<int>)
    requires
        ascending(t),
        t.to_multiset() == s.to_multiset(),
    ensures
        t == s.sort(),
        ascending(s.sort()),
{
    let leq = |x: int, y: int| x <= y;
    s.lemma_sort_ensures();
    assert(sorted_by(t, leq));
    assert(total_ordering(leq));
    lemma_sorted_unique(t, s.sort(), leq);
}

/// Whether column `x` lies in one of the first `k` spans of `xs`, ends
/// included.
pub open spec fn in_spans(xs: Seq<int>, k: nat, x: int) -> bool {
    exists|j: int|
        0 <= j < k && (xs[2 * j] <= x <= #[trigger] xs[2 * j + 1] || xs[2 * j + 1] <= x
            <= xs[2 * j])
}

/// Drawing spans keeps the size of the canvas and its drawing colour.
proof fn lemma_spans_frame(canvas: Canvas, xs: Seq<int>, y: int, k: nat)
    requires
        canvas.wf(),
    ensures
        paint_spans(canvas, xs, y, k).wf(),
        paint_spans(canvas, xs, y, k).width == canvas.width,
        paint_spans(canvas, xs, y, k).height == canvas.height,
        paint_spans(canvas, xs, y, k).color == canvas.color,
    decreases k,
{
    if k > 0 {
        lemma_spans_frame(canvas, xs, y, (k - 1) as nat);
        paint_spans(canvas, xs, y, (k - 1) as nat).lemma_paint_all_frame(
            line_points((xs[2 * k - 2], y), (xs[2 * k - 1], y)),
        );
    }
}

proof fn lemma_spans_then_pixel(canvas: Canvas, xs: Seq<int>, y: int, k: nat, u: int, v: int)
    requires
        canvas.wf(),
        canvas.contains(u, v),
    ensures
        paint_spans(canvas, xs, y, k).pixel(u, v) == if v == y && in_spans(xs, k, u) {
            canvas.color
        } else {
            canvas.pixel(u, v)
        },
    decreases k,
{
    if k > 0 {
        let j = (k - 1) as nat;
        let before = paint_spans(canvas, xs, y, j);
        let a = (xs[2 * k - 2], y);
        let b = (xs[2 * k - 1], y);
        lemma_spans_then_pixel(canvas, xs, y, j, u, v);
        lemma_spans_frame(canvas, xs, y, j);
        before.lemma_paint_all_then_pixel(line_points(a, b), u, v);
        lemma_span_cells(a, b, u, v);
        if in_spans(xs, j, u) {
            let w = choose|w: int|
                0 <= w < j && (xs[2 * w] <= u <= #[trigger] xs[2 * w + 1] || xs[2 * w + 1] <= u
                    <= xs[2 * w]);
            assert(xs[2 * w] <= u <= xs[2 * w + 1] || xs[2 * w + 1] <= u <= xs[2 * w]);
        }
        if line_points(a, b).contains((u, v)) {
            let w = j as int;
            assert(xs[2 * w] <= u <= xs[2 * w + 1] || xs[2 * w + 1] <= u <= xs[2 * w]);
        }
        if in_spans(xs, k, u) {
            let w = choose|w: int|
                0 <= w < k && (xs[2 * w] <= u <= #[trigger] xs[2 * w + 1] || xs[2 * w + 1] <= u
                    <= xs[2 * w]);
            if w < j {
                assert(xs[2 * w] <= u <= xs[2 * w + 1] || xs[2 * w + 1] <= u <= xs[2 * w]);
            }
        }
    }
}

/// Filling a scanline paints exactly the cells of that row that lie in a
/// span, ends included, and leaves every other cell as it was.
pub proof fn lemma_row_then_pixel(canvas: Canvas, xs: Seq<int>, y: int, u: int, v: int)
    requires
        canvas.wf(),
        canvas.contains(u, v),
    ensures
        paint_row(canvas, xs, y).pixel(u, v) == if v == y && in_spans(xs, xs.len() / 2, u) {
            canvas.color
        } else {
            canvas.pixel(u, v)
        },
{
    lemma_spans_then_pixel(canvas, xs, y, xs.len() / 2, u, v);
}

/// The spans drawn depend only on the crossings that are paired.
proof fn lemma_spans_of_prefix(canvas: Canvas, xs: Seq<int>, y: int, k: nat, n: int)
    requires
        2 * k <= n <= xs.len(),
    ensures
        paint_spans(canvas, xs.take(n), y, k) == paint_spans(canvas, xs, y, k),
    decreases k,
{
    if k > 0 {
        lemma_spans_of_prefix(canvas, xs, y, (k - 1) as nat, n);
    }
}

/// Where a scanline has an odd number of crossings, the last one is dropped:
/// the row is filled as if it were not there.
pub proof fn lemma_odd_crossing_dropped(canvas: Canvas, xs: Seq<int>, y: int)
    requires
        xs.len() % 2 == 1,
    ensures
        paint_row(canvas, xs, y) == paint_row(canvas, xs.drop_last(), y),
{
    lemma_spans_of_prefix(canvas, xs, y, xs.len() / 2, xs.len() - 1);
}

/// A polygon of fewer than two vertices leaves the canvas as it was, drawing
/// colour included.
pub proof fn lemma_degenerate_polygon(
    canvas: Canvas,
    points: Seq<(int, int)>,
    border: Rgb,
    fill: Rgb,
)
    requires
        points.len() < 2,
    ensures
        paint_polygon(canvas, points, border, fill) == canvas,
{
}

/// Whether the first `k` edges cross the scanline `y` an odd number of
/// times.
spec fn odd_so_far(points: Seq<(int, int)>, y: int, k: nat) -> bool {
    crossings_of_edges(points, y, k).len() % 2 == 1
}

/// Walking along the edges, the number of crossings so far is odd exactly
/// when the walk has changed sides of the scanline.
proof fn lemma_crossings_parity(points: Seq<(int, int)>, y: int, k: nat)
    requires
        k < points.len(),
    ensures
        odd_so_far(points, y, k) == ((points[0].1 <= y) != (points[k as int].1 <= y)),
    decreases k,
{
    if k > 0 {
        lemma_crossings_parity(points, y, (k - 1) as nat);
    }
}

/// The boundary of a polygon crosses every scanline an even number of times,
/// so filling a polygon never drops a crossing.
pub proof fn lemma_crossings_even(points: Seq<(int, int)>, y: int)
    ensures
        crossings(points, y).len() % 2 == 0,
{
    if points.len() > 0 {
        lemma_crossings_parity(points, y, (points.len() - 1) as nat);
    }
}

/// A polygon is crossed only at scanlines from its lowest vertex up to, but
/// not including, its highest.
pub proof fn lemma_crossings_within_height(points: Seq<(int, int)>, y: int)
    requires
        points.len() > 0,
        y < lowest(points, points.len()) || y >= highest(points, points.len()),
    ensures
        crossings(points, y) == Seq::<int>::empty(),
{
    lemma_no_crossings(points, y, points.len());
}

/// The lowest of the first `k` vertices is no higher than any of them, and
/// the highest no lower.
proof fn lemma_vertical_range(points: Seq<(int, int)>, k: nat, i: int)
    requires
        0 <= i < k <= points.len(),
    ensures
        lowest(points, k) <= points[i].1 <= highest(points, k),
    decreases k,
{
    if i < k - 1 {
        lemma_vertical_range(points, (k - 1) as nat, i);
    }
}

proof fn lemma_no_crossings(points: Seq<(int, int)>, y: int, k: nat)
    requires
        k <= points.len(),
        y < lowest(points, points.len()) || y >= highest(points, points.len()),
    ensures
        crossings_of_edges(points, y, k) == Seq::<int>::empty(),
    decreases k,
{
    if k > 0 {
        lemma_no_crossings(points, y, (k - 1) as nat);
        lemma_vertical_range(points, points.len(), k - 1);
        lemma_vertical_range(points, points.len(), if k == points.len() { 0 } else { k as int });
    }
}

/// Whether the cell `(u, v)` lies beside the polygon: every vertex is to its
/// left, or every vertex to its right, or every vertex below it, or every
/// vertex above it.
pub open spec fn beside(points: Seq<(int, int)>, u: int, v: int) -> bool {
    ||| forall|i: int| 0 <= i < points.len() ==> (#[trigger] points[i]).0 < u
    ||| forall|i: int| 0 <= i < points.len() ==> (#[trigger] points[i]).0 > u
    ||| forall|i: int| 0 <= i < points.len() ==> (#[trigger] points[i]).1 < v
    ||| forall|i: int| 0 <= i < points.len() ==> (#[trigger] points[i]).1 > v
}

/// Crossings lie on the side of a column on which all the vertices lie.
proof fn lemma_crossings_beside(points: Seq<(int, int)>, y: int, k: nat, u: int)
    requires
        k <= points.len(),
    ensures
        (forall|i: int| 0 <= i < points.len() ==> (#[trigger] points[i]).0 < u) ==> forall|j: int|
            0 <= j < crossings_of_edges(points, y, k).len() ==> #[trigger] crossings_of_edges(
                points,
                y,
                k,
            )[j] < u,
        (forall|i: int| 0 <= i < points.len() ==> (#[trigger] points[i]).0 > u) ==> forall|j: int|
            0 <= j < crossings_of_edges(points, y, k).len() ==> #[trigger] crossings_of_edges(
                points,
                y,
                k,
            )[j] > u,
    decreases k,
{
    if k > 0 {
        lemma_crossings_beside(points, y, (k - 1) as nat, u);
        let before = crossings_of_edges(points, y, (k - 1) as nat);
        let now = crossings_of_edges(points, y, k);
        let a = points[k - 1];
        let b = points[if k == points.len() { 0 } else { k as int }];
        assert(b == vertex_after(points, k - 1));
        if crosses(a, b, y) {
            lemma_crossing_between(a, b, y);
        }
        if forall|i: int| 0 <= i < points.len() ==> (#[trigger] points[i]).0 < u {
            assert forall|j: int| 0 <= j < now.len() implies #[trigger] now[j] < u by {
                if j < before.len() {
                    assert(before[j] < u);
                }
            }
        }
        if forall|i: int| 0 <= i < points.len() ==> (#[trigger] points[i]).0 > u {
            assert forall|j: int| 0 <= j < now.len() implies #[trigger] now[j] > u by {
                if j < before.len() {
                    assert(before[j] > u);
                }
            }
        }
    }
}

/// The crossings in ascending order lie on the side of a column on which all
/// the vertices lie.
proof fn lemma_sorted_crossings_beside(points: Seq<(int, int)>, y: int, u: int)
    ensures
        (forall|i: int| 0 <= i < points.len() ==> (#[trigger] points[i]).0 < u) ==> forall|j: int|
            0 <= j < crossings(points, y).sort().len() ==> #[trigger] crossings(points, y).sort()[j]
                < u,
        (forall|i: int| 0 <= i < points.len() ==> (#[trigger] points[i]).0 > u) ==> forall|j: int|
            0 <= j < crossings(points, y).sort().len() ==> #[trigger] crossings(points, y).sort()[j]
                > u,
{
    broadcast use vstd::seq_lib::group_to_multiset_ensures;

    let xs = crossings(points, y);
    let sorted = xs.sort();
    xs.lemma_sort_ensures();
    lemma_crossings_beside(points, y, points.len(), u);
    assert forall|j: int| 0 <= j < sorted.len() implies exists|i: int|
        0 <= i < xs.len() && xs[i] == #[trigger] sorted[j] by {
        assert(sorted.contains(sorted[j]));
        assert(sorted.to_multiset().count(sorted[j]) > 0);
        assert(xs.to_multiset().count(sorted[j]) > 0);
        assert(xs.contains(sorted[j]));
    }
}

/// Filling rows keeps the size of the canvas and its drawing colour.
proof fn lemma_rows_frame(canvas: Canvas, points: Seq<(int, int)>, lo: int, hi: int)
    requires
        canvas.wf(),
    ensures
        paint_rows(canvas, points, lo, hi).wf(),
        paint_rows(canvas, points, lo, hi).width == canvas.width,
        paint_rows(canvas, points, lo, hi).height == canvas.height,
        paint_rows(canvas, points, lo, hi).color == canvas.color,
    decreases hi - lo + 1,
{
    if hi >= lo {
        lemma_rows_frame(canvas, points, lo, hi - 1);
        let xs = crossings(points, hi).sort();
        lemma_spans_frame(paint_rows(canvas, points, lo, hi - 1), xs, hi, xs.len() / 2);
    }
}

/// Filling the rows between the lowest and the highest vertex leaves a cell
/// beside the polygon as it was.
proof fn lemma_rows_beside(
    canvas: Canvas,
    points: Seq<(int, int)>,
    lo: int,
    hi: int,
    u: int,
    v: int,
)
    requires
        canvas.wf(),
        canvas.contains(u, v),
        points.len() > 0,
        beside(points, u, v),
        lowest(points, points.len()) <= lo,
        hi <= highest(points, points.len()),
    ensures
        paint_rows(canvas, points, lo, hi).pixel(u, v) == canvas.pixel(u, v),
    decreases hi - lo + 1,
{
    if hi >= lo {
        let before = paint_rows(canvas, points, lo, hi - 1);
        let xs = crossings(points, hi).sort();
        lemma_rows_beside(canvas, points, lo, hi - 1, u, v);
        lemma_rows_frame(canvas, points, lo, hi - 1);
        lemma_row_then_pixel(before, xs, hi, u, v);
        lemma_sorted_crossings_beside(points, hi, u);
        lemma_lowest_attained(points, points.len());
        if v == hi && in_spans(xs, xs.len() / 2, u) {
            let j = choose|j: int|
                0 <= j < xs.len() / 2 && (xs[2 * j] <= u <= #[trigger] xs[2 * j + 1] || xs[2 * j
                    + 1] <= u <= xs[2 * j]);
            assert(xs[2 * j] <= u <= xs[2 * j + 1] || xs[2 * j + 1] <= u <= xs[2 * j]);
        }
    }
}

/// The lowest and the highest of the first `k` vertices are among them.
proof fn lemma_lowest_attained(points: Seq<(int, int)>, k: nat)
    requires
        0 < k <= points.len(),
    ensures
        exists|i: int| 0 <= i < k && (#[trigger] points[i]).1 == lowest(points, k),
        exists|i: int| 0 <= i < k && (#[trigger] points[i]).1 == highest(points, k),
    decreases k,
{
    if k > 1 {
        lemma_lowest_attained(points, (k - 1) as nat);
        let rest = (k - 1) as nat;
        let i = choose|i: int| 0 <= i < rest && (#[trigger] points[i]).1 == lowest(points, rest);
        let j = choose|j: int| 0 <= j < rest && (#[trigger] points[j]).1 == highest(points, rest);
        assert(points[i].1 == lowest(points, k) || points[k - 1].1 == lowest(points, k));
        assert(points[j].1 == highest(points, k) || points[k - 1].1 == highest(points, k));
    } else {
        assert(points[0].1 == lowest(points, k));
    }
}

/// Drawing edges keeps the size of the canvas and its drawing colour.
proof fn lemma_edges_frame(canvas: Canvas, points: Seq<(int, int)>, k: nat)
    requires
        canvas.wf(),
    ensures
        paint_edges(canvas, points, k).wf(),
        paint_edges(canvas, points, k).width == canvas.width,
        paint_edges(canvas, points, k).height == canvas.height,
        paint_edges(canvas, points, k).color == canvas.color,
    decreases k,
{
    if k > 0 {
        lemma_edges_frame(canvas, points, (k - 1) as nat);
        paint_edges(canvas, points, (k - 1) as nat).lemma_paint_all_frame(
            line_points(points[k - 1], vertex_after(points, k - 1)),
        );
    }
}

/// Drawing edges leaves a cell beside the polygon as it was.
proof fn lemma_edges_beside(canvas: Canvas, points: Seq<(int, int)>, k: nat, u: int, v: int)
    requires
        canvas.wf(),
        canvas.contains(u, v),
        k <= points.len(),
        beside(points, u, v),
    ensures
        paint_edges(canvas, points, k).pixel(u, v) == canvas.pixel(u, v),
    decreases k,
{
    if k > 0 {
        let before = paint_edges(canvas, points, (k - 1) as nat);
        let a = points[k - 1];
        let b = vertex_after(points, k - 1);
        let cells = line_points(a, b);
        lemma_edges_beside(canvas, points, (k - 1) as nat, u, v);
        lemma_edges_frame(canvas, points, (k - 1) as nat);
        before.lemma_paint_all_then_pixel(cells, u, v);
        assert(b == points[if k == points.len() { 0 } else { k as int }]);
        if cells.contains((u, v)) {
            let i = choose|i: int| 0 <= i < cells.len() && cells[i] == (u, v);
            lemma_line_in_box(a, b, i);
        }
    }
}

/// Drawing a polygon leaves every cell beside it as it was.
pub proof fn lemma_polygon_beside(
    canvas: Canvas,
    points: Seq<(int, int)>,
    border: Rgb,
    fill: Rgb,
    u: int,
    v: int,
)
    requires
        canvas.wf(),
        canvas.contains(u, v),
        beside(points, u, v),
    ensures
        paint_polygon(canvas, points, border, fill).pixel(u, v) == canvas.pixel(u, v),
{
    if points.len() >= 2 {
        let n = points.len();
        let start = canvas.with_color(fill);
        let filled = paint_interior(start, points);
        lemma_rows_beside(start, points, lowest(points, n), highest(points, n), u, v);
        lemma_rows_frame(start, points, lowest(points, n), highest(points, n));
        lemma_edges_beside(filled.with_color(border), points, n, u, v);
    }
}

/// The column in which the edge from `a` to `b` crosses the scanline `y`.
fn edge_crossing(a: Point, b: Point, y: i32) -> (x: i32)
    requires
        crosses(a@, b@, y as int),
    ensures
        x == crossing_x(a@, b@, y as int),
{
    let rise: i128 = b.y as i128 - a.y as i128;
    let run: i128 = b.x as i128 - a.x as i128;
    let up: i128 = y as i128 - a.y as i128;
    let ax: i128 = a.x as i128;
    assert(-0x8000_0000_0000_0000 <= ax * rise <= 0x8000_0000_0000_0000) by (nonlinear_arith)
        requires
            -0x8000_0000 <= ax <= 0x8000_0000,
            -0x1_0000_0000 <= rise <= 0x1_0000_0000,
    ;
    assert(-0x1_0000_0000_0000_0000 <= up * run <= 0x1_0000_0000_0000_0000) by (nonlinear_arith)
        requires
            -0x1_0000_0000 <= up <= 0x1_0000_0000,
            -0x1_0000_0000 <= run <= 0x1_0000_0000,
    ;
    let p: i128 = ax * rise + up * run;
    let (p, q): (i128, i128) = if rise > 0 {
        (p, rise)
    } else {
        (-p, -rise)
    };
    proof {
        lemma_crossing_between(a@, b@, y as int);
    }
    let x: i128 = if p >= 0 {
        (2 * p + q) / (2 * q)
    } else {
        -((q - 2 * p) / (2 * q))
    };
    x as i32
}

/// The columns in which the polygon's boundary crosses the scanline `y`, in
/// the order of the edges, each rounded to the nearest column.
pub fn scanline_crossings(points: &[Point], y: i32) -> (xs: Vec<i32>)
    ensures
        ints(xs@) == crossings(grid(points@), y as int),
{
    let n: usize = points.len();
    let mut xs: Vec<i32> = Vec::new();
    let mut i: usize = 0;
    assert(ints(xs@) =~= Seq::<int>::empty());
    while i < n
        invariant
            n == points@.len(),
            i <= n,
            ints(xs@) == crossings_of_edges(grid(points@), y as int, i as nat),
        decreases n - i,
    {
        let a = points[i];
        let b = if i == n - 1 {
            points[0]
        } else {
            points[i + 1]
        };
        assert(a@ == grid(points@)[i as int]);
        assert(b@ == vertex_after(grid(points@), i as int));
        if (a.y <= y && b.y > y) || (b.y <= y && a.y > y) {
            let x = edge_crossing(a, b, y);
            let ghost before = xs@;
            xs.push(x);
            assert(ints(xs@) =~= ints(before).push(x as int));
        }
        i += 1;
    }
    xs
}

/// The elements of `xs` in ascending order.
fn sort_ascending(xs: &Vec<i32>) -> (out: Vec<i32>)
    ensures
        ints(out@) == ints(xs@).sort(),
{
    let n: usize = xs.len();
    let mut out: Vec<i32> = Vec::new();
    let mut k: usize = 0;
    assert(ints(xs@).take(0) =~= Seq::<int>::empty());
    assert(ints(out@) =~= Seq::<int>::empty());
    while k < n
        invariant
            n == xs@.len(),
            k <= n,
            out@.len() == k,
            ascending(ints(out@)),
            ints(out@).to_multiset() == ints(xs@).take(k as int).to_multiset(),
        decreases n - k,
    {
        let v: i32 = xs[k];
        let mut pos: usize = 0;
        while pos < out.len() && out[pos] <= v
            invariant
                pos <= out@.len(),
                forall|j: int| 0 <= j < pos ==> out@[j] <= v,
            decreases out@.len() - pos,
        {
            pos += 1;
        }
        let ghost before = ints(out@);
        out.insert(pos, v);
        proof {
            let taken = ints(xs@).take(k as int);
            assert(ints(out@) =~= before.insert(pos as int, v as int));
            assert(ints(xs@).take(k + 1) =~= taken.push(v as int));
            vstd::seq_lib::to_multiset_insert(before, pos as int, v as int);
            vstd::seq_lib::to_multiset_build(taken, v as int);
            assert forall|i: int, j: int| 0 <= i < j < ints(out@).len() implies ints(out@)[i]
                <= ints(out@)[j] by {
                let bi = if i < pos { i } else { i - 1 };
                let bj = if j < pos { j } else { j - 1 };
                if i != pos && j != pos {
                    assert(before[bi] <= before[bj]);
                } else if i == pos {
                    assert(before[pos as int] > v);
                    assert(before[pos as int] <= before[bj]);
                }
            }
        }
        k += 1;
    }
    proof {
        assert(ints(xs@).take(n as int) =~= ints(xs@));
        lemma_sort_unique(ints(xs@), ints(out@));
    }
    out
}

/// Fills the scanline `y` between the crossings `xs`, in the drawing colour,
/// by the even-odd rule: a span from `xs[0]` to `xs[1]`, one from `xs[2]` to
/// `xs[3]`, and so on. A last crossing without a partner is dropped.
pub fn fill_scanline(fb: &mut Framebuffer, xs: &[i32], y: i32)
    ensures
        final(fb)@ == paint_row(old(fb)@, ints(xs@), y as int),
{
    let n: usize = xs.len();
    let mut k: usize = 0;
    while k < n / 2
        invariant
            n == xs@.len(),
            k <= n / 2,
            fb@ == paint_spans(old(fb)@, ints(xs@), y as int, k as nat),
        decreases n / 2 - k,
    {
        let from = Point { x: xs[2 * k], y };
        let to = Point { x: xs[2 * k + 1], y };
        draw_line(fb, from, to);
        k += 1;
    }
}

/// The least and the greatest `y` among the vertices.
fn vertical_range(points: &[Point]) -> (range: (i32, i32))
    requires
        points@.len() > 0,
    ensures
        range.0 == lowest(grid(points@), points@.len()),
        range.1 == highest(grid(points@), points@.len()),
{
    let n: usize = points.len();
    let mut lo: i32 = points[0].y;
    let mut hi: i32 = points[0].y;
    let mut i: usize = 1;
    while i < n
        invariant
            n == points@.len(),
            1 <= i <= n,
            lo == lowest(grid(points@), i as nat),
            hi == highest(grid(points@), i as nat),
        decreases n - i,
    {
        let y: i32 = points[i].y;
        if y < lo {
            lo = y;
        }
        if y > hi {
            hi = y;
        }
        i += 1;
    }
    (lo, hi)
}

/// Fills the interior of the polygon in the drawing colour.
fn fill_polygon(fb: &mut Framebuffer, points: &[Point])
    requires
        points@.len() > 0,
    ensures
        final(fb)@ == paint_interior(old(fb)@, grid(points@)),
{
    let (lo, hi) = vertical_range(points);
    let mut y: i64 = lo as i64;
    while y <= hi as i64
        invariant
            lo <= y <= hi + 1,
            fb@ == paint_rows(old(fb)@, grid(points@), lo as int, y - 1),
        decreases hi - y + 1,
    {
        let xs = scanline_crossings(points, y as i32);
        let xs = sort_ascending(&xs);
        fill_scanline(fb, xs.as_slice(), y as i32);
        y += 1;
    }
}

/// Draws the edges of the polygon in the drawing colour, the last one from
/// the last vertex back to the first.
fn stroke_polygon(fb: &mut Framebuffer, points: &[Point])
    ensures
        final(fb)@ == paint_edges(old(fb)@, grid(points@), points@.len()),
{
    let n: usize = points.len();
    let mut i: usize = 0;
    while i < n
        invariant
            n == points@.len(),
            i <= n,
            fb@ == paint_edges(old(fb)@, grid(points@), i as nat),
        decreases n - i,
    {
        let start = points[i];
        let end = if i == n - 1 {
            points[0]
        } else {
            points[i + 1]
        };
        assert(start@ == grid(points@)[i as int]);
        assert(end@ == vertex_after(grid(points@), i as int));
        draw_line(fb, start, end);
        i += 1;
    }
}

/// Draws a closed polygon: its interior in `fill_color`, by the even-odd
/// scanline rule, then its outline in `border_color` on top. With fewer than
/// two vertices nothing is drawn and nothing changes.
pub fn draw_polygon(fb: &mut Framebuffer, points: &[Point], border_color: u32, fill_color: u32)
    ensures
        final(fb)@ == paint_polygon(
            old(fb)@,
            grid(points@),
            unpack(border_color),
            unpack(fill_color),
        ),
{
    if points.len() < 2 {
        return ;
    }
    fb.set_current_color(fill_color);
    fill_polygon(fb, points);
    fb.set_current_color(border_color);
    stroke_polygon(fb, points);
}

} // verus!
