//! The line primitive: a gap-free run of cells between two grid points.

use crate::framebuffer::Framebuffer;
use vstd::arithmetic::div_mod::{
    lemma_fundamental_div_mod, lemma_fundamental_div_mod_converse, lemma_mod_pos_bound,
};
use vstd::prelude::*;

verus! {

/// A point of the pixel grid. `y` counts upwards from the bottom row.
#[derive(Clone, Copy, Debug)]
pub struct Point {
    pub x: i32,
    pub y: i32,
}

impl View for Point {
    type V = (int, int);

    open spec fn view(&self) -> (int, int) {
        (self.x as int, self.y as int)
    }
}

/// The absolute value of `d`.
pub open spec fn magnitude(d: int) -> int {
    if d < 0 {
        -d
    } else {
        d
    }
}

/// The integer nearest to `p / q`, for `q > 0`. A tie goes away from zero.
pub open spec fn round_div(p: int, q: int) -> int
    recommends
        q > 0,
{
    if p >= 0 {
        (2 * p + q) / (2 * q)
    } else {
        -((q - 2 * p) / (2 * q))
    }
}

/// The number of steps from `a` to `b`: the larger of the two distances along
/// the axes.
pub open spec fn steps(a: (int, int), b: (int, int)) -> int {
    let dx = magnitude(b.0 - a.0);
    let dy = magnitude(b.1 - a.1);
    if dx > dy {
        dx
    } else {
        dy
    }
}

/// How far step `i` of `n` has come along an axis on which the whole line
/// covers `delta`: `i * delta / n`, rounded to the nearest integer with a tie
/// going onwards, away from the start.
pub open spec fn advance(delta: int, i: int, n: int) -> int {
    if n > 0 {
        round_div(i * delta, n)
    } else {
        0
    }
}

/// The cell of step `i` on the line from `a` to `b`.
pub open spec fn line_point(a: (int, int), b: (int, int), i: int) -> (int, int) {
    let n = steps(a, b);
    (a.0 + advance(b.0 - a.0, i, n), a.1 + advance(b.1 - a.1, i, n))
}

/// The cells of the line from `a` to `b`, in drawing order: one for each step
/// from `0` to `steps(a, b)`.
pub open spec fn line_points(a: (int, int), b: (int, int)) -> Seq<(int, int)> {
    Seq::new((steps(a, b) + 1) as nat, |i: int| line_point(a, b, i))
}

/// With `2 * i * |delta| + n` split as `q * 2n + r`, step `i` has come `q`
/// cells along the axis, in the direction of `delta`.
proof fn lemma_advance(delta: int, i: int, n: int, q: int, r: int)
    requires
        n > 0,
        i >= 0,
        0 <= r < 2 * n,
        2 * (i * magnitude(delta)) + n == q * (2 * n) + r,
    ensures
        advance(delta, i, n) == if delta < 0 {
            -q
        } else {
            q
        },
{
    if delta < 0 {
        assert(i * magnitude(delta) == -(i * delta)) by (nonlinear_arith)
            requires
                magnitude(delta) == -delta,
        ;
        assert(i * delta <= 0) by (nonlinear_arith)
            requires
                i >= 0,
                delta < 0,
        ;
        lemma_fundamental_div_mod_converse(n - 2 * (i * delta), 2 * n, q, r);
        if i * delta == 0 {
            lemma_fundamental_div_mod_converse(n, 2 * n, 0, n);
        }
    } else {
        assert(i * delta >= 0) by (nonlinear_arith)
            requires
                i >= 0,
                delta >= 0,
        ;
        lemma_fundamental_div_mod_converse(2 * (i * delta) + n, 2 * n, q, r);
    }
}

/// A step never runs ahead of the line: with `2 * i * d + n` split as
/// `q * 2n + r`, `q` is at most `d`.
proof fn lemma_quotient_bound(d: int, i: int, n: int, q: int, r: int)
    requires
        n > 0,
        0 <= i <= n,
        0 <= d,
        0 <= r,
        2 * (i * d) + n == q * (2 * n) + r,
    ensures
        q <= d,
{
    assert(q <= d) by (nonlinear_arith)
        requires
            n > 0,
            0 <= i <= n,
            0 <= d,
            0 <= r,
            2 * (i * d) + n == q * (2 * n) + r,
    ;
}

/// How many cells step `i` of `n` has come along an axis of length `d`,
/// whatever the direction.
spec fn progress(d: int, i: int, n: int) -> int {
    (2 * (i * d) + n) / (2 * n)
}

/// `advance` is `progress` along the axis, signed like `delta`.
proof fn lemma_advance_is_progress(delta: int, i: int, n: int)
    requires
        n > 0,
        i >= 0,
    ensures
        advance(delta, i, n) == if delta < 0 {
            -progress(magnitude(delta), i, n)
        } else {
            progress(magnitude(delta), i, n)
        },
{
    let x = 2 * (i * magnitude(delta)) + n;
    lemma_fundamental_div_mod(x, 2 * n);
    lemma_mod_pos_bound(x, 2 * n);
    assert((2 * n) * (x / (2 * n)) == (x / (2 * n)) * (2 * n)) by (nonlinear_arith);
    lemma_advance(delta, i, n, x / (2 * n), x % (2 * n));
}

/// Along an axis no longer than the number of steps, one step moves by one
/// cell or not at all, and never past the end of the axis; along an axis as
/// long as the number of steps, step `i` has come `i` cells.
proof fn lemma_progress_step(d: int, i: int, n: int)
    requires
        n > 0,
        0 <= i < n,
        0 <= d <= n,
    ensures
        progress(d, i, n) <= progress(d, i + 1, n) <= progress(d, i, n) + 1,
        0 <= progress(d, i, n),
        progress(d, i + 1, n) <= d,
        d == n ==> progress(d, i, n) == i && progress(d, i + 1, n) == i + 1,
{
    let x = 2 * (i * d) + n;
    let q = x / (2 * n);
    let r = x % (2 * n);
    lemma_fundamental_div_mod(x, 2 * n);
    lemma_mod_pos_bound(x, 2 * n);
    assert((2 * n) * q == q * (2 * n)) by (nonlinear_arith);
    assert((i + 1) * d == i * d + d) by (nonlinear_arith);
    assert((q + 1) * (2 * n) == q * (2 * n) + 2 * n) by (nonlinear_arith);
    assert(i * d >= 0) by (nonlinear_arith)
        requires
            i >= 0,
            d >= 0,
    ;
    if r + 2 * d >= 2 * n {
        lemma_fundamental_div_mod_converse(x + 2 * d, 2 * n, q + 1, r + 2 * d - 2 * n);
        lemma_quotient_bound(d, i + 1, n, q + 1, r + 2 * d - 2 * n);
    } else {
        lemma_fundamental_div_mod_converse(x + 2 * d, 2 * n, q, r + 2 * d);
        lemma_quotient_bound(d, i + 1, n, q, r + 2 * d);
    }
    assert(q >= 0) by (nonlinear_arith)
        requires
            x >= 0,
            n > 0,
            x == q * (2 * n) + r,
            r < 2 * n,
    ;
    if d == n {
        assert(2 * (i * n) + n == i * (2 * n) + n) by (nonlinear_arith);
        lemma_fundamental_div_mod_converse(x, 2 * n, i, n);
    }
}

/// A line starts at its first point and ends at its second.
pub proof fn lemma_line_ends(a: (int, int), b: (int, int))
    ensures
        line_points(a, b).len() == steps(a, b) + 1,
        line_points(a, b).first() == a,
        line_points(a, b).last() == b,
{
    let n = steps(a, b);
    if n > 0 {
        let dx = b.0 - a.0;
        let dy = b.1 - a.1;
        assert(0 * magnitude(dx) == 0 && 0 * magnitude(dy) == 0 && 0 * (2 * n) == 0)
            by (nonlinear_arith);
        lemma_advance(dx, 0, n, 0, n);
        lemma_advance(dy, 0, n, 0, n);
        assert(2 * (n * magnitude(dx)) + n == magnitude(dx) * (2 * n) + n) by (nonlinear_arith);
        assert(2 * (n * magnitude(dy)) + n == magnitude(dy) * (2 * n) + n) by (nonlinear_arith);
        lemma_advance(dx, n, n, magnitude(dx), n);
        lemma_advance(dy, n, n, magnitude(dy), n);
    }
}

/// A line from a point to itself is that one cell.
pub proof fn lemma_line_of_one_point(a: (int, int), b: (int, int))
    requires
        a == b,
    ensures
        line_points(a, b) == seq![a],
{
    lemma_line_ends(a, b);
    assert(line_points(a, b) =~= seq![a]);
}

/// A line has no gaps: each cell touches the one before it, by a side or by
/// a corner, and is another cell.
pub proof fn lemma_line_connected(a: (int, int), b: (int, int), i: int)
    requires
        0 <= i < steps(a, b),
    ensures
        magnitude(line_point(a, b, i + 1).0 - line_point(a, b, i).0) <= 1,
        magnitude(line_point(a, b, i + 1).1 - line_point(a, b, i).1) <= 1,
        line_point(a, b, i + 1) != line_point(a, b, i),
{
    let n = steps(a, b);
    let dx = b.0 - a.0;
    let dy = b.1 - a.1;
    lemma_advance_is_progress(dx, i, n);
    lemma_advance_is_progress(dx, i + 1, n);
    lemma_advance_is_progress(dy, i, n);
    lemma_advance_is_progress(dy, i + 1, n);
    lemma_progress_step(magnitude(dx), i, n);
    lemma_progress_step(magnitude(dy), i, n);
}

/// Every cell of a line lies in the rectangle that its two ends span.
pub proof fn lemma_line_in_box(a: (int, int), b: (int, int), i: int)
    requires
        0 <= i <= steps(a, b),
    ensures
        a.0 <= line_point(a, b, i).0 <= b.0 || b.0 <= line_point(a, b, i).0 <= a.0,
        a.1 <= line_point(a, b, i).1 <= b.1 || b.1 <= line_point(a, b, i).1 <= a.1,
{
    let n = steps(a, b);
    if i == 0 || i == n {
        lemma_line_ends(a, b);
    } else {
        let dx = b.0 - a.0;
        let dy = b.1 - a.1;
        lemma_advance_is_progress(dx, i, n);
        lemma_advance_is_progress(dy, i, n);
        lemma_progress_step(magnitude(dx), i - 1, n);
        lemma_progress_step(magnitude(dy), i - 1, n);
    }
}

/// A horizontal line is the row of cells between its ends, one per column.
pub proof fn lemma_line_horizontal(a: (int, int), b: (int, int), i: int)
    requires
        a.1 == b.1,
        0 <= i <= steps(a, b),
    ensures
        steps(a, b) == magnitude(b.0 - a.0),
        line_point(a, b, i) == (
            if a.0 <= b.0 {
                a.0 + i
            } else {
                a.0 - i
            },
            a.1,
        ),
{
    let n = steps(a, b);
    if n > 0 {
        let dx = b.0 - a.0;
        assert(i * 0 == 0 && 0 * (2 * n) == 0) by (nonlinear_arith);
        lemma_advance(0, i, n, 0, n);
        assert(2 * (i * n) + n == i * (2 * n) + n) by (nonlinear_arith);
        lemma_advance(dx, i, n, i, n);
    }
}

/// The cells of a horizontal line are those of its row from one end to the
/// other.
pub proof fn lemma_span_cells(a: (int, int), b: (int, int), x: int, y: int)
    requires
        a.1 == b.1,
    ensures
        line_points(a, b).contains((x, y)) <==> y == a.1 && (a.0 <= x <= b.0 || b.0 <= x <= a.0),
{
    let cells = line_points(a, b);
    if cells.contains((x, y)) {
        let i = choose|i: int| 0 <= i < cells.len() && cells[i] == (x, y);
        lemma_line_horizontal(a, b, i);
    }
    if y == a.1 && (a.0 <= x <= b.0 || b.0 <= x <= a.0) {
        let i = magnitude(x - a.0);
        lemma_line_horizontal(a, b, i);
        assert(cells[i] == (x, y));
    }
}

/// Draws the line from `start` to `end` in the drawing colour: the cells of
/// `line_points`, in order, each clipped to the buffer.
pub fn draw_line(fb: &mut Framebuffer, start: Point, end: Point)
    ensures
        final(fb)@ == old(fb)@.paint_all(line_points(start@, end@)),
{
    let dx: i64 = end.x as i64 - start.x as i64;
    let dy: i64 = end.y as i64 - start.y as i64;
    let adx: i64 = if dx < 0 { -dx } else { dx };
    let ady: i64 = if dy < 0 { -dy } else { dy };
    let n: i64 = if adx > ady { adx } else { ady };
    let mut x: i32 = start.x;
    let mut y: i32 = start.y;
    let mut rx: i64 = n;
    let mut ry: i64 = n;
    let mut i: i64 = 0;
    let ghost cells = line_points(start@, end@);
    let ghost mut qx: int = 0;
    let ghost mut qy: int = 0;
    proof {
        assert(0 * adx == 0 && 0 * ady == 0 && 0 * (2 * n) == 0) by (nonlinear_arith);
        if n > 0 {
            lemma_advance(dx as int, 0, n as int, 0, n as int);
            lemma_advance(dy as int, 0, n as int, 0, n as int);
        }
        assert(cells.take(1).drop_last() =~= Seq::<(int, int)>::empty());
        assert(old(fb)@.paint_all(Seq::<(int, int)>::empty()) == old(fb)@);
    }
    fb.point(x as isize, y as isize);
    while i < n
        invariant
            cells == line_points(start@, end@),
            dx == end.x - start.x,
            dy == end.y - start.y,
            adx == magnitude(dx as int),
            ady == magnitude(dy as int),
            n == steps(start@, end@),
            0 <= i <= n,
            0 <= rx,
            0 <= ry,
            n > 0 ==> rx < 2 * n && ry < 2 * n,
            2 * (i * adx) + n == qx * (2 * n) + rx,
            2 * (i * ady) + n == qy * (2 * n) + ry,
            0 <= qx,
            0 <= qy,
            x == start.x + if dx < 0 { -qx } else { qx },
            y == start.y + if dy < 0 { -qy } else { qy },
            fb@ == old(fb)@.paint_all(cells.take(i + 1)),
        decreases n - i,
    {
        proof {
            assert((i + 1) * adx == i * adx + adx) by (nonlinear_arith);
            assert((i + 1) * ady == i * ady + ady) by (nonlinear_arith);
            assert((qx + 1) * (2 * n) == qx * (2 * n) + 2 * n) by (nonlinear_arith);
            assert((qy + 1) * (2 * n) == qy * (2 * n) + 2 * n) by (nonlinear_arith);
        }
        i += 1;
        rx += 2 * adx;
        if rx >= 2 * n {
            rx -= 2 * n;
            proof {
                qx = qx + 1;
                lemma_quotient_bound(adx as int, i as int, n as int, qx, rx as int);
            }
            if dx < 0 {
                x -= 1;
            } else {
                x += 1;
            }
        }
        ry += 2 * ady;
        if ry >= 2 * n {
            ry -= 2 * n;
            proof {
                qy = qy + 1;
                lemma_quotient_bound(ady as int, i as int, n as int, qy, ry as int);
            }
            if dy < 0 {
                y -= 1;
            } else {
                y += 1;
            }
        }
        proof {
            lemma_advance(dx as int, i as int, n as int, qx, rx as int);
            lemma_advance(dy as int, i as int, n as int, qy, ry as int);
            assert(cells[i as int] == (x as int, y as int));
            assert(cells.take(i + 1).drop_last() =~= cells.take(i as int));
            assert(cells.take(i + 1).last() == cells[i as int]);
            old(fb).lemma_wf();
            old(fb)@.lemma_paint_all_frame(cells.take(i as int));
        }
        fb.point(x as isize, y as isize);
    }
    assert(cells.take(n + 1) =~= cells);
}

} // verus!
