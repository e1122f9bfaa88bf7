//! The buffer as text, one line per stored row.

use crate::framebuffer::{lemma_cell_fits, Canvas, Framebuffer, Rgb};
use vstd::prelude::*;

verus! {

/// `String::push` appends the character to the end of the string.
pub assume_specification[ String::push ](s: &mut String, ch: char)
    ensures
        final(s)@ == old(s)@.push(ch),
;

/// The character for the decimal digit `d`.
pub open spec fn digit(d: u8) -> char
    recommends
        d < 10,
{
    (48 + d) as char
}

/// `v` in decimal, without leading zeros.
pub open spec fn decimal(v: u8) -> Seq<char> {
    if v >= 100 {
        seq![digit(v / 100), digit(v / 10 % 10), digit(v % 10)]
    } else if v >= 10 {
        seq![digit(v / 10), digit(v % 10)]
    } else {
        seq![digit(v)]
    }
}

/// A pixel as text: `(r, g, b)` and a space.
pub open spec fn pixel_text(c: Rgb) -> Seq<char> {
    seq!['('] + decimal(c.0) + seq![',', ' '] + decimal(c.1) + seq![',', ' '] + decimal(c.2)
        + seq![')', ' ']
}

/// The first `k` pixels of the stored row `row` as text. Stored rows count
/// from the top of the image.
pub open spec fn row_text(canvas: Canvas, row: int, k: nat) -> Seq<char>
    decreases k,
{
    if k == 0 {
        Seq::empty()
    } else {
        row_text(canvas, row, (k - 1) as nat) + pixel_text(
            canvas.pixels[row * canvas.width + (k - 1)],
        )
    }
}

/// The first `k` stored rows as text, each ended by a line feed.
pub open spec fn rows_text(canvas: Canvas, k: nat) -> Seq<char>
    decreases k,
{
    if k == 0 {
        Seq::empty()
    } else {
        rows_text(canvas, (k - 1) as nat) + row_text(canvas, k - 1, canvas.width) + seq!['\n']
    }
}

/// The canvas as text: from the top row down, each pixel as `(r, g, b)` and
/// a space, each row on a line of its own.
pub open spec fn text(canvas: Canvas) -> Seq<char> {
    rows_text(canvas, canvas.height)
}

/// Appends `v` in decimal.
fn push_decimal(out: &mut String, v: u8)
    ensures
        final(out)@ == old(out)@ + decimal(v),
{
    if v >= 100 {
        out.push((48 + v / 100) as char);
    }
    if v >= 10 {
        out.push((48 + v / 10 % 10) as char);
    }
    out.push((48 + v % 10) as char);
    assert(out@ =~= old(out)@ + decimal(v));
}

/// Appends a pixel as `(r, g, b)` and a space.
fn push_pixel(out: &mut String, c: (u8, u8, u8))
    ensures
        final(out)@ == old(out)@ + pixel_text(c),
{
    out.push('(');
    push_decimal(out, c.0);
    out.push(',');
    out.push(' ');
    push_decimal(out, c.1);
    out.push(',');
    out.push(' ');
    push_decimal(out, c.2);
    out.push(')');
    out.push(' ');
    assert(out@ =~= old(out)@ + pixel_text(c));
}

impl Framebuffer {
    /// The buffer as text: from the top row down, each pixel as `(r, g, b)`
    /// and a space, each row on a line of its own.
    pub fn to_text(&self) -> (out: String)
        ensures
            out@ == text(self@),
    {
        let width: usize = self.width();
        let height: usize = self.height();
        let data = self.data();
        let size: usize = data.len();
        let mut out = String::new();
        let mut row: usize = 0;
        proof {
            self.lemma_wf();
        }
        assert(out@ =~= rows_text(self@, 0));
        while row < height
            invariant
                self@.wf(),
                width == self@.width,
                height == self@.height,
                data@ == self@.bytes(),
                size == 3 * (width * height),
                row <= height,
                out@ == rows_text(self@, row as nat),
            decreases height - row,
        {
            let ghost start = out@;
            let mut x: usize = 0;
            assert(out@ =~= start + row_text(self@, row as int, 0));
            while x < width
                invariant
                    self@.wf(),
                    width == self@.width,
                    height == self@.height,
                    data@ == self@.bytes(),
                    size == 3 * (width * height),
                    row < height,
                    x <= width,
                    out@ == start + row_text(self@, row as int, x as nat),
                decreases width - x,
            {
                proof {
                    lemma_cell_fits(width as int, height as int, x as int, row as int);
                }
                let index: usize = (row * width + x) * 3;
                let ghost before = out@;
                push_pixel(&mut out, (data[index], data[index + 1], data[index + 2]));
                assert(before + pixel_text(self@.pixels[row * width + x]) =~= start + row_text(
                    self@,
                    row as int,
                    (x + 1) as nat,
                ));
                x += 1;
            }
            out.push('\n');
            assert(out@ =~= rows_text(self@, (row + 1) as nat));
            row += 1;
        }
        out
    }
}

} // verus!
