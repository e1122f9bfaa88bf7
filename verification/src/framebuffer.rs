//! The pixel buffer and its mathematical model, the [`Canvas`].

use crate::bmp::{bitmap, encode, lemma_bitmap_ignores_color};
use vstd::prelude::*;

verus! {

/// A colour as its red, green and blue bytes.
pub type Rgb = (u8, u8, u8);

/// The colour packed in the low 24 bits of `hex`, read as `0xRRGGBB`.
/// The top byte of `hex` is ignored.
pub open spec fn unpack(hex: u32) -> Rgb {
    (
        ((hex as int / 0x1_0000) % 0x100) as u8,
        ((hex as int / 0x100) % 0x100) as u8,
        (hex as int % 0x100) as u8,
    )
}

/// The `i`-th pixel of a byte string that stores three bytes per pixel, red
/// first.
pub open spec fn rgb_at(bytes: Seq<u8>, i: int) -> Rgb {
    (bytes[3 * i], bytes[3 * i + 1], bytes[3 * i + 2])
}

/// What a pixel buffer is: its size, its pixels row by row from the top of
/// the image down, and the colour that drawing operations paint with.
pub struct Canvas {
    pub width: nat,
    pub height: nat,
    pub pixels: Seq<Rgb>,
    pub color: Rgb,
}

impl Canvas {
    /// The canvas, with black as its drawing colour, whose pixels are stored
    /// in `bytes` row by row from the top, three bytes per pixel, red first.
    pub open spec fn of_bytes(bytes: Seq<u8>, width: nat, height: nat) -> Canvas {
        Canvas {
            width,
            height,
            pixels: Seq::new(width * height, |i: int| rgb_at(bytes, i)),
            color: (0, 0, 0),
        }
    }

    /// There is exactly one stored pixel per cell.
    pub open spec fn wf(self) -> bool {
        self.pixels.len() == self.width * self.height
    }

    /// The stored bytes: the pixels row by row from the top, three bytes per
    /// pixel, red first.
    pub open spec fn bytes(self) -> Seq<u8> {
        Seq::new(
            3 * self.pixels.len(),
            |i: int|
                if i % 3 == 0 {
                    self.pixels[i / 3].0
                } else if i % 3 == 1 {
                    self.pixels[i / 3].1
                } else {
                    self.pixels[i / 3].2
                },
        )
    }

    /// Whether `(x, y)` names a cell of the canvas.
    pub open spec fn contains(self, x: int, y: int) -> bool {
        0 <= x < self.width && 0 <= y < self.height
    }

    /// Where the cell `(x, y)` lies in `pixels`. Callers count `y` upwards
    /// from the bottom row, while rows are stored from the top down.
    pub open spec fn offset(self, x: int, y: int) -> int {
        (self.height - 1 - y) * self.width + x
    }

    /// The colour of the cell `(x, y)`.
    pub open spec fn pixel(self, x: int, y: int) -> Rgb
        recommends
            self.contains(x, y),
    {
        self.pixels[self.offset(x, y)]
    }

    /// The canvas after painting `(x, y)` with `c`: a cell outside the canvas
    /// is clipped away.
    pub open spec fn paint(self, x: int, y: int, c: Rgb) -> Canvas {
        if self.contains(x, y) {
            Canvas { pixels: self.pixels.update(self.offset(x, y), c), ..self }
        } else {
            self
        }
    }

    /// The canvas after painting the cells of `cells` with the drawing
    /// colour, first to last.
    pub open spec fn paint_all(self, cells: Seq<(int, int)>) -> Canvas
        decreases cells.len(),
    {
        if cells.len() == 0 {
            self
        } else {
            self.paint_all(cells.drop_last()).paint(cells.last().0, cells.last().1, self.color)
        }
    }

    /// The canvas with every cell set to `c`.
    pub open spec fn flood(self, c: Rgb) -> Canvas {
        Canvas { pixels: Seq::new(self.pixels.len(), |i: int| c), ..self }
    }

    /// The canvas with another drawing colour.
    pub open spec fn with_color(self, c: Rgb) -> Canvas {
        Canvas { color: c, ..self }
    }
}

impl Canvas {
    /// Every cell of the canvas has its own place in `pixels`.
    pub proof fn lemma_offset(self, x: int, y: int)
        requires
            self.wf(),
            self.contains(x, y),
        ensures
            0 <= self.offset(x, y) < self.pixels.len(),
            forall|u: int, v: int|
                self.contains(u, v) && (u != x || v != y) ==> #[trigger] self.offset(u, v)
                    != self.offset(x, y),
    {
        let w = self.width as int;
        let h = self.height as int;
        lemma_cell_fits(w, h, x, h - 1 - y);
        assert forall|u: int, v: int| self.contains(u, v) && (u != x || v != y) implies #[trigger]
            self.offset(u, v) != self.offset(x, y) by {
            lemma_cells_apart(w, u, h - 1 - v, x, h - 1 - y);
        }
    }

    /// Painting a cell and reading it back gives the colour painted, and every
    /// other cell keeps its colour.
    pub proof fn lemma_paint_then_pixel(self, x: int, y: int, c: Rgb, u: int, v: int)
        requires
            self.wf(),
            self.contains(x, y),
            self.contains(u, v),
        ensures
            self.paint(x, y, c).wf(),
            self.paint(x, y, c).pixel(u, v) == if u == x && v == y {
                c
            } else {
                self.pixel(u, v)
            },
    {
        self.lemma_offset(x, y);
        self.lemma_offset(u, v);
    }

    /// Painting cells changes neither the size of the canvas nor its drawing
    /// colour.
    pub proof fn lemma_paint_all_frame(self, cells: Seq<(int, int)>)
        requires
            self.wf(),
        ensures
            self.paint_all(cells).wf(),
            self.paint_all(cells).width == self.width,
            self.paint_all(cells).height == self.height,
            self.paint_all(cells).color == self.color,
        decreases cells.len(),
    {
        if cells.len() > 0 {
            self.lemma_paint_all_frame(cells.drop_last());
            let before = self.paint_all(cells.drop_last());
            if before.contains(cells.last().0, cells.last().1) {
                before.lemma_offset(cells.last().0, cells.last().1);
            }
        }
    }

    /// After painting cells, a cell has the drawing colour if it is among
    /// them, and else the colour it had.
    pub proof fn lemma_paint_all_then_pixel(self, cells: Seq<(int, int)>, x: int, y: int)
        requires
            self.wf(),
            self.contains(x, y),
        ensures
            self.paint_all(cells).pixel(x, y) == if cells.contains((x, y)) {
                self.color
            } else {
                self.pixel(x, y)
            },
        decreases cells.len(),
    {
        if cells.len() > 0 {
            let rest = cells.drop_last();
            let last = cells.last();
            self.lemma_paint_all_then_pixel(rest, x, y);
            self.lemma_paint_all_frame(rest);
            let before = self.paint_all(rest);
            assert(before.contains(x, y));
            if before.contains(last.0, last.1) {
                before.lemma_paint_then_pixel(last.0, last.1, self.color, x, y);
            }
            if last == (x, y) {
                assert(cells[cells.len() - 1] == (x, y));
            } else if cells.contains((x, y)) {
                let i = choose|i: int| 0 <= i < cells.len() && cells[i] == (x, y);
                assert(rest[i] == (x, y));
            } else if rest.contains((x, y)) {
                let i = choose|i: int| 0 <= i < rest.len() && rest[i] == (x, y);
                assert(cells[i] == (x, y));
            }
        }
    }

    /// Painting outside the canvas changes nothing.
    pub proof fn lemma_paint_outside(self, x: int, y: int, c: Rgb)
        requires
            !self.contains(x, y),
        ensures
            self.paint(x, y, c) == self,
    {
    }

    /// After a flood every cell has the flood's colour, whatever was painted
    /// or flooded before.
    pub proof fn lemma_flood_then_pixel(self, c: Rgb, x: int, y: int)
        requires
            self.wf(),
            self.contains(x, y),
        ensures
            self.flood(c).wf(),
            self.flood(c).pixel(x, y) == c,
    {
        self.lemma_offset(x, y);
    }
}

/// A `width` by `height` grid of RGB pixels with a current drawing colour.
#[derive(Debug)]
pub struct Framebuffer {
    width: usize,
    height: usize,
    data: Vec<u8>,
    current_color: (u8, u8, u8),
}

impl View for Framebuffer {
    type V = Canvas;

    closed spec fn view(&self) -> Canvas {
        Canvas::of_bytes(self.data@, self.width as nat, self.height as nat).with_color(
            self.current_color,
        )
    }
}

impl Framebuffer {
    #[verifier::type_invariant]
    spec fn inv(&self) -> bool {
        &&& self.data@.len() == self.width * self.height * 3
        &&& self.width * self.height * 3 <= usize::MAX
    }

    /// Unpacks `0xRRGGBB` into its three bytes.
    pub fn hex_to_rgb(hex: u32) -> (c: (u8, u8, u8))
        ensures
            c == unpack(hex),
    {
        assert((hex >> 16) & 0xff == (hex as int / 0x1_0000) % 0x100) by (bit_vector);
        assert((hex >> 8) & 0xff == (hex as int / 0x100) % 0x100) by (bit_vector);
        assert(hex & 0xff == hex as int % 0x100) by (bit_vector);
        (((hex >> 16) & 0xff) as u8, ((hex >> 8) & 0xff) as u8, (hex & 0xff) as u8)
    }

    /// A black buffer of the given size, with black as the drawing colour.
    pub fn new(width: usize, height: usize) -> (fb: Framebuffer)
        requires
            width * height * 3 <= usize::MAX,
        ensures
            fb@.wf(),
            fb@.width == width,
            fb@.height == height,
            fb@.color == (0u8, 0u8, 0u8),
            fb@.pixels == Seq::new((width * height) as nat, |i: int| (0u8, 0u8, 0u8)),
    {
        assert(width * height <= width * height * 3) by (nonlinear_arith);
        let size: usize = width * height * 3;
        let data: Vec<u8> = vec![0u8; size];
        Framebuffer { width, height, data, current_color: (0, 0, 0) }
    }

    /// The number of columns.
    pub fn width(&self) -> (w: usize)
        ensures
            w == self@.width,
    {
        self.width
    }

    /// The number of rows.
    pub fn height(&self) -> (h: usize)
        ensures
            h == self@.height,
    {
        self.height
    }

    /// The stored bytes, three per pixel.
    pub fn data(&self) -> (bytes: &[u8])
        ensures
            bytes@ == self@.bytes(),
    {
        proof {
            use_type_invariant(self);
            assert(self.data@ =~= self@.bytes());
        }
        self.data.as_slice()
    }

    /// The colour that `point` paints with.
    pub fn current_color(&self) -> (c: (u8, u8, u8))
        ensures
            c == self@.color,
    {
        self.current_color
    }

    /// Every buffer holds one pixel per cell.
    pub proof fn lemma_wf(&self)
        ensures
            self@.wf(),
    {
    }

    /// Paints every pixel with the colour packed in `hex`.
    pub fn set_background_color(&mut self, hex: u32)
        ensures
            final(self)@ == old(self)@.flood(unpack(hex)),
    {
        let color = Self::hex_to_rgb(hex);
        self.fill(color);
    }

    /// Makes the colour packed in `hex` the drawing colour. No pixel changes.
    pub fn set_current_color(&mut self, hex: u32)
        ensures
            final(self)@ == old(self)@.with_color(unpack(hex)),
    {
        proof {
            use_type_invariant(&*self);
        }
        self.current_color = Self::hex_to_rgb(hex);
    }

    /// Paints `(x, y)`, counted from the bottom-left corner, with the drawing
    /// colour. A point outside the buffer is clipped away.
    pub fn point(&mut self, x: isize, y: isize)
        ensures
            final(self)@ == old(self)@.paint(x as int, y as int, old(self)@.color),
    {
        if x < 0 || y < 0 {
            return ;
        }
        let c = self.current_color;
        self.set_pixel(x as usize, y as usize, c.0, c.1, c.2);
    }

    /// The buffer as an uncompressed 24-bit bitmap file.
    pub fn render_buffer(&self) -> (file: Vec<u8>)
        ensures
            file@ == bitmap(self@),
    {
        proof {
            use_type_invariant(self);
            lemma_bitmap_ignores_color(
                Canvas::of_bytes(self.data@, self.width as nat, self.height as nat),
                self.current_color,
            );
        }
        encode(self.data.as_slice(), self.width, self.height)
    }

    /// Resets every pixel to black, whatever the background was.
    pub fn clear(&mut self)
        ensures
            final(self)@ == old(self)@.flood((0u8, 0u8, 0u8)),
    {
        self.fill((0, 0, 0));
    }

    fn fill(&mut self, color: (u8, u8, u8))
        ensures
            final(self)@ == old(self)@.flood(color),
    {
        proof {
            use_type_invariant(&*self);
        }
        let n: usize = self.data.len();
        let mut i: usize = 0;
        while i < n
            invariant
                n == self.data@.len(),
                n == self.width * self.height * 3,
                self.width == old(self).width,
                self.height == old(self).height,
                self.current_color == old(self).current_color,
                i <= n,
                i % 3 == 0,
                forall|k: int| 0 <= k < i / 3 ==> #[trigger] rgb_at(self.data@, k) == color,
            decreases n - i,
        {
            let ghost before = self.data@;
            self.data[i] = color.0;
            self.data[i + 1] = color.1;
            self.data[i + 2] = color.2;
            assert forall|k: int| 0 <= k < i / 3 + 1 implies #[trigger] rgb_at(self.data@, k)
                == color by {
                if k < i / 3 {
                    assert(rgb_at(before, k) == color);
                }
            }
            i += 3;
        }
        assert(self@.pixels =~= old(self)@.flood(color).pixels);
    }

    /// Writes the colour `(r, g, b)` at `(x, y)`, counted from the bottom-left
    /// corner. A cell outside the buffer is left alone.
    pub fn set_pixel(&mut self, x: usize, y: usize, r: u8, g: u8, b: u8)
        ensures
            final(self)@ == old(self)@.paint(x as int, y as int, (r, g, b)),
    {
        proof {
            use_type_invariant(&*self);
        }
        if x >= self.width || y >= self.height {
            return ;
        }
        let flipped_y: usize = self.height - 1 - y;
        proof {
            lemma_cell_fits(self.width as int, self.height as int, x as int, flipped_y as int);
        }
        let index: usize = (flipped_y * self.width + x) * 3;
        self.data[index] = r;
        self.data[index + 1] = g;
        self.data[index + 2] = b;
        assert(self@.pixels =~= old(self)@.pixels.update(
            old(self)@.offset(x as int, y as int),
            (r, g, b),
        ));
    }

    /// The colour stored at `(x, y)`, counted from the bottom-left corner, or
    /// `None` where `(x, y)` lies outside the buffer.
    pub fn get_pixel(&self, x: isize, y: isize) -> (p: Option<(u8, u8, u8)>)
        ensures
            p == if self@.contains(x as int, y as int) {
                Some(self@.pixel(x as int, y as int))
            } else {
                None
            },
    {
        proof {
            use_type_invariant(self);
        }
        if x < 0 || y < 0 {
            return None;
        }
        let x: usize = x as usize;
        let y: usize = y as usize;
        if x >= self.width || y >= self.height {
            return None;
        }
        let flipped_y: usize = self.height - 1 - y;
        proof {
            lemma_cell_fits(self.width as int, self.height as int, x as int, flipped_y as int);
        }
        let index: usize = (flipped_y * self.width + x) * 3;
        Some((self.data[index], self.data[index + 1], self.data[index + 2]))
    }
}

/// A cell of a `w` by `h` grid, numbered row by row, has a number below `w * h`.
pub proof fn lemma_cell_fits(w: int, h: int, x: int, row: int)
    requires
        0 <= x < w,
        0 <= row < h,
    ensures
        0 <= row * w + x < w * h,
        row * w >= 0,
{
    assert(row * w >= 0) by (nonlinear_arith)
        requires
            row >= 0,
            w >= 0,
    ;
    assert(row * w + w <= h * w) by (nonlinear_arith)
        requires
            row + 1 <= h,
            w >= 0,
    ;
    assert(h * w == w * h) by (nonlinear_arith);
}

/// Two different cells of a grid `w` wide have different numbers.
proof fn lemma_cells_apart(w: int, x1: int, row1: int, x2: int, row2: int)
    requires
        0 <= x1 < w,
        0 <= x2 < w,
        x1 != x2 || row1 != row2,
    ensures
        row1 * w + x1 != row2 * w + x2,
{
    if row1 < row2 {
        assert(row1 * w + w <= row2 * w) by (nonlinear_arith)
            requires
                row1 + 1 <= row2,
                w >= 0,
        ;
    } else if row2 < row1 {
        assert(row2 * w + w <= row1 * w) by (nonlinear_arith)
            requires
                row2 + 1 <= row1,
                w >= 0,
        ;
    }
}

} // verus!
