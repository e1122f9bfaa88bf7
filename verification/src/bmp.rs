//! The encoder: a canvas as an uncompressed 24-bit bitmap file.

use crate::framebuffer::{lemma_cell_fits, Canvas, Rgb};
use vstd::prelude::*;

verus! {

/// The length of the file header.
pub const HEADER_SIZE: usize = 54;

/// The low 16 bits of `v`, least significant byte first.
pub open spec fn le16(v: nat) -> Seq<u8> {
    seq![(v % 0x100) as u8, (v / 0x100 % 0x100) as u8]
}

/// The low 32 bits of `v`, least significant byte first.
pub open spec fn le32(v: nat) -> Seq<u8> {
    seq![
        (v % 0x100) as u8,
        (v / 0x100 % 0x100) as u8,
        (v / 0x1_0000 % 0x100) as u8,
        (v / 0x100_0000 % 0x100) as u8,
    ]
}

/// The file header of a `width` by `height` image: the signature `BM`, the
/// size of header and pixels without padding, a reserved word, the offset of
/// the pixel array, the size of the info header, the width, the height, one
/// colour plane, 24 bits per pixel, no compression, the size of the pixels
/// without padding, 2835 pixels per metre each way, and no palette.
pub open spec fn header(width: nat, height: nat) -> Seq<u8> {
    seq![0x42u8, 0x4Du8] + le32(54 + width * height * 3) + le32(0) + le32(54) + le32(40)
        + le32(width) + le32(height) + le16(1) + le16(24) + le32(0) + le32(width * height * 3)
        + le32(2835) + le32(2835) + le32(0) + le32(0)
}

/// The number of zero bytes that fill a row of `width` pixels up to a
/// multiple of four bytes.
pub open spec fn padding(width: nat) -> nat {
    ((4 - (width * 3) % 4) % 4) as nat
}

/// The length of a row of the file: three bytes per pixel, and the padding.
pub open spec fn stride(width: nat) -> nat {
    width * 3 + padding(width)
}

/// A pixel as the file stores it: blue, green, red.
pub open spec fn bgr(c: Rgb) -> Seq<u8> {
    seq![c.2, c.1, c.0]
}

/// The first `k` pixels of the canvas row `y`, left to right, as the file
/// stores them.
pub open spec fn row_pixels(canvas: Canvas, y: int, k: nat) -> Seq<u8>
    decreases k,
{
    if k == 0 {
        Seq::empty()
    } else {
        row_pixels(canvas, y, (k - 1) as nat) + bgr(canvas.pixel(k - 1, y))
    }
}

/// The canvas row `y` as a row of the file: its pixels, then the padding.
pub open spec fn file_row(canvas: Canvas, y: int) -> Seq<u8> {
    row_pixels(canvas, y, canvas.width) + Seq::new(padding(canvas.width), |i: int| 0u8)
}

/// The rows `0` to `k - 1` of the canvas as the file stores them: the bottom
/// row of the image comes first.
pub open spec fn pixel_array(canvas: Canvas, k: nat) -> Seq<u8>
    decreases k,
{
    if k == 0 {
        Seq::empty()
    } else {
        pixel_array(canvas, (k - 1) as nat) + file_row(canvas, k - 1)
    }
}

/// The canvas as a bitmap file: the header, then every row from the bottom
/// of the image up.
pub open spec fn bitmap(canvas: Canvas) -> Seq<u8> {
    header(canvas.width, canvas.height) + pixel_array(canvas, canvas.height)
}

/// Where each field of the header stands.
pub proof fn lemma_header_layout(width: nat, height: nat)
    ensures
        header(width, height).len() == 54,
        header(width, height).subrange(0, 2) == seq![0x42u8, 0x4Du8],
        header(width, height).subrange(2, 6) == le32(54 + width * height * 3),
        header(width, height).subrange(6, 10) == le32(0),
        header(width, height).subrange(10, 14) == le32(54),
        header(width, height).subrange(14, 18) == le32(40),
        header(width, height).subrange(18, 22) == le32(width),
        header(width, height).subrange(22, 26) == le32(height),
        header(width, height).subrange(26, 28) == le16(1),
        header(width, height).subrange(28, 30) == le16(24),
        header(width, height).subrange(30, 34) == le32(0),
        header(width, height).subrange(34, 38) == le32(width * height * 3),
        header(width, height).subrange(38, 42) == le32(2835),
        header(width, height).subrange(42, 46) == le32(2835),
        header(width, height).subrange(46, 50) == le32(0),
        header(width, height).subrange(50, 54) == le32(0),
{
    let h = header(width, height);
    assert(h.len() == 54);
    assert(h.subrange(0, 2) =~= seq![0x42u8, 0x4Du8]);
    assert(h.subrange(2, 6) =~= le32(54 + width * height * 3));
    assert(h.subrange(6, 10) =~= le32(0));
    assert(h.subrange(10, 14) =~= le32(54));
    assert(h.subrange(14, 18) =~= le32(40));
    assert(h.subrange(18, 22) =~= le32(width));
    assert(h.subrange(22, 26) =~= le32(height));
    assert(h.subrange(26, 28) =~= le16(1));
    assert(h.subrange(28, 30) =~= le16(24));
    assert(h.subrange(30, 34) =~= le32(0));
    assert(h.subrange(34, 38) =~= le32(width * height * 3));
    assert(h.subrange(38, 42) =~= le32(2835));
    assert(h.subrange(42, 46) =~= le32(2835));
    assert(h.subrange(46, 50) =~= le32(0));
    assert(h.subrange(50, 54) =~= le32(0));
}

/// A row of the file is a multiple of four bytes long.
pub proof fn lemma_stride_aligned(width: nat)
    ensures
        padding(width) < 4,
        stride(width) % 4 == 0,
{
}

/// The first `k` pixels of a row take three bytes each, and pixel `x` among
/// them stands at `3 * x` as blue, green, red.
pub proof fn lemma_row_pixels(canvas: Canvas, y: int, k: nat, x: int)
    requires
        0 <= x < k,
    ensures
        row_pixels(canvas, y, k).len() == 3 * k,
        row_pixels(canvas, y, k).subrange(3 * x, 3 * x + 3) == bgr(canvas.pixel(x, y)),
    decreases k,
{
    lemma_row_pixels_len(canvas, y, (k - 1) as nat);
    if x < k - 1 {
        lemma_row_pixels(canvas, y, (k - 1) as nat, x);
        assert(row_pixels(canvas, y, k).subrange(3 * x, 3 * x + 3) =~= row_pixels(
            canvas,
            y,
            (k - 1) as nat,
        ).subrange(3 * x, 3 * x + 3));
    } else {
        assert(row_pixels(canvas, y, k).subrange(3 * x, 3 * x + 3) =~= bgr(canvas.pixel(x, y)));
    }
}

/// The first `k` pixels of a row take three bytes each.
pub proof fn lemma_row_pixels_len(canvas: Canvas, y: int, k: nat)
    ensures
        row_pixels(canvas, y, k).len() == 3 * k,
    decreases k,
{
    if k > 0 {
        lemma_row_pixels_len(canvas, y, (k - 1) as nat);
    }
}

/// The first `k` rows of the file take `stride` bytes each, and row `y`
/// among them stands at `y * stride`.
pub proof fn lemma_pixel_array(canvas: Canvas, k: nat, y: int)
    requires
        0 <= y < k,
    ensures
        pixel_array(canvas, k).len() == k * stride(canvas.width),
        0 <= y * stride(canvas.width),
        y * stride(canvas.width) + stride(canvas.width) <= k * stride(canvas.width),
        pixel_array(canvas, k).subrange(
            y * stride(canvas.width),
            y * stride(canvas.width) + stride(canvas.width),
        ) == file_row(canvas, y),
    decreases k,
{
    let st = stride(canvas.width) as int;
    lemma_pixel_array_len(canvas, (k - 1) as nat);
    lemma_row_pixels_len(canvas, k - 1, canvas.width);
    assert(k * st == (k - 1) * st + st) by (nonlinear_arith);
    assert(0 <= y * st && y * st + st <= k * st) by (nonlinear_arith)
        requires
            0 <= y < k,
            st >= 0,
    ;
    if y < k - 1 {
        lemma_pixel_array(canvas, (k - 1) as nat, y);
        assert(pixel_array(canvas, k).subrange(y * st, y * st + st) =~= pixel_array(
            canvas,
            (k - 1) as nat,
        ).subrange(y * st, y * st + st));
    } else {
        assert(pixel_array(canvas, k).subrange(y * st, y * st + st) =~= file_row(canvas, y));
    }
}

/// The first `k` rows of the file take `stride` bytes each.
pub proof fn lemma_pixel_array_len(canvas: Canvas, k: nat)
    ensures
        pixel_array(canvas, k).len() == k * stride(canvas.width),
    decreases k,
{
    if k > 0 {
        lemma_pixel_array_len(canvas, (k - 1) as nat);
        lemma_row_pixels_len(canvas, k - 1, canvas.width);
        assert(k * stride(canvas.width) == (k - 1) * stride(canvas.width) + stride(canvas.width))
            by (nonlinear_arith);
    } else {
        assert(0 * stride(canvas.width) == 0) by (nonlinear_arith);
    }
}

/// A file is `54 + height * (width * 3 + padding)` bytes long and starts
/// with the header.
pub proof fn lemma_bitmap_len(canvas: Canvas)
    ensures
        bitmap(canvas).len() == 54 + canvas.height * (canvas.width * 3 + padding(canvas.width)),
        bitmap(canvas).subrange(0, 54) == header(canvas.width, canvas.height),
{
    lemma_pixel_array_len(canvas, canvas.height);
    assert(bitmap(canvas).subrange(0, 54) =~= header(canvas.width, canvas.height));
}

/// The pixel `(x, y)` of the canvas stands in the file at
/// `54 + y * stride + 3 * x`, as blue, green, red: the file's first row is
/// the bottom row of the image.
pub proof fn lemma_bitmap_pixel(canvas: Canvas, x: int, y: int)
    requires
        canvas.contains(x, y),
    ensures
        54 + y * stride(canvas.width) + 3 * x + 3 <= bitmap(canvas).len(),
        0 <= y * stride(canvas.width),
        bitmap(canvas).subrange(
            54 + y * stride(canvas.width) + 3 * x,
            54 + y * stride(canvas.width) + 3 * x + 3,
        ) == bgr(canvas.pixel(x, y)),
{
    let st = stride(canvas.width) as int;
    let at = y * st;
    lemma_pixel_array(canvas, canvas.height, y);
    lemma_row_pixels(canvas, y, canvas.width, x);
    let row = file_row(canvas, y);
    let all = pixel_array(canvas, canvas.height);
    assert(row.subrange(3 * x, 3 * x + 3) =~= row_pixels(canvas, y, canvas.width).subrange(
        3 * x,
        3 * x + 3,
    ));
    assert(all.subrange(at + 3 * x, at + 3 * x + 3) =~= all.subrange(at, at + st).subrange(
        3 * x,
        3 * x + 3,
    ));
    assert(bitmap(canvas).subrange(54 + at + 3 * x, 54 + at + 3 * x + 3) =~= all.subrange(
        at + 3 * x,
        at + 3 * x + 3,
    ));
}

/// The padding at the end of each row of the file is zero.
pub proof fn lemma_bitmap_padding(canvas: Canvas, y: int, j: int)
    requires
        0 <= y < canvas.height,
        0 <= j < padding(canvas.width),
    ensures
        54 + y * stride(canvas.width) + 3 * canvas.width + j < bitmap(canvas).len(),
        0 <= y * stride(canvas.width),
        bitmap(canvas)[54 + y * stride(canvas.width) + 3 * canvas.width + j] == 0,
{
    let st = stride(canvas.width) as int;
    let at = y * st;
    let w3 = 3 * canvas.width;
    lemma_pixel_array(canvas, canvas.height, y);
    lemma_row_pixels_len(canvas, y, canvas.width);
    lemma_header_layout(canvas.width, canvas.height);
    let head = header(canvas.width, canvas.height);
    let all = pixel_array(canvas, canvas.height);
    let row = all.subrange(at, at + st);
    assert(row == file_row(canvas, y));
    assert(row[w3 + j] == 0);
    assert(all[at + (w3 + j)] == row[w3 + j]);
    assert((head + all)[54 + (at + w3 + j)] == all[at + w3 + j]);
}

/// The file does not depend on the drawing colour.
pub proof fn lemma_bitmap_ignores_color(canvas: Canvas, c: Rgb)
    ensures
        bitmap(canvas.with_color(c)) == bitmap(canvas),
{
    lemma_pixel_array_ignores_color(canvas, c, canvas.height);
}

proof fn lemma_pixel_array_ignores_color(canvas: Canvas, c: Rgb, k: nat)
    ensures
        pixel_array(canvas.with_color(c), k) == pixel_array(canvas, k),
    decreases k,
{
    if k > 0 {
        lemma_pixel_array_ignores_color(canvas, c, (k - 1) as nat);
        lemma_row_pixels_ignores_color(canvas, c, k - 1, canvas.width);
    }
}

proof fn lemma_row_pixels_ignores_color(canvas: Canvas, c: Rgb, y: int, k: nat)
    ensures
        row_pixels(canvas.with_color(c), y, k) == row_pixels(canvas, y, k),
    decreases k,
{
    if k > 0 {
        lemma_row_pixels_ignores_color(canvas, c, y, (k - 1) as nat);
    }
}

/// Appends the low 16 bits of `v`, least significant byte first.
fn put_le16(out: &mut Vec<u8>, v: u128)
    ensures
        final(out)@ == old(out)@ + le16(v as nat),
{
    out.push((v % 0x100) as u8);
    out.push((v / 0x100 % 0x100) as u8);
    assert(out@ =~= old(out)@ + le16(v as nat));
}

/// Appends the low 32 bits of `v`, least significant byte first.
fn put_le32(out: &mut Vec<u8>, v: u128)
    ensures
        final(out)@ == old(out)@ + le32(v as nat),
{
    out.push((v % 0x100) as u8);
    out.push((v / 0x100 % 0x100) as u8);
    out.push((v / 0x1_0000 % 0x100) as u8);
    out.push((v / 0x100_0000 % 0x100) as u8);
    assert(out@ =~= old(out)@ + le32(v as nat));
}

/// The file header of a `width` by `height` image.
fn encode_header(width: usize, height: usize) -> (out: Vec<u8>)
    requires
        width * height * 3 <= usize::MAX,
    ensures
        out@ == header(width as nat, height as nat),
{
    assert(width * height <= width * height * 3) by (nonlinear_arith);
    let pixel_data_size: u128 = (width * height * 3) as u128;
    let file_size: u128 = HEADER_SIZE as u128 + pixel_data_size;
    let mut out: Vec<u8> = Vec::new();
    out.push(0x42);
    out.push(0x4D);
    assert(out@ =~= seq![0x42u8, 0x4Du8]);
    put_le32(&mut out, file_size);
    put_le32(&mut out, 0);
    put_le32(&mut out, 54);
    put_le32(&mut out, 40);
    put_le32(&mut out, width as u128);
    put_le32(&mut out, height as u128);
    put_le16(&mut out, 1);
    put_le16(&mut out, 24);
    put_le32(&mut out, 0);
    put_le32(&mut out, pixel_data_size);
    put_le32(&mut out, 2835);
    put_le32(&mut out, 2835);
    put_le32(&mut out, 0);
    put_le32(&mut out, 0);
    out
}

/// Appends the row `y` of the image, counted from the bottom, as the file
/// stores it.
fn put_row(out: &mut Vec<u8>, data: &[u8], width: usize, height: usize, y: usize)
    requires
        data@.len() >= width * height * 3,
        width * height * 3 <= usize::MAX,
        y < height,
    ensures
        final(out)@ == old(out)@ + file_row(
            Canvas::of_bytes(data@, width as nat, height as nat),
            y as int,
        ),
{
    let ghost canvas = Canvas::of_bytes(data@, width as nat, height as nat);
    let row: usize = height - 1 - y;
    let mut x: usize = 0;
    assert(out@ =~= old(out)@ + row_pixels(canvas, y as int, 0));
    while x < width
        invariant
            canvas == Canvas::of_bytes(data@, width as nat, height as nat),
            data@.len() >= width * height * 3,
            width * height * 3 <= usize::MAX,
            row == height - 1 - y,
            y < height,
            x <= width,
            out@ == old(out)@ + row_pixels(canvas, y as int, x as nat),
        decreases width - x,
    {
        proof {
            lemma_cell_fits(width as int, height as int, x as int, row as int);
        }
        let index: usize = (row * width + x) * 3;
        let ghost before = out@;
        out.push(data[index + 2]);
        out.push(data[index + 1]);
        out.push(data[index]);
        proof {
            assert(canvas.pixel(x as int, y as int) == (
                data@[index as int],
                data@[index + 1],
                data@[index + 2],
            ));
            assert(out@ =~= before + bgr(canvas.pixel(x as int, y as int)));
            assert(before + bgr(canvas.pixel(x as int, y as int)) =~= old(out)@ + row_pixels(
                canvas,
                y as int,
                (x + 1) as nat,
            ));
        }
        x += 1;
    }
    assert(width * 3 <= width * height * 3) by (nonlinear_arith)
        requires
            height >= 1,
    ;
    let padding_size: usize = (4 - (width * 3) % 4) % 4;
    let ghost pixels = out@;
    let mut p: usize = 0;
    assert(out@ =~= pixels + Seq::new(0, |i: int| 0u8));
    while p < padding_size
        invariant
            p <= padding_size,
            out@ == pixels + Seq::new(p as nat, |i: int| 0u8),
        decreases padding_size - p,
    {
        out.push(0);
        p += 1;
        assert(out@ =~= pixels + Seq::new(p as nat, |i: int| 0u8));
    }
    assert(out@ =~= old(out)@ + file_row(canvas, y as int));
}

/// Encodes pixels as a bitmap file. `data` holds the rows of a `width` by
/// `height` image from the top down, three bytes per pixel, red first; bytes
/// beyond the last pixel are ignored.
pub fn encode(data: &[u8], width: usize, height: usize) -> (out: Vec<u8>)
    requires
        data@.len() >= width * height * 3,
    ensures
        out@ == bitmap(Canvas::of_bytes(data@, width as nat, height as nat)),
{
    let ghost canvas = Canvas::of_bytes(data@, width as nat, height as nat);
    let size: usize = data.len();
    let mut out = encode_header(width, height);
    let mut y: usize = 0;
    assert(out@ =~= header(width as nat, height as nat) + pixel_array(canvas, 0));
    while y < height
        invariant
            canvas == Canvas::of_bytes(data@, width as nat, height as nat),
            data@.len() >= width * height * 3,
            width * height * 3 <= usize::MAX,
            y <= height,
            out@ == header(width as nat, height as nat) + pixel_array(canvas, y as nat),
        decreases height - y,
    {
        let ghost before = out@;
        put_row(&mut out, data, width, height, y);
        assert(before + file_row(canvas, y as int) =~= header(width as nat, height as nat)
            + pixel_array(canvas, (y + 1) as nat));
        y += 1;
    }
    out
}

} // verus!
