use scanline::bmp::encode;
use scanline::framebuffer::Framebuffer;

fn header_of_3_by_2() -> Vec<u8> {
    vec![
        0x42, 0x4D, // "BM"
        72, 0, 0, 0, // 54 + 3 * 2 * 3
        0, 0, 0, 0, // reserved
        54, 0, 0, 0, // offset of the pixel array
        40, 0, 0, 0, // size of the info header
        3, 0, 0, 0, // width
        2, 0, 0, 0, // height
        1, 0, // planes
        24, 0, // bits per pixel
        0, 0, 0, 0, // compression
        18, 0, 0, 0, // 3 * 2 * 3
        0x13, 0x0B, 0, 0, // 2835
        0x13, 0x0B, 0, 0, // 2835
        0, 0, 0, 0, // palette
        0, 0, 0, 0, // important colours
    ]
}

#[test]
fn header_is_laid_out_field_by_field() {
    let fb = Framebuffer::new(3, 2);
    let file = fb.render_buffer();
    assert_eq!(&file[..54], &header_of_3_by_2()[..]);
}

#[test]
fn file_length_counts_the_padding() {
    let sizes = [(1usize, 1usize, 1usize), (2, 3, 2), (3, 2, 3), (4, 5, 0), (5, 1, 1), (800, 2, 0)];
    for (w, h, pad) in sizes {
        let fb = Framebuffer::new(w, h);
        let file = fb.render_buffer();
        assert_eq!(pad, (4 - (w * 3) % 4) % 4);
        assert_eq!(file.len(), 54 + h * (w * 3 + pad));
        assert_eq!(&file[0..2], b"BM");
        assert_eq!(&file[2..6], &((54 + w * h * 3) as u32).to_le_bytes());
        assert_eq!(&file[18..22], &(w as u32).to_le_bytes());
        assert_eq!(&file[22..26], &(h as u32).to_le_bytes());
        assert_eq!(&file[34..38], &((w * h * 3) as u32).to_le_bytes());
    }
}

#[test]
fn first_row_of_the_file_is_the_bottom_row_in_bgr() {
    let mut fb = Framebuffer::new(3, 2);
    fb.set_pixel(1, 0, 10, 20, 30);
    let file = fb.render_buffer();
    assert_eq!(file.len(), 78);
    let mut pixels = vec![0u8; 24];
    pixels[3] = 30;
    pixels[4] = 20;
    pixels[5] = 10;
    assert_eq!(&file[54..], &pixels[..]);
}

#[test]
fn every_pixel_lands_at_its_row_and_column() {
    let (w, h) = (3usize, 2usize);
    let mut fb = Framebuffer::new(w, h);
    for y in 0..h {
        for x in 0..w {
            let n = (y * w + x) as u8;
            fb.set_pixel(x, y, 100 + n, 50 + n, n);
        }
    }
    let file = fb.render_buffer();
    let expected: Vec<u8> = vec![
        0, 50, 100, 1, 51, 101, 2, 52, 102, 0, 0, 0, // y = 0
        3, 53, 103, 4, 54, 104, 5, 55, 105, 0, 0, 0, // y = 1
    ];
    assert_eq!(&file[..54], &header_of_3_by_2()[..]);
    assert_eq!(&file[54..], &expected[..]);
}

#[test]
fn encode_reads_rows_from_the_top_and_ignores_extra_bytes() {
    // Two rows of one pixel: the top one red, the bottom one blue.
    let data = [255u8, 0, 0, 0, 0, 255, 77, 77];
    let file = encode(&data, 1, 2);
    assert_eq!(file.len(), 54 + 2 * 4);
    assert_eq!(&file[2..6], &[60, 0, 0, 0]);
    assert_eq!(&file[54..], &[255, 0, 0, 0, 0, 0, 255, 0]);
}

#[test]
fn encode_of_an_empty_image_is_the_header() {
    let file = encode(&[], 0, 0);
    assert_eq!(file.len(), 54);
    assert_eq!(&file[0..2], b"BM");
    assert_eq!(&file[2..6], &[54, 0, 0, 0]);
    assert_eq!(&file[18..26], &[0, 0, 0, 0, 0, 0, 0, 0]);

    let wide = encode(&[], 5, 0);
    assert_eq!(wide.len(), 54);
    assert_eq!(&wide[18..22], &[5, 0, 0, 0]);

    let tall = encode(&[], 0, 3);
    assert_eq!(tall.len(), 54);
    assert_eq!(&tall[22..26], &[3, 0, 0, 0]);
}

#[test]
fn large_sizes_are_written_least_significant_byte_first() {
    let fb = Framebuffer::new(300, 70000 / 300);
    let file = fb.render_buffer();
    let size = 300 * (70000 / 300) * 3;
    assert_eq!(&file[2..6], &((54 + size) as u32).to_le_bytes());
    assert_eq!(&file[18..22], &[0x2C, 0x01, 0, 0]);
    assert_eq!(&file[34..38], &(size as u32).to_le_bytes());
    assert_eq!(file.len(), 54 + size);
}

#[test]
fn drawing_colour_does_not_reach_the_file() {
    let mut a = Framebuffer::new(2, 2);
    let mut b = Framebuffer::new(2, 2);
    a.set_pixel(1, 1, 9, 8, 7);
    b.set_pixel(1, 1, 9, 8, 7);
    b.set_current_color(0xabcdef);
    assert_eq!(a.render_buffer(), b.render_buffer());
}
