use scanline::framebuffer::Framebuffer;

#[test]
fn test_framebuffer_creation() {
    let fb = Framebuffer::new(10, 10);
    assert_eq!(fb.width(), 10);
    assert_eq!(fb.height(), 10);
    assert_eq!(fb.data().len(), 300); // 10 * 10 * 3
}

#[test]
fn test_set_get_pixel() {
    let mut fb = Framebuffer::new(10, 10);
    fb.set_pixel(5, 5, 255, 0, 0);
    let pixel = fb.get_pixel(5, 5);
    assert_eq!(pixel, Some((255, 0, 0)));

    let out_of_bounds_pixel = fb.get_pixel(15, 15);
    assert_eq!(out_of_bounds_pixel, None);
}

#[test]
fn test_color() {
    let mut fb = Framebuffer::new(10, 10);
    fb.set_current_color(0xffee00);
    assert_eq!(fb.current_color(), (255, 238, 0));
}

#[test]
fn test_clear() {
    let mut fb = Framebuffer::new(10, 10);
    fb.set_background_color(0xFF0000);
    fb.clear();
    assert_eq!(fb.get_pixel(0, 0), Some((0, 0, 0)));
    assert_eq!(fb.get_pixel(9, 9), Some((0, 0, 0)));
}

#[test]
fn test_set_background_color() {
    let mut fb = Framebuffer::new(10, 10);
    fb.set_background_color(0xFF0000);
    assert_eq!(fb.get_pixel(0, 0), Some((255, 0, 0)));
    assert_eq!(fb.get_pixel(9, 9), Some((255, 0, 0)));
}

#[test]
fn new_buffer_is_black_with_black_paint() {
    let fb = Framebuffer::new(3, 2);
    assert_eq!(fb.data(), &[0u8; 18][..]);
    assert_eq!(fb.current_color(), (0, 0, 0));
    for y in 0..2 {
        for x in 0..3 {
            assert_eq!(fb.get_pixel(x, y), Some((0, 0, 0)));
        }
    }
}

#[test]
fn empty_buffer_has_no_pixels() {
    let mut fb = Framebuffer::new(0, 7);
    assert_eq!(fb.data().len(), 0);
    assert_eq!(fb.get_pixel(0, 0), None);
    fb.set_pixel(0, 0, 1, 2, 3);
    fb.set_background_color(0x010203);
    fb.clear();
    assert_eq!(fb.data().len(), 0);
}

#[test]
fn hex_to_rgb_splits_the_low_three_bytes() {
    assert_eq!(Framebuffer::hex_to_rgb(0xffee00), (255, 238, 0));
    assert_eq!(Framebuffer::hex_to_rgb(0x000000), (0, 0, 0));
    assert_eq!(Framebuffer::hex_to_rgb(0x0000ff), (0, 0, 255));
    assert_eq!(Framebuffer::hex_to_rgb(0x00ff00), (0, 255, 0));
    assert_eq!(Framebuffer::hex_to_rgb(0xe8dbcf), (232, 219, 207));
    assert_eq!(Framebuffer::hex_to_rgb(0x12345678), (0x34, 0x56, 0x78));
    assert_eq!(Framebuffer::hex_to_rgb(0xffffffff), (255, 255, 255));
}

#[test]
fn set_then_get_round_trips_in_every_cell() {
    let mut fb = Framebuffer::new(4, 3);
    for y in 0..3usize {
        for x in 0..4usize {
            let c = ((x * 10) as u8, (y * 20) as u8, (x + y) as u8 + 1);
            fb.set_pixel(x, y, c.0, c.1, c.2);
            assert_eq!(fb.get_pixel(x as isize, y as isize), Some(c));
        }
    }
    for y in 0..3usize {
        for x in 0..4usize {
            let c = ((x * 10) as u8, (y * 20) as u8, (x + y) as u8 + 1);
            assert_eq!(fb.get_pixel(x as isize, y as isize), Some(c));
        }
    }
}

#[test]
fn rows_are_stored_from_the_top_down() {
    let mut fb = Framebuffer::new(3, 2);
    fb.set_pixel(1, 0, 10, 20, 30);
    let mut expected = [0u8; 18];
    expected[12] = 10;
    expected[13] = 20;
    expected[14] = 30;
    assert_eq!(fb.data(), &expected[..]);

    fb.set_pixel(2, 1, 1, 2, 3);
    expected[6] = 1;
    expected[7] = 2;
    expected[8] = 3;
    assert_eq!(fb.data(), &expected[..]);
}

#[test]
fn get_pixel_outside_is_none() {
    let fb = Framebuffer::new(4, 3);
    assert_eq!(fb.get_pixel(-1, 0), None);
    assert_eq!(fb.get_pixel(0, -1), None);
    assert_eq!(fb.get_pixel(4, 0), None);
    assert_eq!(fb.get_pixel(0, 3), None);
    assert_eq!(fb.get_pixel(isize::MIN, isize::MIN), None);
    assert_eq!(fb.get_pixel(isize::MAX, isize::MAX), None);
    assert_eq!(fb.get_pixel(3, 2), Some((0, 0, 0)));
}

#[test]
fn writes_outside_leave_the_buffer_unchanged() {
    let mut fb = Framebuffer::new(4, 3);
    fb.set_background_color(0x102030);
    fb.set_current_color(0xffffff);
    let before = fb.data().to_vec();
    fb.set_pixel(4, 0, 9, 9, 9);
    fb.set_pixel(0, 3, 9, 9, 9);
    fb.set_pixel(usize::MAX, usize::MAX, 9, 9, 9);
    fb.point(-1, 0);
    fb.point(0, -1);
    fb.point(4, 2);
    fb.point(3, 3);
    fb.point(isize::MIN, 1);
    fb.point(1, isize::MAX);
    assert_eq!(fb.data(), &before[..]);
    assert_eq!(fb.current_color(), (255, 255, 255));
}

#[test]
fn point_paints_with_the_current_color() {
    let mut fb = Framebuffer::new(4, 3);
    fb.set_current_color(0x0a0b0c);
    fb.point(2, 1);
    assert_eq!(fb.get_pixel(2, 1), Some((10, 11, 12)));
    assert_eq!(fb.get_pixel(1, 2), Some((0, 0, 0)));
    fb.set_current_color(0x010203);
    assert_eq!(fb.get_pixel(2, 1), Some((10, 11, 12)));
    fb.point(2, 1);
    assert_eq!(fb.get_pixel(2, 1), Some((1, 2, 3)));
}

#[test]
fn set_current_color_changes_no_pixel() {
    let mut fb = Framebuffer::new(4, 3);
    fb.set_background_color(0x445566);
    let before = fb.data().to_vec();
    fb.set_current_color(0xffee00);
    assert_eq!(fb.data(), &before[..]);
}

#[test]
fn background_reaches_every_corner() {
    let (w, h) = (7isize, 5isize);
    let mut fb = Framebuffer::new(7, 5);
    fb.set_pixel(3, 3, 1, 1, 1);
    fb.set_background_color(0xe8dbcf);
    let c = Some((232, 219, 207));
    assert_eq!(fb.get_pixel(0, 0), c);
    assert_eq!(fb.get_pixel(w - 1, 0), c);
    assert_eq!(fb.get_pixel(0, h - 1), c);
    assert_eq!(fb.get_pixel(w - 1, h - 1), c);
    assert_eq!(fb.get_pixel(3, 3), c);
    assert_eq!(fb.current_color(), (0, 0, 0));
}

#[test]
fn clear_blackens_whatever_came_before() {
    let mut fb = Framebuffer::new(5, 4);
    fb.set_background_color(0xffffff);
    fb.set_pixel(2, 2, 7, 8, 9);
    fb.set_current_color(0x123456);
    fb.clear();
    for y in 0..4 {
        for x in 0..5 {
            assert_eq!(fb.get_pixel(x, y), Some((0, 0, 0)));
        }
    }
    assert_eq!(fb.current_color(), (0x12, 0x34, 0x56));
}

#[test]
fn text_lists_rows_from_the_top() {
    let mut fb = Framebuffer::new(2, 2);
    fb.set_pixel(0, 0, 255, 0, 7);
    fb.set_pixel(1, 1, 100, 99, 10);
    assert_eq!(
        fb.to_text(),
        "(0, 0, 0) (100, 99, 10) \n(255, 0, 7) (0, 0, 0) \n"
    );
}

#[test]
fn text_writes_each_byte_in_decimal() {
    let mut fb = Framebuffer::new(1, 1);
    for v in 0..=255u8 {
        fb.set_pixel(0, 0, v, 255 - v, v / 2);
        assert_eq!(
            fb.to_text(),
            format!("({}, {}, {}) \n", v, 255 - v, v / 2)
        );
    }
}

#[test]
fn text_of_a_buffer_without_columns_is_one_line_feed_per_row() {
    assert_eq!(Framebuffer::new(0, 3).to_text(), "\n\n\n");
    assert_eq!(Framebuffer::new(3, 0).to_text(), "");
}
