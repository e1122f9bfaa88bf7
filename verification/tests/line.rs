use scanline::framebuffer::Framebuffer;
use scanline::line::{draw_line, Point};

fn painted(fb: &Framebuffer) -> Vec<(isize, isize)> {
    let mut cells = Vec::new();
    for y in 0..fb.height() as isize {
        for x in 0..fb.width() as isize {
            if fb.get_pixel(x, y) != Some((0, 0, 0)) {
                cells.push((x, y));
            }
        }
    }
    cells
}

fn canvas(w: usize, h: usize) -> Framebuffer {
    let mut fb = Framebuffer::new(w, h);
    fb.set_current_color(0xffffff);
    fb
}

#[test]
fn line_of_one_point() {
    let mut fb = canvas(5, 5);
    draw_line(&mut fb, Point { x: 2, y: 3 }, Point { x: 2, y: 3 });
    assert_eq!(painted(&fb), vec![(2, 3)]);
}

#[test]
fn horizontal_line_covers_both_ends() {
    let mut fb = canvas(6, 4);
    draw_line(&mut fb, Point { x: 1, y: 1 }, Point { x: 4, y: 1 });
    assert_eq!(painted(&fb), vec![(1, 1), (2, 1), (3, 1), (4, 1)]);

    let mut back = canvas(6, 4);
    draw_line(&mut back, Point { x: 4, y: 1 }, Point { x: 1, y: 1 });
    assert_eq!(painted(&back), vec![(1, 1), (2, 1), (3, 1), (4, 1)]);
}

#[test]
fn vertical_line_covers_both_ends() {
    let mut fb = canvas(4, 6);
    draw_line(&mut fb, Point { x: 2, y: 4 }, Point { x: 2, y: 1 });
    assert_eq!(painted(&fb), vec![(2, 1), (2, 2), (2, 3), (2, 4)]);
}

#[test]
fn diagonal_line_steps_both_ways() {
    let mut fb = canvas(5, 5);
    draw_line(&mut fb, Point { x: 0, y: 3 }, Point { x: 3, y: 0 });
    assert_eq!(painted(&fb), vec![(3, 0), (2, 1), (1, 2), (0, 3)]);
}

#[test]
fn shallow_line_rounds_ties_away_from_its_start() {
    let mut fb = canvas(6, 4);
    draw_line(&mut fb, Point { x: 0, y: 0 }, Point { x: 4, y: 2 });
    assert_eq!(painted(&fb), vec![(0, 0), (1, 1), (2, 1), (3, 2), (4, 2)]);

    let mut back = canvas(6, 4);
    draw_line(&mut back, Point { x: 4, y: 2 }, Point { x: 0, y: 0 });
    assert_eq!(painted(&back), vec![(0, 0), (1, 0), (2, 1), (3, 1), (4, 2)]);
}

#[test]
fn steep_line_has_one_cell_per_row() {
    let mut fb = canvas(4, 8);
    draw_line(&mut fb, Point { x: 1, y: 0 }, Point { x: 3, y: 6 });
    assert_eq!(
        painted(&fb),
        vec![(1, 0), (1, 1), (2, 2), (2, 3), (2, 4), (3, 5), (3, 6)]
    );
}

#[test]
fn line_is_clipped_to_the_buffer() {
    let mut fb = canvas(3, 3);
    draw_line(&mut fb, Point { x: -2, y: 1 }, Point { x: 5, y: 1 });
    assert_eq!(painted(&fb), vec![(0, 1), (1, 1), (2, 1)]);

    let mut outside = canvas(3, 3);
    draw_line(&mut outside, Point { x: -5, y: -5 }, Point { x: -1, y: -2 });
    assert_eq!(painted(&outside), vec![]);
}

#[test]
fn line_uses_the_current_color_and_keeps_it() {
    let mut fb = Framebuffer::new(4, 2);
    fb.set_background_color(0x111111);
    fb.set_current_color(0x204060);
    draw_line(&mut fb, Point { x: 0, y: 0 }, Point { x: 1, y: 1 });
    assert_eq!(fb.get_pixel(0, 0), Some((0x20, 0x40, 0x60)));
    assert_eq!(fb.get_pixel(1, 1), Some((0x20, 0x40, 0x60)));
    assert_eq!(fb.get_pixel(1, 0), Some((0x11, 0x11, 0x11)));
    assert_eq!(fb.current_color(), (0x20, 0x40, 0x60));
}

#[test]
fn line_far_from_the_origin_is_walked_without_overflow() {
    let mut fb = canvas(2, 2);
    draw_line(
        &mut fb,
        Point { x: i32::MAX - 3, y: i32::MIN },
        Point { x: i32::MAX, y: i32::MIN + 2 },
    );
    assert_eq!(painted(&fb), vec![]);
}
