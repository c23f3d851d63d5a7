use dibujar_poligono::framebuffer::Framebuffer;
use dibujar_poligono::geometry::{Color, Point};
use dibujar_poligono::line::draw_line;

#[test]
fn point_new_holds_coordinates() {
    let p = Point::new(-7, 42);
    assert_eq!(p.x, -7);
    assert_eq!(p.y, 42);
}

#[test]
fn color_new_holds_channels() {
    let c = Color::new(1, 2, 3);
    assert_eq!(c.r, 1);
    assert_eq!(c.g, 2);
    assert_eq!(c.b, 3);
}

#[test]
fn new_canvas_is_black_and_bounded() {
    let fb = Framebuffer::new(4, 3);
    assert_eq!(fb.width(), 4);
    assert_eq!(fb.height(), 3);
    for y in 0..3 {
        for x in 0..4 {
            assert_eq!(fb.get_pixel(x, y), Some(Color::new(0, 0, 0)));
        }
    }
    assert_eq!(fb.get_pixel(-1, 0), None);
    assert_eq!(fb.get_pixel(0, -1), None);
    assert_eq!(fb.get_pixel(4, 0), None);
    assert_eq!(fb.get_pixel(0, 3), None);
}

#[test]
fn set_pixel_out_of_bounds_is_noop() {
    let mut fb = Framebuffer::new(5, 5);
    let red = Color::new(255, 0, 0);
    fb.set_pixel(-1, 2, red);
    fb.set_pixel(2, -1, red);
    fb.set_pixel(5, 2, red);
    fb.set_pixel(2, 5, red);
    for y in 0..5 {
        for x in 0..5 {
            assert_eq!(fb.get_pixel(x, y), Some(Color::new(0, 0, 0)));
        }
    }
    fb.set_pixel(3, 4, red);
    assert_eq!(fb.get_pixel(3, 4), Some(red));
}

#[test]
fn diagonal_line_paints_exact_pixels() {
    let mut fb = Framebuffer::new(8, 8);
    let red = Color::new(255, 0, 0);
    draw_line(&mut fb, Point::new(0, 0), Point::new(5, 5), red);
    for y in 0..8 {
        for x in 0..8 {
            let expected = if x == y && x <= 5 { red } else { Color::new(0, 0, 0) };
            assert_eq!(fb.get_pixel(x, y), Some(expected));
        }
    }
}

#[test]
fn diagonal_line_endpoint_swap_paints_same_pixels() {
    let mut forward = Framebuffer::new(8, 8);
    let mut backward = Framebuffer::new(8, 8);
    let red = Color::new(255, 0, 0);
    draw_line(&mut forward, Point::new(0, 0), Point::new(5, 5), red);
    draw_line(&mut backward, Point::new(5, 5), Point::new(0, 0), red);
    for y in 0..8 {
        for x in 0..8 {
            assert_eq!(forward.get_pixel(x, y), backward.get_pixel(x, y));
        }
    }
}

#[test]
fn line_outside_canvas_is_noop() {
    let mut fb = Framebuffer::new(10, 10);
    draw_line(
        &mut fb,
        Point::new(-5, -3),
        Point::new(-1, -7),
        Color::new(255, 0, 0),
    );
    for y in 0..10 {
        for x in 0..10 {
            assert_eq!(fb.get_pixel(x, y), Some(Color::new(0, 0, 0)));
        }
    }
}

#[test]
fn degenerate_line_paints_single_pixel() {
    let mut fb = Framebuffer::new(6, 6);
    let green = Color::new(0, 255, 0);
    draw_line(&mut fb, Point::new(2, 3), Point::new(2, 3), green);
    for y in 0..6 {
        for x in 0..6 {
            let expected = if x == 2 && y == 3 { green } else { Color::new(0, 0, 0) };
            assert_eq!(fb.get_pixel(x, y), Some(expected));
        }
    }
}

#[test]
fn horizontal_and_vertical_lines_paint_exact_segments() {
    let mut fb = Framebuffer::new(8, 8);
    let blue = Color::new(0, 0, 255);
    let green = Color::new(0, 255, 0);
    draw_line(&mut fb, Point::new(1, 2), Point::new(6, 2), blue);
    draw_line(&mut fb, Point::new(4, 3), Point::new(4, 7), green);
    for y in 0..8 {
        for x in 0..8 {
            let expected = if y == 2 && (1..=6).contains(&x) {
                blue
            } else if x == 4 && (3..=7).contains(&y) {
                green
            } else {
                Color::new(0, 0, 0)
            };
            assert_eq!(fb.get_pixel(x, y), Some(expected));
        }
    }
}

#[test]
fn shallow_line_endpoint_swap_paints_same_pixels() {
    let mut forward = Framebuffer::new(8, 8);
    let mut backward = Framebuffer::new(8, 8);
    let red = Color::new(255, 0, 0);
    draw_line(&mut forward, Point::new(0, 0), Point::new(5, 2), red);
    draw_line(&mut backward, Point::new(5, 2), Point::new(0, 0), red);
    for y in 0..8 {
        for x in 0..8 {
            assert_eq!(forward.get_pixel(x, y), backward.get_pixel(x, y));
        }
    }
}
