use dibujar_poligono::fill::{
    collect_crossings, fill_polygon, fill_polygon_interior, fill_polygon_with_holes,
};
use dibujar_poligono::framebuffer::Framebuffer;
use dibujar_poligono::geometry::{Color, Point};

#[test]
fn triangle_fill_matches_independent_intersections() {
    let mut fb = Framebuffer::new(16, 16);
    let red = Color::new(255, 0, 0);
    let triangle = vec![Point::new(2, 2), Point::new(12, 2), Point::new(2, 12)];
    fill_polygon_interior(&mut fb, &triangle, red);
    // Per row y the crossings are x = 2 (left vertical edge) and
    // x = 12 - (y - 2) (hypotenuse), so the shrunk span is 3 ..= 13 - y.
    for y in 0..16 {
        for x in 0..16 {
            let inside = (2..12).contains(&y) && x >= 3 && x <= 13 - y;
            let expected = if inside { red } else { Color::new(0, 0, 0) };
            assert_eq!(fb.get_pixel(x, y), Some(expected), "pixel ({x}, {y})");
        }
    }
}

#[test]
fn rectangle_fills_interior_minus_margin() {
    let mut fb = Framebuffer::new(16, 16);
    let blue = Color::new(0, 0, 255);
    let rect = vec![
        Point::new(3, 4),
        Point::new(9, 4),
        Point::new(9, 8),
        Point::new(3, 8),
    ];
    fill_polygon_interior(&mut fb, &rect, blue);
    // Horizontal edges contribute no crossings: rows 4 ..= 7 fill, each with
    // the one-pixel margin on the shrunk bounds 4 ..= 8.
    for y in 0..16 {
        for x in 0..16 {
            let inside = (4..8).contains(&y) && (4..=8).contains(&x);
            let expected = if inside { blue } else { Color::new(0, 0, 0) };
            assert_eq!(fb.get_pixel(x, y), Some(expected), "pixel ({x}, {y})");
        }
    }
}

#[test]
fn crossings_have_exact_truncated_values() {
    let triangle = vec![Point::new(0, 0), Point::new(3, 2), Point::new(0, 4)];
    let xs = collect_crossings(&triangle, 1);
    // Edge (0,0)-(3,2) meets row 1 at x = 0 + (1 * 3) / 2 = 1 (truncated);
    // edge (0,4)-(0,0) meets it at x = 0.
    assert_eq!(xs, vec![1, 0]);
}

#[test]
fn crossings_truncate_toward_zero_for_negative_values() {
    let triangle = vec![Point::new(0, 0), Point::new(-3, 2), Point::new(0, 4)];
    let xs = collect_crossings(&triangle, 1);
    // Edge (0,0)-(-3,2) meets row 1 at x = (1 * -3) / 2 = -1, truncating
    // toward zero, not -2 as floor division would give.
    assert_eq!(xs, vec![-1, 0]);
}

#[test]
fn pentagon_vertex_on_scanline_counts_even() {
    // The vertex (5, 10) lies exactly on the scanned row y = 10; the
    // half-open rule attributes it to exactly one adjacent edge.
    let pentagon = vec![
        Point::new(5, 10),
        Point::new(8, 6),
        Point::new(12, 10),
        Point::new(10, 14),
        Point::new(6, 14),
    ];
    let xs = collect_crossings(&pentagon, 10);
    assert_eq!(xs.len() % 2, 0);
    assert_eq!(xs, vec![12, 5]);
}

#[test]
fn fill_polygon_draws_outline_on_top() {
    let mut fb = Framebuffer::new(16, 16);
    let blue = Color::new(0, 0, 255);
    let green = Color::new(0, 255, 0);
    let rect = vec![
        Point::new(3, 4),
        Point::new(9, 4),
        Point::new(9, 8),
        Point::new(3, 8),
    ];
    fill_polygon(&mut fb, &rect, blue, green);
    for y in 0..16 {
        for x in 0..16 {
            let on_outline = ((x == 3 || x == 9) && (4..=8).contains(&y))
                || ((y == 4 || y == 8) && (3..=9).contains(&x));
            let inside = (5..8).contains(&y) && (4..=8).contains(&x);
            let expected = if on_outline {
                green
            } else if inside {
                blue
            } else {
                Color::new(0, 0, 0)
            };
            assert_eq!(fb.get_pixel(x, y), Some(expected), "pixel ({x}, {y})");
        }
    }
}

#[test]
fn fill_polygon_under_three_vertices_is_noop() {
    let mut fb = Framebuffer::new(8, 8);
    let red = Color::new(255, 0, 0);
    let segment = vec![Point::new(1, 1), Point::new(6, 6)];
    fill_polygon(&mut fb, &segment, red, red);
    for y in 0..8 {
        for x in 0..8 {
            assert_eq!(fb.get_pixel(x, y), Some(Color::new(0, 0, 0)));
        }
    }
}

#[test]
fn fill_polygon_twice_equals_once() {
    let mut once = Framebuffer::new(20, 20);
    let mut twice = Framebuffer::new(20, 20);
    let red = Color::new(255, 0, 0);
    let black = Color::new(10, 20, 30);
    let polygon = vec![
        Point::new(2, 2),
        Point::new(17, 5),
        Point::new(12, 16),
        Point::new(4, 11),
    ];
    fill_polygon(&mut once, &polygon, red, black);
    fill_polygon(&mut twice, &polygon, red, black);
    fill_polygon(&mut twice, &polygon, red, black);
    for y in 0..20 {
        for x in 0..20 {
            assert_eq!(once.get_pixel(x, y), twice.get_pixel(x, y), "pixel ({x}, {y})");
        }
    }
}

#[test]
fn square_with_hole_layers_fills_and_outlines() {
    let mut fb = Framebuffer::new(16, 16);
    let red = Color::new(255, 0, 0);
    let blue = Color::new(0, 0, 255);
    let green = Color::new(0, 255, 0);
    let outer = vec![
        Point::new(2, 2),
        Point::new(12, 2),
        Point::new(12, 12),
        Point::new(2, 12),
    ];
    let hole = vec![
        Point::new(5, 5),
        Point::new(9, 5),
        Point::new(9, 9),
        Point::new(5, 9),
    ];
    fill_polygon_with_holes(&mut fb, &outer, &vec![hole], red, blue, green);
    for y in 0..16 {
        for x in 0..16 {
            let on_outer_outline = ((x == 2 || x == 12) && (2..=12).contains(&y))
                || ((y == 2 || y == 12) && (2..=12).contains(&x));
            let on_hole_outline = ((x == 5 || x == 9) && (5..=9).contains(&y))
                || ((y == 5 || y == 9) && (5..=9).contains(&x));
            let in_hole = (6..=8).contains(&x) && (6..=8).contains(&y);
            let in_outer = (3..=11).contains(&x) && (3..=11).contains(&y);
            let expected = if on_outer_outline || on_hole_outline {
                green
            } else if in_hole {
                blue
            } else if in_outer {
                red
            } else {
                Color::new(0, 0, 0)
            };
            assert_eq!(fb.get_pixel(x, y), Some(expected), "pixel ({x}, {y})");
        }
    }
}

#[test]
fn hole_outside_fill_rows_keeps_outer_color() {
    // A degenerate hole with fewer than three vertices changes no fill, but
    // its outline is still drawn, matching the layering contract.
    let mut fb = Framebuffer::new(16, 16);
    let red = Color::new(255, 0, 0);
    let blue = Color::new(0, 0, 255);
    let green = Color::new(0, 255, 0);
    let outer = vec![
        Point::new(2, 2),
        Point::new(12, 2),
        Point::new(12, 12),
        Point::new(2, 12),
    ];
    let hole = vec![Point::new(5, 6), Point::new(8, 6)];
    fill_polygon_with_holes(&mut fb, &outer, &vec![hole], red, blue, green);
    for y in 0..16 {
        for x in 0..16 {
            let on_outer_outline = ((x == 2 || x == 12) && (2..=12).contains(&y))
                || ((y == 2 || y == 12) && (2..=12).contains(&x));
            let on_hole_outline = y == 6 && (5..=8).contains(&x);
            let in_outer = (3..=11).contains(&x) && (3..=11).contains(&y);
            let expected = if on_outer_outline || on_hole_outline {
                green
            } else if in_outer {
                red
            } else {
                Color::new(0, 0, 0)
            };
            assert_eq!(fb.get_pixel(x, y), Some(expected), "pixel ({x}, {y})");
        }
    }
}

#[test]
fn self_intersecting_polygon_fills_even_odd() {
    // An hourglass: the two diagonals cross at (5, 5); each row keeps the
    // even-odd pairing of its two crossings, and the pinch row collapses.
    let mut fb = Framebuffer::new(12, 12);
    let red = Color::new(255, 0, 0);
    let hourglass = vec![
        Point::new(0, 0),
        Point::new(10, 0),
        Point::new(0, 10),
        Point::new(10, 10),
    ];
    fill_polygon_interior(&mut fb, &hourglass, red);
    for y in 0..12 {
        for x in 0..12 {
            let inside = if (0..10).contains(&y) {
                let a = y.min(10 - y);
                let b = y.max(10 - y);
                x >= a + 1 && x <= b - 1
            } else {
                false
            };
            let expected = if inside { red } else { Color::new(0, 0, 0) };
            assert_eq!(fb.get_pixel(x, y), Some(expected), "pixel ({x}, {y})");
        }
    }
}
