use vstd::prelude::*;

use vstd::math::abs;

use crate::framebuffer::Framebuffer;
use crate::geometry::{Color, Point};

verus! {

/// Direction of the x step for a segment from `p1` to `p2`.
pub open spec fn step_x(p1: Point, p2: Point) -> int {
    if p1.x < p2.x {
        1
    } else {
        -1
    }
}

/// Direction of the y step for a segment from `p1` to `p2`.
pub open spec fn step_y(p1: Point, p2: Point) -> int {
    if p1.y < p2.y {
        1
    } else {
        -1
    }
}

/// The pixels visited by the integer decision-variable stepping algorithm,
/// starting at (x0, y0) and aiming for (x1, y1), given the fixed absolute
/// deltas `dx` and `dy`, step signs `sx` and `sy`, and the current error
/// accumulator `err`. `fuel` bounds the number of steps so the recursion is
/// well founded; from a valid starting state the target is reached before the
/// fuel runs out.
pub open spec fn line_points_from(
    x0: int,
    y0: int,
    x1: int,
    y1: int,
    dx: int,
    dy: int,
    sx: int,
    sy: int,
    err: int,
    fuel: nat,
) -> Seq<(int, int)>
    decreases fuel,
{
    if (x0 == x1 && y0 == y1) || fuel == 0 {
        seq![(x0, y0)]
    } else {
        let e2 = 2 * err;
        let xn = if e2 > -dy {
            x0 + sx
        } else {
            x0
        };
        let ex = if e2 > -dy {
            err - dy
        } else {
            err
        };
        let yn = if e2 < dx {
            y0 + sy
        } else {
            y0
        };
        let en = if e2 < dx {
            ex + dx
        } else {
            ex
        };
        seq![(x0, y0)] + line_points_from(xn, yn, x1, y1, dx, dy, sx, sy, en, (fuel - 1) as nat)
    }
}

/// The exact sequence of pixels the line rasterizer visits for the segment
/// from `p1` to `p2`, both endpoints included.
pub open spec fn line_points(p1: Point, p2: Point) -> Seq<(int, int)> {
    let dx = abs(p2.x - p1.x) as int;
    let dy = abs(p2.y - p1.y) as int;
    line_points_from(
        p1.x as int,
        p1.y as int,
        p2.x as int,
        p2.y as int,
        dx,
        dy,
        step_x(p1, p2),
        step_y(p1, p2),
        dx - dy,
        (dx + dy) as nat,
    )
}

/// One step of the error-accumulator recurrence, over the remaining distances
/// `rx` and `ry` rather than coordinates: the step never walks past the
/// target in either axis, always advances in at least one, and keeps the
/// error accumulator equal to `dx - dy + rx * dy - ry * dx`, within fixed
/// numeric bounds.
proof fn lemma_bres_step(dx: int, dy: int, rx: int, ry: int, err: int)
    by (nonlinear_arith)
    requires
        0 <= rx <= dx,
        0 <= ry <= dy,
        dx <= 0x1_0000_0000,
        dy <= 0x1_0000_0000,
        err == dx - dy + rx * dy - ry * dx,
        rx + ry > 0,
    ensures
        -0x2_0000_0000_0000_0000 <= err <= 0x2_0000_0000_0000_0000,
        2 * err > -dy || 2 * err < dx,
        2 * err > -dy ==> rx >= 1,
        2 * err < dx ==> ry >= 1,
        ({
            let rxn = if 2 * err > -dy {
                rx - 1
            } else {
                rx
            };
            let ex = if 2 * err > -dy {
                err - dy
            } else {
                err
            };
            let ryn = if 2 * err < dx {
                ry - 1
            } else {
                ry
            };
            let en = if 2 * err < dx {
                ex + dx
            } else {
                ex
            };
            en == dx - dy + rxn * dy - ryn * dx && 0 <= rxn <= dx && 0 <= ryn <= dy && rxn + ryn
                < rx + ry && -0x2_0000_0000_0000_0000 <= en <= 0x2_0000_0000_0000_0000
        }),
{
}

/// Multiplying by a step sign `s` (1 or -1) negates or keeps a value, and
/// moving one step toward the target shrinks the remaining distance by one.
proof fn lemma_mul_sign(a: int, s: int, r: int)
    by (nonlinear_arith)
    requires
        r == a * s,
        s == 1 || s == -1,
    ensures
        s == 1 ==> r == a,
        s == -1 ==> r == -a,
        (a - s) * s == r - 1,
{
}

/// Paint every pixel on the discrete approximation of the straight segment
/// from `p1` to `p2`, both endpoints included, using exact integer stepping.
/// Pixels off the canvas are skipped; everything else is left unchanged.
pub fn draw_line(fb: &mut Framebuffer, p1: Point, p2: Point, color: Color)
    requires
        old(fb).wf(),
    ensures
        final(fb).wf(),
        final(fb).same_size(*old(fb)),
        forall|i: int, j: int|
            old(fb).in_bounds(i, j) ==> final(fb).pixel(i, j) == (if line_points(
                p1,
                p2,
            ).contains((i, j)) {
                color
            } else {
                old(fb).pixel(i, j)
            }),
{
    let ghost fb0: Framebuffer = *fb;
    let mut x0: i32 = p1.x;
    let mut y0: i32 = p1.y;
    let x1: i32 = p2.x;
    let y1: i32 = p2.y;

    let dx: i64 = if x1 >= x0 {
        x1 as i64 - x0 as i64
    } else {
        x0 as i64 - x1 as i64
    };
    let dy: i64 = if y1 >= y0 {
        y1 as i64 - y0 as i64
    } else {
        y0 as i64 - y1 as i64
    };
    let sx: i32 = if x0 < x1 {
        1
    } else {
        -1
    };
    let sy: i32 = if y0 < y1 {
        1
    } else {
        -1
    };
    let mut err: i128 = dx as i128 - dy as i128;

    let ghost mut painted: Seq<(int, int)> = Seq::empty();
    let ghost mut fuel: nat = (dx + dy) as nat;
    proof {
        lemma_mul_sign(p2.x - p1.x as int, sx as int, (p2.x - p1.x as int) * (sx as int));
        lemma_mul_sign(p2.y - p1.y as int, sy as int, (p2.y - p1.y as int) * (sy as int));
        assert((dx as int) * (dy as int) == (dy as int) * (dx as int)) by (nonlinear_arith);
        assert(Seq::empty() + line_points_from(
            p1.x as int,
            p1.y as int,
            p2.x as int,
            p2.y as int,
            dx as int,
            dy as int,
            sx as int,
            sy as int,
            err as int,
            fuel,
        ) =~= line_points(p1, p2));
    }

    loop
        invariant_except_break
            line_points(p1, p2) == painted + line_points_from(
                x0 as int,
                y0 as int,
                p2.x as int,
                p2.y as int,
                dx as int,
                dy as int,
                sx as int,
                sy as int,
                err as int,
                fuel,
            ),
        invariant
            fb.wf(),
            fb.same_size(fb0),
            x1 == p2.x && y1 == p2.y,
            dx as int == abs(p2.x as int - p1.x as int),
            dy as int == abs(p2.y as int - p1.y as int),
            sx as int == step_x(p1, p2),
            sy as int == step_y(p1, p2),
            0 <= (p2.x - x0 as int) * (sx as int) <= dx as int,
            0 <= (p2.y - y0 as int) * (sy as int) <= dy as int,
            err as int == dx - dy + ((p2.x - x0 as int) * (sx as int)) * dy - ((p2.y
                - y0 as int) * (sy as int)) * dx,
            -0x2_0000_0000_0000_0000 <= err as int <= 0x2_0000_0000_0000_0000,
            fuel >= (p2.x - x0 as int) * (sx as int) + (p2.y - y0 as int) * (sy as int),
            forall|i: int, j: int|
                fb0.in_bounds(i, j) ==> fb.pixel(i, j) == (if painted.contains((i, j)) {
                    color
                } else {
                    fb0.pixel(i, j)
                }),
        ensures
            fb.wf(),
            fb.same_size(fb0),
            forall|i: int, j: int|
                fb0.in_bounds(i, j) ==> fb.pixel(i, j) == (if line_points(p1, p2).contains(
                    (i, j),
                ) {
                    color
                } else {
                    fb0.pixel(i, j)
                }),
        decreases fuel,
    {
        let ghost painted0: Seq<(int, int)> = painted;
        fb.set_pixel(x0, y0, color);
        proof {
            let p = (x0 as int, y0 as int);
            let painted_new = painted + seq![p];
            assert(painted_new[painted.len() as int] == p);
            assert forall|i: int, j: int| fb0.in_bounds(i, j) implies fb.pixel(i, j) == (
            if painted_new.contains((i, j)) {
                color
            } else {
                fb0.pixel(i, j)
            }) by {
                if painted.contains((i, j)) {
                    let k = choose|k: int| 0 <= k < painted.len() && painted[k] == (i, j);
                    assert(painted_new[k] == (i, j));
                    assert(painted_new.contains((i, j)));
                } else if i == x0 as int && j == y0 as int {
                    assert(painted_new.contains((i, j)));
                } else {
                    if painted_new.contains((i, j)) {
                        let k = choose|k: int|
                            0 <= k < painted_new.len() && painted_new[k] == (i, j);
                        if k < painted.len() {
                            assert(painted[k] == (i, j));
                        }
                        assert(false);
                    }
                }
            }
            painted = painted_new;
        }
        if x0 == x1 && y0 == y1 {
            proof {
                assert(line_points_from(
                    x0 as int,
                    y0 as int,
                    p2.x as int,
                    p2.y as int,
                    dx as int,
                    dy as int,
                    sx as int,
                    sy as int,
                    err as int,
                    fuel,
                ) =~= seq![(x0 as int, y0 as int)]);
            }
            break ;
        }
        let ghost xp: int = x0 as int;
        let ghost yp: int = y0 as int;
        let ghost errp: int = err as int;
        let ghost fuelp: nat = fuel;
        let ghost rx: int = (p2.x - x0 as int) * (sx as int);
        let ghost ry: int = (p2.y - y0 as int) * (sy as int);
        proof {
            lemma_mul_sign(p2.x - x0 as int, sx as int, rx);
            lemma_mul_sign(p2.y - y0 as int, sy as int, ry);
            assert(rx + ry > 0);
            lemma_bres_step(dx as int, dy as int, rx, ry, err as int);
        }
        let e2: i128 = 2 * err;
        if e2 > -(dy as i128) {
            err = err - dy as i128;
            x0 = x0 + sx;
            proof {
                assert((p2.x - x0 as int) * (sx as int) == rx - 1);
            }
        }
        if e2 < dx as i128 {
            err = err + dx as i128;
            y0 = y0 + sy;
            proof {
                assert((p2.y - y0 as int) * (sy as int) == ry - 1);
            }
        }
        proof {
            fuel = (fuel - 1) as nat;
            assert(line_points_from(
                xp,
                yp,
                p2.x as int,
                p2.y as int,
                dx as int,
                dy as int,
                sx as int,
                sy as int,
                errp,
                fuelp,
            ) == seq![(xp, yp)] + line_points_from(
                x0 as int,
                y0 as int,
                p2.x as int,
                p2.y as int,
                dx as int,
                dy as int,
                sx as int,
                sy as int,
                err as int,
                fuel,
            ));
            assert(painted0 + (seq![(xp, yp)] + line_points_from(
                x0 as int,
                y0 as int,
                p2.x as int,
                p2.y as int,
                dx as int,
                dy as int,
                sx as int,
                sy as int,
                err as int,
                fuel,
            )) =~= painted + line_points_from(
                x0 as int,
                y0 as int,
                p2.x as int,
                p2.y as int,
                dx as int,
                dy as int,
                sx as int,
                sy as int,
                err as int,
                fuel,
            ));
        }
    }
}


/// Whether `v` lies between `a` and `b`, whichever order they come in.
pub open spec fn between(a: int, v: int, b: int) -> bool {
    (a <= v && v <= b) || (b <= v && v <= a)
}

/// From a valid stepping state, every visited pixel stays between the
/// current position and the target, in both axes.
proof fn lemma_line_points_from_bbox(
    x0: int,
    y0: int,
    x1: int,
    y1: int,
    dx: int,
    dy: int,
    sx: int,
    sy: int,
    err: int,
    fuel: nat,
)
    requires
        sx == 1 || sx == -1,
        sy == 1 || sy == -1,
        0 <= (x1 - x0) * sx <= dx,
        0 <= (y1 - y0) * sy <= dy,
        dx <= 0x1_0000_0000,
        dy <= 0x1_0000_0000,
        err == dx - dy + ((x1 - x0) * sx) * dy - ((y1 - y0) * sy) * dx,
    ensures
        forall|q: (int, int)|
            #[trigger] line_points_from(x0, y0, x1, y1, dx, dy, sx, sy, err, fuel).contains(q)
                ==> between(x0, q.0, x1) && between(y0, q.1, y1),
    decreases fuel,
{
    let pts = line_points_from(x0, y0, x1, y1, dx, dy, sx, sy, err, fuel);
    lemma_mul_sign(x1 - x0, sx, (x1 - x0) * sx);
    lemma_mul_sign(y1 - y0, sy, (y1 - y0) * sy);
    if (x0 == x1 && y0 == y1) || fuel == 0 {
        assert forall|q: (int, int)| #[trigger] pts.contains(q) implies between(x0, q.0, x1)
            && between(y0, q.1, y1) by {
            let k = choose|k: int| 0 <= k < pts.len() && pts[k] == q;
            assert(q == (x0, y0));
        }
    } else {
        let rx = (x1 - x0) * sx;
        let ry = (y1 - y0) * sy;
        lemma_bres_step(dx, dy, rx, ry, err);
        let e2 = 2 * err;
        let xn = if e2 > -dy {
            x0 + sx
        } else {
            x0
        };
        let ex = if e2 > -dy {
            err - dy
        } else {
            err
        };
        let yn = if e2 < dx {
            y0 + sy
        } else {
            y0
        };
        let en = if e2 < dx {
            ex + dx
        } else {
            ex
        };
        if e2 > -dy {
            assert((x1 - xn) * sx == rx - 1) by {
                assert((x1 - x0 - sx) * sx == rx - 1);
            }
        }
        if e2 < dx {
            assert((y1 - yn) * sy == ry - 1) by {
                assert((y1 - y0 - sy) * sy == ry - 1);
            }
        }
        lemma_line_points_from_bbox(xn, yn, x1, y1, dx, dy, sx, sy, en, (fuel - 1) as nat);
        let rest = line_points_from(xn, yn, x1, y1, dx, dy, sx, sy, en, (fuel - 1) as nat);
        assert forall|q: (int, int)| #[trigger] pts.contains(q) implies between(x0, q.0, x1)
            && between(y0, q.1, y1) by {
            let k = choose|k: int| 0 <= k < pts.len() && pts[k] == q;
            if k == 0 {
                assert(q == (x0, y0));
            } else {
                assert(rest[k - 1] == q);
                assert(rest.contains(q));
            }
        }
    }
}

/// Every pixel a line visits lies inside the bounding box of the two
/// endpoints, in both axes.
pub proof fn lemma_line_points_in_bbox(p1: Point, p2: Point)
    ensures
        forall|q: (int, int)|
            #[trigger] line_points(p1, p2).contains(q) ==> between(p1.x as int, q.0, p2.x as int)
                && between(p1.y as int, q.1, p2.y as int),
{
    let dx = abs(p2.x - p1.x) as int;
    let dy = abs(p2.y - p1.y) as int;
    let sx = step_x(p1, p2);
    let sy = step_y(p1, p2);
    lemma_mul_sign(p2.x - p1.x, sx, (p2.x - p1.x) * sx);
    lemma_mul_sign(p2.y - p1.y, sy, (p2.y - p1.y) * sy);
    assert(dx * dy == dy * dx) by (nonlinear_arith);
    lemma_line_points_from_bbox(
        p1.x as int,
        p1.y as int,
        p2.x as int,
        p2.y as int,
        dx,
        dy,
        sx,
        sy,
        dx - dy,
        (dx + dy) as nat,
    );
}

/// A line whose endpoints both lie off the canvas on the same side paints
/// no pixel at all: no visited pixel is in bounds, so a canvas of width `w`
/// and height `h` keeps every one of its pixels.
pub proof fn lemma_line_outside_canvas(p1: Point, p2: Point, w: int, h: int, x: int, y: int)
    requires
        (p1.x < 0 && p2.x < 0) || (p1.y < 0 && p2.y < 0) || (p1.x >= w && p2.x >= w) || (p1.y
            >= h && p2.y >= h),
        0 <= x < w,
        0 <= y < h,
    ensures
        !line_points(p1, p2).contains((x, y)),
{
    lemma_line_points_in_bbox(p1, p2);
}


/// From a valid stepping state with enough fuel, the walk starts at the
/// current position and ends exactly at the target.
proof fn lemma_line_points_from_ends(
    x0: int,
    y0: int,
    x1: int,
    y1: int,
    dx: int,
    dy: int,
    sx: int,
    sy: int,
    err: int,
    fuel: nat,
)
    requires
        sx == 1 || sx == -1,
        sy == 1 || sy == -1,
        0 <= (x1 - x0) * sx <= dx,
        0 <= (y1 - y0) * sy <= dy,
        dx <= 0x1_0000_0000,
        dy <= 0x1_0000_0000,
        err == dx - dy + ((x1 - x0) * sx) * dy - ((y1 - y0) * sy) * dx,
        fuel >= (x1 - x0) * sx + (y1 - y0) * sy,
    ensures
        line_points_from(x0, y0, x1, y1, dx, dy, sx, sy, err, fuel).len() >= 1,
        line_points_from(x0, y0, x1, y1, dx, dy, sx, sy, err, fuel)[0] == (x0, y0),
        line_points_from(x0, y0, x1, y1, dx, dy, sx, sy, err, fuel).last() == (x1, y1),
    decreases fuel,
{
    let pts = line_points_from(x0, y0, x1, y1, dx, dy, sx, sy, err, fuel);
    let rx = (x1 - x0) * sx;
    let ry = (y1 - y0) * sy;
    lemma_mul_sign(x1 - x0, sx, rx);
    lemma_mul_sign(y1 - y0, sy, ry);
    if x0 == x1 && y0 == y1 {
        assert(pts =~= seq![(x0, y0)]);
    } else {
        assert(rx + ry > 0);
        assert(fuel >= 1);
        lemma_bres_step(dx, dy, rx, ry, err);
        let e2 = 2 * err;
        let xn = if e2 > -dy {
            x0 + sx
        } else {
            x0
        };
        let ex = if e2 > -dy {
            err - dy
        } else {
            err
        };
        let yn = if e2 < dx {
            y0 + sy
        } else {
            y0
        };
        let en = if e2 < dx {
            ex + dx
        } else {
            ex
        };
        if e2 > -dy {
            assert((x1 - xn) * sx == rx - 1) by {
                assert((x1 - x0 - sx) * sx == rx - 1);
            }
        }
        if e2 < dx {
            assert((y1 - yn) * sy == ry - 1) by {
                assert((y1 - y0 - sy) * sy == ry - 1);
            }
        }
        lemma_line_points_from_ends(xn, yn, x1, y1, dx, dy, sx, sy, en, (fuel - 1) as nat);
        let rest = line_points_from(xn, yn, x1, y1, dx, dy, sx, sy, en, (fuel - 1) as nat);
        assert(pts == seq![(x0, y0)] + rest);
        assert(pts.last() == rest.last());
    }
}

/// A line includes both of its endpoints: the visited pixels start at `p1`
/// and end exactly at `p2`, for every pair of endpoints.
pub proof fn lemma_line_points_endpoints(p1: Point, p2: Point)
    ensures
        line_points(p1, p2).len() >= 1,
        line_points(p1, p2)[0] == (p1.x as int, p1.y as int),
        line_points(p1, p2).last() == (p2.x as int, p2.y as int),
{
    let dx = abs(p2.x - p1.x) as int;
    let dy = abs(p2.y - p1.y) as int;
    let sx = step_x(p1, p2);
    let sy = step_y(p1, p2);
    lemma_mul_sign(p2.x - p1.x, sx, (p2.x - p1.x) * sx);
    lemma_mul_sign(p2.y - p1.y, sy, (p2.y - p1.y) * sy);
    assert(dx * dy == dy * dx) by (nonlinear_arith);
    lemma_line_points_from_ends(
        p1.x as int,
        p1.y as int,
        p2.x as int,
        p2.y as int,
        dx,
        dy,
        sx,
        sy,
        dx - dy,
        (dx + dy) as nat,
    );
}

} // verus!
