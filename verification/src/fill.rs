use vstd::prelude::*;

use vstd::math::abs;
use vstd::multiset::Multiset;
use vstd::relations::{sorted_by, total_ordering};

use crate::framebuffer::Framebuffer;
use crate::geometry::{Color, Point};
use crate::line::{draw_line, line_points};

verus! {

/// Division that truncates toward zero, as the executable `/` operator does
/// on signed integers; it differs from the Euclidean `/` of specifications
/// when exactly one operand is negative.
pub open spec fn trunc_div(a: int, b: int) -> int {
    if (a < 0) == (b < 0) {
        abs(a) as int / abs(b) as int
    } else {
        -(abs(a) as int / abs(b) as int)
    }
}

/// The half-open crossing test: a scanline at height `y` crosses the edge
/// from `a` to `b` when the edge is not horizontal and exactly one endpoint
/// lies at or below the scanline. A vertex exactly on the scanline is thereby
/// attributed to exactly one of its two adjacent edges.
pub open spec fn edge_crosses(a: Point, b: Point, y: int) -> bool {
    a.y != b.y && ((a.y <= y && y < b.y) || (b.y <= y && y < a.y))
}

/// The x coordinate where the scanline at height `y` meets the edge from `a`
/// to `b`, by integer linear interpolation with truncating division.
pub open spec fn edge_x(a: Point, b: Point, y: int) -> int {
    a.x + trunc_div((y - a.y) * (b.x - a.x), b.y - a.y)
}

/// The crossing x values that the first `n` edges of the closed polygon `vs`
/// contribute on the scanline at height `y`, in edge order. Edge `i` runs
/// from vertex `i` to vertex `(i + 1) % vs.len()`.
pub open spec fn crossings_upto(vs: Seq<Point>, y: int, n: int) -> Seq<int>
    decreases n,
{
    if n <= 0 {
        Seq::empty()
    } else {
        crossings_upto(vs, y, n - 1) + (if edge_crosses(
            vs[n - 1],
            vs[n % (vs.len() as int)],
            y,
        ) {
            seq![edge_x(vs[n - 1], vs[n % (vs.len() as int)], y)]
        } else {
            Seq::empty()
        })
    }
}

/// All crossing x values of the closed polygon `vs` on the scanline at
/// height `y`, in edge order.
pub open spec fn crossings(vs: Seq<Point>, y: int) -> Seq<int> {
    crossings_upto(vs, y, vs.len() as int)
}

/// The same crossing x values, sorted ascending.
pub open spec fn sorted_crossings(vs: Seq<Point>, y: int) -> Seq<int> {
    crossings(vs, y).sort()
}

/// Whether the pair of consecutive crossing values at positions 2j and
/// 2j + 1 of `s` covers `x`, after shrinking the pair's interval by one pixel
/// on each side; an unpaired trailing value never covers anything.
pub open spec fn pair_covers(s: Seq<int>, j: int, x: int) -> bool {
    2 * j + 1 < s.len() && s[2 * j] + 1 <= x <= s[2 * j + 1] - 1
}

/// Whether `x` lies inside one of the first `m` consecutive pairs of the
/// sorted crossing values `s`.
pub open spec fn span_covered_upto(s: Seq<int>, x: int, m: int) -> bool {
    exists|j: int| 0 <= j < m && #[trigger] pair_covers(s, j, x)
}

/// Whether `x` lies inside some pair of the sorted crossing values `s`.
pub open spec fn span_covered(s: Seq<int>, x: int) -> bool {
    span_covered_upto(s, x, s.len() as int)
}

/// The scanline fill rule: pixel (x, y) is interior to the closed polygon
/// `vs` when x lies strictly between a consecutive pair of the sorted
/// crossing x values of the scanline at height y, shrunk by one pixel on
/// each side so the boundary is never touched.
pub open spec fn interior(vs: Seq<Point>, x: int, y: int) -> bool {
    span_covered(sorted_crossings(vs, y), x)
}

/// The product of two bounded values is bounded.
proof fn lemma_mul_bound(a: int, b: int, ca: int, cb: int)
    by (nonlinear_arith)
    requires
        -ca <= a <= ca,
        -cb <= b <= cb,
        0 <= ca,
        0 <= cb,
    ensures
        -(ca * cb) <= a * b <= ca * cb,
{
}

/// The mathematical contents of a vector of machine-width crossing values.
pub open spec fn as_ints(s: Seq<i128>) -> Seq<int> {
    s.map_values(|v: i128| v as int)
}

/// Collect the crossing x values of the polygon `vertices` on the scanline
/// at height `y`, in edge order: one value for each non-horizontal edge that
/// the half-open rule says the scanline crosses.
pub fn collect_crossings(vertices: &Vec<Point>, y: i64) -> (r: Vec<i128>)
    requires
        vertices@.len() >= 1,
    ensures
        as_ints(r@) == crossings(vertices@, y as int),
{
    let n: usize = vertices.len();
    let mut r: Vec<i128> = Vec::new();
    let mut i: usize = 0;
    proof {
        assert(as_ints(r@) =~= crossings_upto(vertices@, y as int, 0));
    }
    while i < n
        invariant
            1 <= n == vertices@.len(),
            i <= n,
            as_ints(r@) == crossings_upto(vertices@, y as int, i as int),
        decreases n - i,
    {
        let ni: usize = if i + 1 == n {
            0
        } else {
            i + 1
        };
        proof {
            assert(ni as int == (i + 1) % (n as int)) by {
                if i + 1 < n {
                    vstd::arithmetic::div_mod::lemma_small_mod((i + 1) as nat, n as nat);
                } else {
                    vstd::arithmetic::div_mod::lemma_mod_self_0(n as int);
                }
            }
        }
        let a: Point = vertices[i];
        let b: Point = vertices[ni];
        let ghost r0: Seq<i128> = r@;
        if a.y != b.y && ((a.y as i64 <= y && y < b.y as i64) || (b.y as i64 <= y && y
            < a.y as i64)) {
            let t: i128 = y as i128 - a.y as i128;
            let w: i128 = b.x as i128 - a.x as i128;
            let d: i128 = b.y as i128 - a.y as i128;
            proof {
                lemma_mul_bound(t as int, w as int, 0x8000_0001_0000_0000, 0x1_0000_0000);
            }
            let num: i128 = t * w;
            let na: u128 = if num < 0 {
                (-num) as u128
            } else {
                num as u128
            };
            let nd: u128 = if d < 0 {
                (-d) as u128
            } else {
                d as u128
            };
            let mag: u128 = na / nd;
            let q: i128 = if (num < 0) != (d < 0) {
                -(mag as i128)
            } else {
                mag as i128
            };
            proof {
                assert(na as int == abs(num as int) as int);
                assert(nd as int == abs(d as int) as int);
                assert(mag as int <= na as int) by (nonlinear_arith)
                    requires
                        nd >= 1,
                        mag == na as int / nd as int,
                        na >= 0,
                ;
                assert(q as int == trunc_div(num as int, d as int));
            }
            let xx: i128 = a.x as i128 + q;
            r.push(xx);
            proof {
                assert(xx as int == edge_x(a, b, y as int));
                assert(as_ints(r@) =~= as_ints(r0)
                    + seq![xx as int]);
            }
        }
        proof {
            assert(crossings_upto(vertices@, y as int, i + 1) == crossings_upto(
                vertices@,
                y as int,
                i as int,
            ) + (if edge_crosses(a, b, y as int) {
                seq![edge_x(a, b, y as int)]
            } else {
                Seq::<int>::empty()
            }));
            if !edge_crosses(a, b, y as int) {
                assert(as_ints(r@) =~= crossings_upto(
                    vertices@,
                    y as int,
                    i + 1,
                ));
            }
        }
        i = i + 1;
    }
    proof {
        assert(crossings_upto(vertices@, y as int, n as int) == crossings(vertices@, y as int));
    }
    r
}

/// Sort the collected crossing values ascending by repeatedly extracting a
/// minimum of what is left.
fn sort_intersections(xs: Vec<i128>) -> (r: Vec<i128>)
    ensures
        as_ints(r@).to_multiset() == as_ints(xs@).to_multiset(),
        forall|i: int, j: int| 0 <= i <= j < r@.len() ==> r@[i] <= r@[j],
        r@.len() == xs@.len(),
{
    broadcast use vstd::seq_lib::group_to_multiset_ensures;
    broadcast use vstd::multiset::group_multiset_axioms;

    let mut rest = xs;
    let mut r: Vec<i128> = Vec::new();
    let ghost whole: Multiset<int> = as_ints(rest@).to_multiset();
    proof {
        assert(as_ints(r@) =~= Seq::<int>::empty());
        assert(as_ints(r@).to_multiset().add(as_ints(rest@).to_multiset()) =~= whole);
    }
    while rest.len() > 0
        invariant
            as_ints(r@).to_multiset().add(as_ints(rest@).to_multiset()) == whole,
            whole == as_ints(xs@).to_multiset(),
            r@.len() + rest@.len() == xs@.len(),
            forall|i: int, j: int| 0 <= i <= j < r@.len() ==> r@[i] <= r@[j],
            forall|i: int, j: int|
                0 <= i < r@.len() && 0 <= j < rest@.len() ==> r@[i] <= rest@[j],
        decreases rest@.len(),
    {
        let mut mi: usize = 0;
        let mut k: usize = 1;
        while k < rest.len()
            invariant
                rest@.len() > 0,
                mi < k <= rest@.len(),
                forall|t: int| 0 <= t < k ==> rest@[mi as int] <= rest@[t],
            decreases rest@.len() - k,
        {
            if rest[k] < rest[mi] {
                mi = k;
            }
            k = k + 1;
        }
        let ghost rest0: Seq<i128> = rest@;
        let ghost r0: Seq<i128> = r@;
        let v: i128 = rest.remove(mi);
        r.push(v);
        proof {
            let x: int = v as int;
            assert(as_ints(rest0)[mi as int] == x);
            assert(as_ints(rest@) =~= as_ints(rest0).remove(mi as int));
            assert(as_ints(r@) =~= as_ints(r0).push(x));
            assert(as_ints(rest0).contains(x));
            vstd::seq_lib::to_multiset_contains(as_ints(rest0), x);
            vstd::seq_lib::to_multiset_remove(as_ints(rest0), mi as int);
            vstd::seq_lib::to_multiset_build(as_ints(r0), x);
            assert(as_ints(rest0).to_multiset().count(x) > 0);
            assert(as_ints(r@).to_multiset().add(as_ints(rest@).to_multiset()) =~= as_ints(
                r0,
            ).to_multiset().add(as_ints(rest0).to_multiset()));
        }
    }
    r
}

/// Whether edge `i` of the closed polygon `vs` — from vertex `i` to vertex
/// `(i + 1) % vs.len()` — crosses the scanline at height `y`.
pub open spec fn crosses_at(vs: Seq<Point>, i: int, y: int) -> bool {
    edge_crosses(vs[i], vs[(i + 1) % (vs.len() as int)], y)
}

/// A non-empty crossing list owes its first entry to some crossing edge.
proof fn lemma_crossing_edge_exists(vs: Seq<Point>, y: int, n: int)
    requires
        crossings_upto(vs, y, n).len() > 0,
    ensures
        exists|i: int| 0 <= i < n && #[trigger] crosses_at(vs, i, y),
    decreases n,
{
    if n <= 0 {
        assert(false);
    } else {
        if edge_crosses(vs[n - 1], vs[n % (vs.len() as int)], y) {
            assert(crosses_at(vs, n - 1, y));
        } else {
            assert(crossings_upto(vs, y, n) == crossings_upto(vs, y, n - 1)
                + Seq::<int>::empty());
            assert(crossings_upto(vs, y, n - 1).len() > 0);
            lemma_crossing_edge_exists(vs, y, n - 1);
        }
    }
}

/// The scanline fill touches only rows spanned by the polygon: when every
/// vertex's y lies in [lo, hi], an interior pixel's row satisfies
/// lo <= y < hi. In particular a triangle sorted by vertex y is filled only
/// between its lowest and highest vertex rows.
pub proof fn lemma_interior_row_range(vs: Seq<Point>, x: int, y: int, lo: int, hi: int)
    requires
        interior(vs, x, y),
        forall|i: int| 0 <= i < vs.len() ==> lo <= (#[trigger] vs[i]).y <= hi,
    ensures
        lo <= y < hi,
{
    let t = crossings(vs, y);
    let s = sorted_crossings(vs, y);
    t.lemma_sort_ensures();
    vstd::seq_lib::to_multiset_len(t);
    vstd::seq_lib::to_multiset_len(s);
    let j = choose|j: int| 0 <= j < s.len() && #[trigger] pair_covers(s, j, x);
    assert(t.len() >= 2);
    lemma_crossing_edge_exists(vs, y, vs.len() as int);
    let i = choose|i: int| 0 <= i < vs.len() && #[trigger] crosses_at(vs, i, y);
    vstd::arithmetic::div_mod::lemma_mod_bound(i + 1, vs.len() as int);
    let a = vs[i];
    let b = vs[(i + 1) % (vs.len() as int)];
    assert(lo <= a.y <= hi);
    assert(lo <= b.y <= hi);
}

/// An ascending run with the same contents as a value list is that list's
/// unique sorted form.
proof fn lemma_sorted_matches(s: Seq<int>, t: Seq<int>)
    requires
        s.to_multiset() == t.to_multiset(),
        forall|i: int, j: int| 0 <= i <= j < s.len() ==> s[i] <= s[j],
    ensures
        s == t.sort(),
{
    t.lemma_sort_ensures();
    let ts = t.sort();
    let leq = |x: int, y: int| x <= y;
    assert(total_ordering(leq));
    assert(sorted_by(s, leq));
    assert(sorted_by(ts, leq));
    vstd::seq_lib::lemma_sorted_unique(s, ts, leq);
}

/// Paint, on the single scanline at height `y`, every pixel that the fill
/// rule says is interior to the polygon `vertices`, and nothing else.
fn fill_row(fb: &mut Framebuffer, vertices: &Vec<Point>, y: i64, color: Color)
    requires
        old(fb).wf(),
        vertices@.len() >= 1,
    ensures
        final(fb).wf(),
        final(fb).same_size(*old(fb)),
        forall|px: int, py: int|
            old(fb).in_bounds(px, py) ==> final(fb).pixel(px, py) == (if py == y as int
                && interior(vertices@, px, y as int) {
                color
            } else {
                old(fb).pixel(px, py)
            }),
{
    let ghost fb0: Framebuffer = *fb;
    let xs = collect_crossings(vertices, y);
    let xs = sort_intersections(xs);
    let ghost s: Seq<int> = sorted_crossings(vertices@, y as int);
    proof {
        lemma_sorted_matches(as_ints(xs@), crossings(vertices@, y as int));
        assert(as_ints(xs@) == s);
    }
    let mut k: usize = 0;
    let ghost mut pairs: int = 0;
    while k + 1 < xs.len()
        invariant
            fb.wf(),
            fb.same_size(fb0),
            as_ints(xs@) == s,
            forall|i: int, j: int| 0 <= i <= j < xs@.len() ==> xs@[i] <= xs@[j],
            k <= xs@.len() + 1,
            0 <= pairs,
            k as int == 2 * pairs,
            forall|px: int, py: int|
                fb0.in_bounds(px, py) ==> fb.pixel(px, py) == (if py == y as int
                    && span_covered_upto(s, px, pairs) {
                    color
                } else {
                    fb0.pixel(px, py)
                }),
        decreases xs@.len() - k,
    {
        let a: i128 = xs[k];
        let b: i128 = xs[k + 1];
        proof {
            assert(a as int == s[k as int] && b as int == s[k as int + 1]);
            assert(2 * pairs == k as int && 2 * pairs + 1 == k as int + 1);
        }
        if a < b {
            let mut x: i128 = a + 1;
            while x <= b - 1
                invariant
                    fb.wf(),
                    fb.same_size(fb0),
                    as_ints(xs@) == s,
                    k as int + 1 < xs@.len(),
                    a as int == s[2 * pairs] && b as int == s[2 * pairs + 1],
                    a < b,
                    0 <= pairs,
                    a as int + 1 <= x as int <= b as int,
                    forall|px: int, py: int|
                        fb0.in_bounds(px, py) ==> fb.pixel(px, py) == (if py == y as int && (
                        span_covered_upto(s, px, pairs) || (a as int + 1 <= px <= x - 1)) {
                            color
                        } else {
                            fb0.pixel(px, py)
                        }),
                decreases b - x,
            {
                let ghost fbp: Framebuffer = *fb;
                fb.set_pixel_wide(x, y, color);
                proof {
                    assert forall|px: int, py: int| fb0.in_bounds(px, py) implies fb.pixel(
                        px,
                        py,
                    ) == (if py == y as int && (span_covered_upto(s, px, pairs) || (a as int + 1
                        <= px <= x as int)) {
                        color
                    } else {
                        fb0.pixel(px, py)
                    }) by {
                        assert(fbp.in_bounds(px, py) == fb0.in_bounds(px, py));
                    }
                }
                x = x + 1;
            }
        }
        k = k + 2;
        proof {
            let ghost pairs0: int = pairs;
            pairs = pairs + 1;
            assert forall|px: int, py: int| fb0.in_bounds(px, py) implies fb.pixel(px, py) == (
            if py == y as int && span_covered_upto(s, px, pairs) {
                color
            } else {
                fb0.pixel(px, py)
            }) by {
                assert(span_covered_upto(s, px, pairs) == (span_covered_upto(s, px, pairs0)
                    || pair_covers(s, pairs0, px))) by {
                    if span_covered_upto(s, px, pairs) {
                        let j = choose|j: int|
                            0 <= j < pairs && #[trigger] pair_covers(s, j, px);
                        if j < pairs0 {
                            assert(span_covered_upto(s, px, pairs0));
                        } else {
                            assert(pair_covers(s, pairs0, px));
                        }
                    }
                    if span_covered_upto(s, px, pairs0) {
                        let j = choose|j: int|
                            0 <= j < pairs0 && #[trigger] pair_covers(s, j, px);
                        assert(pair_covers(s, j, px) && 0 <= j < pairs);
                    }
                    if pair_covers(s, pairs0, px) {
                        assert(0 <= pairs0 < pairs);
                    }
                }
            }
        }
    }
    proof {
        assert forall|px: int, py: int| fb0.in_bounds(px, py) implies fb.pixel(px, py) == (
        if py == y as int && interior(vertices@, px, y as int) {
            color
        } else {
            fb0.pixel(px, py)
        }) by {
            assert(span_covered(s, px) == span_covered_upto(s, px, pairs)) by {
                if span_covered(s, px) {
                    let j = choose|j: int|
                        0 <= j < s.len() && #[trigger] pair_covers(s, j, px);
                    assert(2 * j + 1 < s.len() <= k as int + 1);
                    assert(j < pairs);
                    assert(span_covered_upto(s, px, pairs));
                }
                if span_covered_upto(s, px, pairs) {
                    let j = choose|j: int| 0 <= j < pairs && #[trigger] pair_covers(s, j, px);
                    assert(2 * j + 1 < s.len());
                    assert(0 <= j < s.len());
                    assert(span_covered(s, px));
                }
            }
        }
    }
}

/// Paint the interior of the closed polygon `vertices` with `fill_color`,
/// row by row, without touching boundary pixels and without drawing any
/// outline. A polygon with fewer than three vertices is a no-op, never an
/// error.
pub fn fill_polygon_interior(fb: &mut Framebuffer, vertices: &Vec<Point>, fill_color: Color)
    requires
        old(fb).wf(),
    ensures
        final(fb).wf(),
        final(fb).same_size(*old(fb)),
        forall|x: int, y: int|
            old(fb).in_bounds(x, y) ==> final(fb).pixel(x, y) == (if vertices@.len() >= 3
                && interior(vertices@, x, y) {
                fill_color
            } else {
                old(fb).pixel(x, y)
            }),
{
    if vertices.len() < 3 {
        return ;
    }
    let mut miny: i32 = vertices[0].y;
    let mut maxy: i32 = vertices[0].y;
    let mut i: usize = 1;
    while i < vertices.len()
        invariant
            1 <= i <= vertices@.len(),
            miny <= maxy,
            forall|t: int| 0 <= t < i ==> miny <= (#[trigger] vertices@[t]).y <= maxy,
        decreases vertices@.len() - i,
    {
        if vertices[i].y < miny {
            miny = vertices[i].y;
        }
        if vertices[i].y > maxy {
            maxy = vertices[i].y;
        }
        i = i + 1;
    }
    let ghost fb0: Framebuffer = *fb;
    let mut y: i64 = miny as i64;
    while y <= maxy as i64
        invariant
            fb.wf(),
            fb.same_size(fb0),
            vertices@.len() >= 3,
            miny as i64 <= y <= maxy as i64 + 1,
            forall|t: int| 0 <= t < vertices@.len() ==> miny <= (#[trigger] vertices@[t]).y
                <= maxy,
            forall|px: int, py: int|
                fb0.in_bounds(px, py) ==> fb.pixel(px, py) == (if miny as int <= py < y as int
                    && interior(vertices@, px, py) {
                    fill_color
                } else {
                    fb0.pixel(px, py)
                }),
        decreases maxy as i64 + 1 - y,
    {
        let ghost fbp: Framebuffer = *fb;
        fill_row(fb, vertices, y, fill_color);
        proof {
            assert forall|px: int, py: int| fb0.in_bounds(px, py) implies fb.pixel(px, py) == (
            if miny as int <= py < y as int + 1 && interior(vertices@, px, py) {
                fill_color
            } else {
                fb0.pixel(px, py)
            }) by {
                assert(fbp.in_bounds(px, py) == fb0.in_bounds(px, py));
            }
        }
        y = y + 1;
    }
    proof {
        assert forall|px: int, py: int| fb0.in_bounds(px, py) implies fb.pixel(px, py) == (
        if vertices@.len() >= 3 && interior(vertices@, px, py) {
            fill_color
        } else {
            fb0.pixel(px, py)
        }) by {
            if interior(vertices@, px, py) {
                lemma_interior_row_range(vertices@, px, py, miny as int, maxy as int);
            }
        }
    }
}

/// Whether (x, y) lies on one of the first `m` outline segments of the
/// closed polygon `vs`.
pub open spec fn outline_upto(vs: Seq<Point>, x: int, y: int, m: int) -> bool {
    exists|i: int|
        0 <= i < m && #[trigger] line_points(vs[i], vs[(i + 1) % (vs.len() as int)]).contains(
            (x, y),
        )
}

/// Whether (x, y) lies on the outline of the closed polygon `vs`: on the
/// discrete segment of some edge, endpoints included.
pub open spec fn outline_point(vs: Seq<Point>, x: int, y: int) -> bool {
    outline_upto(vs, x, y, vs.len() as int)
}

/// Draw the outline of the closed polygon `vertices` in `line_color` over the
/// current canvas, one discrete segment per edge.
fn draw_outline(fb: &mut Framebuffer, vertices: &Vec<Point>, line_color: Color)
    requires
        old(fb).wf(),
    ensures
        final(fb).wf(),
        final(fb).same_size(*old(fb)),
        forall|x: int, y: int|
            old(fb).in_bounds(x, y) ==> final(fb).pixel(x, y) == (if outline_point(
                vertices@,
                x,
                y,
            ) {
                line_color
            } else {
                old(fb).pixel(x, y)
            }),
{
    let ghost fb0: Framebuffer = *fb;
    let n: usize = vertices.len();
    let mut i: usize = 0;
    while i < n
        invariant
            fb.wf(),
            fb.same_size(fb0),
            n == vertices@.len(),
            i <= n,
            forall|x: int, y: int|
                fb0.in_bounds(x, y) ==> fb.pixel(x, y) == (if outline_upto(
                    vertices@,
                    x,
                    y,
                    i as int,
                ) {
                    line_color
                } else {
                    fb0.pixel(x, y)
                }),
        decreases n - i,
    {
        let ni: usize = if i + 1 == n {
            0
        } else {
            i + 1
        };
        proof {
            assert(ni as int == (i + 1) % (n as int)) by {
                if i + 1 < n {
                    vstd::arithmetic::div_mod::lemma_small_mod((i + 1) as nat, n as nat);
                } else {
                    vstd::arithmetic::div_mod::lemma_mod_self_0(n as int);
                }
            }
        }
        let ghost fbp: Framebuffer = *fb;
        draw_line(fb, vertices[i], vertices[ni], line_color);
        proof {
            let ghost lp = line_points(vertices@[i as int], vertices@[ni as int]);
            assert forall|x: int, y: int| fb0.in_bounds(x, y) implies fb.pixel(x, y) == (
            if outline_upto(vertices@, x, y, i as int + 1) {
                line_color
            } else {
                fb0.pixel(x, y)
            }) by {
                assert(fbp.in_bounds(x, y) == fb0.in_bounds(x, y));
                assert(outline_upto(vertices@, x, y, i as int + 1) == (outline_upto(
                    vertices@,
                    x,
                    y,
                    i as int,
                ) || lp.contains((x, y)))) by {
                    if outline_upto(vertices@, x, y, i as int + 1) {
                        let e = choose|e: int|
                            0 <= e < i as int + 1 && #[trigger] line_points(
                                vertices@[e],
                                vertices@[(e + 1) % (vertices@.len() as int)],
                            ).contains((x, y));
                        if e < i as int {
                            assert(outline_upto(vertices@, x, y, i as int));
                        }
                    }
                    if outline_upto(vertices@, x, y, i as int) {
                        let e = choose|e: int|
                            0 <= e < i as int && #[trigger] line_points(
                                vertices@[e],
                                vertices@[(e + 1) % (vertices@.len() as int)],
                            ).contains((x, y));
                        assert(outline_upto(vertices@, x, y, i as int + 1));
                    }
                    if lp.contains((x, y)) {
                        assert(line_points(
                            vertices@[i as int],
                            vertices@[(i as int + 1) % (vertices@.len() as int)],
                        ).contains((x, y)));
                        assert(outline_upto(vertices@, x, y, i as int + 1));
                    }
                }
            }
        }
        i = i + 1;
    }
}

/// What `fill_polygon` does to a canvas: outline pixels take the line color,
/// interior pixels take the fill color, everything else keeps its old value;
/// a polygon with fewer than three vertices changes nothing.
pub open spec fn fill_polygon_post(
    a: Framebuffer,
    b: Framebuffer,
    vs: Seq<Point>,
    fill_color: Color,
    line_color: Color,
) -> bool {
    &&& b.same_size(a)
    &&& forall|x: int, y: int|
        a.in_bounds(x, y) ==> b.pixel(x, y) == (if vs.len() < 3 {
            a.pixel(x, y)
        } else if outline_point(vs, x, y) {
            line_color
        } else if interior(vs, x, y) {
            fill_color
        } else {
            a.pixel(x, y)
        })
}

/// Fill the interior of the closed polygon `vertices` with `fill_color`,
/// then draw its outline in `line_color` on top, so the outline is always
/// the topmost layer. Fewer than three vertices is a no-op.
pub fn fill_polygon(fb: &mut Framebuffer, vertices: &Vec<Point>, fill_color: Color, line_color: Color)
    requires
        old(fb).wf(),
    ensures
        final(fb).wf(),
        fill_polygon_post(*old(fb), *final(fb), vertices@, fill_color, line_color),
{
    if vertices.len() < 3 {
        return ;
    }
    let ghost fb0: Framebuffer = *fb;
    fill_polygon_interior(fb, vertices, fill_color);
    let ghost fb1: Framebuffer = *fb;
    draw_outline(fb, vertices, line_color);
    proof {
        assert forall|x: int, y: int| fb0.in_bounds(x, y) implies fb.pixel(x, y) == (
        if outline_point(vertices@, x, y) {
            line_color
        } else if interior(vertices@, x, y) {
            fill_color
        } else {
            fb0.pixel(x, y)
        }) by {
            assert(fb1.in_bounds(x, y) == fb0.in_bounds(x, y));
        }
    }
}


/// The contents of a list of hole polygons.
pub open spec fn views_of(hs: Seq<Vec<Point>>) -> Seq<Seq<Point>> {
    hs.map_values(|h: Vec<Point>| h@)
}

/// Whether (x, y) is interior to one of the first `m` hole polygons.
pub open spec fn hole_interior_upto(holes: Seq<Seq<Point>>, x: int, y: int, m: int) -> bool {
    exists|h: int| 0 <= h < m && holes[h].len() >= 3 && #[trigger] interior(holes[h], x, y)
}

/// Whether (x, y) is interior to some hole polygon.
pub open spec fn hole_interior(holes: Seq<Seq<Point>>, x: int, y: int) -> bool {
    hole_interior_upto(holes, x, y, holes.len() as int)
}

/// Whether (x, y) lies on the outline of one of the first `m` hole polygons.
pub open spec fn hole_outline_upto(holes: Seq<Seq<Point>>, x: int, y: int, m: int) -> bool {
    exists|h: int| 0 <= h < m && #[trigger] outline_point(holes[h], x, y)
}

/// Whether (x, y) lies on the outline of some hole polygon.
pub open spec fn hole_outline(holes: Seq<Seq<Point>>, x: int, y: int) -> bool {
    hole_outline_upto(holes, x, y, holes.len() as int)
}

/// What `fill_polygon_with_holes` does to a canvas: every outline — outer
/// and holes — ends on top in the line color; hole interiors take the hole
/// color; the rest of the outer interior takes the fill color; everything
/// else keeps its old value. An outer polygon with fewer than three vertices
/// changes nothing at all.
pub open spec fn fill_with_holes_post(
    a: Framebuffer,
    b: Framebuffer,
    outer: Seq<Point>,
    holes: Seq<Seq<Point>>,
    fill_color: Color,
    hole_color: Color,
    line_color: Color,
) -> bool {
    &&& b.same_size(a)
    &&& forall|x: int, y: int|
        a.in_bounds(x, y) ==> b.pixel(x, y) == (if outer.len() < 3 {
            a.pixel(x, y)
        } else if outline_point(outer, x, y) || hole_outline(holes, x, y) {
            line_color
        } else if hole_interior(holes, x, y) {
            hole_color
        } else if interior(outer, x, y) {
            fill_color
        } else {
            a.pixel(x, y)
        })
}

/// Fill the outer polygon, overpaint each hole interior with `hole_color`
/// in list order, then draw the outer outline and every hole outline last,
/// so all boundaries sit above both fills.
pub fn fill_polygon_with_holes(
    fb: &mut Framebuffer,
    outer_vertices: &Vec<Point>,
    holes: &Vec<Vec<Point>>,
    fill_color: Color,
    hole_color: Color,
    line_color: Color,
)
    requires
        old(fb).wf(),
    ensures
        final(fb).wf(),
        fill_with_holes_post(
            *old(fb),
            *final(fb),
            outer_vertices@,
            views_of(holes@),
            fill_color,
            hole_color,
            line_color,
        ),
{
    if outer_vertices.len() < 3 {
        return ;
    }
    let ghost fb0: Framebuffer = *fb;
    let ghost hv: Seq<Seq<Point>> = views_of(holes@);
    fill_polygon_interior(fb, outer_vertices, fill_color);
    let mut h: usize = 0;
    let n_holes: usize = holes.len();
    while h < n_holes
        invariant
            fb.wf(),
            fb.same_size(fb0),
            outer_vertices@.len() >= 3,
            n_holes == holes@.len(),
            h <= n_holes,
            hv == views_of(holes@),
            forall|x: int, y: int|
                fb0.in_bounds(x, y) ==> fb.pixel(x, y) == (if hole_interior_upto(
                    hv,
                    x,
                    y,
                    h as int,
                ) {
                    hole_color
                } else if interior(outer_vertices@, x, y) {
                    fill_color
                } else {
                    fb0.pixel(x, y)
                }),
        decreases n_holes - h,
    {
        let ghost fbp: Framebuffer = *fb;
        fill_polygon_interior(fb, &holes[h], hole_color);
        proof {
            assert(hv[h as int] == holes@[h as int]@);
            assert forall|x: int, y: int| fb0.in_bounds(x, y) implies fb.pixel(x, y) == (
            if hole_interior_upto(hv, x, y, h as int + 1) {
                hole_color
            } else if interior(outer_vertices@, x, y) {
                fill_color
            } else {
                fb0.pixel(x, y)
            }) by {
                assert(fbp.in_bounds(x, y) == fb0.in_bounds(x, y));
                assert(hole_interior_upto(hv, x, y, h as int + 1) == (hole_interior_upto(
                    hv,
                    x,
                    y,
                    h as int,
                ) || (hv[h as int].len() >= 3 && interior(hv[h as int], x, y)))) by {
                    if hole_interior_upto(hv, x, y, h as int + 1) {
                        let e = choose|e: int|
                            0 <= e < h as int + 1 && hv[e].len() >= 3 && #[trigger] interior(
                                hv[e],
                                x,
                                y,
                            );
                        if e < h as int {
                            assert(hole_interior_upto(hv, x, y, h as int));
                        }
                    }
                    if hole_interior_upto(hv, x, y, h as int) {
                        let e = choose|e: int|
                            0 <= e < h as int && hv[e].len() >= 3 && #[trigger] interior(
                                hv[e],
                                x,
                                y,
                            );
                        assert(hole_interior_upto(hv, x, y, h as int + 1));
                    }
                }
            }
        }
        h = h + 1;
    }
    let ghost fb2: Framebuffer = *fb;
    draw_outline(fb, outer_vertices, line_color);
    let ghost fb3: Framebuffer = *fb;
    let mut h: usize = 0;
    while h < n_holes
        invariant
            fb.wf(),
            fb.same_size(fb3),
            fb3.same_size(fb0),
            n_holes == holes@.len(),
            h <= n_holes,
            hv == views_of(holes@),
            forall|x: int, y: int|
                fb3.in_bounds(x, y) ==> fb.pixel(x, y) == (if hole_outline_upto(
                    hv,
                    x,
                    y,
                    h as int,
                ) {
                    line_color
                } else {
                    fb3.pixel(x, y)
                }),
        decreases n_holes - h,
    {
        let ghost fbp: Framebuffer = *fb;
        draw_outline(fb, &holes[h], line_color);
        proof {
            assert(hv[h as int] == holes@[h as int]@);
            assert forall|x: int, y: int| fb3.in_bounds(x, y) implies fb.pixel(x, y) == (
            if hole_outline_upto(hv, x, y, h as int + 1) {
                line_color
            } else {
                fb3.pixel(x, y)
            }) by {
                assert(fbp.in_bounds(x, y) == fb3.in_bounds(x, y));
                assert(hole_outline_upto(hv, x, y, h as int + 1) == (hole_outline_upto(
                    hv,
                    x,
                    y,
                    h as int,
                ) || outline_point(hv[h as int], x, y))) by {
                    if hole_outline_upto(hv, x, y, h as int + 1) {
                        let e = choose|e: int|
                            0 <= e < h as int + 1 && #[trigger] outline_point(hv[e], x, y);
                        if e < h as int {
                            assert(hole_outline_upto(hv, x, y, h as int));
                        }
                    }
                    if hole_outline_upto(hv, x, y, h as int) {
                        let e = choose|e: int|
                            0 <= e < h as int && #[trigger] outline_point(hv[e], x, y);
                        assert(hole_outline_upto(hv, x, y, h as int + 1));
                    }
                }
            }
        }
        h = h + 1;
    }
    proof {
        assert forall|x: int, y: int| fb0.in_bounds(x, y) implies fb.pixel(x, y) == (
        if outline_point(outer_vertices@, x, y) || hole_outline(hv, x, y) {
            line_color
        } else if hole_interior(hv, x, y) {
            hole_color
        } else if interior(outer_vertices@, x, y) {
            fill_color
        } else {
            fb0.pixel(x, y)
        }) by {
            assert(fb2.in_bounds(x, y) == fb0.in_bounds(x, y));
            assert(fb3.in_bounds(x, y) == fb0.in_bounds(x, y));
        }
    }
}


/// A horizontal edge never contributes a scanline crossing, whatever the
/// scanline; the vertices it joins are accounted for by the non-horizontal
/// edges that meet them.
pub proof fn lemma_horizontal_edge_no_crossing(a: Point, b: Point, y: int)
    requires
        a.y == b.y,
    ensures
        !edge_crosses(a, b, y),
{
}

/// The parity of the crossing count of the first `n` edges equals the parity
/// of the walk: it is odd exactly when the walk from vertex 0 to vertex
/// `n % len` has changed sides of the scanline.
proof fn lemma_crossings_upto_parity(vs: Seq<Point>, y: int, n: int)
    requires
        vs.len() >= 1,
        0 <= n <= vs.len(),
    ensures
        ((vs[0].y <= y) != (vs[n % (vs.len() as int)].y <= y)) ==> crossings_upto(
            vs,
            y,
            n,
        ).len() % 2 == 1,
        ((vs[0].y <= y) == (vs[n % (vs.len() as int)].y <= y)) ==> crossings_upto(
            vs,
            y,
            n,
        ).len() % 2 == 0,
    decreases n,
{
    let len = vs.len() as int;
    if n == 0 {
        vstd::arithmetic::div_mod::lemma_small_mod(0nat, vs.len());
    } else {
        lemma_crossings_upto_parity(vs, y, n - 1);
        vstd::arithmetic::div_mod::lemma_small_mod((n - 1) as nat, vs.len());
        let a = vs[n - 1];
        let b = vs[n % len];
        assert(edge_crosses(a, b, y) == ((a.y <= y) != (b.y <= y)));
        assert(crossings_upto(vs, y, n) == crossings_upto(vs, y, n - 1) + (if edge_crosses(
            a,
            b,
            y,
        ) {
            seq![edge_x(a, b, y)]
        } else {
            Seq::<int>::empty()
        }));
    }
}

/// A closed polygon boundary crosses every scanline an even number of times:
/// a vertex lying exactly on the scanline is attributed to exactly one of
/// its two adjacent edges, so it is neither double-counted nor missed.
pub proof fn lemma_crossings_even(vs: Seq<Point>, y: int)
    ensures
        crossings(vs, y).len() % 2 == 0,
{
    if vs.len() == 0 {
        assert(crossings(vs, y) =~= Seq::<int>::empty());
    } else {
        lemma_crossings_upto_parity(vs, y, vs.len() as int);
        vstd::arithmetic::div_mod::lemma_mod_self_0(vs.len() as int);
    }
}

/// Filling and outlining a polygon twice with the same arguments leaves the
/// canvas exactly as one pass does: the final pixel grid depends only on the
/// outline and interior predicates, which do not change between passes.
pub proof fn lemma_fill_polygon_idempotent(
    a: Framebuffer,
    b: Framebuffer,
    c: Framebuffer,
    vs: Seq<Point>,
    fill_color: Color,
    line_color: Color,
)
    requires
        fill_polygon_post(a, b, vs, fill_color, line_color),
        fill_polygon_post(b, c, vs, fill_color, line_color),
    ensures
        c.same_size(b),
        forall|x: int, y: int| b.in_bounds(x, y) ==> c.pixel(x, y) == b.pixel(x, y),
{
    assert forall|x: int, y: int| b.in_bounds(x, y) implies c.pixel(x, y) == b.pixel(x, y) by {
        assert(a.in_bounds(x, y) == b.in_bounds(x, y));
    }
}

/// The four corners of an axis-aligned rectangle, in drawing order, with a
/// horizontal top edge and a horizontal bottom edge.
pub open spec fn rectangle(left: i32, top: i32, right: i32, bottom: i32) -> Seq<Point> {
    seq![
        Point { x: left, y: top },
        Point { x: right, y: top },
        Point { x: right, y: bottom },
        Point { x: left, y: bottom },
    ]
}

/// A rectangle's two horizontal edges contribute no crossings; its two
/// vertical edges make every row from the top edge up to (but not including)
/// the bottom edge fill exactly the columns strictly inside the verticals,
/// shrunk by the one-pixel margin on each side.
pub proof fn lemma_rectangle_interior(left: i32, top: i32, right: i32, bottom: i32, x: int, y: int)
    requires
        left < right,
        top < bottom,
    ensures
        interior(rectangle(left, top, right, bottom), x, y) == (top <= y < bottom && left + 1
            <= x <= right - 1),
{
    let vs = rectangle(left, top, right, bottom);
    let t = crossings(vs, y);
    reveal_with_fuel(crossings_upto, 5);
    assert(vs.len() == 4);
    vstd::arithmetic::div_mod::lemma_small_mod(1nat, 4nat);
    vstd::arithmetic::div_mod::lemma_small_mod(2nat, 4nat);
    vstd::arithmetic::div_mod::lemma_small_mod(3nat, 4nat);
    vstd::arithmetic::div_mod::lemma_mod_self_0(4);
    assert(!edge_crosses(vs[0], vs[1], y));
    assert(!edge_crosses(vs[2], vs[3], y));
    assert(trunc_div(0, bottom as int - top as int) == 0);
    assert(trunc_div(0, top as int - bottom as int) == 0);
    if top <= y < bottom {
        assert(edge_crosses(vs[1], vs[2], y) && edge_crosses(vs[3], vs[0], y));
        assert((y - vs[1].y) * (vs[2].x - vs[1].x) == 0) by (nonlinear_arith)
            requires
                vs[2].x == vs[1].x,
        ;
        assert((y - vs[3].y) * (vs[0].x - vs[3].x) == 0) by (nonlinear_arith)
            requires
                vs[0].x == vs[3].x,
        ;
        assert(edge_x(vs[1], vs[2], y) == right as int);
        assert(edge_x(vs[3], vs[0], y) == left as int);
        assert(t =~= seq![right as int, left as int]);
        let s = seq![left as int, right as int];
        assert(s.to_multiset() == t.to_multiset()) by {
            broadcast use vstd::seq_lib::group_to_multiset_ensures;
            broadcast use vstd::multiset::group_multiset_axioms;

            assert(s =~= Seq::<int>::empty().push(left as int).push(right as int));
            assert(t =~= Seq::<int>::empty().push(right as int).push(left as int));
            assert(Seq::<int>::empty().push(left as int).push(right as int).to_multiset()
                =~= Seq::<int>::empty().push(right as int).push(left as int).to_multiset());
        }
        lemma_sorted_matches(s, t);
        assert(sorted_crossings(vs, y) == s);
        assert(interior(vs, x, y) == (left + 1 <= x <= right - 1)) by {
            if span_covered(s, x) {
                let j = choose|j: int| 0 <= j < s.len() && #[trigger] pair_covers(s, j, x);
                assert(j == 0);
            }
            if left + 1 <= x <= right - 1 {
                assert(pair_covers(s, 0, x));
                assert(span_covered_upto(s, x, s.len() as int));
            }
        }
    } else {
        assert(!edge_crosses(vs[1], vs[2], y));
        assert(!edge_crosses(vs[3], vs[0], y));
        assert(t =~= Seq::<int>::empty());
        t.lemma_sort_ensures();
        vstd::seq_lib::to_multiset_len(t);
        vstd::seq_lib::to_multiset_len(t.sort());
        assert(sorted_crossings(vs, y).len() == 0);
        assert(!interior(vs, x, y)) by {
            if span_covered(sorted_crossings(vs, y), x) {
                let j = choose|j: int|
                    0 <= j < sorted_crossings(vs, y).len() && #[trigger] pair_covers(
                        sorted_crossings(vs, y),
                        j,
                        x,
                    );
            }
        }
    }
}

} // verus!
