//! The pixels of a bullet: a midpoint circle outline, computed in integers.

use vstd::prelude::*;

verus! {

/// The radius, in pixels, of a bullet's outline.
pub const RADIUS: u32 = 10;

/// The eight points that mirror the offset `(rx, ry)` through the axes and
/// diagonals around the centre `(cx, cy)`, in the order they are drawn.
pub open spec fn octant_points(cx: int, cy: int, rx: int, ry: int) -> Seq<(i32, i32)> {
    seq![
        ((rx + cx) as i32, (ry + cy) as i32),
        ((-rx + cx) as i32, (ry + cy) as i32),
        ((rx + cx) as i32, (-ry + cy) as i32),
        ((-rx + cx) as i32, (-ry + cy) as i32),
        ((ry + cx) as i32, (rx + cy) as i32),
        ((-ry + cx) as i32, (rx + cy) as i32),
        ((ry + cx) as i32, (-rx + cy) as i32),
        ((-ry + cx) as i32, (-rx + cy) as i32),
    ]
}

/// The points of the midpoint circle algorithm from the state `(t1, rx, ry)`
/// on: while `rx >= ry`, the eight mirror images of `(rx, ry)`, then `ry`
/// steps up by one, `t1` grows by the new `ry`, and where `t1 - rx` is not
/// negative `t1` becomes that difference and `rx` steps down by one.
pub open spec fn circle_from(cx: int, cy: int, t1: int, rx: int, ry: int) -> Seq<(i32, i32)>
    decreases rx - ry + 2,
{
    if rx < ry {
        seq![]
    } else {
        let ny = ry + 1;
        let nt = t1 + ny;
        if nt - rx >= 0 {
            octant_points(cx, cy, rx, ry) + circle_from(cx, cy, nt - rx, rx - 1, ny)
        } else {
            octant_points(cx, cy, rx, ry) + circle_from(cx, cy, nt, rx, ny)
        }
    }
}

/// The outline of the circle of `radius` around `(cx, cy)`: the algorithm
/// starts from `t1 = radius / 16`, `rx = radius`, `ry = 0`. A radius beyond
/// `i32::MAX` turns negative in the game's `as i32`, which draws nothing.
pub open spec fn circle_outline(cx: int, cy: int, radius: nat) -> Seq<(i32, i32)> {
    if radius > i32::MAX {
        seq![]
    } else {
        circle_from(cx, cy, (radius / 16) as int, radius as int, 0)
    }
}

/// The error term `t1` never overflows `i32` in the run from `(t1, rx, ry)`:
/// at every step that draws (`rx >= ry`), `t1` plus the next `ry` is at most
/// `i32::MAX`. Where it is not, the game's `t1 + rel_y` overflows.
pub open spec fn error_term_fits(t1: int, rx: int, ry: int) -> bool
    decreases rx - ry + 2,
{
    if rx < ry {
        true
    } else {
        let ny = ry + 1;
        let nt = t1 + ny;
        nt <= i32::MAX && if nt - rx >= 0 {
            error_term_fits(nt - rx, rx - 1, ny)
        } else {
            error_term_fits(nt, rx, ny)
        }
    }
}

/// The outline of a circle of `radius` is computed without overflowing its
/// error term (a radius beyond `i32::MAX` draws nothing at all).
pub open spec fn outline_fits(radius: nat) -> bool {
    radius > i32::MAX || error_term_fits((radius / 16) as int, radius as int, 0)
}

/// The `k`-th group of eight points of `s` is the mirror image, around
/// `(cx, cy)`, of one offset `(a, b)` with `r >= a >= b >= 0`.
pub open spec fn is_octant_group(s: Seq<(i32, i32)>, cx: int, cy: int, r: int, k: int) -> bool {
    exists|a: int, b: int|
        0 <= b <= a <= r && s.subrange(8 * k, 8 * k + 8) == octant_points(cx, cy, a, b)
}

/// The pixels of the outline of a circle of `radius` around `(x, y)`, in
/// the order the game draws them: groups of eight, one group for each offset
/// the algorithm visits, at most `radius + 1` groups, every pixel within
/// `radius` of the centre along both axes.
pub fn circle_points(x: i32, y: i32, radius: u32) -> (points: Vec<(i32, i32)>)
    requires
        outline_fits(radius as nat),
        radius <= i32::MAX ==> i32::MIN + radius <= x <= i32::MAX - radius,
        radius <= i32::MAX ==> i32::MIN + radius <= y <= i32::MAX - radius,
    ensures
        points@ == circle_outline(x as int, y as int, radius as nat),
        points@.len() % 8 == 0,
        radius <= i32::MAX ==> points@.len() <= 8 * (radius + 1),
        radius > i32::MAX ==> points@.len() == 0,
        forall|k: int|
            0 <= k < points@.len() / 8 ==> #[trigger] is_octant_group(
                points@,
                x as int,
                y as int,
                radius as int,
                k,
            ),
        forall|i: int|
            0 <= i < points@.len() ==> x - radius <= #[trigger] points@[i].0 <= x + radius && y
                - radius <= points@[i].1 <= y + radius,
{
    let mut points: Vec<(i32, i32)> = Vec::new();
    if radius > 0x7fff_ffff {
        return points;
    }
    let r = radius as i32;
    let mut t1: i32 = r / 16;
    let mut rel_x: i32 = r;
    let mut rel_y: i32 = 0;
    while rel_x >= rel_y
        invariant
            0 <= r,
            r == radius,
            i32::MIN + r <= x <= i32::MAX - r,
            i32::MIN + r <= y <= i32::MAX - r,
            0 <= rel_y,
            rel_x <= r,
            rel_x >= rel_y - 2,
            0 <= t1,
            error_term_fits(t1 as int, rel_x as int, rel_y as int),
            points@ + circle_from(x as int, y as int, t1 as int, rel_x as int, rel_y as int)
                == circle_outline(x as int, y as int, radius as nat),
        decreases rel_x - rel_y + 2,
    {
        let ghost before = points@;
        points.push((rel_x + x, rel_y + y));
        points.push((-rel_x + x, rel_y + y));
        points.push((rel_x + x, -rel_y + y));
        points.push((-rel_x + x, -rel_y + y));
        points.push((rel_y + x, rel_x + y));
        points.push((-rel_y + x, rel_x + y));
        points.push((rel_y + x, -rel_x + y));
        points.push((-rel_y + x, -rel_x + y));
        assert(points@ == before + octant_points(x as int, y as int, rel_x as int, rel_y as int));
        rel_y += 1;
        t1 = t1 + rel_y;
        let t2 = t1 - rel_x;
        if t2 >= 0 {
            t1 = t2;
            rel_x = rel_x - 1;
        }
    }
    proof {
        let s = circle_outline(x as int, y as int, radius as nat);
        lemma_from_shape(x as int, y as int, (radius / 16) as int, radius as int, 0, radius as int);
        assert forall|i: int| 0 <= i < s.len() implies x - radius <= #[trigger] s[i].0 <= x
            + radius && y - radius <= s[i].1 <= y + radius by {
            lemma_outline_bounded(x as int, y as int, radius as nat, i);
        }
    }
    points
}

/// Whether the outline of a circle of `radius` can be computed without
/// overflowing its error term.
pub fn circle_fits(radius: u32) -> (b: bool)
    ensures
        b == outline_fits(radius as nat),
{
    if radius > 0x7fff_ffff {
        return true;
    }
    let r = radius as i64;
    let mut t1: i64 = r / 16;
    let mut rel_x: i64 = r;
    let mut rel_y: i64 = 0;
    while rel_x >= rel_y
        invariant
            0 <= r <= i32::MAX,
            r == radius,
            0 <= rel_y,
            rel_x <= r,
            rel_x >= rel_y - 2,
            0 <= t1 <= i32::MAX,
            outline_fits(r as nat) == error_term_fits(t1 as int, rel_x as int, rel_y as int),
        decreases rel_x - rel_y + 2,
    {
        let next_y = rel_y + 1;
        let next_t = t1 + next_y;
        if next_t > 0x7fff_ffff {
            return false;
        }
        if next_t - rel_x >= 0 {
            t1 = next_t - rel_x;
            rel_x = rel_x - 1;
        } else {
            t1 = next_t;
        }
        rel_y = next_y;
    }
    true
}

/// A radius up to `1_518_500_247` (about `i32::MAX / sqrt 2`: the largest `r`
/// with `2 r^2 + 4 r <= (i32::MAX - 1)^2`) never overflows the error term.
pub proof fn lemma_outline_fits(radius: nat)
    requires
        radius <= 1_518_500_247,
    ensures
        outline_fits(radius),
{
    let r = radius as int;
    assert(2 * r * r + 4 * r <= (i32::MAX - 1) * (i32::MAX - 1)) by (nonlinear_arith)
        requires
            0 <= r <= 1_518_500_247,
    ;
    assert(2 * (r / 16) == 2 * (r / 16) + 0 * 0 + 0 + r * r + r - r * r - r);
    lemma_error_term_fits_from(r, r / 16, r, 0);
}

/// Along the run, `2 t1 = 2 (r / 16) + ry^2 + ry + rx^2 + rx - r^2 - r`, and
/// `0 <= t1 <= rx` while the run draws; so `rx^2 + ry^2 <= r^2 + 2 r`, and the
/// error term stays below `rx + ry + 1 <= sqrt(2 r^2 + 4 r) + 1`.
proof fn lemma_error_term_fits_from(r: int, t1: int, x: int, y: int)
    requires
        0 <= r <= i32::MAX,
        2 * r * r + 4 * r <= (i32::MAX - 1) * (i32::MAX - 1),
        2 * t1 == 2 * (r / 16) + y * y + y + x * x + x - r * r - r,
        0 <= t1,
        0 <= y,
        x <= r,
        x >= y - 2,
        x >= y ==> t1 <= x,
    ensures
        error_term_fits(t1, x, y),
    decreases x - y + 2,
{
    if x >= y {
        assert(x * x + y * y <= r * r + 2 * r) by (nonlinear_arith)
            requires
                2 * t1 == 2 * (r / 16) + y * y + y + x * x + x - r * r - r,
                0 <= r / 16,
                t1 <= x,
                x <= r,
                0 <= y,
        ;
        assert((x + y) * (x + y) <= 2 * (x * x + y * y)) by (nonlinear_arith);
        assert((x + y) * (x + y) <= 0x7fff_fffe * 0x7fff_fffe) by (nonlinear_arith)
            requires
                (x + y) * (x + y) <= 2 * (x * x + y * y),
                x * x + y * y <= r * r + 2 * r,
                2 * r * r + 4 * r <= (i32::MAX - 1) * (i32::MAX - 1),
        ;
        assert(x + y <= 0x7fff_fffe) by (nonlinear_arith)
            requires
                0 <= x,
                0 <= y,
                (x + y) * (x + y) <= 0x7fff_fffe * 0x7fff_fffe,
        ;
        let ny = y + 1;
        let nt = t1 + ny;
        assert((y + 1) * (y + 1) == y * y + 2 * y + 1) by (nonlinear_arith);
        if nt - x >= 0 {
            assert((x - 1) * (x - 1) == x * x - 2 * x + 1) by (nonlinear_arith);
            lemma_error_term_fits_from(r, nt - x, x - 1, ny);
        } else {
            lemma_error_term_fits_from(r, nt, x, ny);
        }
    }
}

/// The shape of the run from `(t1, rx, ry)`: whole groups of eight, at most
/// `rx - ry + 1` of them, each the mirror image of an offset `(a, b)` with
/// `r >= a >= b >= 0`.
proof fn lemma_from_shape(cx: int, cy: int, t1: int, rx: int, ry: int, r: int)
    requires
        rx <= r,
        0 <= ry,
        rx >= ry - 2,
    ensures
        circle_from(cx, cy, t1, rx, ry).len() % 8 == 0,
        rx >= ry ==> circle_from(cx, cy, t1, rx, ry).len() <= 8 * (rx - ry + 1),
        rx < ry ==> circle_from(cx, cy, t1, rx, ry).len() == 0,
        forall|k: int|
            0 <= k < circle_from(cx, cy, t1, rx, ry).len() / 8 ==> #[trigger] is_octant_group(
                circle_from(cx, cy, t1, rx, ry),
                cx,
                cy,
                r,
                k,
            ),
    decreases rx - ry + 2,
{
    if rx >= ry {
        let ny = ry + 1;
        let nt = t1 + ny;
        let (t1n, rxn) = if nt - rx >= 0 {
            (nt - rx, rx - 1)
        } else {
            (nt, rx)
        };
        lemma_from_shape(cx, cy, t1n, rxn, ny, r);
        let s = circle_from(cx, cy, t1, rx, ry);
        let rest = circle_from(cx, cy, t1n, rxn, ny);
        let oct = octant_points(cx, cy, rx, ry);
        assert(s == oct + rest);
        assert(s.len() == 8 + rest.len());
        assert(s.len() / 8 == 1 + rest.len() / 8);
        assert forall|k: int| 0 <= k < s.len() / 8 implies #[trigger] is_octant_group(
            s,
            cx,
            cy,
            r,
            k,
        ) by {
            if k == 0 {
                assert(s.subrange(0, 8) == oct);
                assert(0 <= ry <= rx <= r && s.subrange(8 * k, 8 * k + 8) == octant_points(
                    cx,
                    cy,
                    rx,
                    ry,
                ));
            } else {
                assert(is_octant_group(rest, cx, cy, r, k - 1));
                let (a, b) = choose|a: int, b: int|
                    0 <= b <= a <= r && rest.subrange(8 * (k - 1), 8 * (k - 1) + 8)
                        == octant_points(cx, cy, a, b);
                assert(s.subrange(8 * k, 8 * k + 8) == rest.subrange(8 * (k - 1), 8 * (k - 1) + 8));
            }
        }
    }
}

/// Every pixel of the outline lies within `radius` of the centre along
/// both axes.
pub proof fn lemma_outline_bounded(cx: int, cy: int, radius: nat, i: int)
    requires
        radius <= i32::MAX,
        i32::MIN + radius <= cx <= i32::MAX - radius,
        i32::MIN + radius <= cy <= i32::MAX - radius,
        0 <= i < circle_outline(cx, cy, radius).len(),
    ensures
        cx - radius <= circle_outline(cx, cy, radius)[i].0 <= cx + radius,
        cy - radius <= circle_outline(cx, cy, radius)[i].1 <= cy + radius,
{
    lemma_from_bounded(cx, cy, (radius / 16) as int, radius as int, 0, radius as int, i);
}

proof fn lemma_from_bounded(cx: int, cy: int, t1: int, rx: int, ry: int, r: int, i: int)
    requires
        0 <= r <= i32::MAX,
        i32::MIN + r <= cx <= i32::MAX - r,
        i32::MIN + r <= cy <= i32::MAX - r,
        rx <= r,
        0 <= ry,
        0 <= i < circle_from(cx, cy, t1, rx, ry).len(),
    ensures
        cx - r <= circle_from(cx, cy, t1, rx, ry)[i].0 <= cx + r,
        cy - r <= circle_from(cx, cy, t1, rx, ry)[i].1 <= cy + r,
    decreases rx - ry + 2,
{
    if rx >= ry {
        let ny = ry + 1;
        let nt = t1 + ny;
        let oct = octant_points(cx, cy, rx, ry);
        if i >= 8 {
            if nt - rx >= 0 {
                lemma_from_bounded(cx, cy, nt - rx, rx - 1, ny, r, i - 8);
            } else {
                lemma_from_bounded(cx, cy, nt, rx, ny, r, i - 8);
            }
        }
    }
}

} // verus!
