//! The line rasterizer: the pixels of a chord between two pegs, by integer
//! (Bresenham) stepping, scored and optionally drawn as they are visited.

use crate::grid::{grid_samples, in_grid, Grid};
use crate::peg::{peg_in, Peg};
use crate::score::{abs, checkpx, lemma_paint_elsewhere, lemma_pixel_score_bound, same_size, score_of, traced};
use vstd::arithmetic::div_mod::{lemma_fundamental_div_mod, lemma_fundamental_div_mod_converse, lemma_mod_pos_bound};
use vstd::prelude::*;

verus! {

/// How far the secondary coordinate has moved after `k` steps along the
/// primary axis, for a segment of primary extent `run` and secondary extent
/// `rise`: `rise * k / run` rounded to the nearest integer, halves down.
pub open spec fn offset(run: int, rise: int, k: int) -> int {
    if run == 0 {
        0
    } else {
        (2 * rise * k + run - 1) / (2 * run)
    }
}

/// `from` moved by `by` towards `to`.
pub open spec fn towards(from: int, to: int, by: int) -> int {
    if to < from {
        from - by
    } else {
        from + by
    }
}

/// The `k`-th pixel of a segment stepped along x, from `s` to `e` (`s.x <= e.x`).
pub open spec fn low_point(s: Peg, e: Peg, k: int) -> (int, int) {
    (s.x + k, towards(s.y as int, e.y as int, offset(e.x - s.x, abs(e.y - s.y), k)))
}

/// The `k`-th pixel of a segment stepped along y, from `s` to `e` (`s.y <= e.y`).
pub open spec fn high_point(s: Peg, e: Peg, k: int) -> (int, int) {
    (towards(s.x as int, e.x as int, offset(e.y - s.y, abs(e.x - s.x), k)), s.y + k)
}

/// The pixels of a segment stepped along x, one per column from `s.x` to `e.x`.
pub open spec fn low_points(s: Peg, e: Peg) -> Seq<(int, int)> {
    Seq::new((e.x - s.x + 1) as nat, |k: int| low_point(s, e, k))
}

/// The pixels of a segment stepped along y, one per row from `s.y` to `e.y`.
pub open spec fn high_points(s: Peg, e: Peg) -> Seq<(int, int)> {
    Seq::new((e.y - s.y + 1) as nat, |k: int| high_point(s, e, k))
}

/// Whether the chord from `a` to `b` is stepped along x.
pub open spec fn is_low(a: Peg, b: Peg) -> bool {
    abs(b.y - a.y) < abs(b.x - a.x)
}

/// The pixels of the chord between `a` and `b`, endpoints included, visited
/// in increasing order along the stepping axis.
pub open spec fn line_points(a: Peg, b: Peg) -> Seq<(int, int)> {
    if is_low(a, b) {
        if a.x < b.x {
            low_points(a, b)
        } else {
            low_points(b, a)
        }
    } else {
        if a.y < b.y {
            high_points(a, b)
        } else {
            high_points(b, a)
        }
    }
}

/// The bounds of the stepping offset: the decision variable's invariant.
proof fn lemma_offset_bounds(run: int, rise: int, k: int)
    requires
        0 <= rise <= run,
        0 < run,
        0 <= k,
    ensures
        2 * run * offset(run, rise, k) <= 2 * rise * k + run - 1 < 2 * run * offset(run, rise, k) + 2 * run,
        0 <= offset(run, rise, k),
        k <= run ==> offset(run, rise, k) <= rise,
        k == 0 ==> offset(run, rise, k) == 0,
{
    let n = 2 * rise * k + run - 1;
    let d = 2 * run;
    assert(n >= 0) by (nonlinear_arith)
        requires
            0 <= rise,
            0 < run,
            0 <= k,
            n == 2 * rise * k + run - 1,
    ;
    lemma_fundamental_div_mod(n, d);
    lemma_mod_pos_bound(n, d);
    let q = n / d;
    assert(q == offset(run, rise, k));
    assert(d * q == 2 * run * q) by (nonlinear_arith)
        requires
            d == 2 * run,
    ;
    assert(q >= 0) by (nonlinear_arith)
        requires
            n >= 0,
            d * q + n % d == n,
            n % d < d,
            d > 0,
    ;
    if k <= run {
        assert(q <= rise) by (nonlinear_arith)
            requires
                k <= run,
                0 <= rise,
                d * q <= n,
                n == 2 * rise * k + run - 1,
                d == 2 * run,
                run > 0,
        ;
    }
    if k == 0 {
        assert(q == 0) by (nonlinear_arith)
            requires
                q >= 0,
                d * q <= n,
                n == run - 1,
                d == 2 * run,
                run > 0,
        ;
    }
}

/// One step of the decision variable: the offset grows by one exactly when
/// the doubled error passes the half-pixel mark.
proof fn lemma_offset_next(run: int, rise: int, k: int)
    requires
        0 <= rise <= run,
        0 < run,
        0 <= k,
    ensures
        offset(run, rise, k + 1) == if 2 * run * offset(run, rise, k) + 2 * run < 2 * rise * (k + 1) + run {
            offset(run, rise, k) + 1
        } else {
            offset(run, rise, k)
        },
{
    lemma_offset_bounds(run, rise, k);
    let m = offset(run, rise, k);
    let n = 2 * rise * k + run - 1;
    let n2 = 2 * rise * (k + 1) + run - 1;
    assert(n2 == n + 2 * rise) by (nonlinear_arith)
        requires
            n2 == 2 * rise * (k + 1) + run - 1,
            n == 2 * rise * k + run - 1,
    ;
    let a = 2 * run * m;
    assert((m + 1) * (2 * run) == a + 2 * run && m * (2 * run) == a) by (nonlinear_arith)
        requires
            a == 2 * run * m,
    ;
    assert(n2 == (2 * rise * (k + 1) + run - 1));
    if a + 2 * run < 2 * rise * (k + 1) + run {
        lemma_fundamental_div_mod_converse(n2, 2 * run, m + 1, n2 - (a + 2 * run));
    } else {
        lemma_fundamental_div_mod_converse(n2, 2 * run, m, n2 - a);
    }
}

/// Scores the chord from `start` to `end`, stepping along x; in apply mode it
/// is also drawn.
pub fn line_low(src: &Grid, dst: &mut Grid, start: Peg, end: Peg, val: u8, apply: bool) -> (r: i64)
    requires
        start.x <= end.x,
        abs(end.y - start.y) <= end.x - start.x,
        peg_in(*src, start),
        peg_in(*src, end),
        same_size(*src, *old(dst)),
    ensures
        r == score_of(*src, grid_samples(*old(dst)), low_points(start, end), val),
        grid_samples(*final(dst)) == traced(grid_samples(*old(dst)), low_points(start, end), val, apply),
        same_size(*final(dst), *old(dst)),
        !apply ==> *final(dst) == *old(dst),
{
    let ghost d0 = *dst;
    let ghost pts = low_points(start, end);
    let dx: i64 = end.x as i64 - start.x as i64;
    let mut dy: i64 = end.y as i64 - start.y as i64;
    let mut yi: i64 = 1;
    if dy < 0 {
        yi = -1;
        dy = -dy;
    }
    let mut d: i64 = (2 * dy) - dx;
    let mut y: i64 = start.y as i64;
    let mut x: i64 = start.x as i64;
    let mut total: i64 = 0;
    proof {
        if dx > 0 {
            lemma_offset_bounds(dx as int, dy as int, 0);
            lemma_offset_bounds(dx as int, dy as int, dx as int);
        }
        assert(offset(dx as int, dy as int, 0) == 0);
        assert(2 * dx * offset(dx as int, dy as int, 0) == 0);
        assert(2 * dy * (x - start.x + 1) == 2 * dy) by (nonlinear_arith)
            requires
                x == start.x,
        ;
        assert(pts.take(0) =~= Seq::<(int, int)>::empty());
    }
    while x <= end.x as i64
        invariant
            start.x <= x <= end.x + 1,
            dx == end.x - start.x,
            dy == abs(end.y - start.y),
            0 <= dy <= dx,
            yi == if end.y < start.y { -1int } else { 1int },
            d == 2 * dy * (x - start.x + 1) - dx - 2 * dx * offset(dx as int, dy as int, x - start.x),
            y == towards(start.y as int, end.y as int, offset(dx as int, dy as int, x - start.x)),
            x <= end.x ==> in_grid(*src, x as int, y as int),
            pts == low_points(start, end),
            -255 * (x - start.x) <= total <= 255 * (x - start.x),
            total == score_of(*src, grid_samples(d0), pts.take(x - start.x), val),
            grid_samples(*dst) == traced(grid_samples(d0), pts.take(x - start.x), val, apply),
            same_size(*dst, d0),
            same_size(*src, d0),
            !apply ==> *dst == d0,
            peg_in(*src, start),
            peg_in(*src, end),
        decreases end.x + 1 - x,
    {
        let ghost k = x - start.x;
        proof {
            if dx > 0 {
                lemma_offset_bounds(dx as int, dy as int, k);
                lemma_offset_next(dx as int, dy as int, k);
                lemma_offset_bounds(dx as int, dy as int, k + 1);
            }
            assert(pts.take(k + 1).drop_last() =~= pts.take(k));
            assert(pts[k] == (x as int, y as int));
            assert(!pts.take(k).contains(pts[k])) by {
                if pts.take(k).contains(pts[k]) {
                    let i = choose|i: int| 0 <= i < k && pts.take(k)[i] == pts[k];
                    assert(pts[i].0 == start.x + i);
                }
            }
            if apply {
                lemma_paint_elsewhere(grid_samples(d0), pts.take(k), val, pts[k]);
            }
            lemma_pixel_score_bound(0, 0, val);
        }
        let s = checkpx(src, dst, x as u32, y as u32, val, apply);
        proof {
            lemma_pixel_score_bound(
                crate::grid::sample(*src, x as int, y as int),
                crate::grid::sample(d0, x as int, y as int),
                val,
            );
            if apply {
                assert(pts.take(k + 1).last() == pts[k]);
            }
        }
        total = total + s;
        let ghost m = offset(dx as int, dy as int, k);
        let ghost a = 2 * dx * m;
        proof {
            assert(2 * dy * (k + 2) == 2 * dy * (k + 1) + 2 * dy) by (nonlinear_arith);
            assert(2 * dx * (m + 1) == a + 2 * dx) by (nonlinear_arith)
                requires
                    a == 2 * dx * m,
            ;
        }
        if d > 0 {
            y = y + yi;
            d = d + (2 * (dy - dx));
        } else {
            d = d + (2 * dy);
        }
        x = x + 1;
        proof {
            let k1 = x - start.x;
            if k1 <= dx && dx > 0 {
                lemma_offset_bounds(dx as int, dy as int, k1);
            }
        }
    }
    proof {
        assert(pts.take(dx + 1) =~= pts);
    }
    total
}

/// Scores the chord from `start` to `end`, stepping along y; in apply mode it
/// is also drawn.
pub fn line_high(src: &Grid, dst: &mut Grid, start: Peg, end: Peg, val: u8, apply: bool) -> (r: i64)
    requires
        start.y <= end.y,
        abs(end.x - start.x) <= end.y - start.y,
        peg_in(*src, start),
        peg_in(*src, end),
        same_size(*src, *old(dst)),
    ensures
        r == score_of(*src, grid_samples(*old(dst)), high_points(start, end), val),
        grid_samples(*final(dst)) == traced(grid_samples(*old(dst)), high_points(start, end), val, apply),
        same_size(*final(dst), *old(dst)),
        !apply ==> *final(dst) == *old(dst),
{
    let ghost d0 = *dst;
    let ghost pts = high_points(start, end);
    let dy: i64 = end.y as i64 - start.y as i64;
    let mut dx: i64 = end.x as i64 - start.x as i64;
    let mut xi: i64 = 1;
    if dx < 0 {
        xi = -1;
        dx = -dx;
    }
    let mut d: i64 = (2 * dx) - dy;
    let mut x: i64 = start.x as i64;
    let mut y: i64 = start.y as i64;
    let mut total: i64 = 0;
    proof {
        if dy > 0 {
            lemma_offset_bounds(dy as int, dx as int, 0);
            lemma_offset_bounds(dy as int, dx as int, dy as int);
        }
        assert(offset(dy as int, dx as int, 0) == 0);
        assert(2 * dy * offset(dy as int, dx as int, 0) == 0);
        assert(2 * dx * (y - start.y + 1) == 2 * dx) by (nonlinear_arith)
            requires
                y == start.y,
        ;
        assert(pts.take(0) =~= Seq::<(int, int)>::empty());
    }
    while y <= end.y as i64
        invariant
            start.y <= y <= end.y + 1,
            dy == end.y - start.y,
            dx == abs(end.x - start.x),
            0 <= dx <= dy,
            xi == if end.x < start.x { -1int } else { 1int },
            d == 2 * dx * (y - start.y + 1) - dy - 2 * dy * offset(dy as int, dx as int, y - start.y),
            x == towards(start.x as int, end.x as int, offset(dy as int, dx as int, y - start.y)),
            y <= end.y ==> in_grid(*src, x as int, y as int),
            pts == high_points(start, end),
            -255 * (y - start.y) <= total <= 255 * (y - start.y),
            total == score_of(*src, grid_samples(d0), pts.take(y - start.y), val),
            grid_samples(*dst) == traced(grid_samples(d0), pts.take(y - start.y), val, apply),
            same_size(*dst, d0),
            same_size(*src, d0),
            !apply ==> *dst == d0,
            peg_in(*src, start),
            peg_in(*src, end),
        decreases end.y + 1 - y,
    {
        let ghost k = y - start.y;
        proof {
            if dy > 0 {
                lemma_offset_bounds(dy as int, dx as int, k);
                lemma_offset_next(dy as int, dx as int, k);
                lemma_offset_bounds(dy as int, dx as int, k + 1);
            }
            assert(pts.take(k + 1).drop_last() =~= pts.take(k));
            assert(pts[k] == (x as int, y as int));
            assert(!pts.take(k).contains(pts[k])) by {
                if pts.take(k).contains(pts[k]) {
                    let i = choose|i: int| 0 <= i < k && pts.take(k)[i] == pts[k];
                    assert(pts[i].1 == start.y + i);
                }
            }
            if apply {
                lemma_paint_elsewhere(grid_samples(d0), pts.take(k), val, pts[k]);
            }
            lemma_pixel_score_bound(0, 0, val);
        }
        let s = checkpx(src, dst, x as u32, y as u32, val, apply);
        proof {
            lemma_pixel_score_bound(
                crate::grid::sample(*src, x as int, y as int),
                crate::grid::sample(d0, x as int, y as int),
                val,
            );
            if apply {
                assert(pts.take(k + 1).last() == pts[k]);
            }
        }
        total = total + s;
        let ghost m = offset(dy as int, dx as int, k);
        let ghost a = 2 * dy * m;
        proof {
            assert(2 * dx * (k + 2) == 2 * dx * (k + 1) + 2 * dx) by (nonlinear_arith);
            assert(2 * dy * (m + 1) == a + 2 * dy) by (nonlinear_arith)
                requires
                    a == 2 * dy * m,
            ;
        }
        if d > 0 {
            x = x + xi;
            d = d + (2 * (dx - dy));
        } else {
            d = d + (2 * dx);
        }
        y = y + 1;
        proof {
            let k1 = y - start.y;
            if k1 <= dy && dy > 0 {
                lemma_offset_bounds(dy as int, dx as int, k1);
            }
        }
    }
    proof {
        assert(pts.take(dy + 1) =~= pts);
    }
    total
}

/// Scores the chord between `start` and `end`, whichever way round; in
/// apply mode it is also drawn onto `dst`.
pub fn get_line(src: &Grid, dst: &mut Grid, start: Peg, end: Peg, val: u8, apply: bool) -> (r: i64)
    requires
        peg_in(*src, start),
        peg_in(*src, end),
        same_size(*src, *old(dst)),
    ensures
        r == score_of(*src, grid_samples(*old(dst)), line_points(start, end), val),
        grid_samples(*final(dst)) == traced(grid_samples(*old(dst)), line_points(start, end), val, apply),
        same_size(*final(dst), *old(dst)),
        !apply ==> *final(dst) == *old(dst),
        -255 * line_points(start, end).len() <= r <= 255 * line_points(start, end).len(),
        line_points(start, end).len() <= 0x1_0000_0000,
{
    proof {
        lemma_score_bound(*src, grid_samples(*old(dst)), line_points(start, end), val);
    }
    let ady: i64 = if end.y >= start.y { end.y as i64 - start.y as i64 } else { start.y as i64 - end.y as i64 };
    let adx: i64 = if end.x >= start.x { end.x as i64 - start.x as i64 } else { start.x as i64 - end.x as i64 };
    if ady < adx {
        if start.x < end.x {
            line_low(src, dst, start, end, val, apply)
        } else {
            line_low(src, dst, end, start, val, apply)
        }
    } else {
        if start.y < end.y {
            line_high(src, dst, start, end, val, apply)
        } else {
            line_high(src, dst, end, start, val, apply)
        }
    }
}

/// A chord's score is at most 255 per pixel either way.
pub proof fn lemma_score_bound(src: Grid, m: Map<(int, int), u8>, pts: Seq<(int, int)>, v: u8)
    ensures
        -255 * pts.len() <= score_of(src, m, pts, v) <= 255 * pts.len(),
    decreases pts.len(),
{
    if pts.len() > 0 {
        lemma_score_bound(src, m, pts.drop_last(), v);
        let p = pts.last();
        lemma_pixel_score_bound(crate::grid::sample(src, p.0, p.1), m[p], v);
    }
}

/// The chord from `a` to `b` covers the same pixels, in the same order, as the
/// chord from `b` to `a`.
pub proof fn lemma_line_symmetric(a: Peg, b: Peg)
    ensures
        line_points(a, b) == line_points(b, a),
{
}

/// Every pixel of a segment stepped along x between two pixels of the grid
/// lies on the grid.
proof fn lemma_low_in_grid(g: Grid, s: Peg, e: Peg)
    requires
        peg_in(g, s),
        peg_in(g, e),
        s.x <= e.x,
        abs(e.y - s.y) <= e.x - s.x,
    ensures
        forall|i: int|
            0 <= i < low_points(s, e).len() ==> in_grid(g, #[trigger] low_points(s, e)[i].0, low_points(s, e)[i].1),
{
    assert forall|i: int| 0 <= i < low_points(s, e).len() implies in_grid(
        g,
        #[trigger] low_points(s, e)[i].0,
        low_points(s, e)[i].1,
    ) by {
        if e.x > s.x {
            lemma_offset_bounds(e.x - s.x, abs(e.y - s.y), i);
        }
    }
}

/// Every pixel of a segment stepped along y between two pixels of the grid
/// lies on the grid.
proof fn lemma_high_in_grid(g: Grid, s: Peg, e: Peg)
    requires
        peg_in(g, s),
        peg_in(g, e),
        s.y <= e.y,
        abs(e.x - s.x) <= e.y - s.y,
    ensures
        forall|i: int|
            0 <= i < high_points(s, e).len() ==> in_grid(g, #[trigger] high_points(s, e)[i].0, high_points(s, e)[i].1),
{
    assert forall|i: int| 0 <= i < high_points(s, e).len() implies in_grid(
        g,
        #[trigger] high_points(s, e)[i].0,
        high_points(s, e)[i].1,
    ) by {
        if e.y > s.y {
            lemma_offset_bounds(e.y - s.y, abs(e.x - s.x), i);
        }
    }
}

/// Every pixel of a chord between two pegs of the grid lies on the grid.
pub proof fn lemma_line_in_grid(g: Grid, a: Peg, b: Peg)
    requires
        peg_in(g, a),
        peg_in(g, b),
    ensures
        forall|i: int|
            0 <= i < line_points(a, b).len() ==> in_grid(g, #[trigger] line_points(a, b)[i].0, line_points(a, b)[i].1),
{
    if is_low(a, b) {
        if a.x < b.x {
            lemma_low_in_grid(g, a, b);
        } else {
            lemma_low_in_grid(g, b, a);
        }
    } else {
        if a.y < b.y {
            lemma_high_in_grid(g, a, b);
        } else {
            lemma_high_in_grid(g, b, a);
        }
    }
}

} // verus!
