//! The error scorer: how much drawing over a pixel moves the canvas
//! towards the target.

use crate::grid::{grid_height, grid_samples, grid_width, in_grid, sample, Grid};
use vstd::prelude::*;

verus! {

/// A canvas sample after `v` more ink, clamped at 255.
pub open spec fn sat_add(c: u8, v: u8) -> u8 {
    if c + v > 255 {
        255
    } else {
        (c + v) as u8
    }
}

/// The absolute value of an integer.
pub open spec fn abs(v: int) -> int {
    if v < 0 {
        -v
    } else {
        v
    }
}

/// How much closer to target `t` a canvas sample `c` comes when `v` is added:
/// positive where it approaches, negative where it moves away.
pub open spec fn pixel_score(t: u8, c: u8, v: u8) -> int {
    abs(c - t) - abs(sat_add(c, v) - t)
}

/// The summed score of drawing over each of `pts` on canvas `m`, against
/// target `src`, none of the draws being kept.
pub open spec fn score_of(src: Grid, m: Map<(int, int), u8>, pts: Seq<(int, int)>, v: u8) -> int
    decreases pts.len(),
{
    if pts.len() == 0 {
        0
    } else {
        let p = pts.last();
        score_of(src, m, pts.drop_last(), v) + pixel_score(sample(src, p.0, p.1), m[p], v)
    }
}

/// Canvas `m` after `v` has been added at each of `pts` in turn.
pub open spec fn paint(m: Map<(int, int), u8>, pts: Seq<(int, int)>, v: u8) -> Map<(int, int), u8>
    decreases pts.len(),
{
    if pts.len() == 0 {
        m
    } else {
        let q = paint(m, pts.drop_last(), v);
        q.insert(pts.last(), sat_add(q[pts.last()], v))
    }
}

/// The canvas after a chord over `pts`: painted in apply mode, untouched in
/// a dry run.
pub open spec fn traced(m: Map<(int, int), u8>, pts: Seq<(int, int)>, v: u8, apply: bool) -> Map<
    (int, int),
    u8,
> {
    if apply {
        paint(m, pts, v)
    } else {
        m
    }
}

/// Whether two grids have the same dimensions.
pub open spec fn same_size(a: Grid, b: Grid) -> bool {
    grid_width(a) == grid_width(b) && grid_height(a) == grid_height(b)
}

/// A pixel's score is at most 255 either way.
pub proof fn lemma_pixel_score_bound(t: u8, c: u8, v: u8)
    ensures
        -255 <= pixel_score(t, c, v) <= 255,
{
}

/// Painting leaves every pixel off the drawn points as it was.
pub proof fn lemma_paint_elsewhere(m: Map<(int, int), u8>, pts: Seq<(int, int)>, v: u8, k: (int, int))
    requires
        !pts.contains(k),
    ensures
        paint(m, pts, v)[k] == m[k],
    decreases pts.len(),
{
    if pts.len() > 0 {
        assert(pts.drop_last().contains(k) ==> pts.contains(k)) by {
            if pts.drop_last().contains(k) {
                let i = choose|i: int| 0 <= i < pts.drop_last().len() && pts.drop_last()[i] == k;
                assert(pts[i] == k);
            }
        }
        lemma_paint_elsewhere(m, pts.drop_last(), v, k);
    }
}

/// Drawing a chord never lowers a canvas sample, and every sample stays at
/// most 255.
pub proof fn lemma_paint_monotone(m: Map<(int, int), u8>, pts: Seq<(int, int)>, v: u8, k: (int, int))
    ensures
        m[k] <= paint(m, pts, v)[k] <= 255,
    decreases pts.len(),
{
    if pts.len() > 0 {
        lemma_paint_monotone(m, pts.drop_last(), v, k);
    }
}

/// A dry run leaves the canvas as it was, so a second dry run of the same
/// chord scores the same as the first.
pub proof fn lemma_dry_run_repeatable(src: Grid, m: Map<(int, int), u8>, pts: Seq<(int, int)>, v: u8)
    ensures
        traced(m, pts, v, false) == m,
        score_of(src, traced(m, pts, v, false), pts, v) == score_of(src, m, pts, v),
{
}

/// Scores the pixel `(x, y)` for `v` more ink, against target `src`; in apply
/// mode the ink is also added to `dst`.
pub fn checkpx(src: &Grid, dst: &mut Grid, x: u32, y: u32, val: u8, apply: bool) -> (r: i64)
    requires
        in_grid(*src, x as int, y as int),
        in_grid(*old(dst), x as int, y as int),
    ensures
        r == pixel_score(sample(*src, x as int, y as int), sample(*old(dst), x as int, y as int), val),
        apply ==> grid_samples(*final(dst)) == grid_samples(*old(dst)).insert(
            (x as int, y as int),
            sat_add(sample(*old(dst), x as int, y as int), val),
        ),
        same_size(*final(dst), *old(dst)),
        !apply ==> *final(dst) == *old(dst),
{
    let spx = src.get(x, y);
    let dpx = dst.get(x, y);
    let newpx = match dpx.checked_add(val) {
        None => u8::MAX,
        Some(v) => v,
    };
    let old_dif = if dpx >= spx { dpx as i64 - spx as i64 } else { spx as i64 - dpx as i64 };
    let new_dif = if newpx >= spx { newpx as i64 - spx as i64 } else { spx as i64 - newpx as i64 };
    if apply {
        dst.put(x, y, newpx);
    }
    old_dif - new_dif
}

} // verus!
