//! The path search: a bounded-depth brute force over chains of chords, each
//! scored as a dry run against the canvas.

use crate::grid::{grid_samples, Grid};
use crate::peg::{peg_in, pegs_in, Peg};
use crate::raster::{get_line, lemma_score_bound, line_points};
use crate::score::{pixel_score, same_size, score_of};
use vstd::prelude::*;

verus! {

/// The deepest lookahead a search accepts: enough for any tractable run,
/// and small enough that every summed score fits in an `i64`.
pub const MAX_DEPTH: usize = 1_000_000;

/// The largest magnitude of one chord's score: 255 per pixel, at most 2^32 pixels.
pub open spec fn chord_bound() -> int {
    255int * 0x1_0000_0000int
}

/// The four border lines of the image.
#[derive(Clone, Copy, Debug, PartialEq, Eq, Structural)]
pub struct Frame {
    pub left: i32,
    pub top: i32,
    pub right: i32,
    pub bottom: i32,
}

/// Whether `a` and `b` lie on one and the same border line.
pub open spec fn same_edge(a: Peg, b: Peg, f: Frame) -> bool {
    (a.x == f.left && b.x == f.left) || (a.x == f.right && b.x == f.right) || (a.y == f.top && b.y
        == f.top) || (a.y == f.bottom && b.y == f.bottom)
}

/// The dry-run score of the chord between `a` and `b` on canvas `m`.
pub open spec fn chord_score(src: Grid, m: Map<(int, int), u8>, a: Peg, b: Peg, v: u8) -> int {
    score_of(src, m, line_points(a, b), v)
}

/// The best chain of chords from `cur`, of at most `maxdepth - depth`
/// chords, with its summed score; the empty chain scores 0.
pub open spec fn best_path(
    src: Grid,
    m: Map<(int, int), u8>,
    pegs: Seq<Peg>,
    cur: Peg,
    v: u8,
    depth: int,
    maxdepth: int,
    f: Frame,
) -> (int, Seq<Peg>)
    decreases maxdepth - depth, pegs.len() + 1,
{
    if depth >= maxdepth {
        (0, Seq::empty())
    } else {
        best_among(src, m, pegs, cur, v, depth, maxdepth, f, pegs.len() as int)
    }
}

/// The best chain from `cur` whose first peg is among the first `n` of
/// `pegs`; a later candidate replaces an earlier one only on a strictly
/// higher score, and only a positive score replaces the empty chain.
pub open spec fn best_among(
    src: Grid,
    m: Map<(int, int), u8>,
    pegs: Seq<Peg>,
    cur: Peg,
    v: u8,
    depth: int,
    maxdepth: int,
    f: Frame,
    n: int,
) -> (int, Seq<Peg>)
    decreases maxdepth - depth, n,
{
    if n <= 0 || depth >= maxdepth || n > pegs.len() {
        (0, Seq::empty())
    } else {
        let prev = best_among(src, m, pegs, cur, v, depth, maxdepth, f, n - 1);
        let p = pegs[n - 1];
        if same_edge(cur, p, f) {
            prev
        } else {
            let sub = best_path(src, m, pegs, p, v, depth + 1, maxdepth, f);
            let e = chord_score(src, m, cur, p, v) + sub.0;
            if e > prev.0 {
                (e, seq![p] + sub.1)
            } else {
                prev
            }
        }
    }
}

/// Whether `path` is a chain from `cur` over pegs of `pegs` in which no chord
/// joins two pegs of one border line.
pub open spec fn chain_ok(cur: Peg, path: Seq<Peg>, pegs: Seq<Peg>, f: Frame) -> bool {
    forall|i: int|
        0 <= i < path.len() ==> pegs.contains(#[trigger] path[i]) && !same_edge(
            if i == 0 {
                cur
            } else {
                path[i - 1]
            },
            path[i],
            f,
        )
}

/// What every search result satisfies: a score between 0 and its bound, a
/// chain of at most `maxdepth - depth` chords that avoids same-edge chords,
/// and an empty chain exactly when the score is 0.
pub proof fn lemma_best_path_facts(
    src: Grid,
    m: Map<(int, int), u8>,
    pegs: Seq<Peg>,
    cur: Peg,
    v: u8,
    depth: int,
    maxdepth: int,
    f: Frame,
)
    ensures
        ({
            let r = best_path(src, m, pegs, cur, v, depth, maxdepth, f);
            &&& 0 <= r.0
            &&& depth < maxdepth ==> r.0 <= (maxdepth - depth) * chord_bound()
            &&& r.1.len() <= if depth < maxdepth { maxdepth - depth } else { 0 }
            &&& (r.0 == 0 <==> r.1.len() == 0)
            &&& chain_ok(cur, r.1, pegs, f)
        }),
    decreases maxdepth - depth, pegs.len() + 1,
{
    if depth < maxdepth {
        lemma_best_among_facts(src, m, pegs, cur, v, depth, maxdepth, f, pegs.len() as int);
    }
}

/// The same facts for the best chain over the first `n` candidates.
pub proof fn lemma_best_among_facts(
    src: Grid,
    m: Map<(int, int), u8>,
    pegs: Seq<Peg>,
    cur: Peg,
    v: u8,
    depth: int,
    maxdepth: int,
    f: Frame,
    n: int,
)
    requires
        depth < maxdepth,
    ensures
        ({
            let r = best_among(src, m, pegs, cur, v, depth, maxdepth, f, n);
            &&& 0 <= r.0 <= (maxdepth - depth) * chord_bound()
            &&& r.1.len() <= maxdepth - depth
            &&& (r.0 == 0 <==> r.1.len() == 0)
            &&& chain_ok(cur, r.1, pegs, f)
        }),
    decreases maxdepth - depth, n,
{
    if n <= 0 || n > pegs.len() {
        assert(0 <= (maxdepth - depth) * chord_bound()) by (nonlinear_arith)
            requires
                depth < maxdepth,
        ;
    } else {
        lemma_best_among_facts(src, m, pegs, cur, v, depth, maxdepth, f, n - 1);
        let prev = best_among(src, m, pegs, cur, v, depth, maxdepth, f, n - 1);
        let p = pegs[n - 1];
        if !same_edge(cur, p, f) {
            let sub = best_path(src, m, pegs, p, v, depth + 1, maxdepth, f);
            lemma_best_path_facts(src, m, pegs, p, v, depth + 1, maxdepth, f);
            lemma_score_bound(src, m, line_points(cur, p), v);
            lemma_line_len(cur, p);
            let c = chord_score(src, m, cur, p, v);
            let e = c + sub.0;
            if e > prev.0 {
                assert(c <= chord_bound()) by (nonlinear_arith)
                    requires
                        c <= 255 * line_points(cur, p).len(),
                        line_points(cur, p).len() <= 0x1_0000_0000,
                ;
                assert(e <= (maxdepth - depth) * chord_bound()) by (nonlinear_arith)
                    requires
                        e == c + sub.0,
                        c <= chord_bound(),
                        depth + 1 < maxdepth ==> sub.0 <= (maxdepth - depth - 1) * chord_bound(),
                        depth + 1 >= maxdepth ==> sub.0 == 0,
                        depth < maxdepth,
                ;
                let path = seq![p] + sub.1;
                assert(pegs.contains(p)) by {
                    assert(pegs[n - 1] == p);
                }
                assert forall|i: int| 0 <= i < path.len() implies pegs.contains(#[trigger] path[i])
                    && !same_edge(
                    if i == 0 {
                        cur
                    } else {
                        path[i - 1]
                    },
                    path[i],
                    f,
                ) by {
                    if i > 0 {
                        assert(path[i] == sub.1[i - 1]);
                        if i > 1 {
                            assert(path[i - 1] == sub.1[i - 2]);
                        }
                    }
                }
            }
        }
    }
}

/// Every chord covers at most 2^32 pixels.
proof fn lemma_line_len(a: Peg, b: Peg)
    ensures
        line_points(a, b).len() <= 0x1_0000_0000,
{
}

/// Searches, from `current`, every chain of at most `maxdepth - depth`
/// chords and returns the best one with its score, all as dry runs: `dst`
/// is left as it was.
pub fn best_lines(
    src: &Grid,
    dst: &mut Grid,
    pegs: &Vec<Peg>,
    current: Peg,
    linecolor: u8,
    depth: usize,
    maxdepth: usize,
    constraints: Frame,
) -> (r: (i64, Vec<Peg>))
    requires
        pegs_in(*src, pegs@),
        peg_in(*src, current),
        same_size(*src, *old(dst)),
        maxdepth <= MAX_DEPTH,
    ensures
        (r.0 as int, r.1@) == best_path(
            *src,
            grid_samples(*old(dst)),
            pegs@,
            current,
            linecolor,
            depth as int,
            maxdepth as int,
            constraints,
        ),
        *final(dst) == *old(dst),
        chain_ok(current, r.1@, pegs@, constraints),
        r.0 >= 0,
        r.0 == 0 <==> r.1@.len() == 0,
        linecolor == 0 ==> r.0 == 0 && r.1@.len() == 0,
    decreases maxdepth - depth,
{
    let ghost m = grid_samples(*dst);
    let ghost d0 = *dst;
    proof {
        lemma_best_path_facts(*src, m, pegs@, current, linecolor, depth as int, maxdepth as int, constraints);
        if linecolor == 0 {
            lemma_zero_intensity_no_gain(*src, m, pegs@, current, depth as int, maxdepth as int, constraints);
        }
    }
    if depth >= maxdepth {
        return (0, Vec::new());
    }
    let mut best_err: i64 = 0;
    let mut best_pegs: Vec<Peg> = Vec::new();
    let mut i: usize = 0;
    while i < pegs.len()
        invariant
            0 <= i <= pegs.len(),
            depth < maxdepth <= MAX_DEPTH,
            *dst == d0,
            m == grid_samples(d0),
            pegs_in(*src, pegs@),
            peg_in(*src, current),
            same_size(*src, d0),
            (best_err as int, best_pegs@) == best_among(
                *src,
                m,
                pegs@,
                current,
                linecolor,
                depth as int,
                maxdepth as int,
                constraints,
                i as int,
            ),
        decreases pegs.len() - i,
    {
        let p = pegs[i];
        let ghost prev = best_among(
            *src,
            m,
            pegs@,
            current,
            linecolor,
            depth as int,
            maxdepth as int,
            constraints,
            i as int,
        );
        proof {
            assert(peg_in(*src, pegs@[i as int]));
        }
        if current.x == constraints.left && p.x == constraints.left || current.x == constraints.right
            && p.x == constraints.right || current.y == constraints.top && p.y == constraints.top
            || current.y == constraints.bottom && p.y == constraints.bottom {
            i = i + 1;
            continue;
        }
        let err = get_line(src, dst, current, p, linecolor, false);
        let (rerr, mut pegpath) = best_lines(
            src,
            dst,
            pegs,
            p,
            linecolor,
            depth + 1,
            maxdepth,
            constraints,
        );
        proof {
            lemma_best_path_facts(
                *src,
                m,
                pegs@,
                p,
                linecolor,
                depth + 1,
                maxdepth as int,
                constraints,
            );
            let c = err as int;
            assert(c <= chord_bound() && c >= -chord_bound()) by (nonlinear_arith)
                requires
                    -255 * line_points(current, p).len() <= c <= 255 * line_points(current, p).len(),
                    line_points(current, p).len() <= 0x1_0000_0000,
            ;
            assert(rerr + c <= MAX_DEPTH * chord_bound()) by (nonlinear_arith)
                requires
                    c <= chord_bound(),
                    depth + 1 < maxdepth ==> rerr <= (maxdepth - depth - 1) * chord_bound(),
                    depth + 1 >= maxdepth ==> rerr == 0,
                    depth < maxdepth <= MAX_DEPTH,
            ;
        }
        let err = err + rerr;
        if err > best_err {
            best_err = err;
            best_pegs = vec![p];
            best_pegs.append(&mut pegpath);
        }
        i = i + 1;
        proof {
            assert(pegs@[i - 1] == p);
        }
    }
    proof {
        assert(pegs@.len() == i);
    }
    (best_err, best_pegs)
}

/// A chord over pixels that each score at most 0 scores at most 0.
proof fn lemma_score_nonpositive(src: Grid, m: Map<(int, int), u8>, pts: Seq<(int, int)>, v: u8)
    requires
        forall|p: (int, int)| pixel_score(#[trigger] crate::grid::sample(src, p.0, p.1), m[p], v) <= 0,
    ensures
        score_of(src, m, pts, v) <= 0,
    decreases pts.len(),
{
    if pts.len() > 0 {
        lemma_score_nonpositive(src, m, pts.drop_last(), v);
        let p = pts.last();
        assert(pixel_score(crate::grid::sample(src, p.0, p.1), m[p], v) <= 0);
    }
}

/// Where no pixel can gain, every search ends with score 0 and no chord.
proof fn lemma_no_gain(
    src: Grid,
    m: Map<(int, int), u8>,
    pegs: Seq<Peg>,
    cur: Peg,
    v: u8,
    depth: int,
    maxdepth: int,
    f: Frame,
)
    requires
        forall|p: (int, int)| pixel_score(#[trigger] crate::grid::sample(src, p.0, p.1), m[p], v) <= 0,
    ensures
        best_path(src, m, pegs, cur, v, depth, maxdepth, f) == (0int, Seq::<Peg>::empty()),
    decreases maxdepth - depth, pegs.len() + 1,
{
    if depth < maxdepth {
        lemma_no_gain_among(src, m, pegs, cur, v, depth, maxdepth, f, pegs.len() as int);
    }
}

/// The same over the first `n` candidates.
proof fn lemma_no_gain_among(
    src: Grid,
    m: Map<(int, int), u8>,
    pegs: Seq<Peg>,
    cur: Peg,
    v: u8,
    depth: int,
    maxdepth: int,
    f: Frame,
    n: int,
)
    requires
        forall|p: (int, int)| pixel_score(#[trigger] crate::grid::sample(src, p.0, p.1), m[p], v) <= 0,
    ensures
        best_among(src, m, pegs, cur, v, depth, maxdepth, f, n) == (0int, Seq::<Peg>::empty()),
    decreases maxdepth - depth, n,
{
    if depth < maxdepth && n > 0 && n <= pegs.len() {
        lemma_no_gain_among(src, m, pegs, cur, v, depth, maxdepth, f, n - 1);
        let p = pegs[n - 1];
        lemma_no_gain(src, m, pegs, p, v, depth + 1, maxdepth, f);
        lemma_score_nonpositive(src, m, line_points(cur, p), v);
    }
}

/// With no ink per chord, no chain of chords improves the canvas: every
/// search reports score 0 and an empty chain.
pub proof fn lemma_zero_intensity_no_gain(
    src: Grid,
    m: Map<(int, int), u8>,
    pegs: Seq<Peg>,
    cur: Peg,
    depth: int,
    maxdepth: int,
    f: Frame,
)
    ensures
        best_path(src, m, pegs, cur, 0, depth, maxdepth, f) == (0int, Seq::<Peg>::empty()),
{
    lemma_no_gain(src, m, pegs, cur, 0, depth, maxdepth, f);
}

/// A canvas that already equals the target cannot be improved: every search
/// reports score 0 and an empty chain, whatever the ink per chord.
pub proof fn lemma_matched_canvas_no_gain(
    src: Grid,
    m: Map<(int, int), u8>,
    pegs: Seq<Peg>,
    cur: Peg,
    v: u8,
    depth: int,
    maxdepth: int,
    f: Frame,
)
    requires
        grid_samples(src) == m,
    ensures
        best_path(src, m, pegs, cur, v, depth, maxdepth, f) == (0int, Seq::<Peg>::empty()),
{
    lemma_no_gain(src, m, pegs, cur, v, depth, maxdepth, f);
}

} // verus!
