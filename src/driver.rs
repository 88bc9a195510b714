//! The pass driver: repeated searches from the current peg, each best chain
//! drawn onto the canvas, until no chain improves it or the passes run out.

use crate::grid::{blank_canvas, grid_height, grid_samples, grid_width, Grid};
use crate::peg::{layout_pegs, layout_seq, lemma_layout_in_image, peg_in, pegs_in, Peg};
use crate::raster::{get_line, line_points};
use crate::score::{lemma_paint_monotone, paint, same_size};
use crate::search::{
    best_lines, best_path, chain_ok, lemma_best_path_facts, lemma_matched_canvas_no_gain,
    lemma_zero_intensity_no_gain, Frame, MAX_DEPTH,
};
use vstd::prelude::*;

verus! {

/// The options of a run.
#[derive(Clone, Copy, Debug, PartialEq, Eq, Structural)]
pub struct StringConfig {
    /// Pegs along each horizontal edge.
    pub pegs_x: usize,
    /// Pegs along each vertical edge.
    pub pegs_y: usize,
    /// The most passes to make.
    pub passes: usize,
    /// The ink each drawn chord adds to every pixel it covers.
    pub pass_val: u8,
    /// How many chords ahead each search looks.
    pub depth: usize,
    /// Whether a search that finds nothing is tried once more, one chord deeper.
    pub retry: bool,
    /// The widest random shift of a drawn chord's endpoints; 0 for none.
    pub jitter: u32,
    /// The seed of the jitter's generator.
    pub seed: u64,
}

/// Why a run cannot start.
#[derive(Clone, Copy, Debug, PartialEq, Eq, Structural)]
pub enum ConfigError {
    /// A peg count is zero.
    NoPegs,
    /// The ink per chord is zero, so no chord can make progress.
    NoInk,
    /// The image is under 2 pixels wide or high, or has fewer pixels along an
    /// edge than pegs to place there.
    ImageTooSmall,
    /// The image is too large to address.
    ImageTooLarge,
    /// The search depth is beyond what a run accepts.
    TooDeep,
    /// The canvas and the target differ in size.
    SizeMismatch,
}

/// The border of a `w` by `h` image.
pub open spec fn frame_of(w: int, h: int) -> Frame {
    Frame { left: 0, top: 0, right: (w - 1) as i32, bottom: (h - 1) as i32 }
}

/// The error, if any, that keeps a run of `c` on a `w` by `h` target from
/// starting; the first that applies in the order of `ConfigError`.
pub open spec fn config_error(c: StringConfig, w: int, h: int) -> Option<ConfigError> {
    if c.pegs_x == 0 || c.pegs_y == 0 {
        Some(ConfigError::NoPegs)
    } else if c.pass_val == 0 {
        Some(ConfigError::NoInk)
    } else if w < 2 || h < 2 || c.pegs_x > w || c.pegs_y > h {
        Some(ConfigError::ImageTooSmall)
    } else if w > i32::MAX || h > i32::MAX || w * h > usize::MAX {
        Some(ConfigError::ImageTooLarge)
    } else if c.depth >= MAX_DEPTH {
        Some(ConfigError::TooDeep)
    } else {
        None
    }
}

/// Checks the options against a `w` by `h` target.
pub fn validate(c: &StringConfig, w: u32, h: u32) -> (r: Result<(), ConfigError>)
    ensures
        r == match config_error(*c, w as int, h as int) {
            None => Ok::<(), ConfigError>(()),
            Some(e) => Err(e),
        },
{
    if c.pegs_x == 0 || c.pegs_y == 0 {
        return Err(ConfigError::NoPegs);
    }
    if c.pass_val == 0 {
        return Err(ConfigError::NoInk);
    }
    if w < 2 || h < 2 || c.pegs_x > w as usize || c.pegs_y > h as usize {
        return Err(ConfigError::ImageTooSmall);
    }
    if w > i32::MAX as u32 || h > i32::MAX as u32 {
        return Err(ConfigError::ImageTooLarge);
    }
    match (w as usize).checked_mul(h as usize) {
        None => {
            return Err(ConfigError::ImageTooLarge);
        },
        Some(_) => {},
    }
    if c.depth >= MAX_DEPTH {
        return Err(ConfigError::TooDeep);
    }
    Ok(())
}

/// A seeded linear congruential generator for the endpoint jitter.
#[derive(Clone, Copy, Debug, PartialEq, Eq, Structural)]
pub struct Rng {
    pub state: u64,
}

/// The generator's next state.
#[verifier::opaque]
pub open spec fn rng_step(s: u64) -> u64 {
    s.wrapping_mul(6364136223846793005).wrapping_add(1442695040888963407)
}

impl Rng {
    /// A generator started from `seed`.
    pub fn new(seed: u64) -> (r: Rng)
        ensures
            r.state == seed,
    {
        Rng { state: seed }
    }

    /// Advances the generator and returns the high 31 bits of its new state.
    pub fn next(&mut self) -> (r: u64)
        ensures
            final(self).state == rng_step(old(self).state),
            r == final(self).state >> 33u64,
    {
        proof {
            reveal(rng_step);
        }
        self.state = self.state.wrapping_mul(6364136223846793005).wrapping_add(1442695040888963407);
        self.state >> 33u64
    }
}

/// A shift in `[-mag / 2, mag / 2]` drawn from the random number `r`.
pub open spec fn shift_of(r: u64, mag: u32) -> int {
    let half = mag / 2;
    (r % (2 * half + 1) as u64) - half
}

/// `v` clamped into `[0, hi]`.
pub open spec fn clamp(v: int, hi: int) -> int {
    if v < 0 {
        0
    } else if v > hi {
        hi
    } else {
        v
    }
}

/// The generator's state `n` steps on from `s`.
pub open spec fn rng_skip(s: u64, n: nat) -> u64
    decreases n,
{
    if n == 0 {
        s
    } else {
        rng_step(rng_skip(s, (n - 1) as nat))
    }
}

/// Where `p` lands when shifted with the generator at state `s`: the next
/// draw shifts x, the one after shifts y, each clamped into `[0, hx]` and
/// `[0, hy]`.
pub open spec fn jitter_of(p: Peg, s: u64, mag: u32, hx: int, hy: int) -> Peg {
    Peg {
        x: clamp(p.x + shift_of(rng_step(s) >> 33u64, mag), hx) as i32,
        y: clamp(p.y + shift_of(rng_step(rng_step(s)) >> 33u64, mag), hy) as i32,
    }
}

/// Steps of the generator add up.
proof fn lemma_rng_skip_add(s: u64, a: nat, b: nat)
    ensures
        rng_skip(rng_skip(s, a), b) == rng_skip(s, a + b),
    decreases b,
{
    if b > 0 {
        lemma_rng_skip_add(s, a, (b - 1) as nat);
    }
}

/// Moves `p` by a random shift of at most `mag / 2` on each axis, clamped
/// into a `w` by `h` image.
pub fn jitter_peg(p: Peg, rng: &mut Rng, mag: u32, w: u32, h: u32) -> (r: Peg)
    requires
        1 <= w <= i32::MAX,
        1 <= h <= i32::MAX,
        0 <= p.x < w,
        0 <= p.y < h,
    ensures
        0 <= r.x < w,
        0 <= r.y < h,
        r == jitter_of(p, old(rng).state, mag, w - 1, h - 1),
        final(rng).state == rng_step(rng_step(old(rng).state)),
{
    let half: u64 = (mag / 2) as u64;
    let rx = rng.next();
    let ry = rng.next();
    let ox: i64 = (rx % (2 * half + 1)) as i64 - half as i64;
    let oy: i64 = (ry % (2 * half + 1)) as i64 - half as i64;
    let x: i64 = p.x as i64 + ox;
    let y: i64 = p.y as i64 + oy;
    let cx: i64 = if x < 0 { 0 } else if x > w as i64 - 1 { w as i64 - 1 } else { x };
    let cy: i64 = if y < 0 { 0 } else if y > h as i64 - 1 { h as i64 - 1 } else { y };
    Peg { x: cx as i32, y: cy as i32 }
}

/// With a magnitude under 2 every shift is 0: such jitter leaves each peg
/// of the image where it is, whatever state the generator is in.
pub proof fn lemma_no_jitter(p: Peg, s: u64, mag: u32, hx: int, hy: int)
    requires
        mag <= 1,
        0 <= p.x <= hx,
        0 <= p.y <= hy,
    ensures
        jitter_of(p, s, mag, hx, hy) == p,
{
    lemma_shift_zero(rng_step(s) >> 33u64, mag);
    lemma_shift_zero(rng_step(rng_step(s)) >> 33u64, mag);
}

/// With a magnitude under 2 every shift is 0.
proof fn lemma_shift_zero(r: u64, mag: u32)
    requires
        mag <= 1,
    ensures
        shift_of(r, mag) == 0,
{
    assert(r % 1 == 0) by (nonlinear_arith);
}

/// With a magnitude under 2, where a peg lands does not depend on the
/// generator's state.
proof fn lemma_jitter_seed_free(p: Peg, s1: u64, s2: u64, m1: u32, m2: u32, hx: int, hy: int)
    requires
        m1 <= 1,
        m2 <= 1,
    ensures
        jitter_of(p, s1, m1, hx, hy) == jitter_of(p, s2, m2, hx, hy),
{
    lemma_shift_zero(rng_step(s1) >> 33u64, m1);
    lemma_shift_zero(rng_step(rng_step(s1)) >> 33u64, m1);
    lemma_shift_zero(rng_step(s2) >> 33u64, m2);
    lemma_shift_zero(rng_step(rng_step(s2)) >> 33u64, m2);
}

/// The chain a pass draws from `cur`: the best within the configured depth,
/// or, where that scores 0 and retry is on, the best one chord deeper.
pub open spec fn choose_chain(
    src: Grid,
    m: Map<(int, int), u8>,
    pegs: Seq<Peg>,
    cur: Peg,
    c: StringConfig,
    f: Frame,
) -> (int, Seq<Peg>) {
    let first = best_path(src, m, pegs, cur, c.pass_val, 0, c.depth as int, f);
    if first.0 == 0 && c.retry {
        best_path(src, m, pegs, cur, c.pass_val, 0, c.depth + 1, f)
    } else {
        first
    }
}

/// The peg that the `i`-th chord of `path` starts from.
pub open spec fn chain_start(cur: Peg, path: Seq<Peg>, i: int) -> Peg {
    if i == 0 {
        cur
    } else {
        path[i - 1]
    }
}

/// Canvas `m` after each chord of the chain from `cur` through `path` has
/// been drawn in turn, the `i`-th with its start jittered from generator
/// state `rng_skip(s, 4 * i)` and its end from two steps later.
pub open spec fn paint_jittered(
    m: Map<(int, int), u8>,
    cur: Peg,
    path: Seq<Peg>,
    v: u8,
    mag: u32,
    s: u64,
    hx: int,
    hy: int,
) -> Map<(int, int), u8>
    decreases path.len(),
{
    if path.len() == 0 {
        m
    } else {
        let i = path.len() - 1;
        let si = rng_skip(s, (4 * i) as nat);
        paint(
            paint_jittered(m, cur, path.drop_last(), v, mag, s, hx, hy),
            line_points(
                jitter_of(chain_start(cur, path, i), si, mag, hx, hy),
                jitter_of(path.last(), rng_skip(si, 2), mag, hx, hy),
            ),
            v,
        )
    }
}

/// With magnitudes under 2, a drawn chain does not depend on the generator.
proof fn lemma_chain_seed_free(
    m: Map<(int, int), u8>,
    cur: Peg,
    path: Seq<Peg>,
    v: u8,
    m1: u32,
    m2: u32,
    s1: u64,
    s2: u64,
    hx: int,
    hy: int,
)
    requires
        m1 <= 1,
        m2 <= 1,
    ensures
        paint_jittered(m, cur, path, v, m1, s1, hx, hy) == paint_jittered(m, cur, path, v, m2, s2, hx, hy),
    decreases path.len(),
{
    if path.len() > 0 {
        let i = path.len() - 1;
        lemma_chain_seed_free(m, cur, path.drop_last(), v, m1, m2, s1, s2, hx, hy);
        let a1 = rng_skip(s1, (4 * i) as nat);
        let a2 = rng_skip(s2, (4 * i) as nat);
        lemma_jitter_seed_free(chain_start(cur, path, i), a1, a2, m1, m2, hx, hy);
        lemma_jitter_seed_free(path.last(), rng_skip(a1, 2), rng_skip(a2, 2), m1, m2, hx, hy);
    }
}

/// Drawing one more chord of a jittered chain: the chord and the generator
/// state it leaves.
proof fn lemma_jittered_step(
    m: Map<(int, int), u8>,
    cur: Peg,
    path: Seq<Peg>,
    i: int,
    v: u8,
    mag: u32,
    s: u64,
    hx: int,
    hy: int,
)
    requires
        0 <= i < path.len(),
    ensures
        ({
            let si = rng_skip(s, (4 * i) as nat);
            paint_jittered(m, cur, path.take(i + 1), v, mag, s, hx, hy) == paint(
                paint_jittered(m, cur, path.take(i), v, mag, s, hx, hy),
                line_points(
                    jitter_of(chain_start(cur, path, i), si, mag, hx, hy),
                    jitter_of(path[i], rng_step(rng_step(si)), mag, hx, hy),
                ),
                v,
            )
        }),
        rng_step(rng_step(rng_step(rng_step(rng_skip(s, (4 * i) as nat))))) == rng_skip(
            s,
            (4 * (i + 1)) as nat,
        ),
{
    let si = rng_skip(s, (4 * i) as nat);
    assert(rng_skip(si, 0) == si);
    assert(rng_skip(si, 1) == rng_step(rng_skip(si, 0)));
    assert(rng_skip(si, 2) == rng_step(rng_skip(si, 1)));
    assert(rng_skip(si, 3) == rng_step(rng_skip(si, 2)));
    assert(rng_skip(si, 4) == rng_step(rng_skip(si, 3)));
    lemma_rng_skip_add(s, (4 * i) as nat, 4);
    assert((4 * i) as nat + 4 == (4 * (i + 1)) as nat);
    let t = path.take(i + 1);
    assert(t.drop_last() =~= path.take(i));
    assert(t.last() == path[i]);
    assert(chain_start(cur, t, i) == chain_start(cur, path, i));
    assert(t.len() - 1 == i);
}

/// Whether every sample of `a` is at most the same sample of `b`.
pub open spec fn no_darker(a: Map<(int, int), u8>, b: Map<(int, int), u8>) -> bool {
    forall|k: (int, int)| #[trigger] a[k] <= b[k]
}

/// One pass from `current`: searches for the best chain and, if it improves
/// the canvas, draws it, each chord's endpoints jittered by `rng`, and
/// returns the peg it ends on; returns `None`, leaving `dst` and `rng` as they
/// were, when no chain improves the canvas.
pub fn run_pass(
    src: &Grid,
    dst: &mut Grid,
    pegs: &Vec<Peg>,
    current: Peg,
    options: &StringConfig,
    rng: &mut Rng,
) -> (r: Option<Peg>)
    requires
        pegs_in(*src, pegs@),
        peg_in(*src, current),
        same_size(*src, *old(dst)),
        options.depth < MAX_DEPTH,
        grid_width(*src) <= i32::MAX,
        grid_height(*src) <= i32::MAX,
    ensures
        ({
            let found = choose_chain(
                *src,
                grid_samples(*old(dst)),
                pegs@,
                current,
                *options,
                frame_of(grid_width(*src) as int, grid_height(*src) as int),
            );
            &&& (r is None <==> found.0 <= 0)
            &&& r is None ==> *final(dst) == *old(dst)
            &&& r matches Some(p) ==> found.1.len() > 0 && p == found.1.last() && pegs@.contains(p)
            &&& r is None ==> *final(rng) == *old(rng)
            &&& r is Some ==> grid_samples(*final(dst)) == paint_jittered(
                grid_samples(*old(dst)),
                current,
                found.1,
                options.pass_val,
                options.jitter,
                old(rng).state,
                grid_width(*src) - 1,
                grid_height(*src) - 1,
            )
            &&& r is Some ==> final(rng).state == rng_skip(old(rng).state, (4 * found.1.len()) as nat)
        }),
        no_darker(grid_samples(*old(dst)), grid_samples(*final(dst))),
        same_size(*final(dst), *old(dst)),
{
    let ghost m0 = grid_samples(*dst);
    let ghost s0 = rng.state;
    let w = src.width();
    let h = src.height();
    let frame = Frame { left: 0, top: 0, right: (w - 1) as i32, bottom: (h - 1) as i32 };
    let ghost f = frame_of(w as int, h as int);
    let v = options.pass_val;
    let (mut best_err, mut pegpath) = best_lines(src, dst, pegs, current, v, 0, options.depth, frame);
    proof {
        lemma_best_path_facts(*src, m0, pegs@, current, v, 0, options.depth as int, f);
    }
    if best_err == 0 && options.retry {
        let (e2, p2) = best_lines(src, dst, pegs, current, v, 0, options.depth + 1, frame);
        proof {
            lemma_best_path_facts(*src, m0, pegs@, current, v, 0, options.depth + 1, f);
        }
        best_err = e2;
        pegpath = p2;
    }
    let ghost found = choose_chain(*src, m0, pegs@, current, *options, f);
    if best_err <= 0 {
        return None;
    }
    let mut cur = current;
    let mut i: usize = 0;
    proof {
        assert(pegpath@.take(0) =~= Seq::<Peg>::empty());
    }
    while i < pegpath.len()
        invariant
            0 <= i <= pegpath@.len(),
            found == (best_err as int, pegpath@),
            found.0 > 0,
            chain_ok(current, pegpath@, pegs@, f),
            cur == chain_start(current, pegpath@, i as int),
            pegs_in(*src, pegs@),
            peg_in(*src, current),
            same_size(*src, *dst),
            w == grid_width(*src) && h == grid_height(*src),
            1 <= w <= i32::MAX && 1 <= h <= i32::MAX,
            grid_samples(*dst) == paint_jittered(
                m0,
                current,
                pegpath@.take(i as int),
                v,
                options.jitter,
                s0,
                w - 1,
                h - 1,
            ),
            rng.state == rng_skip(s0, (4 * i) as nat),
            no_darker(m0, grid_samples(*dst)),
        decreases pegpath@.len() - i,
    {
        let p = pegpath[i];
        proof {
            assert(pegs@.contains(pegpath@[i as int]));
            let j = choose|j: int| 0 <= j < pegs@.len() && pegs@[j] == p;
            assert(peg_in(*src, pegs@[j]));
            if i > 0 {
                assert(pegs@.contains(pegpath@[i - 1]));
                let j2 = choose|j2: int| 0 <= j2 < pegs@.len() && pegs@[j2] == cur;
                assert(peg_in(*src, pegs@[j2]));
            }
        }
        let ghost before = grid_samples(*dst);
        let a = jitter_peg(cur, rng, options.jitter, w, h);
        let b = jitter_peg(p, rng, options.jitter, w, h);
        get_line(src, dst, a, b, v, true);
        proof {
            assert forall|k: (int, int)| #[trigger] m0[k] <= grid_samples(*dst)[k] by {
                lemma_paint_monotone(before, line_points(a, b), v, k);
                assert(m0[k] <= before[k]);
            }
            lemma_jittered_step(m0, current, pegpath@, i as int, v, options.jitter, s0, w - 1, h - 1);
        }
        cur = p;
        i = i + 1;
    }
    proof {
        assert(pegpath@.take(i as int) =~= pegpath@);
        assert(pegs@.contains(pegpath@[i - 1]));
    }
    Some(cur)
}

/// The canvas after at most `n` passes from `cur`, with the jitter's
/// generator at state `s`, and how many passes drew a chain before one found
/// nothing to improve.
pub open spec fn drive(
    src: Grid,
    m: Map<(int, int), u8>,
    pegs: Seq<Peg>,
    cur: Peg,
    c: StringConfig,
    f: Frame,
    s: u64,
    n: nat,
) -> (Map<(int, int), u8>, nat)
    decreases n,
{
    if n == 0 {
        (m, 0)
    } else {
        let found = choose_chain(src, m, pegs, cur, c, f);
        if found.0 <= 0 {
            (m, 0)
        } else {
            let next = drive(
                src,
                paint_jittered(m, cur, found.1, c.pass_val, c.jitter, s, f.right as int, f.bottom as int),
                pegs,
                found.1.last(),
                c,
                f,
                rng_skip(s, (4 * found.1.len()) as nat),
                (n - 1) as nat,
            );
            (next.0, next.1 + 1)
        }
    }
}

/// Draws onto `dst` the string art of target `src` under `options`: lays
/// out the pegs, starts at the first, and makes up to `options.passes`
/// passes, stopping at the first that finds nothing to improve. Returns how
/// many passes drew, or why the run could not start (then `dst` is left as
/// it was).
pub fn gen_img(src: &Grid, dst: &mut Grid, options: &StringConfig) -> (r: Result<usize, ConfigError>)
    ensures
        ({
            let (w, h) = (grid_width(*src) as int, grid_height(*src) as int);
            let pegs = layout_seq(w, h, options.pegs_x as int, options.pegs_y as int);
            let run = drive(
                *src,
                grid_samples(*old(dst)),
                pegs,
                pegs[0],
                *options,
                frame_of(w, h),
                options.seed,
                options.passes as nat,
            );
            &&& (r is Err <==> config_error(*options, w, h) is Some || !same_size(*src, *old(dst)))
            &&& config_error(*options, w, h) matches Some(e) ==> r == Err::<usize, ConfigError>(e)
            &&& config_error(*options, w, h) is None && !same_size(*src, *old(dst)) ==> r == Err::<
                usize,
                ConfigError,
            >(ConfigError::SizeMismatch)
            &&& r is Err ==> *final(dst) == *old(dst)
            &&& r matches Ok(n) ==> n <= options.passes && grid_samples(*final(dst)) == run.0 && n
                == run.1
            &&& no_darker(grid_samples(*old(dst)), grid_samples(*final(dst)))
            &&& same_size(*final(dst), *old(dst))
        }),
{
    let w = src.width();
    let h = src.height();
    match validate(options, w, h) {
        Err(e) => {
            return Err(e);
        },
        Ok(()) => {},
    }
    if dst.width() != w || dst.height() != h {
        return Err(ConfigError::SizeMismatch);
    }
    let pegs = layout_pegs(w, h, options.pegs_x, options.pegs_y);
    let ghost f = frame_of(w as int, h as int);
    let ghost m0 = grid_samples(*dst);
    let ghost goal = drive(*src, m0, pegs@, pegs@[0], *options, f, options.seed, options.passes as nat);
    proof {
        assert forall|j: int| 0 <= j < pegs@.len() implies #[trigger] peg_in(*src, pegs@[j]) by {
            lemma_layout_in_image(pegs@, w as int, h as int, options.pegs_x as int, options.pegs_y as int, j);
        }
    }
    let mut rng = Rng::new(options.seed);
    let mut current = pegs[0];
    let mut i: usize = 0;
    while i < options.passes
        invariant
            0 <= i <= options.passes,
            m0 == grid_samples(*old(dst)),
            same_size(*src, *old(dst)),
            pegs@ == layout_seq(w as int, h as int, options.pegs_x as int, options.pegs_y as int),
            config_error(*options, w as int, h as int) is None,
            pegs_in(*src, pegs@),
            peg_in(*src, current),
            same_size(*src, *dst),
            options.depth < MAX_DEPTH,
            w == grid_width(*src) && h == grid_height(*src),
            w <= i32::MAX && h <= i32::MAX,
            f == frame_of(w as int, h as int),
            goal == drive(*src, m0, pegs@, pegs@[0], *options, f, options.seed, options.passes as nat),
            goal.0 == drive(
                *src,
                grid_samples(*dst),
                pegs@,
                current,
                *options,
                f,
                rng.state,
                (options.passes - i) as nat,
            ).0,
            goal.1 == i + drive(
                *src,
                grid_samples(*dst),
                pegs@,
                current,
                *options,
                f,
                rng.state,
                (options.passes - i) as nat,
            ).1,
            no_darker(m0, grid_samples(*dst)),
        decreases options.passes - i,
    {
        let ghost before = grid_samples(*dst);
        match run_pass(src, dst, &pegs, current, options, &mut rng) {
            None => {
                proof {
                    let rest = drive(
                        *src,
                        before,
                        pegs@,
                        current,
                        *options,
                        f,
                        rng.state,
                        (options.passes - i) as nat,
                    );
                    assert(rest == (before, 0nat));
                }
                return Ok(i);
            },
            Some(p) => {
                proof {
                    let j = choose|j: int| 0 <= j < pegs@.len() && pegs@[j] == p;
                    assert(peg_in(*src, pegs@[j]));
                    assert forall|k: (int, int)| #[trigger] m0[k] <= grid_samples(*dst)[k] by {
                        assert(m0[k] <= before[k]);
                        assert(before[k] <= grid_samples(*dst)[k]);
                    }
                }
                current = p;
            },
        }
        i = i + 1;
    }
    Ok(i)
}

/// Makes the string art of `target` under `config` on a fresh blank
/// canvas, and returns the canvas with the number of passes that drew.
pub fn layout_and_run(target: &Grid, config: &StringConfig) -> (r: Result<(Grid, usize), ConfigError>)
    ensures
        ({
            let (w, h) = (grid_width(*target) as int, grid_height(*target) as int);
            let pegs = layout_seq(w, h, config.pegs_x as int, config.pegs_y as int);
            let run = drive(
                *target,
                blank_canvas(w, h),
                pegs,
                pegs[0],
                *config,
                frame_of(w, h),
                config.seed,
                config.passes as nat,
            );
            &&& (r is Err <==> config_error(*config, w, h) is Some)
            &&& config_error(*config, w, h) matches Some(e) ==> r == Err::<(Grid, usize), ConfigError>(e)
            &&& r matches Ok((g, n)) ==> same_size(g, *target) && n <= config.passes && grid_samples(g)
                == run.0 && n == run.1
        }),
{
    let w = target.width();
    let h = target.height();
    match validate(config, w, h) {
        Err(e) => {
            return Err(e);
        },
        Ok(()) => {},
    }
    let mut canvas = Grid::new(w, h);
    match gen_img(target, &mut canvas, config) {
        Err(e) => Err(e),
        Ok(n) => Ok((canvas, n)),
    }
}

/// How many passes go between two progress reports over a run of `passes`:
/// a hundredth of the run, and at least 1.
pub fn progress_step(passes: usize) -> (r: usize)
    ensures
        r == if passes >= 100 { passes / 100 } else { 1 },
        r >= 1,
{
    if passes >= 100 {
        passes / 100
    } else {
        1
    }
}

/// Runs without jitter do not depend on the seed: two configurations with
/// jitter magnitudes under 2 that agree on the ink, the depth and the retry
/// give the same canvas and the same number of passes, whatever states their
/// generators start from.
pub proof fn lemma_jitter_free_runs_agree(
    src: Grid,
    m: Map<(int, int), u8>,
    pegs: Seq<Peg>,
    cur: Peg,
    c1: StringConfig,
    c2: StringConfig,
    f: Frame,
    s1: u64,
    s2: u64,
    n: nat,
)
    requires
        c1.pass_val == c2.pass_val,
        c1.depth == c2.depth,
        c1.retry == c2.retry,
        c1.jitter <= 1,
        c2.jitter <= 1,
    ensures
        drive(src, m, pegs, cur, c1, f, s1, n) == drive(src, m, pegs, cur, c2, f, s2, n),
    decreases n,
{
    if n > 0 {
        let found = choose_chain(src, m, pegs, cur, c1, f);
        assert(found == choose_chain(src, m, pegs, cur, c2, f));
        if found.0 > 0 {
            let (hx, hy) = (f.right as int, f.bottom as int);
            lemma_chain_seed_free(m, cur, found.1, c1.pass_val, c1.jitter, c2.jitter, s1, s2, hx, hy);
            lemma_jitter_free_runs_agree(
                src,
                paint_jittered(m, cur, found.1, c1.pass_val, c1.jitter, s1, hx, hy),
                pegs,
                found.1.last(),
                c1,
                c2,
                f,
                rng_skip(s1, (4 * found.1.len()) as nat),
                rng_skip(s2, (4 * found.1.len()) as nat),
                (n - 1) as nat,
            );
        }
    }
}

/// With no ink per chord, a run stops at its first pass with the canvas
/// untouched.
pub proof fn lemma_zero_intensity_run_stops(
    src: Grid,
    m: Map<(int, int), u8>,
    pegs: Seq<Peg>,
    cur: Peg,
    c: StringConfig,
    f: Frame,
    s: u64,
    n: nat,
)
    requires
        c.pass_val == 0,
    ensures
        drive(src, m, pegs, cur, c, f, s, n) == (m, 0nat),
{
    lemma_zero_intensity_no_gain(src, m, pegs, cur, 0, c.depth as int, f);
    lemma_zero_intensity_no_gain(src, m, pegs, cur, 0, c.depth + 1, f);
}

/// A run on a canvas that already equals the target stops at its first pass
/// with the canvas untouched.
pub proof fn lemma_matched_canvas_run_stops(
    src: Grid,
    m: Map<(int, int), u8>,
    pegs: Seq<Peg>,
    cur: Peg,
    c: StringConfig,
    f: Frame,
    s: u64,
    n: nat,
)
    requires
        grid_samples(src) == m,
    ensures
        drive(src, m, pegs, cur, c, f, s, n) == (m, 0nat),
{
    lemma_matched_canvas_no_gain(src, m, pegs, cur, c.pass_val, 0, c.depth as int, f);
    lemma_matched_canvas_no_gain(src, m, pegs, cur, c.pass_val, 0, c.depth + 1, f);
}

} // verus!
