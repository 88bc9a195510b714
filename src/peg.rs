//! Pegs: the anchor points on the image border that chords run between.

use crate::grid::{in_grid, Grid};
use vstd::prelude::*;

verus! {

/// A point on the border of the image.
#[derive(Clone, Copy, Debug, PartialEq, Eq, Structural)]
pub struct Peg {
    pub x: i32,
    pub y: i32,
}

/// Whether the peg is a coordinate of the grid.
pub open spec fn peg_in(g: Grid, p: Peg) -> bool {
    in_grid(g, p.x as int, p.y as int)
}

/// Whether every peg of `pegs` is a coordinate of the grid.
pub open spec fn pegs_in(g: Grid, pegs: Seq<Peg>) -> bool {
    forall|i: int| 0 <= i < pegs.len() ==> #[trigger] peg_in(g, pegs[i])
}

/// The `j`-th peg of the layout of `px` pegs along each horizontal edge and
/// `py` along each vertical edge of a `w` by `h` image: the top edge, the
/// bottom edge, the left edge without its corner at the origin, then the
/// right edge; spaced `w / px` and `h / py` apart.
pub open spec fn layout_peg(w: int, h: int, px: int, py: int, j: int) -> (int, int) {
    let xseg = w / px;
    let yseg = h / py;
    if j < px {
        (xseg * j, 0)
    } else if j < 2 * px {
        (xseg * (j - px), h - 1)
    } else if j < 2 * px + py - 1 {
        (0, yseg * (j - 2 * px + 1))
    } else {
        (w - 1, yseg * (j - (2 * px + py - 1)))
    }
}

/// The whole layout of `px` by `py` pegs on a `w` by `h` image:
/// `2 * px + 2 * py - 1` pegs, the origin corner only once.
pub open spec fn layout_seq(w: int, h: int, px: int, py: int) -> Seq<Peg> {
    Seq::new(
        (2 * px + 2 * py - 1) as nat,
        |j: int| Peg { x: layout_peg(w, h, px, py, j).0 as i32, y: layout_peg(w, h, px, py, j).1 as i32 },
    )
}

/// Whether `pegs` is the whole layout of `px` by `py` pegs on a `w` by `h`
/// image: `2 * px + 2 * py - 1` pegs, the origin corner only once.
pub open spec fn is_layout(pegs: Seq<Peg>, w: int, h: int, px: int, py: int) -> bool {
    &&& pegs.len() == 2 * px + 2 * py - 1
    &&& forall|j: int|
        0 <= j < pegs.len() ==> (#[trigger] pegs[j].x as int, pegs[j].y as int) == layout_peg(
            w,
            h,
            px,
            py,
            j,
        )
}

/// The `i`-th of `n` evenly spaced positions along an edge of length `len`
/// lies on that edge.
proof fn lemma_spacing(len: int, n: int, i: int)
    requires
        1 <= n <= len,
        0 <= i < n,
    ensures
        0 <= (len / n) * i < len,
        len / n >= 1,
{
    vstd::arithmetic::div_mod::lemma_fundamental_div_mod(len, n);
    vstd::arithmetic::div_mod::lemma_mod_pos_bound(len, n);
    let q = len / n;
    assert(q >= 1) by (nonlinear_arith)
        requires
            n * q + len % n == len,
            len % n < n,
            n <= len,
            n >= 1,
    ;
    assert(0 <= q * i < len) by (nonlinear_arith)
        requires
            n * q + len % n == len,
            len % n >= 0,
            0 <= i < n,
            q >= 1,
    ;
}

/// The pegs of a `w` by `h` image with `pegs_x` pegs along each horizontal
/// edge and `pegs_y` along each vertical one, in layout order.
pub fn layout_pegs(w: u32, h: u32, pegs_x: usize, pegs_y: usize) -> (r: Vec<Peg>)
    requires
        2 <= w <= i32::MAX,
        2 <= h <= i32::MAX,
        1 <= pegs_x <= w,
        1 <= pegs_y <= h,
    ensures
        is_layout(r@, w as int, h as int, pegs_x as int, pegs_y as int),
        r@ == layout_seq(w as int, h as int, pegs_x as int, pegs_y as int),
{
    let ghost wi = w as int;
    let ghost hi = h as int;
    let ghost px = pegs_x as int;
    let ghost py = pegs_y as int;
    let xseg: u32 = w / (pegs_x as u32);
    let yseg: u32 = h / (pegs_y as u32);
    let bottom: i32 = (h - 1) as i32;
    let right: i32 = (w - 1) as i32;
    let mut pegs: Vec<Peg> = Vec::new();
    let mut i: usize = 0;
    while i < pegs_x
        invariant
            wi == w && hi == h && px == pegs_x && py == pegs_y,
            2 <= w <= i32::MAX && 2 <= h <= i32::MAX && 1 <= pegs_x <= w && 1 <= pegs_y <= h,
            0 <= i <= pegs_x <= w <= i32::MAX,
            xseg == wi / px,
            pegs@.len() == i,
            forall|j: int| 0 <= j < i ==> (#[trigger] pegs@[j].x as int, pegs@[j].y as int) == layout_peg(wi, hi, px, py, j),
        decreases pegs_x - i,
    {
        proof {
            lemma_spacing(wi, px, i as int);
        }
        pegs.push(Peg { x: (xseg * (i as u32)) as i32, y: 0 });
        proof {
            let j = pegs@.len() - 1;
            assert((pegs@[j].x as int, pegs@[j].y as int) == layout_peg(wi, hi, px, py, j));
        }
        i = i + 1;
    }
    i = 0;
    while i < pegs_x
        invariant
            wi == w && hi == h && px == pegs_x && py == pegs_y,
            2 <= w <= i32::MAX && 2 <= h <= i32::MAX && 1 <= pegs_x <= w && 1 <= pegs_y <= h,
            0 <= i <= pegs_x <= w <= i32::MAX,
            xseg == wi / px,
            bottom == hi - 1,
            pegs@.len() == pegs_x + i,
            forall|j: int| 0 <= j < pegs_x + i ==> (#[trigger] pegs@[j].x as int, pegs@[j].y as int) == layout_peg(wi, hi, px, py, j),
        decreases pegs_x - i,
    {
        proof {
            lemma_spacing(wi, px, i as int);
        }
        pegs.push(Peg { x: (xseg * (i as u32)) as i32, y: bottom });
        proof {
            let j = pegs@.len() - 1;
            assert((pegs@[j].x as int, pegs@[j].y as int) == layout_peg(wi, hi, px, py, j));
        }
        i = i + 1;
    }
    i = 1;
    while i < pegs_y
        invariant
            wi == w && hi == h && px == pegs_x && py == pegs_y,
            2 <= w <= i32::MAX && 2 <= h <= i32::MAX && 1 <= pegs_x <= w && 1 <= pegs_y <= h,
            1 <= i <= pegs_y || pegs_y == 1 && i == 1,
            pegs_y <= h <= i32::MAX,
            yseg == hi / py,
            pegs@.len() == 2 * pegs_x + i - 1,
            forall|j: int| 0 <= j < 2 * pegs_x + i - 1 ==> (#[trigger] pegs@[j].x as int, pegs@[j].y as int) == layout_peg(wi, hi, px, py, j),
        decreases pegs_y - i,
    {
        proof {
            lemma_spacing(hi, py, i as int);
        }
        pegs.push(Peg { x: 0, y: (yseg * (i as u32)) as i32 });
        proof {
            let j = pegs@.len() - 1;
            assert((pegs@[j].x as int, pegs@[j].y as int) == layout_peg(wi, hi, px, py, j));
        }
        i = i + 1;
    }
    i = 0;
    while i < pegs_y
        invariant
            wi == w && hi == h && px == pegs_x && py == pegs_y,
            2 <= w <= i32::MAX && 2 <= h <= i32::MAX && 1 <= pegs_x <= w && 1 <= pegs_y <= h,
            0 <= i <= pegs_y <= h <= i32::MAX,
            yseg == hi / py,
            right == wi - 1,
            pegs@.len() == 2 * pegs_x + pegs_y - 1 + i,
            forall|j: int| 0 <= j < 2 * pegs_x + pegs_y - 1 + i ==> (#[trigger] pegs@[j].x as int, pegs@[j].y as int) == layout_peg(wi, hi, px, py, j),
        decreases pegs_y - i,
    {
        proof {
            lemma_spacing(hi, py, i as int);
        }
        pegs.push(Peg { x: right, y: (yseg * (i as u32)) as i32 });
        proof {
            let j = pegs@.len() - 1;
            assert((pegs@[j].x as int, pegs@[j].y as int) == layout_peg(wi, hi, px, py, j));
        }
        i = i + 1;
    }
    proof {
        assert forall|j: int| 0 <= j < pegs@.len() implies pegs@[j] == layout_seq(wi, hi, px, py)[j] by {
            assert((pegs@[j].x as int, pegs@[j].y as int) == layout_peg(wi, hi, px, py, j));
        }
        assert(pegs@ =~= layout_seq(wi, hi, px, py));
    }
    pegs
}

/// Every peg of a layout lies on the image.
pub proof fn lemma_layout_in_image(pegs: Seq<Peg>, w: int, h: int, px: int, py: int, j: int)
    requires
        is_layout(pegs, w, h, px, py),
        2 <= w,
        2 <= h,
        1 <= px <= w,
        1 <= py <= h,
        0 <= j < pegs.len(),
    ensures
        0 <= pegs[j].x < w,
        0 <= pegs[j].y < h,
{
    assert((pegs[j].x as int, pegs[j].y as int) == layout_peg(w, h, px, py, j));
    if j < px {
        lemma_spacing(w, px, j);
    } else if j < 2 * px {
        lemma_spacing(w, px, j - px);
    } else if j < 2 * px + py - 1 {
        lemma_spacing(h, py, j - 2 * px + 1);
    } else {
        lemma_spacing(h, py, j - (2 * px + py - 1));
    }
}

} // verus!
