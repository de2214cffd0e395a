//! The dual-page composer: two decoded pages side by side on one canvas.
//!
//! The canvas is as wide as both pages together and as high as the higher
//! one. Each page is centred vertically; what no page covers is transparent.

use crate::page::{rgba_len, rgba_size, DecodedPage, PageModel};
use vstd::arithmetic::div_mod::lemma_fundamental_div_mod_converse;
use vstd::prelude::*;

verus! {

/// Width of the canvas that holds both pages.
pub open spec fn spread_width(l: PageModel, r: PageModel) -> int {
    (l.width + r.width) as int
}

/// Height of the canvas that holds both pages.
pub open spec fn spread_height(l: PageModel, r: PageModel) -> int {
    if l.height >= r.height {
        l.height as int
    } else {
        r.height as int
    }
}

/// The row at which an image of height `h` starts when centred in `canvas` rows.
pub open spec fn top_of(canvas: int, h: int) -> int {
    (canvas - h) / 2
}

/// Byte `c` of the pixel at column `x`, row `y` of a transparent canvas on
/// which `p` lies with its top left corner at column `x0`, row `y0`.
pub open spec fn placed_byte(p: PageModel, x0: int, y0: int, x: int, y: int, c: int) -> u8 {
    if x0 <= x < x0 + p.width && y0 <= y < y0 + p.height {
        p.pixels[4 * ((y - y0) * p.width + (x - x0)) + c]
    } else {
        0
    }
}

/// Byte `c` of the pixel at column `x`, row `y` of the spread: `l` on the
/// left, `r` on the right of it.
pub open spec fn spread_byte(l: PageModel, r: PageModel, x: int, y: int, c: int) -> u8 {
    let h = spread_height(l, r);
    if x < l.width {
        placed_byte(l, 0, top_of(h, l.height as int), x, y, c)
    } else {
        placed_byte(r, l.width as int, top_of(h, r.height as int), x, y, c)
    }
}

/// The RGBA8 buffer of the spread, row by row from the top.
pub open spec fn spread_pixels(l: PageModel, r: PageModel) -> Seq<u8> {
    let w = spread_width(l, r);
    let h = spread_height(l, r);
    Seq::new(rgba_len(w, h) as nat, |i: int| spread_byte(l, r, (i / 4) % w, (i / 4) / w, i % 4))
}

/// The spread of `l` and `r`: a still page.
pub open spec fn spread(l: PageModel, r: PageModel) -> PageModel {
    PageModel {
        width: spread_width(l, r) as nat,
        height: spread_height(l, r) as nat,
        pixels: spread_pixels(l, r),
        frames: Seq::empty(),
    }
}

/// Whether the spread of the two pages can be held: its width fits a
/// `u32` and its buffer fits in memory.
pub open spec fn spread_fits(l: PageModel, r: PageModel) -> bool {
    &&& spread_width(l, r) <= u32::MAX
    &&& rgba_len(spread_width(l, r), spread_height(l, r)) <= usize::MAX
}

/// Where byte `c` of pixel (`x`, `y`) stands in a buffer of `w` columns.
proof fn lemma_pixel_index(w: int, x: int, y: int, c: int)
    requires
        0 <= x < w,
        0 <= y,
        0 <= c < 4,
    ensures
        ({
            let i = 4 * (y * w + x) + c;
            &&& i / 4 == y * w + x
            &&& i % 4 == c
            &&& (i / 4) % w == x
            &&& (i / 4) / w == y
        }),
{
    let p = y * w + x;
    let i = 4 * p + c;
    lemma_fundamental_div_mod_converse(i, 4, p, c);
    lemma_fundamental_div_mod_converse(p, w, y, x);
}

/// A pixel inside an image stands inside its buffer.
proof fn lemma_inside(w: int, h: int, x: int, y: int)
    requires
        0 <= x < w,
        0 <= y < h,
    ensures
        0 <= y * w + x < w * h,
        4 * (y * w + x) + 3 < 4 * w * h,
        0 <= y * w,
{
    assert(y * w + x < w * h) by (nonlinear_arith)
        requires
            0 <= x < w,
            0 <= y < h,
    ;
    assert(0 <= y * w) by (nonlinear_arith)
        requires
            0 <= w,
            0 <= y,
    ;
    assert(4 * w * h == 4 * (w * h)) by (nonlinear_arith);
}

/// Appends to `out` the four bytes of the pixel at (`x`, `y`) of a
/// transparent canvas on which `p` lies at (`x0`, `y0`).
fn push_placed(p: &DecodedPage, x0: u32, y0: u32, x: u32, y: u32, out: &mut Vec<u8>)
    ensures
        final(out)@ == old(out)@ + seq![
            placed_byte(p@, x0 as int, y0 as int, x as int, y as int, 0),
            placed_byte(p@, x0 as int, y0 as int, x as int, y as int, 1),
            placed_byte(p@, x0 as int, y0 as int, x as int, y as int, 2),
            placed_byte(p@, x0 as int, y0 as int, x as int, y as int, 3),
        ],
{
    proof {
        use_type_invariant(p);
    }
    let w = p.width();
    let h = p.height();
    let src = p.pixels();
    if x >= x0 && x - x0 < w && y >= y0 && y - y0 < h {
        proof {
            lemma_inside(w as int, h as int, (x - x0) as int, (y - y0) as int);
        }
        let row: usize = (y - y0) as usize * w as usize;
        let base: usize = 4 * (row + (x - x0) as usize);
        out.push(src[base]);
        out.push(src[base + 1]);
        out.push(src[base + 2]);
        out.push(src[base + 3]);
    } else {
        out.push(0);
        out.push(0);
        out.push(0);
        out.push(0);
    }
    assert(out@ =~= old(out)@ + seq![
        placed_byte(p@, x0 as int, y0 as int, x as int, y as int, 0),
        placed_byte(p@, x0 as int, y0 as int, x as int, y as int, 1),
        placed_byte(p@, x0 as int, y0 as int, x as int, y as int, 2),
        placed_byte(p@, x0 as int, y0 as int, x as int, y as int, 3),
    ]);
}

/// Composes `left` and `right` into one still page: `left` on the left
/// half, `right` beside it, each centred vertically on a transparent canvas.
pub fn compose(left: &DecodedPage, right: &DecodedPage) -> (r: Option<DecodedPage>)
    ensures
        r is Some <==> spread_fits(left@, right@),
        r matches Some(p) ==> p@ == spread(left@, right@),
{
    proof {
        use_type_invariant(left);
        use_type_invariant(right);
    }
    let lw = left.width();
    let rw = right.width();
    let lh = left.height();
    let rh = right.height();
    if rw > u32::MAX - lw {
        return None;
    }
    let w: u32 = lw + rw;
    let h: u32 = if lh >= rh { lh } else { rh };
    let n = match rgba_size(w, h) {
        Some(n) => n,
        None => {
            return None;
        },
    };
    let top_l: u32 = (h - lh) / 2;
    let top_r: u32 = (h - rh) / 2;
    let ghost want = spread_pixels(left@, right@);
    let mut out: Vec<u8> = Vec::with_capacity(n);
    let mut y: u32 = 0;
    while y < h
        invariant
            y <= h,
            w == lw + rw,
            w > 0,
            lw == left@.width,
            rw == right@.width,
            h == spread_height(left@, right@),
            w == spread_width(left@, right@),
            top_l == top_of(h as int, left@.height as int),
            top_r == top_of(h as int, right@.height as int),
            n == rgba_len(w as int, h as int),
            want == spread_pixels(left@, right@),
            out@.len() == 4 * (y * w),
            forall|i: int| 0 <= i < out@.len() ==> out@[i] == want[i],
        decreases h - y,
    {
        let mut x: u32 = 0;
        while x < w
            invariant
                x <= w,
                y < h,
                w == lw + rw,
                w > 0,
                lw == left@.width,
                rw == right@.width,
                h == spread_height(left@, right@),
                w == spread_width(left@, right@),
                top_l == top_of(h as int, left@.height as int),
                top_r == top_of(h as int, right@.height as int),
                n == rgba_len(w as int, h as int),
                want == spread_pixels(left@, right@),
                out@.len() == 4 * (y * w + x),
                forall|i: int| 0 <= i < out@.len() ==> out@[i] == want[i],
            decreases w - x,
        {
            let ghost before = out@;
            proof {
                lemma_inside(w as int, h as int, x as int, y as int);
                lemma_pixel_index(w as int, x as int, y as int, 0);
                lemma_pixel_index(w as int, x as int, y as int, 1);
                lemma_pixel_index(w as int, x as int, y as int, 2);
                lemma_pixel_index(w as int, x as int, y as int, 3);
            }
            if x < lw {
                push_placed(left, 0, top_l, x, y, &mut out);
            } else {
                push_placed(right, lw, top_r, x, y, &mut out);
            }
            proof {
                let base = 4 * (y * w + x);
                assert(out@.len() == base + 4);
                assert forall|i: int| 0 <= i < out@.len() implies out@[i] == want[i] by {
                    if i < base {
                        assert(out@[i] == before[i]);
                    } else {
                        let c = i - base;
                        assert(want[i] == spread_byte(
                            left@,
                            right@,
                            x as int,
                            y as int,
                            c,
                        ));
                    }
                }
            }
            x += 1;
        }
        proof {
            assert(4 * (y * w + w) == 4 * ((y + 1) * w)) by (nonlinear_arith);
        }
        y += 1;
    }
    assert(4 * (h * w) == 4 * w * h) by (nonlinear_arith);
    assert(out@ =~= want);
    DecodedPage::from_rgba(w, h, out)
}

/// Composing is a function of the pixels alone: pages that look the same
/// compose to spreads that look the same.
pub proof fn lemma_compose_is_pure(l1: PageModel, r1: PageModel, l2: PageModel, r2: PageModel)
    requires
        l1 == l2,
        r1 == r2,
    ensures
        spread_fits(l1, r1) == spread_fits(l2, r2),
        spread(l1, r1) == spread(l2, r2),
{
}

/// The spread is as wide as both pages together, as high as the higher
/// one, and its buffer is one RGBA8 image of that size.
pub proof fn lemma_spread_size(l: PageModel, r: PageModel)
    requires
        l.ok(),
        r.ok(),
    ensures
        spread(l, r).width == l.width + r.width,
        spread(l, r).height >= l.height,
        spread(l, r).height >= r.height,
        spread(l, r).height == l.height || spread(l, r).height == r.height,
        spread(l, r).pixels.len() == rgba_len(
            spread(l, r).width as int,
            spread(l, r).height as int,
        ),
{
    assert(4 * spread_width(l, r) * spread_height(l, r) >= 0) by (nonlinear_arith)
        requires
            spread_width(l, r) >= 0,
            spread_height(l, r) >= 0,
    ;
}

} // verus!

verus! {

/// Whether the spread of the two pages can be held.
pub fn fits(left: &DecodedPage, right: &DecodedPage) -> (b: bool)
    ensures
        b == spread_fits(left@, right@),
{
    let lw = left.width();
    let rw = right.width();
    let lh = left.height();
    let rh = right.height();
    if rw > u32::MAX - lw {
        return false;
    }
    let h: u32 = if lh >= rh { lh } else { rh };
    rgba_size(lw + rw, h).is_some()
}

} // verus!
