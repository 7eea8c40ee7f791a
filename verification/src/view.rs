//! Page display sizing: exact aspect-fit of an image into a viewport.

use vstd::arithmetic::div_mod::{lemma_div_is_ordered, lemma_div_multiples_vanish};
use vstd::prelude::*;

verus! {

/// The largest size with the image's aspect ratio that fits the viewport:
/// when the viewport is wider than the image's shape, the height binds;
/// otherwise the width does.  Exact boundary-fit arithmetic, no
/// distortion.
pub open spec fn fitted(w: int, h: int, bw: int, bh: int) -> (int, int) {
    if bw * h > w * bh {
        (w * bh / h, bh)
    } else {
        (bw, h * bw / w)
    }
}

/// Scale an image of `width` by `height` to fit a `bound_w` by `bound_h`
/// viewport, keeping the aspect ratio.
pub fn scale_img_boundaries(width: u32, height: u32, bound_w: u32, bound_h: u32) -> (r: (
    u32,
    u32,
))
    requires
        width > 0,
        height > 0,
    ensures
        (r.0 as int, r.1 as int) == fitted(width as int, height as int, bound_w as int, bound_h as int),
{
    let w = width as u64;
    let h = height as u64;
    let bw = bound_w as u64;
    let bh = bound_h as u64;

    proof {
        assert((bound_w as int) * (height as int) <= (u32::MAX as int) * (u32::MAX as int))
            by (nonlinear_arith)
            requires
                bound_w <= u32::MAX,
                height <= u32::MAX,
        ;
        assert((width as int) * (bound_h as int) <= (u32::MAX as int) * (u32::MAX as int))
            by (nonlinear_arith)
            requires
                width <= u32::MAX,
                bound_h <= u32::MAX,
        ;
        assert((height as int) * (bound_w as int) <= (u32::MAX as int) * (u32::MAX as int))
            by (nonlinear_arith)
            requires
                height <= u32::MAX,
                bound_w <= u32::MAX,
        ;
    }

    if bw * h > w * bh {
        let fit_w = w * bh / h;
        proof {
            lemma_div_is_ordered((w * bh) as int, (bw * h) as int, h as int);
            lemma_div_multiples_vanish(bw as int, h as int);
            assert((bw as int) * (h as int) == (h as int) * (bw as int)) by (nonlinear_arith);
            assert((bw as int) * (h as int) / (h as int) == bw as int);
            assert(fit_w as int <= bw as int);
        }
        (fit_w as u32, bound_h)
    } else {
        let fit_h = h * bw / w;
        proof {
            lemma_div_is_ordered((h * bw) as int, (bh * w) as int, w as int);
            lemma_div_multiples_vanish(bh as int, w as int);
            assert((bh as int) * (w as int) == (w as int) * (bh as int)) by (nonlinear_arith);
            assert((h as int) * (bw as int) <= (bh as int) * (w as int)) by (nonlinear_arith)
                requires
                    (bw as int) * (h as int) <= (w as int) * (bh as int),
            ;
            assert((bh as int) * (w as int) / (w as int) == bh as int);
            assert(fit_h as int <= bh as int);
        }
        (bound_w, fit_h as u32)
    }
}

} // verus!
