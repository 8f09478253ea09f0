//! Tensor Codec geometry: the exact resize targets and scale ratios used
//! to adapt an image region to the detection and recognition engines.
//! The engines' pixel normalization itself is floating-point work done by
//! the caller; everything geometric is computed and verified here.

use vstd::prelude::*;

use crate::Error;
use crate::PROB_SCALE;
use crate::round_div;

verus! {

/// The longer side of a detection input is scaled to about this many pixels.
pub const DETECTION_MAX_SIDE: u32 = 960;

/// Detection dimensions are rounded to the nearest multiple of this.
pub const DETECTION_MULTIPLE: u32 = 32;

/// Recognition inputs are resized to exactly this height.
pub const RECOGNITION_HEIGHT: u32 = 48;

/// The detection resize target for one side: scale by
/// `DETECTION_MAX_SIDE / longest`, round to nearest, then round to the
/// nearest multiple of `DETECTION_MULTIPLE`.
pub open spec fn detection_dim(d: int, longest: int) -> int {
    DETECTION_MULTIPLE * round_div(round_div(d * DETECTION_MAX_SIDE, longest), DETECTION_MULTIPLE as int)
}

/// The longer of the two sides.
pub open spec fn longest_side(w: int, h: int) -> int {
    if w >= h {
        w
    } else {
        h
    }
}

fn dim_to_multiple(d: u32, m: u32) -> (r: u32)
    requires
        1 <= m,
        d <= m,
    ensures
        r == detection_dim(d as int, m as int),
        r <= DETECTION_MAX_SIDE,
{
    proof {
        assert(DETECTION_MAX_SIDE == 960);
        assert((d as u64) * 960u64 <= u64::MAX / 4) by (nonlinear_arith);
    }
    let a = crate::round_div_u64(d as u64 * DETECTION_MAX_SIDE as u64, m as u64);
    proof {
        assert(d as int * (DETECTION_MAX_SIDE as int) <= (DETECTION_MAX_SIDE as int) * m) by (nonlinear_arith)
            requires
                d <= m,
                DETECTION_MAX_SIDE == 960,
        ;
        crate::lemma_round_div_le(d as int * DETECTION_MAX_SIDE, m as int, DETECTION_MAX_SIDE as int);
        crate::lemma_round_div_nonneg(d as int * DETECTION_MAX_SIDE, m as int);
    }
    let b = crate::round_div_u64(a, DETECTION_MULTIPLE as u64);
    proof {
        assert(a as int <= 30 * DETECTION_MULTIPLE);
        crate::lemma_round_div_le(a as int, DETECTION_MULTIPLE as int, 30);
        crate::lemma_round_div_nonneg(a as int, DETECTION_MULTIPLE as int);
    }
    DETECTION_MULTIPLE * (b as u32)
}

/// The exact detection resize target for a source region, or
/// `InvalidGeometry` when the region has no pixels. Returns
/// `(resize_width, resize_height)`.
pub fn detection_dims(width: u32, height: u32) -> (r: Result<(u32, u32), Error>)
    ensures
        r is Err <==> width == 0 || height == 0,
        r is Err ==> r->Err_0 == Error::InvalidGeometry,
        r is Ok ==> r->Ok_0.0 == detection_dim(width as int, longest_side(width as int, height as int)),
        r is Ok ==> r->Ok_0.1 == detection_dim(
            height as int,
            longest_side(width as int, height as int),
        ),
{
    if width == 0 || height == 0 {
        return Err(Error::InvalidGeometry);
    }
    let m = if width >= height {
        width
    } else {
        height
    };
    let rw = dim_to_multiple(width, m);
    let rh = dim_to_multiple(height, m);
    Ok((rw, rh))
}

/// The recognition resize width: height fixed at `RECOGNITION_HEIGHT`,
/// width scaled to preserve aspect ratio, floored to one pixel,
/// saturating at `u32::MAX`.
pub open spec fn recognition_width_of(w: int, h: int) -> int {
    let scaled = round_div(w * RECOGNITION_HEIGHT, h);
    if scaled < 1 {
        1
    } else if scaled > u32::MAX {
        u32::MAX as int
    } else {
        scaled
    }
}

/// The recognition resize width for a source region, or `InvalidGeometry`
/// when the region has no pixels.
pub fn recognition_width(width: u32, height: u32) -> (r: Result<u32, Error>)
    ensures
        r is Err <==> width == 0 || height == 0,
        r is Err ==> r->Err_0 == Error::InvalidGeometry,
        r is Ok ==> r->Ok_0 == recognition_width_of(width as int, height as int),
{
    if width == 0 || height == 0 {
        return Err(Error::InvalidGeometry);
    }
    proof {
        assert(RECOGNITION_HEIGHT == 48);
        assert((width as u64) * 48u64 <= u64::MAX / 4) by (nonlinear_arith);
    }
    let s = crate::round_div_u64(width as u64 * RECOGNITION_HEIGHT as u64, height as u64);
    proof {
        crate::lemma_round_div_nonneg(width as int * RECOGNITION_HEIGHT, height as int);
    }
    let r = if s < 1 {
        1u32
    } else if s > u32::MAX as u64 {
        u32::MAX
    } else {
        s as u32
    };
    Ok(r)
}

/// The ratio between a resized dimension and its original, in
/// thousandths, rounded to nearest and saturating at `u32::MAX`: the
/// factor by which original-image geometry was shrunk into mask space.
pub open spec fn permille_ratio(resized: int, orig: int) -> int {
    let v = round_div(resized * PROB_SCALE, orig);
    if v > u32::MAX {
        u32::MAX as int
    } else {
        v
    }
}

/// Computes `permille_ratio` for a resized side against its original.
pub fn scale_permille(resized: u32, orig: u32) -> (r: u32)
    requires
        orig >= 1,
    ensures
        r == permille_ratio(resized as int, orig as int),
{
    proof {
        assert(PROB_SCALE == 1000);
        assert((resized as u64) * 1000u64 <= u64::MAX / 4) by (nonlinear_arith);
    }
    let v = crate::round_div_u64(resized as u64 * PROB_SCALE as u64, orig as u64);
    proof {
        crate::lemma_round_div_nonneg(resized as int * PROB_SCALE, orig as int);
    }
    if v > u32::MAX as u64 {
        u32::MAX
    } else {
        v as u32
    }
}

} // verus!
