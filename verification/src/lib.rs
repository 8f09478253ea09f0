use vstd::prelude::*;

pub mod block;
pub mod codec;
pub mod decoder;
pub mod refine;
pub mod region;

verus! {

/// Probabilities and sub-pixel coordinates are carried as fixed-point
/// integers in units of one thousandth: a score of 0.3 is 300, and a
/// coordinate of 12.5 pixels is 12500.
pub const PROB_SCALE: u32 = 1000;

/// Failures surfaced by the pipeline to its immediate caller.
#[derive(Clone, Copy, Debug, PartialEq, Eq, Structural)]
pub enum Error {
    /// A crop or resize target has zero width or height.
    InvalidGeometry,
    /// An underlying inference call failed; opaque to this library.
    EngineFailure,
    /// A probability tensor has a malformed shape.
    DecodeFailure,
}

impl Error {
    /// A short human-readable description of the failure.
    pub fn describe(&self) -> (r: &'static str)
        ensures
            r@.len() > 0,
    {
        match self {
            Error::InvalidGeometry => {
                proof {
                    reveal_strlit("zero-area crop or resize target");
                }
                "zero-area crop or resize target"
            },
            Error::EngineFailure => {
                proof {
                    reveal_strlit("inference engine failure");
                }
                "inference engine failure"
            },
            Error::DecodeFailure => {
                proof {
                    reveal_strlit("malformed probability tensor");
                }
                "malformed probability tensor"
            },
        }
    }
}

/// The quotient `a / b` rounded to the nearest integer, halves rounding up.
pub open spec fn round_div(a: int, b: int) -> int
    recommends
        b > 0,
{
    (2 * a + b) / (2 * b)
}

/// A fixed-point coordinate rounded to whole pixels, negative values
/// clamped to zero first.
pub open spec fn round_px(k: int) -> int {
    if k <= 0 {
        0
    } else {
        round_div(k, PROB_SCALE as int)
    }
}

/// Rounding a quotient never exceeds any upper bound on the exact quotient:
/// if `a <= c * b` then the rounded quotient is at most `c`.
pub proof fn lemma_round_div_le(a: int, b: int, c: int)
    requires
        b > 0,
        0 <= a,
        a <= c * b,
    ensures
        round_div(a, b) <= c,
{
    assert(2 * a + b <= c * (2 * b) + b) by (nonlinear_arith)
        requires
            a <= c * b,
    ;
    vstd::arithmetic::div_mod::lemma_div_is_ordered(2 * a + b, c * (2 * b) + b, 2 * b);
    vstd::arithmetic::div_mod::lemma_fundamental_div_mod_converse(c * (2 * b) + b, 2 * b, c, b);
}

/// The rounded quotient is never negative.
pub proof fn lemma_round_div_nonneg(a: int, b: int)
    requires
        b > 0,
        0 <= a,
    ensures
        0 <= round_div(a, b),
{
    vstd::arithmetic::div_mod::lemma_div_is_ordered(0, 2 * a + b, 2 * b);
    assert(0int / (2 * b) == 0) by {
        vstd::arithmetic::div_mod::lemma_basic_div(0, 2 * b);
    }
}

/// Computes `round_div` on machine integers.
pub fn round_div_u64(a: u64, b: u64) -> (r: u64)
    requires
        b >= 1,
        a <= u64::MAX / 4,
        b <= u64::MAX / 4,
    ensures
        r == round_div(a as int, b as int),
{
    (2 * a + b) / (2 * b)
}

} // verus!
