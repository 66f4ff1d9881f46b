//! Automatic exposure estimation from the mid-tones of a decoded image.
use vstd::prelude::*;
use rayon::iter::{IntoParallelRefIterator, ParallelIterator};

verus! {

/// Samples strictly between near-black and near-white: `20 < v < 220`.
pub open spec fn is_mid_tone(v: u8) -> bool {
    20 < v < 220
}

/// Sum of the mid-tone samples of `s`.
pub open spec fn mid_sum(s: Seq<u8>) -> int
    decreases s.len(),
{
    if s.len() == 0 {
        0
    } else {
        mid_sum(s.drop_last()) + if is_mid_tone(s.last()) {
            s.last() as int
        } else {
            0
        }
    }
}

/// Number of mid-tone samples of `s`.
pub open spec fn mid_count(s: Seq<u8>) -> int
    decreases s.len(),
{
    if s.len() == 0 {
        0
    } else {
        mid_count(s.drop_last()) + if is_mid_tone(s.last()) {
            1int
        } else {
            0
        }
    }
}

/// The correction an image asks for.
#[derive(Clone, Copy, Debug, PartialEq, Eq, Structural)]
pub enum Exposure {
    /// No automatic correction.
    Keep,
    /// Brighten by `2^(110 / mean)`.
    Push { mean: u32 },
    /// Darken by `2^(110 / mean)`.
    Pull { mean: u32 },
}

/// The correction for a mid-tone mean `m` over `count` mid-tone samples: none
/// without mid-tones or outside `60 < m < 120`, darkening above 110.
pub open spec fn exposure_for(sum: int, count: int) -> Exposure {
    if count == 0 {
        Exposure::Keep
    } else {
        let m = sum / count;
        if 60 < m < 120 {
            if m > 110 {
                Exposure::Pull { mean: m as u32 }
            } else {
                Exposure::Push { mean: m as u32 }
            }
        } else {
            Exposure::Keep
        }
    }
}

/// A sample's contribution to the mid-tone totals.
pub fn mid_tone_pair(v: u8) -> (r: (u128, u128))
    ensures
        r == (if is_mid_tone(v) {
            (v as u128, 1u128)
        } else {
            (0u128, 0u128)
        }),
{
    if v > 20 && v < 220 {
        (v as u128, 1)
    } else {
        (0, 0)
    }
}

/// Component-wise sum of two totals, saturating.
pub fn add_pairs(a: (u128, u128), b: (u128, u128)) -> (r: (u128, u128))
    ensures
        r.0 == if a.0 + b.0 <= u128::MAX {
            a.0 + b.0
        } else {
            u128::MAX as int
        },
        r.1 == if a.1 + b.1 <= u128::MAX {
            a.1 + b.1
        } else {
            u128::MAX as int
        },
{
    (a.0.saturating_add(b.0), a.1.saturating_add(b.1))
}

/// Relies on rayon's `par_iter`, `map` and `reduce`: `reduce` combines the
/// mapped items with the associative `add_pairs`, starting from `(0, 0)`,
/// which gives the sequential sum; a slice's totals stay below
/// `219 * usize::MAX < 2^128`, so nothing saturates.
#[verifier::external_body]
fn mid_tone_totals(data: &[u8]) -> (r: (u128, u128))
    ensures
        r.0 == mid_sum(data@),
        r.1 == mid_count(data@),
{
    data.par_iter().map(|v| mid_tone_pair(*v)).reduce(|| (0, 0), |a, b| add_pairs(a, b))
}

pub proof fn lemma_mid_bounds(s: Seq<u8>)
    ensures
        0 <= mid_count(s) <= s.len(),
        0 <= mid_sum(s) <= 219 * mid_count(s),
        21 * mid_count(s) <= mid_sum(s),
    decreases s.len(),
{
    if s.len() > 0 {
        lemma_mid_bounds(s.drop_last());
    }
}

/// The automatic exposure correction of an image from its samples; see
/// `exposure_for`. The mean is rounded down.
pub fn exposure_shift(data: &[u8]) -> (r: Exposure)
    ensures
        r == exposure_for(mid_sum(data@), mid_count(data@)),
{
    let (m, j) = mid_tone_totals(data);
    if j == 0 {
        return Exposure::Keep;
    }
    proof {
        lemma_mid_bounds(data@);
    }
    let mm = m / j;
    assert(mm <= 219) by (nonlinear_arith)
        requires m <= 219 * j, j >= 1, mm == m / j;
    if mm < 120 && mm > 60 {
        if mm > 110 {
            Exposure::Pull { mean: mm as u32 }
        } else {
            Exposure::Push { mean: mm as u32 }
        }
    } else {
        Exposure::Keep
    }
}

} // verus!
