//! Tone curves: 256-entry tables that remap each 8-bit sample.
use vstd::prelude::*;

verus! {

/// The family of a tone curve.
#[derive(Clone, Copy, Debug, PartialEq, Eq, Structural)]
pub enum CurveKind {
    /// `(i / 255)^(1 / shift)`.
    Gamma,
    /// Linear gain with a smooth roll-off into the highlights.
    Linear,
}

/// The curve family a selector names: `gamma`, or `linear` for anything else.
pub fn curve_kind(name: &[u8]) -> (r: CurveKind)
    ensures
        r == (if name@ == seq![103u8, 97u8, 109u8, 109u8, 97u8] {
            CurveKind::Gamma
        } else {
            CurveKind::Linear
        }),
{
    if name.len() == 5 && name[0] == 103 && name[1] == 97 && name[2] == 109 && name[3] == 109
        && name[4] == 97 {
        assert(name@ =~= seq![103u8, 97u8, 109u8, 109u8, 97u8]);
        CurveKind::Gamma
    } else {
        CurveKind::Linear
    }
}

/// Replaces every sample `v` of the image by `lut[v]`.
pub fn apply_exp_correction(image: &mut Vec<u8>, lut: &[u8])
    requires
        lut@.len() == 256,
    ensures
        final(image)@.len() == old(image)@.len(),
        forall|i: int|
            0 <= i < final(image)@.len() ==> final(image)@[i] == lut@[old(image)@[i] as int],
{
    let n = image.len();
    let mut i: usize = 0;
    while i < n
        invariant
            n == image@.len(),
            n == old(image)@.len(),
            lut@.len() == 256,
            i <= n,
            forall|k: int| 0 <= k < i ==> image@[k] == lut@[old(image)@[k] as int],
            forall|k: int| i <= k < n ==> image@[k] == old(image)@[k],
        decreases n - i,
    {
        let v = image[i];
        image.set(i, lut[v as usize]);
        i = i + 1;
    }
}

} // verus!
