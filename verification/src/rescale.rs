//! Mapping keypoints from the detector's grid to another resolution.
use vstd::prelude::*;
use vstd::arithmetic::div_mod::{lemma_div_multiples_vanish, lemma_fundamental_div_mod, lemma_fundamental_div_mod_converse};
use crate::error::SuperPointError;
use crate::keypoint::Keypoint;

verus! {

/// The coordinate `x` times `target / model`, rounded down to a whole unit.
pub open spec fn scaled(x: u128, target: u32, model: int) -> int {
    (x * target) / model
}

/// Whether a grid of `model_size`, as `(height, width)`, can be scaled from.
pub open spec fn scalable(model_size: (i64, i64)) -> bool {
    model_size.0 > 0 && model_size.1 > 0
}

/// Whether the widest integer holds both coordinates of the keypoint `k`
/// after rescaling.
pub open spec fn movable(k: Keypoint, original_size: (u32, u32), model_size: (i64, i64)) -> bool {
    &&& scaled(k.x, original_size.0, model_size.1 as int) <= u128::MAX
    &&& scaled(k.y, original_size.1, model_size.0 as int) <= u128::MAX
}

/// Whether every one of the keypoints is movable.
pub open spec fn all_movable(keypoints: Seq<Keypoint>, original_size: (u32, u32), model_size: (i64, i64)) -> bool {
    forall|i: int| 0 <= i < keypoints.len() ==> movable(#[trigger] keypoints[i], original_size, model_size)
}

/// The keypoint `k` of a grid of `model_size`, given as `(height, width)`, in
/// an image of `original_size`, given as `(width, height)`: each axis is
/// scaled on its own, and nothing else changes.
pub open spec fn rescaled(k: Keypoint, original_size: (u32, u32), model_size: (i64, i64)) -> Keypoint {
    Keypoint {
        x: scaled(k.x, original_size.0, model_size.1 as int) as u128,
        y: scaled(k.y, original_size.1, model_size.0 as int) as u128,
        score: k.score,
        scale: k.scale,
        angle: k.angle,
    }
}

/// The keypoints `keypoints`, each one rescaled, in the same order.
pub open spec fn rescaled_all(keypoints: Seq<Keypoint>, original_size: (u32, u32), model_size: (i64, i64)) -> Seq<Keypoint> {
    Seq::new(keypoints.len(), |i: int| rescaled(keypoints[i], original_size, model_size))
}

/// The message for a grid without extent.
pub open spec fn model_size_message() -> Seq<char> {
    "Model size must be positive in both dimensions"@
}

/// The message for a coordinate that no integer of the machine holds.
pub open spec fn range_message() -> Seq<char> {
    "Rescaled coordinate is out of range"@
}

/// The two scale factors of one rescaling, each as a fraction.
#[derive(Debug, Clone, Copy)]
pub struct Scale {
    original_size: (u32, u32),
    model_size: (i64, i64),
}

impl Scale {
    #[verifier::type_invariant]
    spec fn well_formed(self) -> bool {
        scalable(self.model_size)
    }

    /// The image size, as `(width, height)`.
    pub closed spec fn spec_original_size(&self) -> (u32, u32) {
        self.original_size
    }

    /// The grid size, as `(height, width)`.
    pub closed spec fn spec_model_size(&self) -> (i64, i64) {
        self.model_size
    }

    /// The scale from a grid of `model_size`, as `(height, width)`, to an
    /// image of `original_size`, as `(width, height)`. A grid without extent
    /// is refused.
    pub fn new(original_size: (u32, u32), model_size: (i64, i64)) -> (made: Result<Scale, SuperPointError>)
        ensures
            scalable(model_size) ==> (made matches Ok(scale) && scale.spec_original_size()
                == original_size && scale.spec_model_size() == model_size),
            !scalable(model_size) ==> (made matches Err(SuperPointError::Config(m)) && m@
                == model_size_message()),
    {
        if model_size.0 > 0 && model_size.1 > 0 {
            Ok(Scale { original_size, model_size })
        } else {
            Err(SuperPointError::Config("Model size must be positive in both dimensions".to_string()))
        }
    }

    /// The keypoint at the image's resolution: each coordinate times the
    /// image's size over the grid's, rounded down to a whole unit. There is
    /// none where a coordinate would pass the widest integer.
    pub fn apply(&self, k: Keypoint) -> (moved: Option<Keypoint>)
        ensures
            moved is Some <==> movable(k, self.spec_original_size(), self.spec_model_size()),
            moved matches Some(at) ==> at == rescaled(k, self.spec_original_size(), self.spec_model_size()),
    {
        proof {
            use_type_invariant(self);
        }
        let x = match scale_coordinate(k.x, self.original_size.0, self.model_size.1) {
            Some(x) => x,
            None => {
                return None;
            },
        };
        let y = match scale_coordinate(k.y, self.original_size.1, self.model_size.0) {
            Some(y) => y,
            None => {
                return None;
            },
        };
        Some(Keypoint { x, y, score: k.score, scale: k.scale, angle: k.angle })
    }
}

/// `x` times `target / model`, rounded down, if the widest integer holds it.
/// The product is never formed: the whole multiples of `model` in `x` and
/// what is left of `x` are scaled apart.
fn scale_coordinate(x: u128, target: u32, model: i64) -> (moved: Option<u128>)
    requires
        model > 0,
    ensures
        moved is Some <==> scaled(x, target, model as int) <= u128::MAX,
        moved matches Some(v) ==> v == scaled(x, target, model as int),
{
    let m: u128 = model as u128;
    let t: u128 = target as u128;
    let whole: u128 = x / m;
    let rest: u128 = x % m;
    assert(rest * t <= 0x7fff_ffff_ffff_ffff * 0xffff_ffff) by (nonlinear_arith)
        requires
            0 <= rest <= 0x7fff_ffff_ffff_ffff,
            0 <= t <= 0xffff_ffff,
    ;
    let part: u128 = (rest * t) / m;
    proof {
        lemma_scaled_in_parts(x as int, t as int, m as int);
    }
    if t == 0 {
        assert(whole * t == 0) by (nonlinear_arith)
            requires
                t == 0,
        ;
        return Some(part);
    }
    let most: u128 = u128::MAX / t;
    proof {
        lemma_fundamental_div_mod(u128::MAX as int, t as int);
        if whole > most {
            assert(whole * t > u128::MAX) by (nonlinear_arith)
                requires
                    whole >= most + 1,
                    u128::MAX == t * most + (u128::MAX as int) % (t as int),
                    0 <= (u128::MAX as int) % (t as int) < t,
            ;
        } else {
            assert(0 <= whole * t <= u128::MAX) by (nonlinear_arith)
                requires
                    0 <= whole <= most,
                    u128::MAX == t * most + (u128::MAX as int) % (t as int),
                    0 <= (u128::MAX as int) % (t as int),
                    0 < t,
            ;
        }
    }
    if whole > most {
        return None;
    }
    let scaled_whole: u128 = whole * t;
    if scaled_whole > u128::MAX - part {
        None
    } else {
        Some(scaled_whole + part)
    }
}

/// Scaling between two sizes of equal width and equal height moves nothing.
pub proof fn lemma_rescale_identity(k: Keypoint, original_size: (u32, u32), model_size: (i64, i64))
    requires
        scalable(model_size),
        original_size.0 == model_size.1,
        original_size.1 == model_size.0,
    ensures
        movable(k, original_size, model_size),
        rescaled(k, original_size, model_size) == k,
{
    lemma_div_multiples_vanish(k.x as int, model_size.1 as int);
    lemma_div_multiples_vanish(k.y as int, model_size.0 as int);
    assert(k.x * original_size.0 == model_size.1 * k.x) by (nonlinear_arith)
        requires
            original_size.0 == model_size.1,
    ;
    assert(k.y * original_size.1 == model_size.0 * k.y) by (nonlinear_arith)
        requires
            original_size.1 == model_size.0,
    ;
}

/// A coordinate is scaled by scaling the whole multiples of `m` in it and
/// what is left of it apart.
proof fn lemma_scaled_in_parts(x: int, t: int, m: int)
    requires
        0 <= x,
        0 <= t,
        0 < m,
    ensures
        (x * t) / m == (x / m) * t + ((x % m) * t) / m,
        0 <= ((x % m) * t) / m,
        0 <= (x / m) * t,
{
    let q = x / m;
    let r = x % m;
    lemma_fundamental_div_mod(x, m);
    let b = r * t;
    assert(0 <= b) by (nonlinear_arith)
        requires
            b == r * t,
            0 <= r,
            0 <= t,
    ;
    lemma_fundamental_div_mod(b, m);
    assert(0 <= q) by (nonlinear_arith)
        requires
            x == m * q + r,
            0 <= r < m,
            0 <= x,
            0 < m,
    ;
    assert(0 <= b / m) by (nonlinear_arith)
        requires
            b == m * (b / m) + b % m,
            0 <= b % m < m,
            0 <= b,
            0 < m,
    ;
    assert(0 <= q * t) by (nonlinear_arith)
        requires
            0 <= q,
            0 <= t,
    ;
    assert(x * t == (q * t + b / m) * m + b % m) by (nonlinear_arith)
        requires
            x == m * q + r,
            b == r * t,
            b == m * (b / m) + b % m,
    ;
    lemma_fundamental_div_mod_converse(x * t, m, q * t + b / m, b % m);
}

} // verus!
