//! Keypoints and the distances between them.
use vstd::prelude::*;

verus! {

/// Coordinate units in one pixel: coordinates are fixed-point numbers with
/// sixteen fractional bits.
pub const UNITS_PER_PIXEL: u32 = 65536;

/// A detected point: where it lies, and the key of its probability.
///
/// `x` and `y` are in coordinate units of whatever frame the caller works in;
/// they are as wide as the machine's integers go, so that every pixel of
/// every map has its coordinates. `score` is an ordered key: a larger key is
/// a higher probability. `scale` and `angle` are carried through and never
/// read.
#[derive(Debug, Clone, Copy, PartialEq, Eq, Structural)]
pub struct Keypoint {
    pub x: u128,
    pub y: u128,
    pub score: u32,
    pub scale: Option<u32>,
    pub angle: Option<u32>,
}

/// Squared Euclidean distance between two keypoints, in squared units.
pub open spec fn dist_sq(a: Keypoint, b: Keypoint) -> int {
    (a.x - b.x) * (a.x - b.x) + (a.y - b.y) * (a.y - b.y)
}

/// Whether `a` and `b` are strictly closer than `radius`.
pub open spec fn within(a: Keypoint, b: Keypoint, radius: u64) -> bool {
    dist_sq(a, b) < radius * radius
}

impl Keypoint {
    pub fn new(x: u128, y: u128, score: u32) -> (kp: Keypoint)
        ensures
            kp == (Keypoint { x, y, score, scale: None, angle: None }),
    {
        Keypoint { x, y, score, scale: None, angle: None }
    }

    pub fn with_scale_angle(x: u128, y: u128, score: u32, scale: u32, angle: u32) -> (kp: Keypoint)
        ensures
            kp == (Keypoint { x, y, score, scale: Some(scale), angle: Some(angle) }),
    {
        Keypoint { x, y, score, scale: Some(scale), angle: Some(angle) }
    }

    /// Squared Euclidean distance to `other`, if the widest integer holds it.
    pub fn distance_sq_to(&self, other: &Keypoint) -> (d: Option<u128>)
        ensures
            d is Some <==> dist_sq(*self, *other) <= u128::MAX,
            d matches Some(v) ==> v == dist_sq(*self, *other),
    {
        let dx: u128 = gap(self.x, other.x);
        let dy: u128 = gap(self.y, other.y);
        proof {
            lemma_square_of_gap(self.x as int, other.x as int, dx as int);
            lemma_square_of_gap(self.y as int, other.y as int, dy as int);
            lemma_squares_grow(0x1_0000_0000_0000_0000, dx as int);
            lemma_squares_grow(0x1_0000_0000_0000_0000, dy as int);
        }
        if dx > 0xffff_ffff_ffff_ffff || dy > 0xffff_ffff_ffff_ffff {
            return None;
        }
        proof {
            lemma_squares_grow(dx as int, 0xffff_ffff_ffff_ffff);
            lemma_squares_grow(dy as int, 0xffff_ffff_ffff_ffff);
        }
        let sx: u128 = dx * dx;
        let sy: u128 = dy * dy;
        if sx > u128::MAX - sy {
            None
        } else {
            Some(sx + sy)
        }
    }

    /// Whether `other` lies strictly closer than `radius`.
    pub fn is_within(&self, other: &Keypoint, radius: u64) -> (near: bool)
        ensures
            near == within(*self, *other, radius),
    {
        let dx: u128 = gap(self.x, other.x);
        let dy: u128 = gap(self.y, other.y);
        let r: u128 = radius as u128;
        proof {
            lemma_square_of_gap(self.x as int, other.x as int, dx as int);
            lemma_square_of_gap(self.y as int, other.y as int, dy as int);
            lemma_squares_grow(dx as int, r as int);
            lemma_squares_grow(dy as int, r as int);
            lemma_squares_grow(r as int, dx as int);
            lemma_squares_grow(r as int, dy as int);
            lemma_squares_grow(r as int, 0xffff_ffff_ffff_ffff);
        }
        if dx >= r || dy >= r {
            return false;
        }
        dy * dy < r * r - dx * dx
    }

    /// Euclidean distance to `other`, rounded down to a whole unit, if the
    /// widest integer holds the square of the distance.
    pub fn distance_to(&self, other: &Keypoint) -> (d: Option<u64>)
        ensures
            d is Some <==> dist_sq(*self, *other) <= u128::MAX,
            d matches Some(v) ==> v * v <= dist_sq(*self, *other) < (v + 1) * (v + 1),
    {
        let target: u128 = match self.distance_sq_to(other) {
            Some(target) => target,
            None => {
                return None;
            },
        };
        let mut low: u128 = 0;
        let mut high: u128 = 0x1_0000_0000_0000_0000;
        while high - low > 1
            invariant
                low < high <= 0x1_0000_0000_0000_0000,
                low * low <= target,
                high < 0x1_0000_0000_0000_0000 ==> target < high * high,
            decreases high - low,
        {
            let mid: u128 = low + (high - low) / 2;
            proof {
                lemma_squares_grow(mid as int, 0xffff_ffff_ffff_ffff);
            }
            if mid * mid <= target {
                low = mid;
            } else {
                high = mid;
            }
        }
        proof {
            if high == 0x1_0000_0000_0000_0000 {
                assert((low + 1) * (low + 1) == 0x1_0000_0000_0000_0000 * 0x1_0000_0000_0000_0000)
                    by (nonlinear_arith)
                    requires
                        low + 1 == 0x1_0000_0000_0000_0000,
                ;
            }
        }
        Some(low as u64)
    }
}

/// The absolute difference of two coordinates.
fn gap(a: u128, b: u128) -> (d: u128)
    ensures
        d == if a >= b { a - b } else { b - a },
{
    if a >= b { a - b } else { b - a }
}

/// Two keypoints paired up, with the distance between them.
#[derive(Debug, Clone, Copy, PartialEq, Eq)]
pub struct KeypointMatch {
    pub keypoint1: Keypoint,
    pub keypoint2: Keypoint,
    /// Euclidean distance between the two, rounded down to a whole unit;
    /// absent where the widest integer does not hold its square.
    pub distance: Option<u64>,
}

impl KeypointMatch {
    pub fn new(kp1: Keypoint, kp2: Keypoint) -> (m: KeypointMatch)
        ensures
            m.keypoint1 == kp1,
            m.keypoint2 == kp2,
            m.distance is Some <==> dist_sq(kp1, kp2) <= u128::MAX,
            m.distance matches Some(v) ==> v * v <= dist_sq(kp1, kp2) < (v + 1) * (v + 1),
    {
        let distance = kp1.distance_to(&kp2);
        KeypointMatch { keypoint1: kp1, keypoint2: kp2, distance }
    }
}

/// A distance is not negative, and is the same in both directions.
pub proof fn lemma_dist_sq_symmetric(a: Keypoint, b: Keypoint)
    ensures
        0 <= dist_sq(a, b),
        dist_sq(a, b) == dist_sq(b, a),
{
    let dx = a.x - b.x;
    let dy = a.y - b.y;
    assert(0 <= dx * dx) by (nonlinear_arith);
    assert(0 <= dy * dy) by (nonlinear_arith);
    assert((b.x - a.x) * (b.x - a.x) == dx * dx) by (nonlinear_arith)
        requires
            dx == a.x - b.x,
    ;
    assert((b.y - a.y) * (b.y - a.y) == dy * dy) by (nonlinear_arith)
        requires
            dy == a.y - b.y,
    ;
}

/// The square of a difference is the square of its absolute value.
proof fn lemma_square_of_gap(a: int, b: int, d: int)
    requires
        d == if a >= b { a - b } else { b - a },
    ensures
        d * d == (a - b) * (a - b),
        0 <= d * d,
{
    assert(d * d == (a - b) * (a - b) && 0 <= d * d) by (nonlinear_arith)
        requires
            d == a - b || d == b - a,
    ;
}

/// Of two numbers that are not negative, the smaller has the smaller square.
proof fn lemma_squares_grow(a: int, b: int)
    ensures
        0 <= a <= b ==> a * a <= b * b,
        0 <= a < b ==> a * a < b * b,
{
    if 0 <= a <= b {
        assert(a * a <= b * b) by (nonlinear_arith)
            requires
                0 <= a <= b,
        ;
    }
    if 0 <= a < b {
        assert(a * a < b * b) by (nonlinear_arith)
            requires
                0 <= a < b,
        ;
    }
}

} // verus!
