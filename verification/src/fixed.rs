//! Numbers with six decimal places, for regressions that have to come out the same everywhere.
use vstd::prelude::*;

use crate::scalar::{Arithmetic, Scalar};

verus! {

/// How many parts make a whole.
pub const SCALE: u64 = 1_000_000;

/// A number as a count of millionths. Operations round towards zero and stop at the ends of the
/// range.
#[derive(Debug, Clone, Copy, PartialEq, Eq, Structural)]
pub struct Fixed {
    pub raw: i64,
}

/// The number that is nearest to so many millionths.
pub open spec fn nearest(v: int) -> Fixed {
    Fixed {
        raw: if v > i64::MAX {
            i64::MAX
        } else if v < i64::MIN {
            i64::MIN
        } else {
            v as i64
        },
    }
}

/// The magnitude of a count.
pub open spec fn distance(v: int) -> int {
    if v < 0 {
        -v
    } else {
        v
    }
}

/// A magnitude with a sign.
pub open spec fn signed(negative: bool, v: int) -> int {
    if negative {
        -v
    } else {
        v
    }
}

/// The largest integer whose square is not over `v`.
pub open spec fn is_floor_root(v: int, r: int) -> bool {
    0 <= r && r * r <= v < (r + 1) * (r + 1)
}

pub open spec fn floor_root(v: int) -> int {
    choose|r: int| is_floor_root(v, r)
}

proof fn lemma_one_root(v: int, r: int, s: int)
    requires
        is_floor_root(v, r),
        is_floor_root(v, s),
    ensures
        r == s,
{
    if r < s {
        assert((r + 1) * (r + 1) <= s * s) by (nonlinear_arith)
            requires
                0 <= r < s,
        ;
    } else if s < r {
        assert((s + 1) * (s + 1) <= r * r) by (nonlinear_arith)
            requires
                0 <= s < r,
        ;
    }
}

fn root_of(v: u128) -> (r: u64)
    requires
        v < 0x1_0000_0000_0000_0000_0000_0000,
    ensures
        r == floor_root(v as int),
{
    let mut low: u128 = 0;
    let mut high: u128 = 0x1_0000_0000_0000;
    assert(0x1_0000_0000_0000int * 0x1_0000_0000_0000int
        == 0x1_0000_0000_0000_0000_0000_0000int) by (nonlinear_arith);
    while high - low > 1
        invariant
            low < high <= 0x1_0000_0000_0000,
            low * low <= v < high * high,
        decreases high - low,
    {
        let mid: u128 = low + (high - low) / 2;
        assert(mid * mid <= 0x1_0000_0000_0000 * 0x1_0000_0000_0000) by (nonlinear_arith)
            requires
                mid <= 0x1_0000_0000_0000,
        ;
        if mid * mid <= v {
            low = mid;
        } else {
            high = mid;
        }
    }
    assert(is_floor_root(v as int, low as int));
    proof {
        lemma_one_root(v as int, low as int, floor_root(v as int));
    }
    low as u64
}

impl Fixed {
    /// How far the number is from zero, in millionths.
    fn distance(self) -> (r: u128)
        ensures
            r == distance(self.raw as int),
            r <= 0x8000_0000_0000_0000,
    {
        if self.raw < 0 {
            (-(self.raw as i128)) as u128
        } else {
            self.raw as u128
        }
    }

    /// The number nearest to a magnitude with a sign.
    fn from_distance(negative: bool, v: u128) -> (r: Fixed)
        ensures
            r == nearest(signed(negative, v as int)),
    {
        if negative {
            if v > 0x8000_0000_0000_0000 {
                Fixed { raw: i64::MIN }
            } else {
                Fixed { raw: (-(v as i128)) as i64 }
            }
        } else if v > 0x7fff_ffff_ffff_ffff {
            Fixed { raw: i64::MAX }
        } else {
            Fixed { raw: v as i64 }
        }
    }

    /// The number nearest to a count of millionths.
    fn from_count(v: i128) -> (r: Fixed)
        ensures
            r == nearest(v as int),
    {
        if v > i64::MAX as i128 {
            Fixed { raw: i64::MAX }
        } else if v < i64::MIN as i128 {
            Fixed { raw: i64::MIN }
        } else {
            Fixed { raw: v as i64 }
        }
    }
}

impl Arithmetic for Fixed {
    open spec fn nil() -> Self {
        Fixed { raw: 0 }
    }

    open spec fn unit() -> Self {
        Fixed { raw: SCALE as i64 }
    }

    open spec fn sum(a: Self, b: Self) -> Self {
        nearest(a.raw + b.raw)
    }

    open spec fn difference(a: Self, b: Self) -> Self {
        nearest(a.raw - b.raw)
    }

    open spec fn product(a: Self, b: Self) -> Self {
        nearest(
            signed(
                (a.raw < 0) != (b.raw < 0),
                distance(a.raw as int) * distance(b.raw as int) / (SCALE as int),
            ),
        )
    }

    /// By zero, the end of the range on the side of the dividend, and zero for zero.
    open spec fn quotient(a: Self, b: Self) -> Self {
        if b.raw == 0 {
            if a.raw > 0 {
                Fixed { raw: i64::MAX }
            } else if a.raw < 0 {
                Fixed { raw: i64::MIN }
            } else {
                Fixed { raw: 0 }
            }
        } else {
            nearest(
                signed(
                    (a.raw < 0) != (b.raw < 0),
                    distance(a.raw as int) * SCALE / distance(b.raw as int),
                ),
            )
        }
    }

    open spec fn opposite(a: Self) -> Self {
        nearest(-a.raw)
    }

    /// Zero for what is not above zero.
    open spec fn root(a: Self) -> Self {
        if a.raw <= 0 {
            Fixed { raw: 0 }
        } else {
            nearest(floor_root(a.raw * SCALE))
        }
    }

    open spec fn size(a: Self) -> Self {
        nearest(distance(a.raw as int))
    }

    open spec fn below(a: Self, b: Self) -> bool {
        a.raw < b.raw
    }
}

impl Scalar for Fixed {
    fn zero() -> (r: Self) {
        Fixed { raw: 0 }
    }

    fn one() -> (r: Self) {
        Fixed { raw: SCALE as i64 }
    }

    fn plus(self, other: Self) -> (r: Self) {
        Fixed::from_count(self.raw as i128 + other.raw as i128)
    }

    fn minus(self, other: Self) -> (r: Self) {
        Fixed::from_count(self.raw as i128 - other.raw as i128)
    }

    fn times(self, other: Self) -> (r: Self) {
        let a: u128 = self.distance();
        let b: u128 = other.distance();
        assert(a * b <= 0x8000_0000_0000_0000 * 0x8000_0000_0000_0000) by (nonlinear_arith)
            requires
                a <= 0x8000_0000_0000_0000,
                b <= 0x8000_0000_0000_0000,
        ;
        Fixed::from_distance((self.raw < 0) != (other.raw < 0), a * b / SCALE as u128)
    }

    fn over(self, other: Self) -> (r: Self) {
        if other.raw == 0 {
            if self.raw > 0 {
                Fixed { raw: i64::MAX }
            } else if self.raw < 0 {
                Fixed { raw: i64::MIN }
            } else {
                Fixed { raw: 0 }
            }
        } else {
            let a: u128 = self.distance();
            let b: u128 = other.distance();
            assert(a * SCALE <= 0x8000_0000_0000_0000 * 1_000_000) by (nonlinear_arith)
                requires
                    a <= 0x8000_0000_0000_0000,
                    SCALE == 1_000_000,
            ;
            Fixed::from_distance((self.raw < 0) != (other.raw < 0), a * SCALE as u128 / b)
        }
    }

    fn negated(self) -> (r: Self) {
        Fixed::from_count(-(self.raw as i128))
    }

    fn square_root(self) -> (r: Self) {
        if self.raw <= 0 {
            Fixed { raw: 0 }
        } else {
            Fixed::from_distance(false, root_of(self.raw as u128 * SCALE as u128) as u128)
        }
    }

    fn magnitude(self) -> (r: Self) {
        Fixed::from_distance(false, self.distance())
    }

    fn less(self, other: Self) -> (r: bool) {
        self.raw < other.raw
    }
}

/// Products do not depend on the order of the factors.
pub proof fn fixed_products_commute()
    ensures
        crate::lasso_laws::products_commute::<Fixed>(),
{
    assert forall|a: Fixed, b: Fixed| #[trigger] Fixed::product(a, b) == Fixed::product(b, a) by {
        let x = distance(a.raw as int);
        let y = distance(b.raw as int);
        assert(x * y == y * x) by (nonlinear_arith);
    }
}

} // verus!
