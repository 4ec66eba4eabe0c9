//! What the operations on numbers with six decimal places give, in millionths.
use vstd::prelude::*;

use vstd::arithmetic::div_mod::lemma_fundamental_div_mod;

use crate::fixed::{distance, floor_root, is_floor_root, nearest, Fixed};
use crate::scalar::Arithmetic;

verus! {

/// The number is so many millionths, or the end of the range beyond which they lie.
pub open spec fn counts(r: Fixed, v: int) -> bool {
    &&& i64::MIN <= v <= i64::MAX ==> r.raw == v
    &&& v > i64::MAX ==> r.raw == i64::MAX
    &&& v < i64::MIN ==> r.raw == i64::MIN
}

/// Sums, differences and signs are exact, up to the ends of the range.
pub proof fn sums_are_exact(a: Fixed, b: Fixed)
    ensures
        counts(Fixed::sum(a, b), a.raw + b.raw),
        counts(Fixed::difference(a, b), a.raw - b.raw),
        counts(Fixed::opposite(a), -a.raw),
        counts(
            Fixed::size(a),
            if a.raw < 0 {
                -a.raw
            } else {
                a.raw as int
            },
        ),
        Fixed::below(a, b) <==> a.raw < b.raw,
        Fixed::nil().raw == 0,
        Fixed::unit().raw == 1_000_000,
{
}

/// `q` parts of `part` go into `whole`, and less than one more; all of it on the side of zero that
/// the sign says.
pub open spec fn goes_into(whole: int, part: int, negative: bool, q: int) -> bool {
    let count = if negative {
        -q
    } else {
        q
    };
    0 <= count && count * part <= whole < (count + 1) * part
}

proof fn lemma_goes_into(whole: int, part: int, negative: bool)
    requires
        whole >= 0,
        part > 0,
    ensures
        goes_into(
            whole,
            part,
            negative,
            if negative {
                -(whole / part)
            } else {
                whole / part
            },
        ),
{
    let q = whole / part;
    lemma_fundamental_div_mod(whole, part);
    assert(q * part == part * q) by (nonlinear_arith);
    assert((q + 1) * part == part * q + part) by (nonlinear_arith);
    assert(0 <= q) by (nonlinear_arith)
        requires
            q == whole / part,
            whole >= 0,
            part > 0,
    ;
    assert(0 <= whole % part < part) by (nonlinear_arith)
        requires
            part > 0,
    ;
}

/// A product is cut off towards zero: so many whole millionths of it there are.
pub proof fn products_are_cut_off(a: Fixed, b: Fixed) -> (v: int)
    ensures
        counts(Fixed::product(a, b), v),
        goes_into(
            if (a.raw < 0) != (b.raw < 0) {
                -(a.raw * b.raw)
            } else {
                a.raw * b.raw
            },
            1_000_000,
            (a.raw < 0) != (b.raw < 0),
            v,
        ),
{
    let x = distance(a.raw as int);
    let y = distance(b.raw as int);
    let negative = (a.raw < 0) != (b.raw < 0);
    let (p, q) = (a.raw as int, b.raw as int);
    assert((-p) * q == -(p * q) && p * (-q) == -(p * q) && (-p) * (-q) == p * q)
        by (nonlinear_arith);
    assert(x * y >= 0) by (nonlinear_arith)
        requires
            x >= 0,
            y >= 0,
    ;
    lemma_goes_into(x * y, 1_000_000, negative);
    if negative {
        -(x * y / 1_000_000)
    } else {
        x * y / 1_000_000
    }
}

/// A quotient is cut off towards zero: the divisor goes so many millionths of a time into the
/// dividend. By zero, it is the end of the range on the side of the dividend, and zero for zero.
pub proof fn quotients_are_cut_off(a: Fixed, b: Fixed) -> (v: int)
    ensures
        b.raw != 0 ==> counts(Fixed::quotient(a, b), v) && goes_into(
            (if a.raw < 0 {
                -a.raw
            } else {
                a.raw as int
            }) * 1_000_000,
            if b.raw < 0 {
                -b.raw
            } else {
                b.raw as int
            },
            (a.raw < 0) != (b.raw < 0),
            v,
        ),
        b.raw == 0 && a.raw > 0 ==> Fixed::quotient(a, b).raw == i64::MAX,
        b.raw == 0 && a.raw < 0 ==> Fixed::quotient(a, b).raw == i64::MIN,
        b.raw == 0 && a.raw == 0 ==> Fixed::quotient(a, b).raw == 0,
{
    let x = distance(a.raw as int);
    let y = distance(b.raw as int);
    let negative = (a.raw < 0) != (b.raw < 0);
    if b.raw != 0 {
        lemma_goes_into(x * 1_000_000, y, negative);
        if negative {
            -(x * 1_000_000 / y)
        } else {
            x * 1_000_000 / y
        }
    } else {
        0
    }
}

proof fn lemma_root_from(v: int, r: int) -> (s: int)
    requires
        0 <= r,
        r * r <= v,
    ensures
        is_floor_root(v, s),
    decreases v - r * r,
{
    assert((r + 1) * (r + 1) == r * r + 2 * r + 1) by (nonlinear_arith);
    if v < (r + 1) * (r + 1) {
        r
    } else {
        lemma_root_from(v, r + 1)
    }
}

/// A root is cut off: squared it is not over the number, and with a millionth more it is. What is
/// not above zero has the root zero.
pub proof fn roots_are_cut_off(a: Fixed)
    ensures
        a.raw <= 0 ==> Fixed::root(a).raw == 0,
        a.raw > 0 ==> {
            let r = Fixed::root(a).raw as int;
            0 <= r && r * r <= a.raw * 1_000_000 < (r + 1) * (r + 1)
        },
{
    if a.raw > 0 {
        let v = a.raw * 1_000_000;
        let s = lemma_root_from(v, 0);
        let r = floor_root(v);
        assert(is_floor_root(v, r));
        assert(r <= i64::MAX) by {
            if r > i64::MAX {
                assert(r * r >= 0x8000_0000_0000_0000 * 0x8000_0000_0000_0000) by (nonlinear_arith)
                    requires
                        r >= 0x8000_0000_0000_0000,
                ;
            }
        }
        assert(nearest(r).raw == r);
    }
}

} // verus!
