//! Real numbers, for what holds of the regression where nothing is rounded.
use vstd::prelude::*;

use crate::scalar::Arithmetic;

verus! {

/// The root of a number: not negative, and the number when squared.
pub open spec fn is_root(a: real, r: real) -> bool {
    r >= 0real && r * r == a
}

impl Arithmetic for real {
    open spec fn nil() -> real {
        0real
    }

    open spec fn unit() -> real {
        1real
    }

    open spec fn sum(a: real, b: real) -> real {
        a + b
    }

    open spec fn difference(a: real, b: real) -> real {
        a - b
    }

    open spec fn product(a: real, b: real) -> real {
        a * b
    }

    open spec fn quotient(a: real, b: real) -> real {
        a / b
    }

    open spec fn opposite(a: real) -> real {
        0real - a
    }

    /// Zero for a number that has no root.
    open spec fn root(a: real) -> real {
        if exists|r: real| is_root(a, r) {
            choose|r: real| is_root(a, r)
        } else {
            0real
        }
    }

    open spec fn size(a: real) -> real {
        if a < 0real {
            0real - a
        } else {
            a
        }
    }

    open spec fn below(a: real, b: real) -> bool {
        a < b
    }
}

pub proof fn lemma_turn(a: real, b: real)
    ensures
        a * b == b * a,
{
    assert(a * b == b * a) by (nonlinear_arith);
}

pub proof fn lemma_spread(a: real, b: real, c: real)
    ensures
        a * (b + c) == a * b + a * c,
{
    assert(a * (b + c) == a * b + a * c) by (nonlinear_arith);
}

pub proof fn lemma_spread_less(a: real, b: real, c: real)
    ensures
        a * (b - c) == a * b - a * c,
{
    assert(a * (b - c) == a * b - a * c) by (nonlinear_arith);
}

/// The factors of a product of three in another order.
pub proof fn lemma_regroup(a: real, b: real, c: real)
    ensures
        a * (b * c) == b * (a * c),
        a * (b * c) == (a * b) * c,
{
    assert(a * (b * c) == b * (a * c)) by (nonlinear_arith);
    assert(a * (b * c) == (a * b) * c) by (nonlinear_arith);
}

pub proof fn lemma_times_zero(a: real)
    ensures
        a * 0real == 0real,
        0real * a == 0real,
{
    assert(a * 0real == 0real) by (nonlinear_arith);
    assert(0real * a == 0real) by (nonlinear_arith);
}

pub proof fn lemma_square_of_difference(a: real, b: real)
    ensures
        (a - b) * (a - b) == a * a - 2real * (b * a) + b * b,
        (a - b) * b == b * a - b * b,
{
    assert((a - b) * (a - b) == a * a - 2real * (b * a) + b * b) by (nonlinear_arith);
    assert((a - b) * b == b * a - b * b) by (nonlinear_arith);
}

pub proof fn lemma_own_square(a: real)
    ensures
        a * a >= 0real,
{
    assert(a * a >= 0real) by (nonlinear_arith);
}

pub proof fn lemma_not_negative(a: real, b: real)
    requires
        a >= 0real,
        b >= 0real,
    ensures
        a * b >= 0real,
{
    assert(a * b >= 0real) by (nonlinear_arith)
        requires
            a >= 0real,
            b >= 0real,
    ;
}

pub proof fn lemma_positive(a: real, b: real)
    requires
        a > 0real,
        b > 0real,
    ensures
        a * b > 0real,
{
    assert(a * b > 0real) by (nonlinear_arith)
        requires
            a > 0real,
            b > 0real,
    ;
}

pub proof fn lemma_divided(a: real, b: real)
    requires
        b != 0real,
    ensures
        b * (a / b) == a,
{
    assert(b * (a / b) == a) by (nonlinear_arith)
        requires
            b != 0real,
    ;
}

/// Equal products with a factor that is not zero are products of equal numbers.
pub proof fn lemma_cancel(a: real, b: real, c: real)
    requires
        a != 0real,
        a * b == a * c,
    ensures
        b == c,
{
    lemma_spread_less(a, b, c);
    if b > c && a > 0real {
        lemma_positive(a, b - c);
    } else if b > c {
        lemma_positive(0real - a, b - c);
        lemma_turn(0real - a, b - c);
        lemma_spread_less(b - c, 0real, a);
        lemma_turn(b - c, a);
        lemma_times_zero(b - c);
    } else if b < c && a > 0real {
        lemma_positive(a, c - b);
        lemma_spread_less(a, c, b);
    } else if b < c {
        lemma_positive(0real - a, c - b);
        lemma_turn(0real - a, c - b);
        lemma_spread_less(c - b, 0real, a);
        lemma_turn(c - b, a);
        lemma_spread_less(a, c, b);
        lemma_times_zero(c - b);
    }
}

/// A number has one root.
pub proof fn lemma_one_root(a: real, r: real, s: real)
    requires
        is_root(a, r),
        is_root(a, s),
    ensures
        r == s,
{
    if r < s {
        lemma_positive(s - r, s - r);
        lemma_square_of_difference(s, r);
        lemma_not_negative(r, s - r);
        lemma_spread_less(r, s, r);
    } else if s < r {
        lemma_positive(r - s, r - s);
        lemma_square_of_difference(r, s);
        lemma_not_negative(s, r - s);
        lemma_spread_less(s, r, s);
    }
}

/// The root of a multiple by a square is the multiple of the root.
pub proof fn lemma_root_scaled(a: real, s: real)
    requires
        s > 0real,
    ensures
        real::root(s * (s * a)) == s * real::root(a),
{
    let b = s * (s * a);
    if exists|r: real| is_root(a, r) {
        let r = real::root(a);
        assert(is_root(a, r));
        lemma_not_negative(s, r);
        lemma_regroup(s * r, s, r);
        lemma_regroup(s, s, r * r);
        lemma_regroup(s, r, r);
        assert(is_root(b, s * r));
        lemma_one_root(b, s * r, real::root(b));
    } else {
        lemma_times_zero(s);
        if exists|r: real| is_root(b, r) {
            let r = choose|r: real| is_root(b, r);
            let q = r / s;
            lemma_divided(r, s);
            assert(q >= 0real) by {
                if q < 0real {
                    lemma_positive(s, 0real - q);
                    lemma_spread_less(s, 0real, q);
                }
            }
            // r * r is s * (s * (q * q)).
            lemma_regroup(s * q, s, q);
            lemma_regroup(s, s, q * q);
            lemma_regroup(s, q, q);
            lemma_cancel(s, s * (q * q), s * a);
            lemma_cancel(s, q * q, a);
            assert(is_root(a, q));
        }
    }
}

} // verus!
