//! What the regression minimises, and what holds of the minimum where nothing is rounded.
use vstd::prelude::*;

use crate::lasso::{
    accumulated, best, blank, cross, descended, descent_keeps_all_but_the_coefficients, deviation,
    improved, lemma_entry, residual, shrunk, stepped,
    sweep_keeps_all_but_the_coefficients, swept, threshold, variance, EwmLassoOptions, LassoModel,
};
use crate::lasso_laws::{
    a_blank_state_is_symmetric, a_settled_state_stays, a_sweep_makes_each_coefficient_best,
    is_symmetric,
};
use crate::reals::{
    is_root, lemma_divided, lemma_not_negative, lemma_own_square, lemma_positive, lemma_regroup,
    lemma_spread, lemma_spread_less, lemma_square_of_difference, lemma_times_zero, lemma_turn,
};
use crate::scalar::Arithmetic;

verus! {

/// The sum of the products of the first `n` entries of two lists.
pub open spec fn dot(a: Seq<real>, b: Seq<real>, n: int) -> real
    decreases n,
{
    if n <= 0 {
        0real
    } else {
        dot(a, b, n - 1) + a[n - 1] * b[n - 1]
    }
}

/// The sums for the products of feature `i` with each feature.
pub open spec fn row(st: LassoModel<real>, i: int) -> Seq<real> {
    Seq::new(st.n_features, |k: int| cross(st, i, k))
}

/// The products of the features, applied to a list of coefficients.
pub open spec fn applied(st: LassoModel<real>, b: Seq<real>) -> Seq<real> {
    Seq::new(st.n_features, |i: int| dot(row(st, i), b, st.n_features as int))
}

/// The thresholds of all features.
pub open spec fn thresholds(st: LassoModel<real>) -> Seq<real> {
    Seq::new(st.n_features, |j: int| threshold(st, j))
}

/// How far the entries of a list are from zero.
pub open spec fn sizes(b: Seq<real>) -> Seq<real> {
    Seq::new(b.len(), |j: int| real::size(b[j]))
}

/// The weighted lasso objective of the rows so far: half the weighted sum of the squares of what
/// the coefficients leave of the targets, but for a part that does not depend on them, and the
/// threshold of each feature for the distance of its coefficient from zero.
pub open spec fn objective(st: LassoModel<real>, b: Seq<real>) -> real {
    let n = st.n_features as int;
    dot(b, applied(st, b), n) / 2real - dot(st.z, b, n) + dot(thresholds(st), sizes(b), n)
}

/// Coefficients that no others are better than.
pub open spec fn is_minimum(st: LassoModel<real>, b: Seq<real>) -> bool {
    forall|other: Seq<real>|
        other.len() == st.n_features ==> objective(st, b) <= #[trigger] objective(st, other)
}

/// Every list of coefficients has a sum of squares that is not negative.
pub open spec fn is_positive(st: LassoModel<real>) -> bool {
    forall|b: Seq<real>|
        b.len() == st.n_features ==> #[trigger] dot(b, applied(st, b), st.n_features as int)
            >= 0real
}

/// A feature whose square sums to zero has nothing in common with the target or with another
/// feature.
pub open spec fn is_grounded(st: LassoModel<real>, j: int) -> bool {
    &&& cross(st, j, j) >= 0real
    &&& cross(st, j, j) == 0real ==> {
        &&& st.z[j] == 0real
        &&& forall|k: int| 0 <= k < st.n_features ==> #[trigger] cross(st, j, k) == 0real
    }
}

/// A state that rows can lead to: neither rows nor thresholds have negative weight, and the sums
/// are those of some rows.
pub open spec fn is_solid(st: LassoModel<real>) -> bool {
    &&& st.wf()
    &&& st.options.decay >= 0real
    &&& st.options.alpha >= 0real
    &&& st.wsum >= 0real
    &&& is_symmetric(st)
    &&& is_positive(st)
    &&& forall|j: int| 0 <= j < st.n_features ==> #[trigger] is_grounded(st, j)
}

/// The lists of a sum of products may change places.
pub proof fn lemma_dot_turned(a: Seq<real>, b: Seq<real>, n: int)
    ensures
        dot(a, b, n) == dot(b, a, n),
    decreases n,
{
    if n > 0 {
        lemma_dot_turned(a, b, n - 1);
        lemma_turn(a[n - 1], b[n - 1]);
    }
}

/// A product with a list that is one list and a multiple of another.
pub proof fn lemma_dot_split(
    a: Seq<real>,
    p: Seq<real>,
    q: Seq<real>,
    d: real,
    whole: Seq<real>,
    n: int,
)
    requires
        forall|i: int| 0 <= i < n ==> #[trigger] whole[i] == p[i] + d * q[i],
    ensures
        dot(a, whole, n) == dot(a, p, n) + d * dot(a, q, n),
    decreases n,
{
    if n > 0 {
        lemma_dot_split(a, p, q, d, whole, n - 1);
        let x = a[n - 1];
        let y = p[n - 1];
        let z = q[n - 1];
        let rest = dot(a, q, n - 1);
        assert(whole[n - 1] == y + d * z);
        lemma_spread(x, y, d * z);
        lemma_regroup(x, d, z);
        lemma_spread(d, rest, x * z);
    } else {
        lemma_times_zero(d);
    }
}

/// How a sum of products changes with one entry.
pub proof fn lemma_dot_update(a: Seq<real>, b: Seq<real>, j: int, v: real, n: int)
    requires
        0 <= j < b.len(),
        n <= b.len(),
    ensures
        dot(a, b.update(j, v), n) == dot(a, b, n) + if j < n {
            a[j] * (v - b[j])
        } else {
            0real
        },
    decreases n,
{
    if n > 0 {
        lemma_dot_update(a, b, j, v, n - 1);
        if j == n - 1 {
            let x = a[j];
            let u = b[j];
            lemma_spread(x, u, v - u);
        }
    }
}

/// The residual of feature `j` in closed form.
pub proof fn lemma_residual(st: LassoModel<real>, j: int, k: int)
    requires
        st.wf(),
        0 <= j < st.n_features,
        0 <= k <= st.n_features,
    ensures
        residual(st, j, k) == st.z[j] - dot(row(st, j), st.coef, k) + if j < k {
            cross(st, j, j) * st.coef[j]
        } else {
            0real
        },
    decreases k,
{
    if k > 0 {
        lemma_residual(st, j, k - 1);
        assert(row(st, j)[k - 1] == cross(st, j, k - 1));
    }
}

/// How the sum of squares changes with one coefficient.
proof fn lemma_square_change(st: LassoModel<real>, b: Seq<real>, j: int, v: real)
    requires
        st.wf(),
        is_symmetric(st),
        b.len() == st.n_features,
        0 <= j < st.n_features,
    ensures
        ({
            let n = st.n_features as int;
            let c = b.update(j, v);
            let d = v - b[j];
            dot(c, applied(st, c), n) == dot(b, applied(st, b), n) + 2real * (d * dot(
                row(st, j),
                b,
                n,
            )) + cross(st, j, j) * (d * d)
        }),
{
    let n = st.n_features as int;
    let c = b.update(j, v);
    let d = v - b[j];
    let before = applied(st, b);
    let now = applied(st, c);
    let column = row(st, j);
    assert forall|i: int| 0 <= i < n implies #[trigger] now[i] == before[i] + d * column[i] by {
        lemma_dot_update(row(st, i), b, j, v, n);
        assert(row(st, i)[j] == cross(st, i, j));
        assert(cross(st, i, j) == cross(st, j, i));
        lemma_turn(cross(st, i, j), d);
    }
    lemma_dot_split(c, before, column, d, now, n);
    lemma_dot_turned(c, before, n);
    lemma_dot_update(before, b, j, v, n);
    lemma_dot_turned(before, b, n);
    lemma_dot_turned(c, column, n);
    lemma_dot_update(column, b, j, v, n);
    let inner = dot(column, b, n);
    assert(before[j] == inner);
    assert(column[j] == cross(st, j, j));
    let w = cross(st, j, j);
    lemma_turn(inner, d);
    lemma_spread(d, inner, w * d);
    lemma_regroup(d, w, d);
}

/// What the objective says of the coefficient of one feature, the others as they are.
pub open spec fn share(weight: real, rho: real, thr: real, b: real) -> real {
    weight * (b * b) / 2real - rho * b + thr * real::size(b)
}

/// How the objective changes with one coefficient.
pub proof fn lemma_objective_change(st: LassoModel<real>, j: int, v: real)
    requires
        st.wf(),
        is_symmetric(st),
        0 <= j < st.n_features,
    ensures
        ({
            let rho = residual(st, j, st.n_features as int);
            let thr = threshold(st, j);
            let w = cross(st, j, j);
            objective(st, st.coef.update(j, v)) - objective(st, st.coef) == share(w, rho, thr, v)
                - share(w, rho, thr, st.coef[j])
        }),
{
    let n = st.n_features as int;
    let b = st.coef;
    let c = b.update(j, v);
    let u = b[j];
    let d = v - u;
    let rho = residual(st, j, n);
    let thr = threshold(st, j);
    let w = cross(st, j, j);
    let inner = dot(row(st, j), b, n);
    let z = st.z[j];
    lemma_square_change(st, b, j, v);
    lemma_residual(st, j, n);
    lemma_dot_update(st.z, b, j, v, n);
    assert(sizes(c) =~= sizes(b).update(j, real::size(v)));
    lemma_dot_update(thresholds(st), sizes(b), j, real::size(v), n);
    let su = real::size(u);
    let sv = real::size(v);
    assert(inner == z - rho + w * u);
    assert(thresholds(st)[j] == thr);
    lemma_square_of_difference(v, u);
    lemma_spread(d, z - rho, w * u);
    lemma_spread_less(d, z, rho);
    lemma_turn(d, z);
    lemma_turn(d, rho);
    lemma_spread_less(rho, v, u);
    lemma_regroup(d, w, u);
    lemma_spread_less(w, v * v - 2real * (u * v), 0real - u * u);
    lemma_spread_less(w, v * v, 2real * (u * v));
    lemma_spread_less(w, 0real, u * u);
    lemma_times_zero(w);
    lemma_regroup(w, 2real, u * v);
    lemma_spread_less(w, u * v, u * u);
    lemma_spread_less(thr, sv, su);
}

/// The best coefficient of a feature with weight beats any other, by their distance.
pub proof fn lemma_best(w: real, rho: real, thr: real, u: real)
    requires
        w > 0real,
        thr >= 0real,
    ensures
        ({
            let b = shrunk(rho, thr, w);
            &&& share(w, rho, thr, u) - share(w, rho, thr, b) >= w * ((u - b) * (u - b)) / 2real
            &&& (u - b) * (w * b - rho) + thr * (real::size(u) - real::size(b)) >= 0real
        }),
{
    let b = shrunk(rho, thr, w);
    let su = real::size(u);
    let sb = real::size(b);
    let e = u - b;
    // The difference of the shares, less the distance, is (w b - rho) e + thr (su - sb).
    lemma_square_of_difference(u, b);
    lemma_spread_less(w, u * u - 2real * (b * u), 0real - b * b);
    lemma_spread_less(w, u * u, 2real * (b * u));
    lemma_spread_less(w, 0real, b * b);
    lemma_times_zero(w);
    lemma_regroup(w, 2real, b * u);
    lemma_spread_less(rho, u, b);
    lemma_spread_less(thr, su, sb);
    lemma_spread_less(e, w * b, rho);
    lemma_turn(e, rho);
    lemma_regroup(e, w, b);
    lemma_spread_less(w, b * u, b * b);
    lemma_turn(b, e);
    lemma_spread_less(b, u, b);
    assert(share(w, rho, thr, u) - share(w, rho, thr, b) - w * (e * e) / 2real == e * (w * b - rho)
        + thr * (su - sb));
    if rho > thr {
        lemma_divided(rho - thr, w);
        assert(b >= 0real) by {
            if b < 0real {
                lemma_positive(w, 0real - b);
                lemma_spread_less(w, 0real, b);
            }
        }
        assert(w * b - rho == 0real - thr);
        lemma_turn(e, 0real - thr);
        lemma_spread_less(e, 0real, thr);
        lemma_times_zero(e);
        lemma_turn(e, thr);
        lemma_spread_less(thr, u, b);
        lemma_not_negative(thr, su - u);
        lemma_spread_less(thr, su, u);
    } else if rho < 0real - thr {
        lemma_divided(rho + thr, w);
        assert(b <= 0real) by {
            if b > 0real {
                lemma_positive(w, b);
            }
        }
        assert(w * b - rho == thr);
        lemma_turn(e, thr);
        lemma_spread_less(thr, u, b);
        lemma_not_negative(thr, su + u);
        lemma_spread(thr, su, u);
        lemma_spread_less(thr, su, sb);
        lemma_spread_less(thr, 0real, b);
        lemma_times_zero(thr);
    } else {
        lemma_times_zero(w);
        lemma_times_zero(thr);
        lemma_spread_less(e, 0real, rho);
        lemma_times_zero(e);
        lemma_turn(e, rho);
        if u >= 0real {
            lemma_not_negative(u, thr - rho);
            lemma_spread_less(u, thr, rho);
            lemma_turn(u, thr);
            lemma_turn(u, rho);
        } else {
            lemma_not_negative(0real - u, thr + rho);
            lemma_spread(0real - u, thr, rho);
            lemma_turn(0real - u, thr);
            lemma_turn(0real - u, rho);
            lemma_spread_less(thr, 0real, u);
            lemma_spread_less(rho, 0real, u);
            lemma_times_zero(rho);
        }
    }
}

/// Thresholds are not negative.
pub proof fn lemma_threshold(st: LassoModel<real>, j: int)
    requires
        is_solid(st),
        0 <= j < st.n_features,
    ensures
        threshold(st, j) >= 0real,
{
    let sigma = deviation(st, j);
    assert(sigma >= 0real) by {
        let v = variance(st, j);
        if exists|r: real| is_root(v, r) {
            assert(is_root(v, real::root(v)));
        }
    }
    let alpha = st.options.alpha;
    let w = st.wsum;
    lemma_not_negative(alpha, sigma);
    lemma_not_negative(alpha * sigma, w);
}

/// A feature whose square sums to zero leaves no residual and has no threshold.
pub proof fn lemma_nothing_left(st: LassoModel<real>, j: int)
    requires
        is_solid(st),
        st.wsum > 0real,
        0 <= j < st.n_features,
        cross(st, j, j) == 0real,
    ensures
        residual(st, j, st.n_features as int) == 0real,
        threshold(st, j) == 0real,
        best(st, j) == 0real,
{
    let n = st.n_features as int;
    assert(is_grounded(st, j));
    lemma_residual(st, j, n);
    lemma_dot_zero(row(st, j), st.coef, n);
    lemma_times_zero(st.coef[j]);
    lemma_divided(0real, st.wsum);
    let mean = st.m[j] / st.wsum;
    lemma_own_square(mean);
    assert(0real / st.wsum == 0real) by {
        if 0real / st.wsum > 0real {
            lemma_positive(st.wsum, 0real / st.wsum);
        } else if 0real / st.wsum < 0real {
            lemma_positive(st.wsum, 0real - 0real / st.wsum);
            lemma_spread_less(st.wsum, 0real, 0real / st.wsum);
            lemma_times_zero(st.wsum);
        }
    }
    lemma_times_zero(st.options.alpha);
    lemma_times_zero(st.wsum);
}

/// A sum of products with zeros is zero.
pub proof fn lemma_dot_zero(a: Seq<real>, b: Seq<real>, n: int)
    requires
        forall|i: int| 0 <= i < n ==> #[trigger] a[i] == 0real,
    ensures
        dot(a, b, n) == 0real,
    decreases n,
{
    if n > 0 {
        lemma_dot_zero(a, b, n - 1);
        assert(a[n - 1] == 0real);
        lemma_times_zero(b[n - 1]);
    }
}

/// Nothing but the coefficients tells two states apart: then they have one objective.
pub proof fn lemma_same_objective(a: LassoModel<real>, b: LassoModel<real>, c: Seq<real>)
    requires
        a == (LassoModel { coef: a.coef, ..b }),
    ensures
        objective(a, c) == objective(b, c),
        forall|j: int| threshold(a, j) == #[trigger] threshold(b, j),
        forall|i: int, j: int| cross(a, i, j) == #[trigger] cross(b, i, j),
{
    assert forall|j: int| threshold(a, j) == #[trigger] threshold(b, j) by {
        assert(variance(a, j) == variance(b, j));
    }
    assert forall|i: int, j: int| cross(a, i, j) == #[trigger] cross(b, i, j) by {}
    assert(thresholds(a) =~= thresholds(b));
    assert forall|i: int| 0 <= i < a.n_features implies applied(a, c)[i] == #[trigger] applied(
        b,
        c,
    )[i] by {
        assert(row(a, i) =~= row(b, i));
    }
    assert(applied(a, c) =~= applied(b, c));
}

/// A state with other coefficients is as solid.
pub proof fn lemma_solid_with(st: LassoModel<real>, coef: Seq<real>)
    requires
        is_solid(st),
        coef.len() == st.n_features,
    ensures
        is_solid(LassoModel { coef, ..st }),
{
    let other = LassoModel { coef, ..st };
    lemma_same_objective(other, st, coef);
    assert forall|b: Seq<real>| b.len() == st.n_features implies #[trigger] dot(
        b,
        applied(other, b),
        st.n_features as int,
    ) >= 0real by {
        assert forall|i: int| 0 <= i < st.n_features implies applied(other, b)[i]
            == #[trigger] applied(st, b)[i] by {
            assert(row(other, i) =~= row(st, i));
        }
        assert(applied(other, b) =~= applied(st, b));
    }
    assert forall|j: int| 0 <= j < st.n_features implies #[trigger] is_grounded(other, j) by {
        assert(is_grounded(st, j));
        assert forall|k: int| cross(other, j, k) == #[trigger] cross(st, j, k) by {}
        if cross(other, j, j) == 0real {
            assert forall|k: int| 0 <= k < st.n_features implies #[trigger] cross(other, j, k)
                == 0real by {
                assert(cross(st, j, k) == 0real);
            }
        }
    }
    assert forall|i: int, j: int|
        0 <= i < st.n_features && 0 <= j < st.n_features implies cross(other, i, j) == cross(
        other,
        j,
        i,
    ) by {
        assert(cross(st, i, j) == cross(st, j, i));
    }
}

/// To improve one coefficient does not make the objective worse, and makes it better by the change
/// squared.
pub proof fn an_improvement_is_one(st: LassoModel<real>, j: int)
    requires
        is_solid(st),
        st.wsum > 0real,
        0 <= j < st.n_features,
    ensures
        ({
            let d = st.coef[j] - best(st, j);
            objective(st, improved(st, j).coef) <= objective(st, st.coef) - cross(st, j, j) * (d
                * d) / 2real
        }),
        objective(st, improved(st, j).coef) <= objective(st, st.coef),
{
    let w = cross(st, j, j);
    let b = best(st, j);
    let u = st.coef[j];
    let d = u - b;
    lemma_objective_change(st, j, b);
    lemma_threshold(st, j);
    assert(is_grounded(st, j));
    if w == 0real {
        lemma_nothing_left(st, j);
        lemma_times_zero(u * u);
        lemma_times_zero(u);
        lemma_times_zero(real::size(u));
        lemma_times_zero(d * d);
        lemma_times_zero(b * b);
        lemma_times_zero(b);
        lemma_times_zero(real::size(b));
    } else {
        lemma_best(w, residual(st, j, st.n_features as int), threshold(st, j), u);
        lemma_own_square(d);
        lemma_not_negative(w, d * d);
    }
}

/// A sum of products with a multiple of a list.
pub proof fn lemma_dot_scale(a: Seq<real>, q: Seq<real>, c: real, whole: Seq<real>, n: int)
    requires
        forall|i: int| 0 <= i < n ==> #[trigger] whole[i] == c * q[i],
    ensures
        dot(a, whole, n) == c * dot(a, q, n),
    decreases n,
{
    if n > 0 {
        lemma_dot_scale(a, q, c, whole, n - 1);
        assert(whole[n - 1] == c * q[n - 1]);
        lemma_regroup(a[n - 1], c, q[n - 1]);
        lemma_spread(c, dot(a, q, n - 1), a[n - 1] * q[n - 1]);
    } else {
        lemma_times_zero(c);
    }
}

/// What a row adds to the sum of the products of two features.
pub proof fn lemma_accumulated_cross(
    st: LassoModel<real>,
    x: Seq<real>,
    y: real,
    i: int,
    k: int,
)
    requires
        st.wf(),
        0 <= i < st.n_features,
        0 <= k < st.n_features,
    ensures
        cross(accumulated(st, x, y), i, k) == st.options.decay * cross(st, i, k) + x[i] * x[k],
{
    lemma_entry(i, k, st.n_features as int);
}

/// A number whose square is zero is zero.
proof fn lemma_no_square(a: real)
    requires
        a * a == 0real,
    ensures
        a == 0real,
{
    if a > 0real {
        lemma_positive(a, a);
    } else if a < 0real {
        lemma_positive(0real - a, 0real - a);
        lemma_spread_less(0real - a, 0real, a);
        lemma_times_zero(0real - a);
        lemma_turn(0real - a, a);
        lemma_spread_less(a, 0real, a);
        lemma_times_zero(a);
    }
}

/// What a row adds to a sum of squares.
pub proof fn lemma_accumulated_square(st: LassoModel<real>, x: Seq<real>, y: real, b: Seq<real>)
    requires
        st.wf(),
        b.len() == st.n_features,
    ensures
        ({
            let n = st.n_features as int;
            let e = dot(b, x, n);
            dot(b, applied(accumulated(st, x, y), b), n) == e * e + st.options.decay * dot(
                b,
                applied(st, b),
                n,
            )
        }),
{
    let acc = accumulated(st, x, y);
    let n = st.n_features as int;
    let d = st.options.decay;
    let e = dot(b, x, n);
    let old_part = applied(st, b);
    let new_part = Seq::new(st.n_features, |i: int| e * x[i]);
    let whole = applied(acc, b);
    assert forall|i: int| 0 <= i < n implies #[trigger] whole[i] == new_part[i] + d * old_part[i] by {
        let p = Seq::new(st.n_features, |k: int| x[i] * x[k]);
        assert forall|k: int| 0 <= k < n implies #[trigger] row(acc, i)[k] == p[k] + d * row(
            st,
            i,
        )[k] by {
            lemma_accumulated_cross(st, x, y, i, k);
        }
        lemma_dot_split(b, p, row(st, i), d, row(acc, i), n);
        lemma_dot_scale(b, x, x[i], p, n);
        lemma_dot_turned(b, row(acc, i), n);
        lemma_dot_turned(b, row(st, i), n);
        lemma_turn(x[i], e);
    }
    lemma_dot_split(b, new_part, old_part, d, whole, n);
    lemma_dot_scale(b, x, e, new_part, n);
}

/// A row keeps the sums of squares from being negative.
proof fn lemma_accumulated_positive(st: LassoModel<real>, x: Seq<real>, y: real, b: Seq<real>)
    requires
        is_solid(st),
        b.len() == st.n_features,
    ensures
        dot(b, applied(accumulated(st, x, y), b), st.n_features as int) >= 0real,
{
    let n = st.n_features as int;
    lemma_accumulated_square(st, x, y, b);
    lemma_own_square(dot(b, x, n));
    lemma_not_negative(st.options.decay, dot(b, applied(st, b), n));
}

/// A row keeps features whose squares sum to zero apart from all others.
proof fn lemma_accumulated_grounded(st: LassoModel<real>, x: Seq<real>, y: real, j: int)
    requires
        is_solid(st),
        0 <= j < st.n_features,
    ensures
        is_grounded(accumulated(st, x, y), j),
{
    let acc = accumulated(st, x, y);
    let d = st.options.decay;
    let w = cross(st, j, j);
    lemma_accumulated_cross(st, x, y, j, j);
    assert(is_grounded(st, j));
    lemma_own_square(x[j]);
    lemma_not_negative(d, w);
    if cross(acc, j, j) == 0real {
        lemma_no_square(x[j]);
        lemma_times_zero(y);
        if d > 0real && w > 0real {
            lemma_positive(d, w);
        }
        lemma_times_zero(d);
        lemma_times_zero(st.z[j]);
        assert forall|k: int| 0 <= k < acc.n_features implies #[trigger] cross(acc, j, k)
            == 0real by {
            lemma_accumulated_cross(st, x, y, j, k);
            lemma_times_zero(x[k]);
            lemma_times_zero(cross(st, j, k));
            if w == 0real {
                assert(cross(st, j, k) == 0real);
            }
        }
    }
}

/// The state before the first row is solid.
pub proof fn a_blank_state_is_solid(n: nat, options: EwmLassoOptions<real>)
    requires
        options.decay >= 0real,
        options.alpha >= 0real,
    ensures
        is_solid(blank(n, options)),
{
    let st = blank(n, options);
    a_blank_state_is_symmetric(n, options);
    assert forall|i: int, k: int| 0 <= i < n && 0 <= k < n implies #[trigger] cross(st, i, k)
        == 0real by {
        lemma_entry(i, k, n as int);
    }
    assert forall|b: Seq<real>| b.len() == n implies #[trigger] dot(b, applied(st, b), n as int)
        >= 0real by {
        assert forall|i: int| 0 <= i < n implies #[trigger] applied(st, b)[i] == 0real by {
            assert forall|k: int| 0 <= k < n implies #[trigger] row(st, i)[k] == 0real by {
                assert(cross(st, i, k) == 0real);
            }
            lemma_dot_zero(row(st, i), b, n as int);
        }
        lemma_dot_zero(applied(st, b), b, n as int);
        lemma_dot_turned(applied(st, b), b, n as int);
    }
    assert forall|j: int| 0 <= j < n implies #[trigger] is_grounded(st, j) by {
        assert(cross(st, j, j) == 0real);
    }
}

pub proof fn lemma_accumulated_solid(st: LassoModel<real>, x: Seq<real>, y: real)
    requires
        is_solid(st),
    ensures
        is_solid(accumulated(st, x, y)),
        accumulated(st, x, y).wsum > 0real,
{
    let acc = accumulated(st, x, y);
    lemma_not_negative(st.options.decay, st.wsum);
    assert forall|i: int, j: int| 0 <= i < st.n_features && 0 <= j < st.n_features implies cross(
        acc,
        i,
        j,
    ) == cross(acc, j, i) by {
        lemma_accumulated_cross(st, x, y, i, j);
        lemma_accumulated_cross(st, x, y, j, i);
        lemma_turn(x[i], x[j]);
    }
    assert forall|b: Seq<real>| b.len() == st.n_features implies #[trigger] dot(
        b,
        applied(acc, b),
        st.n_features as int,
    ) >= 0real by {
        lemma_accumulated_positive(st, x, y, b);
    }
    assert forall|j: int| 0 <= j < st.n_features implies #[trigger] is_grounded(acc, j) by {
        lemma_accumulated_grounded(st, x, y, j);
    }
}

/// A row keeps a state solid.
pub proof fn steps_keep_a_state_solid(st: LassoModel<real>, x: Seq<real>, y: real)
    requires
        is_solid(st),
    ensures
        is_solid(stepped(st, x, y)),
        stepped(st, x, y).wsum > 0real,
{
    let acc = accumulated(st, x, y);
    lemma_accumulated_solid(st, x, y);
    descent_keeps_all_but_the_coefficients(acc, st.options.max_iter as nat);
    lemma_solid_with(acc, stepped(st, x, y).coef);
}

/// A sweep does not make the objective worse; where it does not make it better, it changes no
/// coefficient of a feature with weight.
proof fn lemma_sweep(st: LassoModel<real>, k: int)
    requires
        is_solid(st),
        st.wsum > 0real,
        0 <= k <= st.n_features,
    ensures
        objective(st, swept(st, k).coef) <= objective(st, st.coef),
        (objective(st, swept(st, k).coef) == objective(st, st.coef) && forall|j: int|
            0 <= j < st.n_features ==> #[trigger] cross(st, j, j) > 0real) ==> swept(st, k) == st,
    decreases k,
{
    if k > 0 {
        let before = swept(st, k - 1);
        let j = k - 1;
        lemma_sweep(st, j);
        sweep_keeps_all_but_the_coefficients(st, j);
        lemma_solid_with(st, before.coef);
        lemma_same_objective(before, st, before.coef);
        lemma_same_objective(before, st, improved(before, j).coef);
        an_improvement_is_one(before, j);
        let w = cross(before, j, j);
        let d = before.coef[j] - best(before, j);
        assert(cross(st, j, j) == w);
        if objective(st, swept(st, k).coef) == objective(st, st.coef) && w > 0real {
            lemma_own_square(d);
            if d * d > 0real {
                lemma_positive(w, d * d);
            }
            lemma_no_square(d);
            assert(improved(before, j).coef =~= before.coef);
        }
    }
}

/// The descent does not make the objective worse than one sweep does.
proof fn lemma_descent(st: LassoModel<real>, sweeps: nat)
    requires
        is_solid(st),
        st.wsum > 0real,
    ensures
        objective(st, descended(st, sweeps).coef) <= objective(st, st.coef),
        sweeps > 0 ==> objective(st, descended(st, sweeps).coef) <= objective(
            st,
            swept(st, st.n_features as int).coef,
        ),
    decreases sweeps,
{
    if sweeps > 0 {
        let n = st.n_features as int;
        let next = swept(st, n);
        lemma_sweep(st, n);
        sweep_keeps_all_but_the_coefficients(st, n);
        lemma_solid_with(st, next.coef);
        lemma_descent(next, (sweeps - 1) as nat);
        let end = descended(next, (sweeps - 1) as nat);
        lemma_same_objective(next, st, end.coef);
        lemma_same_objective(next, st, next.coef);
    }
}

/// A row never makes the objective of the rows so far worse: the coefficients after it are no
/// worse than those before it.
pub proof fn a_step_does_not_make_the_objective_worse(st: LassoModel<real>, x: Seq<real>, y: real)
    requires
        is_solid(st),
    ensures
        ({
            let end = stepped(st, x, y);
            objective(end, end.coef) <= objective(end, st.coef)
        }),
{
    let acc = accumulated(st, x, y);
    let end = stepped(st, x, y);
    lemma_accumulated_solid(st, x, y);
    lemma_descent(acc, st.options.max_iter as nat);
    descent_keeps_all_but_the_coefficients(acc, st.options.max_iter as nat);
    lemma_same_objective(end, acc, end.coef);
    lemma_same_objective(end, acc, st.coef);
}

/// The first `m` entries of a list, and zeros.
spec fn begun(a: Seq<real>, m: int) -> Seq<real> {
    Seq::new(a.len(), |i: int| if i < m { a[i] } else { 0real })
}

/// The products of the features, applied to one of two lists and multiplied with the other, are
/// the same either way round.
proof fn lemma_either_way(st: LassoModel<real>, a: Seq<real>, b: Seq<real>, m: int)
    requires
        st.wf(),
        is_symmetric(st),
        a.len() == st.n_features,
        b.len() == st.n_features,
        0 <= m <= st.n_features,
    ensures
        dot(begun(a, m), applied(st, b), st.n_features as int) == dot(
            b,
            applied(st, begun(a, m)),
            st.n_features as int,
        ),
    decreases m,
{
    let n = st.n_features as int;
    let now = begun(a, m);
    if m == 0 {
        lemma_dot_zero(now, applied(st, b), n);
        assert forall|i: int| 0 <= i < n implies #[trigger] applied(st, now)[i] == 0real by {
            lemma_dot_zero(now, row(st, i), n);
            lemma_dot_turned(now, row(st, i), n);
        }
        lemma_dot_zero(applied(st, now), b, n);
        lemma_dot_turned(applied(st, now), b, n);
    } else {
        let j = m - 1;
        let before = begun(a, j);
        let v = a[j];
        lemma_either_way(st, a, b, j);
        assert(now =~= before.update(j, v));
        lemma_dot_turned(now, applied(st, b), n);
        lemma_dot_update(applied(st, b), before, j, v, n);
        lemma_dot_turned(applied(st, b), before, n);
        assert forall|i: int| 0 <= i < n implies #[trigger] applied(st, now)[i] == applied(
            st,
            before,
        )[i] + v * row(st, j)[i] by {
            lemma_dot_update(row(st, i), before, j, v, n);
            assert(cross(st, i, j) == cross(st, j, i));
            lemma_turn(cross(st, i, j), v);
        }
        lemma_dot_split(b, applied(st, before), row(st, j), v, applied(st, now), n);
        lemma_dot_turned(b, row(st, j), n);
        lemma_turn(applied(st, b)[j], v);
    }
}

/// What the first `n` features add to the objective on the way from one list of coefficients to
/// another, to first order.
proof fn lemma_slopes(st: LassoModel<real>, b: Seq<real>, e: Seq<real>, n: int)
    requires
        is_solid(st),
        b.len() == st.n_features,
        e.len() == st.n_features,
        forall|j: int| 0 <= j < st.n_features ==> #[trigger] e[j] == b[j] - st.coef[j],
        forall|j: int| 0 <= j < st.n_features ==> #[trigger] cross(st, j, j) > 0real,
        forall|j: int| 0 <= j < st.n_features ==> st.coef[j] == #[trigger] best(st, j),
        0 <= n <= st.n_features,
    ensures
        dot(e, applied(st, st.coef), n) - dot(st.z, e, n) + dot(thresholds(st), sizes(b), n) - dot(
            thresholds(st),
            sizes(st.coef),
            n,
        ) >= 0real,
    decreases n,
{
    if n > 0 {
        let j = n - 1;
        lemma_slopes(st, b, e, j);
        let w = cross(st, j, j);
        let rho = residual(st, j, st.n_features as int);
        let thr = threshold(st, j);
        let c = st.coef[j];
        lemma_threshold(st, j);
        assert(c == best(st, j));
        lemma_best(w, rho, thr, b[j]);
        lemma_residual(st, j, st.n_features as int);
        let inner = applied(st, st.coef)[j];
        let z = st.z[j];
        assert(w * c - rho == inner - z);
        lemma_spread_less(e[j], inner, z);
        lemma_turn(e[j], z);
        lemma_spread_less(thr, real::size(b[j]), real::size(c));
        assert(thresholds(st)[j] == thr);
        assert(sizes(b)[j] == real::size(b[j]));
        assert(sizes(st.coef)[j] == real::size(c));
    }
}

/// Coefficients that are each the best while the others stay are a minimum.
proof fn lemma_each_best_is_minimum(st: LassoModel<real>)
    requires
        is_solid(st),
        forall|j: int| 0 <= j < st.n_features ==> #[trigger] cross(st, j, j) > 0real,
        forall|j: int| 0 <= j < st.n_features ==> st.coef[j] == #[trigger] best(st, j),
    ensures
        is_minimum(st, st.coef),
{
    let n = st.n_features as int;
    let c = st.coef;
    assert forall|b: Seq<real>| b.len() == st.n_features implies objective(st, c)
        <= #[trigger] objective(st, b) by {
        let e = Seq::new(st.n_features, |i: int| b[i] - c[i]);
        assert forall|i: int| 0 <= i < n implies #[trigger] b[i] == c[i] + 1real * e[i] by {}
        let of_c = applied(st, c);
        let of_e = applied(st, e);
        let of_b = applied(st, b);
        assert forall|i: int| 0 <= i < n implies #[trigger] of_b[i] == of_c[i] + 1real * of_e[i] by {
            lemma_dot_split(row(st, i), c, e, 1real, b, n);
        }
        lemma_dot_split(b, of_c, of_e, 1real, of_b, n);
        lemma_dot_turned(b, of_c, n);
        lemma_dot_split(of_c, c, e, 1real, b, n);
        lemma_dot_turned(of_c, c, n);
        lemma_dot_turned(of_c, e, n);
        lemma_dot_turned(b, of_e, n);
        lemma_dot_split(of_e, c, e, 1real, b, n);
        lemma_dot_turned(of_e, c, n);
        lemma_dot_turned(of_e, e, n);
        assert(begun(c, n) =~= c);
        lemma_either_way(st, c, e, n);
        assert(dot(c, of_e, n) == dot(e, of_c, n));
        assert(dot(e, of_e, n) >= 0real);
        lemma_dot_split(st.z, c, e, 1real, b, n);
        lemma_slopes(st, b, e, n);
    }
}

/// Where every feature has weight and there is a sweep at all, a row leaves the coefficients as
/// they are if they are the minimum of the objective of the rows so far, and only then.
pub proof fn only_the_minimum_stays(st: LassoModel<real>, x: Seq<real>, y: real)
    requires
        is_solid(st),
        st.options.max_iter >= 1,
        forall|j: int|
            0 <= j < st.n_features ==> #[trigger] cross(stepped(st, x, y), j, j) > 0real,
    ensures
        stepped(st, x, y).coef == st.coef <==> is_minimum(stepped(st, x, y), st.coef),
{
    let acc = accumulated(st, x, y);
    let end = stepped(st, x, y);
    let n = st.n_features as int;
    let sweeps = st.options.max_iter as nat;
    lemma_accumulated_solid(st, x, y);
    descent_keeps_all_but_the_coefficients(acc, sweeps);
    lemma_same_objective(end, acc, st.coef);
    assert forall|b: Seq<real>| objective(end, b) == #[trigger] objective(acc, b) by {
        lemma_same_objective(end, acc, b);
    }
    assert forall|j: int| 0 <= j < n implies #[trigger] cross(acc, j, j) > 0real by {
        assert(cross(end, j, j) > 0real);
    }
    if end.coef == st.coef {
        lemma_descent(acc, sweeps);
        lemma_sweep(acc, n);
        assert forall|j: int| 0 <= j < n implies acc.coef[j] == #[trigger] best(acc, j) by {
            lemma_settled(acc, j);
        }
        lemma_each_best_is_minimum(acc);
        assert forall|b: Seq<real>| b.len() == n implies objective(end, st.coef)
            <= #[trigger] objective(end, b) by {
            assert(objective(acc, st.coef) <= objective(acc, b));
        }
    }
    if is_minimum(end, st.coef) {
        assert forall|b: Seq<real>| b.len() == n implies objective(acc, st.coef)
            <= #[trigger] objective(acc, b) by {
            assert(objective(end, st.coef) <= objective(end, b));
        }
        sweep_keeps_all_but_the_coefficients(acc, n);
        lemma_sweep(acc, n);
        assert(swept(acc, n) == acc);
        a_settled_state_stays(acc, sweeps);
    }
}

/// Where a sweep changes nothing, each coefficient is the best one.
proof fn lemma_settled(st: LassoModel<real>, j: int)
    requires
        is_solid(st),
        st.wsum > 0real,
        0 <= j < st.n_features,
        forall|i: int| 0 <= i < st.n_features ==> #[trigger] cross(st, i, i) > 0real,
        swept(st, st.n_features as int) == st,
    ensures
        st.coef[j] == best(st, j),
{
    lemma_settled_before(st, j, st.n_features as int);
    a_sweep_makes_each_coefficient_best(st, j, st.n_features as int);
}

proof fn lemma_settled_before(st: LassoModel<real>, j: int, k: int)
    requires
        is_solid(st),
        st.wsum > 0real,
        0 <= j <= k <= st.n_features,
        forall|i: int| 0 <= i < st.n_features ==> #[trigger] cross(st, i, i) > 0real,
        objective(st, swept(st, k).coef) == objective(st, st.coef),
    ensures
        swept(st, j) == st,
    decreases k,
{
    lemma_sweep(st, k);
    if j < k {
        let before = swept(st, k - 1);
        lemma_sweep(st, k - 1);
        sweep_keeps_all_but_the_coefficients(st, k - 1);
        lemma_solid_with(st, before.coef);
        lemma_same_objective(before, st, before.coef);
        lemma_same_objective(before, st, improved(before, k - 1).coef);
        an_improvement_is_one(before, k - 1);
        lemma_settled_before(st, j, k - 1);
    }
}

} // verus!
