//! What the regression computes, in terms of the rows that it takes in, where nothing is rounded.
use vstd::prelude::*;

use crate::lasso::{
    accumulated, best, blank, cross, descended, descent_keeps_all_but_the_coefficients, deviation,
    largest_change, lemma_entry, residual, sweep_keeps_all_but_the_coefficients, swept, threshold,
    variance, EwmLassoOptions, LassoModel,
};
use crate::lasso_columns::{after, steps_keep_the_shape, Sample};
use crate::lasso_laws::{
    a_sweep_makes_each_coefficient_best, settles, swept_times, the_descent_ends_when_it_settles,
};
use crate::objective_laws::{
    a_blank_state_is_solid, applied, dot, is_grounded, is_solid, lemma_accumulated_cross,
    lemma_accumulated_square, lemma_best, lemma_dot_scale, lemma_dot_split, lemma_dot_turned,
    lemma_dot_update, lemma_dot_zero, lemma_nothing_left, lemma_objective_change, lemma_residual,
    lemma_same_objective, lemma_solid_with, lemma_threshold, objective, row, sizes,
    steps_keep_a_state_solid, thresholds,
};
use crate::reals::{
    is_root, lemma_cancel, lemma_divided, lemma_not_negative, lemma_one_root, lemma_own_square,
    lemma_positive, lemma_regroup, lemma_spread, lemma_spread_less, lemma_square_of_difference,
    lemma_times_zero, lemma_turn,
};
use crate::scalar::Arithmetic;
use crate::step_laws::lemma_whole_sweeps;

verus! {

/// Rows for the regression; one with a null is none.
pub type Rows = Seq<Option<Sample<real>>>;

/// The weight that row `i` has after `k` rows: one when it comes, and with each row that comes
/// after it, `decay` times what it was. A row with a null has no weight.
pub open spec fn weight(decay: real, rows: Rows, i: int, k: int) -> real
    decreases k,
{
    if i < 0 || rows[i] is None {
        0real
    } else if k <= i + 1 {
        1real
    } else if rows[k - 1] is Some {
        decay * weight(decay, rows, i, k - 1)
    } else {
        weight(decay, rows, i, k - 1)
    }
}

/// The sum of the first `n` terms, each with the weight that its row has after `k` rows.
pub open spec fn weighted(decay: real, rows: Rows, terms: Seq<real>, k: int, n: int) -> real
    decreases n,
{
    if n <= 0 {
        0real
    } else {
        weighted(decay, rows, terms, k, n - 1) + weight(decay, rows, n - 1, k) * terms[n - 1]
    }
}

/// The weight of all rows so far.
pub open spec fn total_weight(decay: real, rows: Rows, k: int) -> real {
    weighted(decay, rows, Seq::new(rows.len(), |i: int| 1real), k, k)
}

/// The weighted sum of feature `j` over the rows so far.
pub open spec fn feature_sum(decay: real, rows: Rows, j: int, k: int) -> real {
    weighted(decay, rows, Seq::new(rows.len(), |i: int| rows[i]->0.x[j]), k, k)
}

/// The weighted sum of the products of two features over the rows so far.
pub open spec fn product_sum(decay: real, rows: Rows, j: int, l: int, k: int) -> real {
    weighted(
        decay,
        rows,
        Seq::new(rows.len(), |i: int| rows[i]->0.x[j] * rows[i]->0.x[l]),
        k,
        k,
    )
}

/// The weighted sum of the products of feature `j` and the target over the rows so far.
pub open spec fn target_sum(decay: real, rows: Rows, j: int, k: int) -> real {
    weighted(decay, rows, Seq::new(rows.len(), |i: int| rows[i]->0.x[j] * rows[i]->0.y), k, k)
}

/// What coefficients say of the target of a row with features `x`.
pub open spec fn predicted(b: Seq<real>, x: Seq<real>, n: int) -> real
    decreases n,
{
    if n <= 0 {
        0real
    } else {
        predicted(b, x, n - 1) + b[n - 1] * x[n - 1]
    }
}

/// The weighted sum of the squares of what the coefficients leave of the targets so far.
pub open spec fn loss(decay: real, rows: Rows, n: nat, b: Seq<real>, k: int) -> real {
    weighted(
        decay,
        rows,
        Seq::new(
            rows.len(),
            |i: int|
                (rows[i]->0.y - predicted(b, rows[i]->0.x, n as int)) * (rows[i]->0.y - predicted(
                    b,
                    rows[i]->0.x,
                    n as int,
                )),
        ),
        k,
        k,
    )
}

/// The weighted sum of the products of feature `j` and what all other features leave of the target.
pub open spec fn left_to(
    decay: real,
    rows: Rows,
    n: nat,
    b: Seq<real>,
    j: int,
    k: int,
) -> real {
    weighted(
        decay,
        rows,
        Seq::new(
            rows.len(),
            |i: int|
                rows[i]->0.x[j] * (rows[i]->0.y - predicted(
                    b.update(j, 0real),
                    rows[i]->0.x,
                    n as int,
                )),
        ),
        k,
        k,
    )
}

/// How far a number is from zero.
pub open spec fn magnitude(a: real) -> real {
    if a >= 0real {
        a
    } else {
        0real - a
    }
}

/// `sigma` is the weighted standard deviation of feature `j` over the rows so far: not negative,
/// and squared the weighted mean of the squares less the square of the weighted mean. It is zero
/// where that is not positive.
pub open spec fn is_deviation(decay: real, rows: Rows, j: int, k: int, sigma: real) -> bool {
    let w = total_weight(decay, rows, k);
    let mean = feature_sum(decay, rows, j, k) / w;
    let spread = product_sum(decay, rows, j, j, k) / w - mean * mean;
    &&& sigma >= 0real
    &&& spread > 0real ==> sigma * sigma == spread
    &&& spread <= 0real ==> sigma == 0real
}

/// The penalty on the first `n` coefficients: the distance of each from zero, times the deviation
/// of its feature, `alpha` and the weight of the rows.
pub open spec fn penalty(alpha: real, w: real, sigma: Seq<real>, b: Seq<real>, n: int) -> real
    decreases n,
{
    if n <= 0 {
        0real
    } else {
        penalty(alpha, w, sigma, b, n - 1) + alpha * sigma[n - 1] * w * magnitude(b[n - 1])
    }
}

/// The lasso objective of the rows so far: half the weighted sum of squares, and the penalty.
pub open spec fn lasso_objective(
    decay: real,
    alpha: real,
    rows: Rows,
    n: nat,
    sigma: Seq<real>,
    b: Seq<real>,
    k: int,
) -> real {
    loss(decay, rows, n, b, k) / 2real + penalty(
        alpha,
        total_weight(decay, rows, k),
        sigma,
        b,
        n as int,
    )
}

/// The coefficients when the turn of coefficient `j` comes in a sweep: those before it are new.
pub open spec fn midway(before: Seq<real>, after_sweep: Seq<real>, j: int) -> Seq<real> {
    Seq::new(before.len(), |l: int| if l < j { after_sweep[l] } else { before[l] })
}

/// `v` is what is left to feature `j`, less what the threshold takes of it towards zero, over the
/// weighted sum of the squares of the feature.
pub open spec fn solves(
    decay: real,
    alpha: real,
    rows: Rows,
    n: nat,
    sigma: Seq<real>,
    b: Seq<real>,
    j: int,
    k: int,
    v: real,
) -> bool {
    let rest = left_to(decay, rows, n, b, j, k);
    let limit = alpha * sigma[j] * total_weight(decay, rows, k);
    let square = product_sum(decay, rows, j, j, k);
    if rest > limit {
        square != 0real ==> square * v == rest - limit
    } else if rest < 0real - limit {
        square != 0real ==> square * v == rest + limit
    } else {
        v == 0real
    }
}

/// `v` is the one coefficient of feature `j` with which the objective is the least, the others as
/// they are in `b`, and zero for a feature that the objective does not depend on.
pub open spec fn is_least(
    decay: real,
    alpha: real,
    rows: Rows,
    n: nat,
    sigma: Seq<real>,
    b: Seq<real>,
    j: int,
    k: int,
    v: real,
) -> bool {
    &&& forall|u: real|
        lasso_objective(decay, alpha, rows, n, sigma, b.update(j, v), k) <= #[trigger] lasso_objective(
            decay,
            alpha,
            rows,
            n,
            sigma,
            b.update(j, u),
            k,
        )
    &&& product_sum(decay, rows, j, j, k) != 0real ==> forall|u: real|
        u != v ==> lasso_objective(decay, alpha, rows, n, sigma, b.update(j, v), k)
            < #[trigger] lasso_objective(decay, alpha, rows, n, sigma, b.update(j, u), k)
    &&& product_sum(decay, rows, j, j, k) == 0real ==> v == 0real
}

/// The lists of coefficients `path` are a descent on the rows so far, from the first list to the
/// last. In each sweep the coefficients are taken in turn, and each is replaced by the one that
/// solves for it, with those before it new and those after it old. Where neither `decay` nor
/// `alpha` is negative, that is the one with which the objective is the least. A sweep in which
/// every coefficient moves by less than the tolerance is the last, and without one there are
/// `max_iter`.
pub open spec fn is_descent(
    options: EwmLassoOptions<real>,
    rows: Rows,
    n: nat,
    sigma: Seq<real>,
    k: int,
    path: Seq<Seq<real>>,
) -> bool {
    let last = path.len() - 1;
    &&& 0 <= last <= options.max_iter
    &&& forall|i: int, j: int|
        0 <= i < last && 0 <= j < n ==> solves(
            options.decay,
            options.alpha,
            rows,
            n,
            sigma,
            #[trigger] midway(path[i], path[i + 1], j),
            j,
            k,
            path[i + 1][j],
        )
    &&& options.decay >= 0real && options.alpha >= 0real ==> forall|i: int, j: int|
        0 <= i < last && 0 <= j < n ==> is_least(
            options.decay,
            options.alpha,
            rows,
            n,
            sigma,
            #[trigger] midway(path[i], path[i + 1], j),
            j,
            k,
            path[i + 1][j],
        )
    &&& last < options.max_iter ==> last > 0 && all_moved_less(
        path[last - 1],
        path[last],
        n,
        options.tol,
    )
    &&& forall|i: int|
        0 <= i < last - 1 ==> !all_moved_less(path[i], #[trigger] path[i + 1], n, options.tol)
}

/// Every coefficient has moved by less than the tolerance.
pub open spec fn all_moved_less(a: Seq<real>, b: Seq<real>, n: nat, tol: real) -> bool {
    &&& tol > 0real
    &&& forall|j: int| 0 <= j < n ==> magnitude(#[trigger] b[j] - a[j]) < tol
}

proof fn lemma_fades(decay: real, rows: Rows, terms: Seq<real>, k: int, n: int)
    requires
        0 <= n <= k,
    ensures
        weighted(decay, rows, terms, k + 1, n) == if rows[k] is Some {
            decay * weighted(decay, rows, terms, k, n)
        } else {
            weighted(decay, rows, terms, k, n)
        },
    decreases n,
{
    if n > 0 {
        lemma_fades(decay, rows, terms, k, n - 1);
        let w = weight(decay, rows, n - 1, k);
        let before = weighted(decay, rows, terms, k, n - 1);
        let v = terms[n - 1];
        if rows[n - 1] is None {
            lemma_times_zero(v);
            lemma_times_zero(decay);
        }
        lemma_regroup(decay, w, v);
        lemma_spread(decay, before, w * v);
    } else {
        lemma_times_zero(decay);
    }
}

/// A weighted sum after one row more.
proof fn lemma_one_more(decay: real, rows: Rows, terms: Seq<real>, k: int)
    requires
        0 <= k,
    ensures
        weighted(decay, rows, terms, k + 1, k + 1) == if rows[k] is Some {
            decay * weighted(decay, rows, terms, k, k) + terms[k]
        } else {
            weighted(decay, rows, terms, k, k)
        },
{
    lemma_fades(decay, rows, terms, k, k);
    lemma_times_zero(terms[k]);
}

/// The state after a row has the sums of the state before it, with the row taken in.
proof fn lemma_after(st: LassoModel<real>, rows: Rows, k: int)
    requires
        st.wf(),
        0 <= k < rows.len(),
        rows[k] is Some,
    ensures
        ({
            let before = after(st, rows, k);
            let acc = accumulated(before, rows[k]->0.x, rows[k]->0.y);
            let end = after(st, rows, k + 1);
            &&& before.wf()
            &&& acc.wf()
            &&& acc.coef == before.coef
            &&& end == descended(acc, st.options.max_iter as nat)
            &&& end == (LassoModel { coef: end.coef, ..acc })
            &&& end.wf()
            &&& before.n_features == st.n_features
            &&& before.options == st.options
        }),
{
    steps_keep_the_shape(st, rows, k);
    steps_keep_the_shape(st, rows, k + 1);
    let before = after(st, rows, k);
    let acc = accumulated(before, rows[k]->0.x, rows[k]->0.y);
    descent_keeps_all_but_the_coefficients(acc, st.options.max_iter as nat);
}

/// The sums of a state are the weighted sums over the rows that it has taken in.
pub proof fn sums_are_those_of_the_rows(
    n: nat,
    options: EwmLassoOptions<real>,
    rows: Rows,
    k: int,
)
    requires
        0 <= k <= rows.len(),
    ensures
        ({
            let st = after(blank(n, options), rows, k);
            &&& st.wsum == total_weight(options.decay, rows, k)
            &&& forall|j: int|
                0 <= j < n ==> #[trigger] st.m[j] == feature_sum(options.decay, rows, j, k)
            &&& forall|j: int|
                0 <= j < n ==> #[trigger] st.z[j] == target_sum(options.decay, rows, j, k)
            &&& forall|i: int, j: int|
                0 <= i < n && 0 <= j < n ==> st.s[i * n + j] == #[trigger] product_sum(
                    options.decay,
                    rows,
                    i,
                    j,
                    k,
                )
        }),
    decreases k,
{
    let st = blank(n, options);
    let d = options.decay;
    let end = after(st, rows, k);
    if k == 0 {
        assert forall|i: int, j: int| 0 <= i < n && 0 <= j < n implies end.s[i * n + j]
            == #[trigger] product_sum(d, rows, i, j, k) by {
            lemma_entry(i, j, n as int);
        }
    } else {
        sums_are_those_of_the_rows(n, options, rows, k - 1);
        let before = after(st, rows, k - 1);
        lemma_one_more(d, rows, Seq::new(rows.len(), |i: int| 1real), k - 1);
        if rows[k - 1] is Some {
            lemma_after(st, rows, k - 1);
        }
        assert forall|j: int| 0 <= j < n implies #[trigger] end.m[j] == feature_sum(
            d,
            rows,
            j,
            k,
        ) by {
            lemma_one_more(d, rows, Seq::new(rows.len(), |i: int| rows[i]->0.x[j]), k - 1);
            let _ = before.m[j];
        }
        assert forall|j: int| 0 <= j < n implies #[trigger] end.z[j] == target_sum(
            d,
            rows,
            j,
            k,
        ) by {
            lemma_one_more(
                d,
                rows,
                Seq::new(rows.len(), |i: int| rows[i]->0.x[j] * rows[i]->0.y),
                k - 1,
            );
            let _ = before.z[j];
        }
        assert forall|i: int, j: int| 0 <= i < n && 0 <= j < n implies end.s[i * n + j]
            == #[trigger] product_sum(d, rows, i, j, k) by {
            lemma_one_more(
                d,
                rows,
                Seq::new(rows.len(), |r: int| rows[r]->0.x[i] * rows[r]->0.x[j]),
                k - 1,
            );
            let _ = product_sum(d, rows, i, j, k - 1);
            if rows[k - 1] is Some {
                lemma_accumulated_cross(before, rows[k - 1]->0.x, rows[k - 1]->0.y, i, j);
            }
        }
    }
}

proof fn lemma_predicted(b: Seq<real>, x: Seq<real>, n: int)
    ensures
        predicted(b, x, n) == dot(b, x, n),
    decreases n,
{
    if n > 0 {
        lemma_predicted(b, x, n - 1);
    }
}

/// What a state says of coefficients, but for the penalty, and of no others.
spec fn fit(st: LassoModel<real>, b: Seq<real>) -> real {
    let n = st.n_features as int;
    dot(b, applied(st, b), n) - 2real * dot(st.z, b, n)
}

/// The weighted sum of the squares of the targets.
spec fn target_square(decay: real, rows: Rows, k: int) -> real {
    weighted(decay, rows, Seq::new(rows.len(), |i: int| rows[i]->0.y * rows[i]->0.y), k, k)
}

proof fn lemma_fit_step(st: LassoModel<real>, x: Seq<real>, y: real, b: Seq<real>)
    requires
        st.wf(),
        b.len() == st.n_features,
    ensures
        ({
            let e = predicted(b, x, st.n_features as int);
            fit(accumulated(st, x, y), b) + y * y == st.options.decay * fit(st, b) + (y - e) * (y
                - e)
        }),
{
    let acc = accumulated(st, x, y);
    let n = st.n_features as int;
    let d = st.options.decay;
    let e = dot(b, x, n);
    lemma_predicted(b, x, n);
    lemma_accumulated_square(st, x, y, b);
    let p = Seq::new(st.n_features, |i: int| y * x[i]);
    assert forall|i: int| 0 <= i < n implies #[trigger] acc.z[i] == p[i] + d * st.z[i] by {
        lemma_turn(x[i], y);
    }
    lemma_dot_split(b, p, st.z, d, acc.z, n);
    lemma_dot_scale(b, x, y, p, n);
    lemma_dot_turned(b, acc.z, n);
    lemma_dot_turned(b, st.z, n);
    lemma_square_of_difference(y, e);
    lemma_turn(e, y);
    let q = dot(b, applied(st, b), n);
    let l = dot(st.z, b, n);
    lemma_spread_less(d, q, 2real * l);
    lemma_regroup(d, 2real, l);
}

proof fn lemma_fit(n: nat, options: EwmLassoOptions<real>, rows: Rows, b: Seq<real>, k: int)
    requires
        0 <= k <= rows.len(),
        b.len() == n,
    ensures
        loss(options.decay, rows, n, b, k) == fit(after(blank(n, options), rows, k), b)
            + target_square(options.decay, rows, k),
    decreases k,
{
    let st = blank(n, options);
    let d = options.decay;
    let end = after(st, rows, k);
    if k == 0 {
        assert forall|i: int| 0 <= i < n implies #[trigger] applied(end, b)[i] == 0real by {
            assert forall|l: int| 0 <= l < n implies #[trigger] row(end, i)[l] == 0real by {
                lemma_entry(i, l, n as int);
            }
            lemma_dot_zero(row(end, i), b, n as int);
        }
        lemma_dot_zero(applied(end, b), b, n as int);
        lemma_dot_turned(applied(end, b), b, n as int);
        lemma_dot_zero(end.z, b, n as int);
    } else {
        lemma_fit(n, options, rows, b, k - 1);
        let before = after(st, rows, k - 1);
        let residues = Seq::new(
            rows.len(),
            |i: int|
                (rows[i]->0.y - predicted(b, rows[i]->0.x, n as int)) * (rows[i]->0.y - predicted(
                    b,
                    rows[i]->0.x,
                    n as int,
                )),
        );
        let squares = Seq::new(rows.len(), |i: int| rows[i]->0.y * rows[i]->0.y);
        lemma_one_more(d, rows, residues, k - 1);
        lemma_one_more(d, rows, squares, k - 1);
        if rows[k - 1] is Some {
            let x = rows[k - 1]->0.x;
            let y = rows[k - 1]->0.y;
            lemma_after(st, rows, k - 1);
            lemma_fit_step(before, x, y, b);
            let acc = accumulated(before, x, y);
            lemma_same_fit(end, acc, b);
            lemma_spread(d, fit(before, b), target_square(d, rows, k - 1));
        }
    }
}

proof fn lemma_same_fit(a: LassoModel<real>, b: LassoModel<real>, c: Seq<real>)
    requires
        a == (LassoModel { coef: a.coef, ..b }),
    ensures
        fit(a, c) == fit(b, c),
{
    assert forall|i: int| 0 <= i < a.n_features implies applied(a, c)[i] == #[trigger] applied(
        b,
        c,
    )[i] by {
        assert(row(a, i) =~= row(b, i));
    }
    assert(applied(a, c) =~= applied(b, c));
}

/// The deviation that a state has for a feature is the one of the rows.
proof fn lemma_deviation(
    n: nat,
    options: EwmLassoOptions<real>,
    rows: Rows,
    k: int,
    j: int,
    sigma: real,
)
    requires
        0 <= k <= rows.len(),
        0 <= j < n,
        is_deviation(options.decay, rows, j, k, sigma),
    ensures
        deviation(after(blank(n, options), rows, k), j) == sigma,
{
    let st = after(blank(n, options), rows, k);
    steps_keep_the_shape(blank(n, options), rows, k);
    sums_are_those_of_the_rows(n, options, rows, k);
    let _ = st.m[j];
    let _ = product_sum(options.decay, rows, j, j, k);
    let v = variance(st, j);
    if v > 0real {
        assert(is_root(v, sigma));
        lemma_one_root(v, sigma, real::root(v));
    }
}

/// The threshold of a feature is `alpha` times the weighted standard deviation of the feature over
/// the rows, times the weight of the rows.
pub proof fn thresholds_are_those_of_the_rows(
    n: nat,
    options: EwmLassoOptions<real>,
    rows: Rows,
    k: int,
    j: int,
    sigma: real,
)
    requires
        0 <= k <= rows.len(),
        0 <= j < n,
        is_deviation(options.decay, rows, j, k, sigma),
    ensures
        threshold(after(blank(n, options), rows, k), j) == options.alpha * sigma * total_weight(
            options.decay,
            rows,
            k,
        ),
{
    lemma_deviation(n, options, rows, k, j, sigma);
    steps_keep_the_shape(blank(n, options), rows, k);
    sums_are_those_of_the_rows(n, options, rows, k);
}

proof fn lemma_same_terms(decay: real, rows: Rows, terms: Seq<real>, c: real, k: int, n: int)
    requires
        0 <= n <= k <= rows.len() == terms.len(),
        forall|i: int| 0 <= i < n && rows[i] is Some ==> #[trigger] terms[i] == c,
    ensures
        weighted(decay, rows, terms, k, n) == c * weighted(
            decay,
            rows,
            Seq::new(rows.len(), |i: int| 1real),
            k,
            n,
        ),
    decreases n,
{
    let ones = Seq::new(rows.len(), |i: int| 1real);
    if n > 0 {
        lemma_same_terms(decay, rows, terms, c, k, n - 1);
        let w = weight(decay, rows, n - 1, k);
        if rows[n - 1] is Some {
            assert(terms[n - 1] == c);
        } else {
            lemma_times_zero(terms[n - 1]);
            lemma_times_zero(c);
        }
        lemma_turn(w, c);
        lemma_spread(c, weighted(decay, rows, ones, k, n - 1), w);
    } else {
        lemma_times_zero(c);
    }
}

/// A feature that is the same in every row has no threshold, however many rows there are.
pub proof fn a_constant_feature_has_no_threshold(
    n: nat,
    options: EwmLassoOptions<real>,
    rows: Rows,
    k: int,
    j: int,
    c: real,
)
    requires
        0 <= k <= rows.len(),
        0 <= j < n,
        total_weight(options.decay, rows, k) != 0real,
        forall|i: int| 0 <= i < k && rows[i] is Some ==> (#[trigger] rows[i])->0.x[j] == c,
    ensures
        threshold(after(blank(n, options), rows, k), j) == 0real,
{
    let d = options.decay;
    let w = total_weight(d, rows, k);
    let terms = Seq::new(rows.len(), |i: int| rows[i]->0.x[j]);
    let squares = Seq::new(rows.len(), |i: int| rows[i]->0.x[j] * rows[i]->0.x[j]);
    assert forall|i: int| 0 <= i < k && rows[i] is Some implies #[trigger] terms[i] == c by {
        let _ = rows[i];
    }
    assert forall|i: int| 0 <= i < k && rows[i] is Some implies #[trigger] squares[i] == c * c by {
        let _ = rows[i];
    }
    lemma_same_terms(d, rows, terms, c, k, k);
    lemma_same_terms(d, rows, squares, c * c, k, k);
    lemma_divided(c * w, w);
    lemma_turn(c, w);
    lemma_cancel(w, (c * w) / w, c);
    lemma_divided((c * c) * w, w);
    lemma_turn(c * c, w);
    lemma_cancel(w, ((c * c) * w) / w, c * c);
    thresholds_are_those_of_the_rows(n, options, rows, k, j, 0real);
    lemma_times_zero(options.alpha);
    lemma_times_zero(w);
}

proof fn lemma_penalty(st: LassoModel<real>, sigma: Seq<real>, b: Seq<real>, n: int)
    requires
        0 <= n <= st.n_features,
        b.len() == st.n_features,
        forall|j: int|
            0 <= j < st.n_features ==> #[trigger] threshold(st, j) == st.options.alpha * sigma[j]
                * st.wsum,
    ensures
        penalty(st.options.alpha, st.wsum, sigma, b, n) == dot(thresholds(st), sizes(b), n),
    decreases n,
{
    if n > 0 {
        lemma_penalty(st, sigma, b, n - 1);
        assert(thresholds(st)[n - 1] == threshold(st, n - 1));
        assert(sizes(b)[n - 1] == magnitude(b[n - 1]));
    }
}

/// The objective of a state is that of the rows, half the weighted sum of the squares of what the
/// coefficients leave of the targets and the penalty, but for half the weighted sum of the squares
/// of the targets, which does not depend on the coefficients.
pub proof fn the_objective_is_that_of_the_rows(
    n: nat,
    options: EwmLassoOptions<real>,
    rows: Rows,
    k: int,
    sigma: Seq<real>,
    b: Seq<real>,
)
    requires
        0 <= k <= rows.len(),
        b.len() == n,
        forall|j: int|
            0 <= j < n ==> #[trigger] is_deviation(options.decay, rows, j, k, sigma[j]),
    ensures
        objective(after(blank(n, options), rows, k), b) == lasso_objective(
            options.decay,
            options.alpha,
            rows,
            n,
            sigma,
            b,
            k,
        ) - weighted(
            options.decay,
            rows,
            Seq::new(rows.len(), |i: int| rows[i]->0.y * rows[i]->0.y),
            k,
            k,
        ) / 2real,
{
    let st = after(blank(n, options), rows, k);
    steps_keep_the_shape(blank(n, options), rows, k);
    sums_are_those_of_the_rows(n, options, rows, k);
    lemma_fit(n, options, rows, b, k);
    assert forall|j: int| 0 <= j < n implies #[trigger] threshold(st, j) == st.options.alpha
        * sigma[j] * st.wsum by {
        assert(is_deviation(options.decay, rows, j, k, sigma[j]));
        thresholds_are_those_of_the_rows(n, options, rows, k, j, sigma[j]);
    }
    lemma_penalty(st, sigma, b, n as int);
}

/// What the row leaves to feature `j`, as a state has it.
spec fn gap(st: LassoModel<real>, b: Seq<real>, j: int) -> real {
    st.z[j] - dot(row(st, j), b.update(j, 0real), st.n_features as int)
}

proof fn lemma_gap_step(st: LassoModel<real>, x: Seq<real>, y: real, b: Seq<real>, j: int)
    requires
        st.wf(),
        b.len() == st.n_features,
        0 <= j < st.n_features,
    ensures
        gap(accumulated(st, x, y), b, j) == st.options.decay * gap(st, b, j) + x[j] * (y
            - predicted(b.update(j, 0real), x, st.n_features as int)),
{
    let acc = accumulated(st, x, y);
    let n = st.n_features as int;
    let d = st.options.decay;
    let c = b.update(j, 0real);
    let e = dot(c, x, n);
    lemma_predicted(c, x, n);
    let p = Seq::new(st.n_features, |l: int| x[j] * x[l]);
    assert forall|l: int| 0 <= l < n implies #[trigger] row(acc, j)[l] == p[l] + d * row(st, j)[l] by {
        lemma_accumulated_cross(st, x, y, j, l);
    }
    lemma_dot_split(c, p, row(st, j), d, row(acc, j), n);
    lemma_dot_scale(c, x, x[j], p, n);
    lemma_dot_turned(c, row(acc, j), n);
    lemma_dot_turned(c, row(st, j), n);
    lemma_spread_less(d, st.z[j], dot(row(st, j), c, n));
    lemma_spread_less(x[j], y, e);
}

proof fn lemma_gap(n: nat, options: EwmLassoOptions<real>, rows: Rows, b: Seq<real>, j: int, k: int)
    requires
        0 <= k <= rows.len(),
        b.len() == n,
        0 <= j < n,
    ensures
        gap(after(blank(n, options), rows, k), b, j) == left_to(options.decay, rows, n, b, j, k),
    decreases k,
{
    let st = blank(n, options);
    let d = options.decay;
    let end = after(st, rows, k);
    if k == 0 {
        assert forall|l: int| 0 <= l < n implies #[trigger] row(end, j)[l] == 0real by {
            lemma_entry(j, l, n as int);
        }
        lemma_dot_zero(row(end, j), b.update(j, 0real), n as int);
    } else {
        lemma_gap(n, options, rows, b, j, k - 1);
        let before = after(st, rows, k - 1);
        let terms = Seq::new(
            rows.len(),
            |i: int|
                rows[i]->0.x[j] * (rows[i]->0.y - predicted(
                    b.update(j, 0real),
                    rows[i]->0.x,
                    n as int,
                )),
        );
        lemma_one_more(d, rows, terms, k - 1);
        if rows[k - 1] is Some {
            let x = rows[k - 1]->0.x;
            let y = rows[k - 1]->0.y;
            lemma_after(st, rows, k - 1);
            lemma_gap_step(before, x, y, b, j);
            assert(row(end, j) =~= row(accumulated(before, x, y), j));
        }
    }
}

/// The residual of a state with the sums of the rows is what the rows leave to the feature.
proof fn lemma_rest(
    n: nat,
    options: EwmLassoOptions<real>,
    rows: Rows,
    st: LassoModel<real>,
    j: int,
    k: int,
)
    requires
        0 <= k <= rows.len(),
        0 <= j < n,
        st.wf(),
        st == (LassoModel { coef: st.coef, ..after(blank(n, options), rows, k) }),
        st.n_features == n,
    ensures
        residual(st, j, n as int) == left_to(options.decay, rows, n, st.coef, j, k),
{
    let end = after(blank(n, options), rows, k);
    lemma_residual(st, j, n as int);
    lemma_gap(n, options, rows, st.coef, j, k);
    assert(row(st, j) =~= row(end, j));
    lemma_dot_update(row(st, j), st.coef, j, 0real, n as int);
    let w = cross(st, j, j);
    assert(row(st, j)[j] == w);
    lemma_spread_less(w, 0real, st.coef[j]);
    lemma_times_zero(w);
}

/// The state when the turn of coefficient `j` comes has the new coefficients before it.
proof fn lemma_midway(st: LassoModel<real>, j: int)
    requires
        st.wf(),
        0 <= j <= st.n_features,
    ensures
        swept(st, j).coef == midway(st.coef, swept(st, st.n_features as int).coef, j),
        swept(st, j) == (LassoModel { coef: swept(st, j).coef, ..st }),
        swept(st, j).wf(),
{
    let n = st.n_features as int;
    sweep_keeps_all_but_the_coefficients(st, j);
    assert forall|l: int| 0 <= l < j implies swept(st, j).coef[l] == swept(st, n).coef[l] by {
        a_sweep_makes_each_coefficient_best(st, l, j);
        a_sweep_makes_each_coefficient_best(st, l, n);
    }
    assert(swept(st, j).coef =~= midway(st.coef, swept(st, n).coef, j));
}

/// The change that is compared with the tolerance is at least the change of each coefficient, and
/// it is the change of one of them where it is not zero.
pub proof fn the_largest_change_is_one(st: LassoModel<real>, k: int)
    requires
        st.wf(),
        0 <= k <= st.n_features,
    ensures
        forall|j: int|
            0 <= j < k ==> magnitude(
                #[trigger] swept(st, st.n_features as int).coef[j] - st.coef[j],
            ) <= largest_change(st, k),
        largest_change(st, k) >= 0real,
        largest_change(st, k) != 0real ==> exists|j: int|
            0 <= j < k && largest_change(st, k) == magnitude(
                #[trigger] swept(st, st.n_features as int).coef[j] - st.coef[j],
            ),
    decreases k,
{
    if k > 0 {
        the_largest_change_is_one(st, k - 1);
        let n = st.n_features as int;
        a_sweep_makes_each_coefficient_best(st, k - 1, k);
        a_sweep_makes_each_coefficient_best(st, k - 1, n);
        let _ = swept(st, n).coef[k - 1];
    }
}

proof fn lemma_settled(st: LassoModel<real>)
    requires
        st.wf(),
    ensures
        real::below(largest_change(st, st.n_features as int), st.options.tol) <==> all_moved_less(
            st.coef,
            swept(st, st.n_features as int).coef,
            st.n_features,
            st.options.tol,
        ),
{
    let n = st.n_features as int;
    the_largest_change_is_one(st, n);
    let end = swept(st, n).coef;
    let c = largest_change(st, n);
    if all_moved_less(st.coef, end, st.n_features, st.options.tol) && c != 0real {
        let j = choose|j: int| 0 <= j < n && c == magnitude(#[trigger] end[j] - st.coef[j]);
        assert(magnitude(end[j] - st.coef[j]) < st.options.tol);
    }
}

proof fn lemma_solid_after(n: nat, options: EwmLassoOptions<real>, rows: Rows, k: int)
    requires
        0 <= k <= rows.len(),
        options.decay >= 0real,
        options.alpha >= 0real,
    ensures
        is_solid(after(blank(n, options), rows, k)),
        k > 0 && rows[k - 1] is Some ==> after(blank(n, options), rows, k).wsum > 0real,
    decreases k,
{
    let st = blank(n, options);
    a_blank_state_is_solid(n, options);
    if k > 0 {
        lemma_solid_after(n, options, rows, k - 1);
        if rows[k - 1] is Some {
            steps_keep_the_shape(st, rows, k - 1);
            steps_keep_a_state_solid(after(st, rows, k - 1), rows[k - 1]->0.x, rows[k - 1]->0.y);
        }
    }
}

proof fn lemma_solves(
    n: nat,
    options: EwmLassoOptions<real>,
    rows: Rows,
    st: LassoModel<real>,
    sigma: Seq<real>,
    j: int,
    k: int,
)
    requires
        0 <= k <= rows.len(),
        0 <= j < n,
        st.wf(),
        st == (LassoModel { coef: st.coef, ..after(blank(n, options), rows, k) }),
        is_deviation(options.decay, rows, j, k, sigma[j]),
    ensures
        solves(
            options.decay,
            options.alpha,
            rows,
            n,
            sigma,
            st.coef,
            j,
            k,
            best(st, j),
        ),
{
    let end = after(blank(n, options), rows, k);
    steps_keep_the_shape(blank(n, options), rows, k);
    lemma_rest(n, options, rows, st, j, k);
    lemma_same_objective(st, end, st.coef);
    thresholds_are_those_of_the_rows(n, options, rows, k, j, sigma[j]);
    assert(threshold(st, j) == threshold(end, j));
    sums_are_those_of_the_rows(n, options, rows, k);
    let w = product_sum(options.decay, rows, j, j, k);
    assert(cross(st, j, j) == w);
    let rest = residual(st, j, n as int);
    let limit = threshold(st, j);
    if w != 0real {
        lemma_divided(rest - limit, w);
        lemma_divided(rest + limit, w);
    }
}

proof fn lemma_least(
    n: nat,
    options: EwmLassoOptions<real>,
    rows: Rows,
    st: LassoModel<real>,
    sigma: Seq<real>,
    j: int,
    k: int,
)
    requires
        0 < k <= rows.len(),
        rows[k - 1] is Some,
        0 <= j < n,
        st.wf(),
        st == (LassoModel { coef: st.coef, ..after(blank(n, options), rows, k) }),
        options.decay >= 0real,
        options.alpha >= 0real,
        forall|l: int|
            0 <= l < n ==> #[trigger] is_deviation(options.decay, rows, l, k, sigma[l]),
    ensures
        is_least(
            options.decay,
            options.alpha,
            rows,
            n,
            sigma,
            st.coef,
            j,
            k,
            best(st, j),
        ),
{
    let end = after(blank(n, options), rows, k);
    let b = st.coef;
    let v = best(st, j);
    let rho = residual(st, j, n as int);
    let thr = threshold(st, j);
    let w = cross(st, j, j);
    steps_keep_the_shape(blank(n, options), rows, k);
    lemma_solid_after(n, options, rows, k);
    lemma_solid_with(end, b);
    lemma_threshold(st, j);
    sums_are_those_of_the_rows(n, options, rows, k);
    assert(w == product_sum(options.decay, rows, j, j, k));
    assert(is_grounded(st, j));
    if w == 0real {
        lemma_nothing_left(st, j);
    }
    assert forall|u: real|
        #![trigger lasso_objective(options.decay, options.alpha, rows, n, sigma, b.update(j, u), k)]
        lasso_objective(options.decay, options.alpha, rows, n, sigma, b.update(j, v), k)
            <= lasso_objective(options.decay, options.alpha, rows, n, sigma, b.update(j, u), k)
        && (w != 0real && u != v ==> lasso_objective(
        options.decay,
        options.alpha,
        rows,
        n,
        sigma,
        b.update(j, v),
        k,
    ) < lasso_objective(options.decay, options.alpha, rows, n, sigma, b.update(j, u), k)) by {
        lemma_objective_change(st, j, v);
        lemma_objective_change(st, j, u);
        lemma_same_objective(st, end, b.update(j, v));
        lemma_same_objective(st, end, b.update(j, u));
        the_objective_is_that_of_the_rows(n, options, rows, k, sigma, b.update(j, v));
        the_objective_is_that_of_the_rows(n, options, rows, k, sigma, b.update(j, u));
        if w == 0real {
            lemma_times_zero(u * u);
            lemma_times_zero(u);
            lemma_times_zero(magnitude(u));
            lemma_times_zero(v * v);
            lemma_times_zero(v);
            lemma_times_zero(magnitude(v));
        } else {
            lemma_best(w, rho, thr, u);
            let e = u - v;
            lemma_own_square(e);
            lemma_not_negative(w, e * e);
            if u != v {
                if u > v {
                    lemma_positive(e, e);
                } else {
                    lemma_positive(v - u, v - u);
                    lemma_square_of_difference(u, v);
                    lemma_square_of_difference(v, u);
                    lemma_turn(u, v);
                }
                lemma_positive(w, e * e);
            }
        }
    }
}

/// What one more row does to the coefficients: they go on from where they were, by a descent on the
/// lasso objective of all rows so far.
pub proof fn a_row_is_fitted_by_a_descent(
    n: nat,
    options: EwmLassoOptions<real>,
    rows: Rows,
    k: int,
    sigma: Seq<real>,
) -> (path: Seq<Seq<real>>)
    requires
        0 <= k < rows.len(),
        rows[k] is Some,
        forall|j: int|
            0 <= j < n ==> #[trigger] is_deviation(options.decay, rows, j, k + 1, sigma[j]),
    ensures
        is_descent(options, rows, n, sigma, k + 1, path),
        path[0] == after(blank(n, options), rows, k).coef,
        path[path.len() - 1] == after(blank(n, options), rows, k + 1).coef,
        path[0].len() == n,
        path[path.len() - 1].len() == n,
{
    let st = blank(n, options);
    let d = options.decay;
    let before = after(st, rows, k);
    let end = after(st, rows, k + 1);
    lemma_after(st, rows, k);
    let acc = accumulated(before, rows[k]->0.x, rows[k]->0.y);
    let times = the_descent_ends_when_it_settles(acc, options.max_iter as nat);
    let path = Seq::new(times + 1, |i: int| swept_times(acc, i as nat).coef);
    assert forall|i: int| 0 <= i <= times implies #[trigger] swept_times(acc, i as nat).wf()
        && swept_times(acc, i as nat) == (LassoModel {
        coef: swept_times(acc, i as nat).coef,
        ..end
    }) by {
        lemma_whole_sweeps(acc, i as nat);
    }
    assert forall|i: int| 0 <= i < times implies #[trigger] path[i + 1] == swept(
        swept_times(acc, i as nat),
        n as int,
    ).coef by {
        assert(swept_times(acc, i as nat).wf());
        assert(((i + 1) as nat - 1) as nat == i as nat);
    }
    assert forall|i: int, j: int| 0 <= i < times && 0 <= j < n implies solves(
        d,
        options.alpha,
        rows,
        n,
        sigma,
        #[trigger] midway(path[i], path[i + 1], j),
        j,
        k + 1,
        path[i + 1][j],
    ) && (d >= 0real && options.alpha >= 0real ==> is_least(
        d,
        options.alpha,
        rows,
        n,
        sigma,
        midway(path[i], path[i + 1], j),
        j,
        k + 1,
        path[i + 1][j],
    )) by {
        let cur = swept_times(acc, i as nat);
        assert(cur.wf());
        let _ = path[i + 1];
        lemma_midway(cur, j);
        a_sweep_makes_each_coefficient_best(cur, j, n as int);
        let at = swept(cur, j);
        assert(is_deviation(d, rows, j, k + 1, sigma[j]));
        lemma_solves(n, options, rows, at, sigma, j, k + 1);
        if d >= 0real && options.alpha >= 0real {
            lemma_least(n, options, rows, at, sigma, j, k + 1);
        }
    }
    assert forall|i: int| 0 <= i < times implies settles(acc, (i + 1) as nat) == all_moved_less(
        path[i],
        #[trigger] path[i + 1],
        n,
        options.tol,
    ) by {
        let cur = swept_times(acc, i as nat);
        assert(cur.wf());
        assert(((i + 1) as nat - 1) as nat == i as nat);
        lemma_settled(cur);
    }
    let last = path.len() - 1;
    assert(last < options.max_iter ==> last > 0 && all_moved_less(
        path[last - 1],
        path[last],
        n,
        options.tol,
    )) by {
        if last < options.max_iter {
            assert(settles(acc, times));
            assert(path[(last - 1) + 1] == path[last]);
        }
    }
    assert forall|i: int| 0 <= i < last - 1 implies !all_moved_less(
        path[i],
        #[trigger] path[i + 1],
        n,
        options.tol,
    ) by {
        assert(!settles(acc, (i + 1) as nat));
    }
    path
}

/// Before the first row every coefficient is zero, and a row with a null changes nothing.
pub proof fn coefficients_change_with_rows_only(
    n: nat,
    options: EwmLassoOptions<real>,
    rows: Rows,
    k: int,
)
    requires
        0 <= k < rows.len(),
    ensures
        after(blank(n, options), rows, 0).coef == Seq::new(n, |j: int| 0real),
        rows[k] is None ==> after(blank(n, options), rows, k + 1).coef == after(
            blank(n, options),
            rows,
            k,
        ).coef,
{
}

} // verus!
