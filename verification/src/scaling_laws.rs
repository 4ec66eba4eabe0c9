//! How the coefficients follow the scale of the features and the sign of the targets, where nothing
//! is rounded.
use vstd::prelude::*;

use crate::lasso::{
    accumulated, best, blank, cross, descended, descent_keeps_all_but_the_coefficients, deviation,
    improved, largest_change, lemma_entry, residual, sweep_keeps_all_but_the_coefficients, swept,
    threshold, variance, EwmLassoOptions, LassoModel,
};
use crate::lasso_columns::{after, Sample};
use crate::objective_laws::{
    a_blank_state_is_solid, is_solid, lemma_accumulated_cross, lemma_accumulated_solid,
    lemma_nothing_left, lemma_solid_with, lemma_threshold, steps_keep_a_state_solid,
};
use crate::reals::{
    lemma_cancel, lemma_divided, lemma_positive, lemma_regroup, lemma_root_scaled,
    lemma_spread, lemma_spread_less, lemma_times_zero, lemma_turn,
};
use crate::scalar::Arithmetic;

verus! {

/// One number is another with the sign turned, or not.
pub open spec fn turned(turn: bool, a: real) -> real {
    if turn {
        0real - a
    } else {
        a
    }
}

/// Each feature has a scale that is positive.
pub open spec fn are_scales(scales: Seq<real>, n: nat) -> bool {
    &&& scales.len() == n
    &&& forall|j: int| 0 <= j < n ==> #[trigger] scales[j] > 0real
}

/// State `b` is state `a` with the features in other scales, and the sign of the targets turned or
/// not.
pub open spec fn is_rescaled(
    a: LassoModel<real>,
    b: LassoModel<real>,
    scales: Seq<real>,
    turn: bool,
) -> bool {
    &&& a.wf()
    &&& b.wf()
    &&& a.n_features == b.n_features
    &&& a.options == b.options
    &&& a.wsum == b.wsum
    &&& forall|i: int, k: int|
        0 <= i < a.n_features && 0 <= k < a.n_features ==> #[trigger] cross(b, i, k) == scales[i]
            * (scales[k] * cross(a, i, k))
    &&& forall|i: int| 0 <= i < a.n_features ==> #[trigger] b.m[i] == scales[i] * a.m[i]
    &&& forall|i: int|
        0 <= i < a.n_features ==> #[trigger] b.z[i] == scales[i] * turned(turn, a.z[i])
    &&& forall|i: int|
        0 <= i < a.n_features ==> scales[i] * #[trigger] b.coef[i] == turned(turn, a.coef[i])
}

/// Rows `b` are rows `a` with the features in other scales, and the sign of the targets turned or
/// not.
pub open spec fn are_rescaled(
    a: Seq<Option<Sample<real>>>,
    b: Seq<Option<Sample<real>>>,
    n: nat,
    scales: Seq<real>,
    turn: bool,
) -> bool {
    &&& a.len() == b.len()
    &&& forall|r: int|
        0 <= r < a.len() ==> match (#[trigger] a[r], b[r]) {
            (Some(p), Some(q)) => {
                &&& q.y == turned(turn, p.y)
                &&& forall|j: int| 0 <= j < n ==> #[trigger] q.x[j] == scales[j] * p.x[j]
            },
            (None, None) => true,
            _ => false,
        }
}

proof fn lemma_times_turned(turn: bool, a: real, b: real)
    ensures
        a * turned(turn, b) == turned(turn, a * b),
        turned(turn, b) * a == turned(turn, b * a),
{
    lemma_spread_less(a, 0real, b);
    lemma_times_zero(a);
    lemma_turn(turned(turn, b), a);
    lemma_turn(b, a);
}

proof fn lemma_rescaled_sums(
    a: LassoModel<real>,
    b: LassoModel<real>,
    scales: Seq<real>,
    turn: bool,
    p: Sample<real>,
    q: Sample<real>,
)
    requires
        is_rescaled(a, b, scales, turn),
        are_scales(scales, a.n_features),
        q.y == turned(turn, p.y),
        forall|j: int| 0 <= j < a.n_features ==> #[trigger] q.x[j] == scales[j] * p.x[j],
    ensures
        is_rescaled(accumulated(a, p.x, p.y), accumulated(b, q.x, q.y), scales, turn),
{
    let aa = accumulated(a, p.x, p.y);
    let bb = accumulated(b, q.x, q.y);
    let d = a.options.decay;
    assert forall|i: int, k: int|
        0 <= i < a.n_features && 0 <= k < a.n_features implies #[trigger] cross(bb, i, k)
        == scales[i] * (scales[k] * cross(aa, i, k)) by {
        lemma_accumulated_cross(a, p.x, p.y, i, k);
        lemma_accumulated_cross(b, q.x, q.y, i, k);
        let si = scales[i];
        let sk = scales[k];
        let c = cross(a, i, k);
        let xi = p.x[i];
        let xk = p.x[k];
        assert(cross(b, i, k) == si * (sk * c));
        assert(q.x[i] == si * xi && q.x[k] == sk * xk);
        lemma_regroup(d, si, sk * c);
        lemma_regroup(d, sk, c);
        lemma_regroup(si, xi, sk * xk);
        lemma_regroup(xi, sk, xk);
        lemma_spread(sk, d * c, xi * xk);
        lemma_spread(si, sk * (d * c), sk * (xi * xk));
    }
    assert forall|i: int| 0 <= i < a.n_features implies #[trigger] bb.m[i] == scales[i] * aa.m[i] by {
        assert(b.m[i] == scales[i] * a.m[i]);
        assert(q.x[i] == scales[i] * p.x[i]);
        lemma_regroup(d, scales[i], a.m[i]);
        lemma_spread(scales[i], d * a.m[i], p.x[i]);
    }
    assert forall|i: int| 0 <= i < a.n_features implies #[trigger] bb.z[i] == scales[i] * turned(
        turn,
        aa.z[i],
    ) by {
        let s = scales[i];
        let z = a.z[i];
        let x = p.x[i];
        let y = p.y;
        assert(b.z[i] == s * turned(turn, z));
        assert(q.x[i] == s * x);
        lemma_regroup(d, s, turned(turn, z));
        lemma_times_turned(turn, d, z);
        lemma_regroup(s, x, turned(turn, y));
        lemma_times_turned(turn, x, y);
        lemma_spread(s, turned(turn, d * z), turned(turn, x * y));
    }
    assert forall|i: int| 0 <= i < a.n_features implies scales[i] * #[trigger] bb.coef[i] == turned(
        turn,
        aa.coef[i],
    ) by {
        assert(scales[i] * b.coef[i] == turned(turn, a.coef[i]));
    }
}

proof fn lemma_rescaled_residual(
    a: LassoModel<real>,
    b: LassoModel<real>,
    scales: Seq<real>,
    turn: bool,
    j: int,
    k: int,
)
    requires
        is_rescaled(a, b, scales, turn),
        0 <= j < a.n_features,
        0 <= k <= a.n_features,
    ensures
        residual(b, j, k) == scales[j] * turned(turn, residual(a, j, k)),
    decreases k,
{
    let s = scales[j];
    if k > 0 {
        lemma_rescaled_residual(a, b, scales, turn, j, k - 1);
        let i = k - 1;
        if i != j {
            let c = cross(a, j, i);
            assert(cross(b, j, i) == s * (scales[i] * c));
            assert(scales[i] * b.coef[i] == turned(turn, a.coef[i]));
            lemma_regroup(s, scales[i] * c, b.coef[i]);
            lemma_turn(scales[i], c);
            lemma_regroup(c, scales[i], b.coef[i]);
            lemma_times_turned(turn, c, a.coef[i]);
            lemma_spread_less(
                s,
                turned(turn, residual(a, j, i)),
                turned(turn, c * a.coef[i]),
            );
        }
    } else {
        assert(b.z[j] == s * turned(turn, a.z[j]));
    }
}

proof fn lemma_rescaled_threshold(
    a: LassoModel<real>,
    b: LassoModel<real>,
    scales: Seq<real>,
    turn: bool,
    j: int,
)
    requires
        is_rescaled(a, b, scales, turn),
        are_scales(scales, a.n_features),
        a.wsum > 0real,
        0 <= j < a.n_features,
    ensures
        threshold(b, j) == scales[j] * threshold(a, j),
{
    let s = scales[j];
    let w = a.wsum;
    let c = cross(a, j, j);
    let m = a.m[j];
    assert(s > 0real);
    assert(cross(b, j, j) == s * (s * c));
    assert(b.m[j] == s * m);
    // The quotients by the sum of the weights.
    lemma_divided(s * (s * c), w);
    lemma_divided(c, w);
    lemma_regroup(w, s, s * (c / w));
    lemma_regroup(w, s, c / w);
    lemma_cancel(w, (s * (s * c)) / w, s * (s * (c / w)));
    lemma_divided(s * m, w);
    lemma_divided(m, w);
    lemma_regroup(w, s, m / w);
    lemma_cancel(w, (s * m) / w, s * (m / w));
    // The variance.
    let mean = m / w;
    lemma_regroup(s * mean, s, mean);
    lemma_regroup(s, s, mean * mean);
    lemma_regroup(s, mean, mean);
    lemma_spread_less(s, c / w, mean * mean);
    lemma_spread_less(s, s * (c / w), s * (mean * mean));
    let v = variance(a, j);
    assert(variance(b, j) == s * (s * v));
    if v > 0real {
        lemma_positive(s, v);
        lemma_positive(s, s * v);
    } else if s * (s * v) > 0real {
        if v < 0real {
            lemma_positive(s, 0real - v);
            lemma_spread_less(s, 0real, v);
            lemma_positive(s, 0real - s * v);
            lemma_spread_less(s, 0real, s * v);
        }
        lemma_times_zero(s);
    }
    lemma_root_scaled(v, s);
    lemma_times_zero(s);
    let sigma = deviation(a, j);
    assert(deviation(b, j) == s * sigma);
    let alpha = a.options.alpha;
    lemma_regroup(alpha, s, sigma);
    lemma_regroup(s, alpha * sigma, w);
}

/// The best coefficient of a feature with weight, in another scale and perhaps with the sign
/// turned.
proof fn lemma_rescaled_quotient(s: real, w: real, top: real)
    requires
        s > 0real,
        w > 0real,
    ensures
        s * ((s * top) / (s * (s * w))) == top / w,
{
    lemma_positive(s, w);
    lemma_positive(s, s * w);
    let v = s * (s * w);
    let q = (s * top) / v;
    lemma_divided(s * top, v);
    lemma_divided(top, w);
    lemma_regroup(s, s * w, q);
    lemma_cancel(s, (s * w) * q, top);
    lemma_turn(s, w);
    lemma_regroup(w, s, q);
    lemma_cancel(w, s * q, top / w);
}

proof fn lemma_rescaled_best(
    a: LassoModel<real>,
    b: LassoModel<real>,
    scales: Seq<real>,
    turn: bool,
    j: int,
)
    requires
        is_rescaled(a, b, scales, turn),
        are_scales(scales, a.n_features),
        is_solid(a),
        is_solid(b),
        a.wsum > 0real,
        0 <= j < a.n_features,
    ensures
        scales[j] * best(b, j) == turned(turn, best(a, j)),
{
    let n = a.n_features as int;
    let s = scales[j];
    let w = cross(a, j, j);
    let rho = residual(a, j, n);
    let thr = threshold(a, j);
    lemma_rescaled_residual(a, b, scales, turn, j, n);
    lemma_rescaled_threshold(a, b, scales, turn, j);
    lemma_threshold(a, j);
    assert(s > 0real);
    assert(cross(b, j, j) == s * (s * w));
    lemma_times_zero(s);
    assert(crate::objective_laws::is_grounded(a, j));
    if w == 0real {
        lemma_nothing_left(a, j);
        lemma_nothing_left(b, j);
    } else {
        let top = turned(turn, rho);
        lemma_spread_less(s, top, thr);
        lemma_spread(s, top, thr);
        lemma_order(s, thr, top);
        lemma_spread_less(s, 0real, thr);
        lemma_order(s, top, 0real - thr);
        lemma_rescaled_quotient(s, w, top - thr);
        lemma_rescaled_quotient(s, w, top + thr);
        lemma_turned_quotient(rho - thr, w);
        lemma_turned_quotient(rho + thr, w);
    }
}

proof fn lemma_order(s: real, a: real, b: real)
    requires
        s > 0real,
    ensures
        a < b <==> s * a < s * b,
{
    lemma_spread_less(s, b, a);
    lemma_spread_less(s, a, b);
    if a < b {
        lemma_positive(s, b - a);
    } else if b < a {
        lemma_positive(s, a - b);
    }
}

proof fn lemma_turned_quotient(a: real, w: real)
    requires
        w > 0real,
    ensures
        (0real - a) / w == 0real - a / w,
{
    lemma_divided(0real - a, w);
    lemma_divided(a, w);
    lemma_spread_less(w, 0real, a / w);
    lemma_times_zero(w);
    lemma_cancel(w, (0real - a) / w, 0real - a / w);
}

/// All scales are one.
pub open spec fn all_ones(scales: Seq<real>) -> bool {
    forall|j: int| 0 <= j < scales.len() ==> #[trigger] scales[j] == 1real
}

proof fn lemma_rescaled_sweep(
    a: LassoModel<real>,
    b: LassoModel<real>,
    scales: Seq<real>,
    turn: bool,
    k: int,
)
    requires
        is_rescaled(a, b, scales, turn),
        are_scales(scales, a.n_features),
        is_solid(a),
        is_solid(b),
        a.wsum > 0real,
        0 <= k <= a.n_features,
    ensures
        is_rescaled(swept(a, k), swept(b, k), scales, turn),
        all_ones(scales) ==> largest_change(a, k) == largest_change(b, k),
        largest_change(a, k) >= 0real,
        largest_change(b, k) >= 0real,
    decreases k,
{
    if k > 0 {
        let j = k - 1;
        lemma_rescaled_sweep(a, b, scales, turn, j);
        let aa = swept(a, j);
        let bb = swept(b, j);
        sweep_keeps_all_but_the_coefficients(a, j);
        sweep_keeps_all_but_the_coefficients(b, j);
        lemma_solid_with(a, aa.coef);
        lemma_solid_with(b, bb.coef);
        lemma_rescaled_best(aa, bb, scales, turn, j);
        let na = improved(aa, j);
        let nb = improved(bb, j);
        assert forall|i: int, l: int|
            0 <= i < a.n_features && 0 <= l < a.n_features implies #[trigger] cross(nb, i, l)
            == scales[i] * (scales[l] * cross(na, i, l)) by {
            assert(cross(bb, i, l) == scales[i] * (scales[l] * cross(aa, i, l)));
        }
        assert forall|i: int| 0 <= i < a.n_features implies #[trigger] nb.m[i] == scales[i]
            * na.m[i] by {
            assert(bb.m[i] == scales[i] * aa.m[i]);
        }
        assert forall|i: int| 0 <= i < a.n_features implies #[trigger] nb.z[i] == scales[i]
            * turned(turn, na.z[i]) by {
            assert(bb.z[i] == scales[i] * turned(turn, aa.z[i]));
        }
        assert forall|i: int| 0 <= i < a.n_features implies scales[i] * #[trigger] nb.coef[i]
            == turned(turn, na.coef[i]) by {
            if i != j {
                assert(scales[i] * bb.coef[i] == turned(turn, aa.coef[i]));
            }
        }
        if all_ones(scales) {
            assert(scales[j] == 1real);
            assert(scales[j] * b.coef[j] == turned(turn, a.coef[j]));
            assert(scales[j] * nb.coef[j] == turned(turn, na.coef[j]));
            assert(1real * b.coef[j] == b.coef[j]);
            assert(1real * nb.coef[j] == nb.coef[j]);
        }
    }
}

proof fn lemma_rescaled_descent(
    a: LassoModel<real>,
    b: LassoModel<real>,
    scales: Seq<real>,
    turn: bool,
    sweeps: nat,
)
    requires
        is_rescaled(a, b, scales, turn),
        are_scales(scales, a.n_features),
        is_solid(a),
        is_solid(b),
        a.wsum > 0real,
        all_ones(scales) || a.options.tol <= 0real,
    ensures
        is_rescaled(descended(a, sweeps), descended(b, sweeps), scales, turn),
    decreases sweeps,
{
    if sweeps > 0 {
        let n = a.n_features as int;
        lemma_rescaled_sweep(a, b, scales, turn, n);
        sweep_keeps_all_but_the_coefficients(a, n);
        sweep_keeps_all_but_the_coefficients(b, n);
        lemma_solid_with(a, swept(a, n).coef);
        lemma_solid_with(b, swept(b, n).coef);
        lemma_rescaled_descent(swept(a, n), swept(b, n), scales, turn, (sweeps - 1) as nat);
    }
}

/// From a fresh state on, the features in other scales, and the sign of the targets turned or not:
/// after every row the states differ by just that.
proof fn lemma_rescaled_rows(
    n: nat,
    options: EwmLassoOptions<real>,
    rows: Seq<Option<Sample<real>>>,
    others: Seq<Option<Sample<real>>>,
    scales: Seq<real>,
    turn: bool,
    k: int,
)
    requires
        options.decay >= 0real,
        options.alpha >= 0real,
        are_scales(scales, n),
        are_rescaled(rows, others, n, scales, turn),
        all_ones(scales) || options.tol <= 0real,
        0 <= k <= rows.len(),
    ensures
        is_rescaled(
            after(blank(n, options), rows, k),
            after(blank(n, options), others, k),
            scales,
            turn,
        ),
        is_solid(after(blank(n, options), rows, k)),
        is_solid(after(blank(n, options), others, k)),
        after(blank(n, options), rows, k).options == options,
        after(blank(n, options), rows, k).n_features == n,
    decreases k,
{
    let st = blank(n, options);
    if k > 0 {
        lemma_rescaled_rows(n, options, rows, others, scales, turn, k - 1);
        let a = after(st, rows, k - 1);
        let b = after(st, others, k - 1);
        let _ = rows[k - 1];
        if let (Some(p), Some(q)) = (rows[k - 1], others[k - 1]) {
            lemma_rescaled_sums(a, b, scales, turn, p, q);
            lemma_accumulated_solid(a, p.x, p.y);
            lemma_accumulated_solid(b, q.x, q.y);
            let sweeps = options.max_iter as nat;
            lemma_rescaled_descent(
                accumulated(a, p.x, p.y),
                accumulated(b, q.x, q.y),
                scales,
                turn,
                sweeps,
            );
            steps_keep_a_state_solid(a, p.x, p.y);
            steps_keep_a_state_solid(b, q.x, q.y);
            descent_keeps_all_but_the_coefficients(accumulated(a, p.x, p.y), sweeps);
        }
    } else {
        a_blank_state_is_solid(n, options);
        assert forall|i: int, l: int| 0 <= i < n && 0 <= l < n implies #[trigger] cross(st, i, l)
            == scales[i] * (scales[l] * cross(st, i, l)) by {
            lemma_entry(i, l, n as int);
            lemma_times_zero(scales[l]);
            lemma_times_zero(scales[i]);
        }
        assert forall|i: int| 0 <= i < n implies scales[i] * 0real == 0real by {
            lemma_times_zero(scales[i]);
        }
        assert forall|i: int| 0 <= i < n implies #[trigger] st.m[i] == scales[i] * st.m[i] by {
            lemma_times_zero(scales[i]);
        }
        assert forall|i: int| 0 <= i < n implies #[trigger] st.z[i] == scales[i] * turned(
            turn,
            st.z[i],
        ) by {
            lemma_times_zero(scales[i]);
        }
        assert forall|i: int| 0 <= i < n implies scales[i] * #[trigger] st.coef[i] == turned(
            turn,
            st.coef[i],
        ) by {
            lemma_times_zero(scales[i]);
        }
    }
}

/// Rows whose targets have the sign turned, from a fresh state on, give coefficients with the sign
/// turned, after every row.
pub proof fn turned_targets_turn_the_coefficients(
    n: nat,
    options: EwmLassoOptions<real>,
    rows: Seq<Option<Sample<real>>>,
    others: Seq<Option<Sample<real>>>,
    k: int,
    j: int,
)
    requires
        options.decay >= 0real,
        options.alpha >= 0real,
        rows.len() == others.len(),
        forall|r: int|
            0 <= r < rows.len() ==> match (#[trigger] rows[r], others[r]) {
                (Some(p), Some(q)) => q.y == 0real - p.y && q.x == p.x,
                (None, None) => true,
                _ => false,
            },
        0 <= k <= rows.len(),
        0 <= j < n,
    ensures
        after(blank(n, options), others, k).coef[j] == 0real - after(
            blank(n, options),
            rows,
            k,
        ).coef[j],
{
    let ones = Seq::new(n, |i: int| 1real);
    assert(are_rescaled(rows, others, n, ones, true)) by {
        assert forall|r: int| 0 <= r < rows.len() implies match (#[trigger] rows[r], others[r]) {
            (Some(p), Some(q)) => {
                &&& q.y == turned(true, p.y)
                &&& forall|j: int| 0 <= j < n ==> #[trigger] q.x[j] == ones[j] * p.x[j]
            },
            (None, None) => true,
            _ => false,
        } by {}
    }
    lemma_rescaled_rows(n, options, rows, others, ones, true, k);
    let b = after(blank(n, options), others, k);
    assert(ones[j] * b.coef[j] == turned(true, after(blank(n, options), rows, k).coef[j]));
    assert(ones[j] == 1real);
    assert(1real * b.coef[j] == b.coef[j]);
}

/// A feature in another scale, from a fresh state on and with no tolerance: after every row its
/// coefficient is in the inverse scale. The same goes for any number of features at once; those
/// whose scale is kept have the coefficients that they had.
pub proof fn rescaled_features_rescale_the_coefficients(
    n: nat,
    options: EwmLassoOptions<real>,
    rows: Seq<Option<Sample<real>>>,
    others: Seq<Option<Sample<real>>>,
    scales: Seq<real>,
    k: int,
    j: int,
)
    requires
        options.decay >= 0real,
        options.alpha >= 0real,
        options.tol == 0real,
        are_scales(scales, n),
        are_rescaled(rows, others, n, scales, false),
        0 <= k <= rows.len(),
        0 <= j < n,
    ensures
        scales[j] * after(blank(n, options), others, k).coef[j] == after(
            blank(n, options),
            rows,
            k,
        ).coef[j],
{
    lemma_rescaled_rows(n, options, rows, others, scales, false, k);
    let b = after(blank(n, options), others, k);
    assert(scales[j] * b.coef[j] == turned(false, after(blank(n, options), rows, k).coef[j]));
}

} // verus!
