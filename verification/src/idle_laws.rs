//! A feature that is always zero: it has no say, where nothing is rounded.
use vstd::prelude::*;

use crate::lasso::{
    accumulated, best, blank, cross, descended, descent_keeps_all_but_the_coefficients, improved,
    largest_change, lemma_entry, residual, sweep_keeps_all_but_the_coefficients, swept, threshold,
    variance, EwmLassoOptions, LassoModel,
};
use crate::lasso_columns::{after, steps_keep_the_shape, Sample};
use crate::objective_laws::lemma_accumulated_cross;
use crate::reals::{lemma_cancel, lemma_divided, lemma_not_negative, lemma_times_zero};
use crate::scalar::Arithmetic;

verus! {

/// The place of feature `i` when a feature is put in at `j`.
pub open spec fn raised(i: int, j: int) -> int {
    if i < j {
        i
    } else {
        i + 1
    }
}

/// In the sums of a state, feature `j` is zero, and so is its coefficient.
pub open spec fn is_idle(a: LassoModel<real>, j: int) -> bool {
    &&& 0 <= j < a.n_features
    &&& a.z[j] == 0real
    &&& a.m[j] == 0real
    &&& a.coef[j] == 0real
    &&& forall|k: int| 0 <= k < a.n_features ==> #[trigger] cross(a, j, k) == 0real
    &&& forall|k: int| 0 <= k < a.n_features ==> #[trigger] cross(a, k, j) == 0real
}

/// State `b` is state `a` without feature `j`.
pub open spec fn is_without(a: LassoModel<real>, b: LassoModel<real>, j: int) -> bool {
    &&& a.wf()
    &&& b.wf()
    &&& a.n_features == b.n_features + 1
    &&& a.options == b.options
    &&& a.wsum == b.wsum
    &&& forall|i: int, k: int|
        0 <= i < b.n_features && 0 <= k < b.n_features ==> #[trigger] cross(b, i, k) == cross(
            a,
            raised(i, j),
            raised(k, j),
        )
    &&& forall|i: int| 0 <= i < b.n_features ==> #[trigger] b.z[i] == a.z[raised(i, j)]
    &&& forall|i: int| 0 <= i < b.n_features ==> #[trigger] b.m[i] == a.m[raised(i, j)]
    &&& forall|i: int| 0 <= i < b.n_features ==> #[trigger] b.coef[i] == a.coef[raised(i, j)]
}

/// Rows `b` are rows `a` without feature `j`, which is zero in each.
pub open spec fn are_without(
    a: Seq<Option<Sample<real>>>,
    b: Seq<Option<Sample<real>>>,
    n: nat,
    j: int,
) -> bool {
    &&& a.len() == b.len()
    &&& forall|r: int|
        0 <= r < a.len() ==> match (#[trigger] a[r], b[r]) {
            (Some(p), Some(q)) => {
                &&& q.y == p.y
                &&& p.x[j] == 0real
                &&& forall|i: int| 0 <= i < n ==> #[trigger] q.x[i] == p.x[raised(i, j)]
            },
            (None, None) => true,
            _ => false,
        }
}

proof fn lemma_idle_sums(
    a: LassoModel<real>,
    b: LassoModel<real>,
    j: int,
    p: Sample<real>,
    q: Sample<real>,
)
    requires
        is_without(a, b, j),
        is_idle(a, j),
        q.y == p.y,
        p.x[j] == 0real,
        forall|i: int| 0 <= i < b.n_features ==> #[trigger] q.x[i] == p.x[raised(i, j)],
    ensures
        is_without(accumulated(a, p.x, p.y), accumulated(b, q.x, q.y), j),
        is_idle(accumulated(a, p.x, p.y), j),
{
    let aa = accumulated(a, p.x, p.y);
    let bb = accumulated(b, q.x, q.y);
    let d = a.options.decay;
    lemma_times_zero(d);
    lemma_times_zero(p.y);
    assert forall|i: int, k: int|
        0 <= i < b.n_features && 0 <= k < b.n_features implies #[trigger] cross(bb, i, k) == cross(
        aa,
        raised(i, j),
        raised(k, j),
    ) by {
        lemma_accumulated_cross(a, p.x, p.y, raised(i, j), raised(k, j));
        lemma_accumulated_cross(b, q.x, q.y, i, k);
        assert(cross(b, i, k) == cross(a, raised(i, j), raised(k, j)));
        assert(q.x[i] == p.x[raised(i, j)] && q.x[k] == p.x[raised(k, j)]);
    }
    assert forall|i: int| 0 <= i < b.n_features implies #[trigger] bb.z[i] == aa.z[raised(
        i,
        j,
    )] by {
        assert(b.z[i] == a.z[raised(i, j)]);
        assert(q.x[i] == p.x[raised(i, j)]);
    }
    assert forall|i: int| 0 <= i < b.n_features implies #[trigger] bb.m[i] == aa.m[raised(
        i,
        j,
    )] by {
        assert(b.m[i] == a.m[raised(i, j)]);
        assert(q.x[i] == p.x[raised(i, j)]);
    }
    assert forall|i: int| 0 <= i < b.n_features implies #[trigger] bb.coef[i] == aa.coef[raised(
        i,
        j,
    )] by {
        assert(b.coef[i] == a.coef[raised(i, j)]);
    }
    assert forall|k: int| 0 <= k < a.n_features implies #[trigger] cross(aa, j, k) == 0real by {
        lemma_accumulated_cross(a, p.x, p.y, j, k);
        assert(cross(a, j, k) == 0real);
        lemma_times_zero(p.x[k]);
    }
    assert forall|k: int| 0 <= k < a.n_features implies #[trigger] cross(aa, k, j) == 0real by {
        lemma_accumulated_cross(a, p.x, p.y, k, j);
        assert(cross(a, k, j) == 0real);
        lemma_times_zero(p.x[k]);
    }
}

proof fn lemma_idle_residual(a: LassoModel<real>, b: LassoModel<real>, j: int, i: int, k: int)
    requires
        is_without(a, b, j),
        is_idle(a, j),
        0 <= i < b.n_features,
        0 <= k <= b.n_features,
    ensures
        residual(b, i, k) == residual(a, raised(i, j), raised(k, j)),
    decreases k,
{
    let up = raised(i, j);
    assert(cross(a, up, j) == 0real);
    lemma_times_zero(a.coef[j]);
    if k > 0 {
        lemma_idle_residual(a, b, j, i, k - 1);
        assert(cross(b, i, k - 1) == cross(a, up, raised(k - 1, j)));
        assert(b.coef[k - 1] == a.coef[raised(k - 1, j)]);
        if k == j {
            reveal_with_fuel(residual, 3);
        }
    } else {
        assert(b.z[i] == a.z[up]);
        reveal_with_fuel(residual, 2);
    }
}

/// The residual of the feature itself is zero.
proof fn lemma_own_residual(a: LassoModel<real>, j: int, k: int)
    requires
        is_idle(a, j),
        0 <= k <= a.n_features,
    ensures
        residual(a, j, k) == 0real,
    decreases k,
{
    if k > 0 {
        lemma_own_residual(a, j, k - 1);
        assert(cross(a, j, k - 1) == 0real);
        lemma_times_zero(a.coef[k - 1]);
    }
}

proof fn lemma_own_best(a: LassoModel<real>, j: int)
    requires
        is_idle(a, j),
        a.wsum > 0real,
    ensures
        best(a, j) == 0real,
{
    lemma_own_residual(a, j, a.n_features as int);
    assert(cross(a, j, j) == 0real);
    let q = 0real / a.wsum;
    lemma_divided(0real, a.wsum);
    lemma_times_zero(a.wsum);
    lemma_cancel(a.wsum, q, 0real);
    assert(q == 0real);
    lemma_times_zero(q);
    lemma_times_zero(a.options.alpha);
}

proof fn lemma_idle_best(a: LassoModel<real>, b: LassoModel<real>, j: int, i: int)
    requires
        is_without(a, b, j),
        is_idle(a, j),
        0 <= i < b.n_features,
    ensures
        best(b, i) == best(a, raised(i, j)),
{
    lemma_idle_residual(a, b, j, i, b.n_features as int);
    let up = raised(i, j);
    assert(cross(b, i, i) == cross(a, up, up));
    assert(b.m[i] == a.m[up]);
    assert(variance(b, i) == variance(a, up));
    assert(threshold(b, i) == threshold(a, up));
}

/// To improve the coefficient of a feature in both states keeps them alike.
proof fn lemma_idle_improved(a: LassoModel<real>, b: LassoModel<real>, j: int, i: int)
    requires
        is_without(a, b, j),
        is_idle(a, j),
        0 <= i < b.n_features,
    ensures
        is_without(improved(a, raised(i, j)), improved(b, i), j),
        is_idle(improved(a, raised(i, j)), j),
{
    lemma_idle_best(a, b, j, i);
    let up = raised(i, j);
    let aa = improved(a, up);
    let bb = improved(b, i);
    assert forall|l: int, k: int|
        0 <= l < b.n_features && 0 <= k < b.n_features implies #[trigger] cross(bb, l, k) == cross(
        aa,
        raised(l, j),
        raised(k, j),
    ) by {
        assert(cross(b, l, k) == cross(a, raised(l, j), raised(k, j)));
    }
    assert forall|l: int| 0 <= l < b.n_features implies #[trigger] bb.z[l] == aa.z[raised(l, j)] by {
        assert(b.z[l] == a.z[raised(l, j)]);
    }
    assert forall|l: int| 0 <= l < b.n_features implies #[trigger] bb.m[l] == aa.m[raised(l, j)] by {
        assert(b.m[l] == a.m[raised(l, j)]);
    }
    assert forall|l: int| 0 <= l < b.n_features implies #[trigger] bb.coef[l] == aa.coef[raised(
        l,
        j,
    )] by {
        if l != i {
            assert(b.coef[l] == a.coef[raised(l, j)]);
        }
    }
    assert forall|k: int| 0 <= k < a.n_features implies #[trigger] cross(aa, j, k) == 0real by {
        assert(cross(a, j, k) == 0real);
    }
    assert forall|k: int| 0 <= k < a.n_features implies #[trigger] cross(aa, k, j) == 0real by {
        assert(cross(a, k, j) == 0real);
    }
}

/// To improve the coefficient of the feature itself changes nothing, and counts as no change.
proof fn lemma_idle_turn(a: LassoModel<real>, j: int)
    requires
        a.wf(),
        is_idle(swept(a, j), j),
        swept(a, j).wf(),
        a.wsum > 0real,
        swept(a, j).wsum == a.wsum,
        a.coef[j] == 0real,
        largest_change(a, j) >= 0real,
    ensures
        swept(a, j + 1) == swept(a, j),
        largest_change(a, j + 1) == largest_change(a, j),
{
    lemma_own_best(swept(a, j), j);
    assert(improved(swept(a, j), j).coef =~= swept(a, j).coef);
}

proof fn lemma_idle_sweep(a: LassoModel<real>, b: LassoModel<real>, j: int, k: int)
    requires
        is_without(a, b, j),
        is_idle(a, j),
        a.wsum > 0real,
        0 <= k <= b.n_features,
    ensures
        is_without(swept(a, raised(k, j)), swept(b, k), j),
        is_idle(swept(a, raised(k, j)), j),
        largest_change(a, raised(k, j)) == largest_change(b, k),
        largest_change(b, k) >= 0real,
    decreases k,
{
    if k == 0 {
        if j == 0 {
            lemma_idle_turn(a, 0);
        }
    } else {
        let i = k - 1;
        lemma_idle_sweep(a, b, j, i);
        let up = raised(i, j);
        let aa = swept(a, up);
        let bb = swept(b, i);
        sweep_keeps_all_but_the_coefficients(a, up);
        sweep_keeps_all_but_the_coefficients(b, i);
        lemma_idle_improved(aa, bb, j, i);
        assert(swept(a, up + 1) == improved(aa, up));
        assert(b.coef[i] == a.coef[up]);
        assert(swept(b, k).coef[i] == swept(a, up + 1).coef[up]);
        assert(largest_change(a, up + 1) == largest_change(b, k));
        if k == j {
            sweep_keeps_all_but_the_coefficients(a, j);
            lemma_idle_turn(a, j);
        }
    }
}

proof fn lemma_idle_descent(a: LassoModel<real>, b: LassoModel<real>, j: int, sweeps: nat)
    requires
        is_without(a, b, j),
        is_idle(a, j),
        a.wsum > 0real,
    ensures
        is_without(descended(a, sweeps), descended(b, sweeps), j),
        is_idle(descended(a, sweeps), j),
    decreases sweeps,
{
    if sweeps > 0 {
        lemma_idle_sweep(a, b, j, b.n_features as int);
        assert(raised(b.n_features as int, j) == a.n_features);
        sweep_keeps_all_but_the_coefficients(a, a.n_features as int);
        lemma_idle_descent(
            swept(a, a.n_features as int),
            swept(b, b.n_features as int),
            j,
            (sweeps - 1) as nat,
        );
    }
}

/// A feature that is zero in every row has coefficient zero after every row, and the others have
/// the coefficients that they have without it.
pub proof fn an_idle_feature_has_no_say(
    n: nat,
    options: EwmLassoOptions<real>,
    j: int,
    rows: Seq<Option<Sample<real>>>,
    others: Seq<Option<Sample<real>>>,
    k: int,
)
    requires
        options.decay >= 0real,
        0 <= j <= n,
        are_without(rows, others, n, j),
        0 <= k <= rows.len(),
    ensures
        after(blank(n + 1, options), rows, k).coef[j] == 0real,
        forall|i: int|
            0 <= i < n ==> #[trigger] after(blank(n, options), others, k).coef[i] == after(
                blank(n + 1, options),
                rows,
                k,
            ).coef[raised(i, j)],
{
    lemma_idle_rows(n, options, j, rows, others, k);
}

proof fn lemma_idle_rows(
    n: nat,
    options: EwmLassoOptions<real>,
    j: int,
    rows: Seq<Option<Sample<real>>>,
    others: Seq<Option<Sample<real>>>,
    k: int,
)
    requires
        options.decay >= 0real,
        0 <= j <= n,
        are_without(rows, others, n, j),
        0 <= k <= rows.len(),
    ensures
        is_without(
            after(blank(n + 1, options), rows, k),
            after(blank(n, options), others, k),
            j,
        ),
        is_idle(after(blank(n + 1, options), rows, k), j),
        after(blank(n + 1, options), rows, k).wsum >= 0real,
        after(blank(n, options), others, k).n_features == n,
        after(blank(n, options), others, k).options == options,
    decreases k,
{
    let wide = blank(n + 1, options);
    let narrow = blank(n, options);
    steps_keep_the_shape(narrow, others, k);
    if k > 0 {
        lemma_idle_rows(n, options, j, rows, others, k - 1);
        let a = after(wide, rows, k - 1);
        let b = after(narrow, others, k - 1);
        let _ = rows[k - 1];
        if let (Some(p), Some(q)) = (rows[k - 1], others[k - 1]) {
            steps_keep_the_shape(narrow, others, k - 1);
            lemma_idle_sums(a, b, j, p, q);
            lemma_not_negative(options.decay, a.wsum);
            let sums = accumulated(a, p.x, p.y);
            lemma_idle_descent(
                sums,
                accumulated(b, q.x, q.y),
                j,
                options.max_iter as nat,
            );
            descent_keeps_all_but_the_coefficients(sums, options.max_iter as nat);
        }
    } else {
        assert forall|i: int, l: int| 0 <= i < n + 1 && 0 <= l < n + 1 implies #[trigger] cross(
            wide,
            i,
            l,
        ) == 0real by {
            lemma_entry(i, l, (n + 1) as int);
        }
        assert forall|i: int, l: int| 0 <= i < n && 0 <= l < n implies #[trigger] cross(
            narrow,
            i,
            l,
        ) == cross(wide, raised(i, j), raised(l, j)) by {
            lemma_entry(i, l, n as int);
        }
    }
}

} // verus!
