//! What holds of the regression over any rows.
use vstd::prelude::*;

use crate::columns::{ListColumn, ScalarColumn};
use crate::lasso::{
    accumulated, best, blank, cross, descended, descent_keeps_all_but_the_coefficients, faded,
    largest_change, lemma_entry, stepped, sweep_keeps_all_but_the_coefficients, swept,
    EwmLassoOptions, LassoModel,
};
use crate::lasso_columns::{
    after, is_outcome, samples, steps_keep_the_shape, EwmLassoError, Sample,
};
use crate::scalar::Arithmetic;

verus! {

/// After rows in two pieces the state is the same as after all of them at once.
pub proof fn states_go_on<T: Arithmetic>(
    st: LassoModel<T>,
    first: Seq<Option<Sample<T>>>,
    second: Seq<Option<Sample<T>>>,
    k: int,
)
    requires
        0 <= k <= second.len(),
    ensures
        after(st, first + second, first.len() + k) == after(
            after(st, first, first.len() as int),
            second,
            k,
        ),
    decreases k,
{
    if k > 0 {
        states_go_on(st, first, second, k - 1);
        assert((first + second)[first.len() + k - 1] == second[k - 1]);
    } else {
        assert((first + second).take(first.len() as int) == first);
        lemma_prefix(st, first, first + second, first.len() as int);
    }
}

/// The state after some rows is a matter of these rows alone.
proof fn lemma_prefix<T: Arithmetic>(
    st: LassoModel<T>,
    a: Seq<Option<Sample<T>>>,
    b: Seq<Option<Sample<T>>>,
    k: int,
)
    requires
        0 <= k <= a.len() <= b.len(),
        b.take(a.len() as int) == a,
    ensures
        after(st, a, k) == after(st, b, k),
    decreases k,
{
    if k > 0 {
        lemma_prefix(st, a, b, k - 1);
        assert(b.take(a.len() as int)[k - 1] == b[k - 1]);
    }
}

/// Columns that are cut into two pieces, with the state handed on from the first to the second,
/// give the rows that the whole columns give, and leave the same state behind.
pub proof fn pieces_give_the_whole<T: Arithmetic>(
    st: LassoModel<T>,
    x1: ListColumn<T>,
    y1: ScalarColumn<T>,
    out1: ListColumn<T>,
    middle: LassoModel<T>,
    x2: ListColumn<T>,
    y2: ScalarColumn<T>,
    out2: ListColumn<T>,
    end: LassoModel<T>,
    x: ListColumn<T>,
    y: ScalarColumn<T>,
    out: ListColumn<T>,
    whole_end: LassoModel<T>,
)
    requires
        samples(x, y) == samples(x1, y1) + samples(x2, y2),
        is_outcome(st, x1, y1, Ok::<ListColumn<T>, EwmLassoError>(out1), middle),
        is_outcome(middle, x2, y2, Ok::<ListColumn<T>, EwmLassoError>(out2), end),
        is_outcome(st, x, y, Ok::<ListColumn<T>, EwmLassoError>(out), whole_end),
    ensures
        whole_end == end,
        out.rows() == out1.rows() + out2.rows(),
        forall|i: int| 0 <= i < out1.rows() ==> #[trigger] out.row(i) == out1.row(i),
        forall|i: int|
            0 <= i < out2.rows() ==> out.row(out1.rows() + i) == #[trigger] out2.row(i),
{
    let first = samples(x1, y1);
    let second = samples(x2, y2);
    let rows = samples(x, y);
    states_go_on(st, first, second, second.len() as int);
    assert forall|i: int| 0 <= i < out1.rows() implies #[trigger] out.row(i) == out1.row(i) by {
        assert(rows.take(first.len() as int) == first);
        lemma_prefix(st, first, rows, i + 1);
        assert(rows[i] == first[i]);
    }
    assert forall|i: int| 0 <= i < out2.rows() implies out.row(out1.rows() + i)
        == #[trigger] out2.row(i) by {
        states_go_on(st, first, second, i + 1);
        assert(rows[first.len() + i] == second[i]);
        let _ = out.row(first.len() + i);
    }
}

/// The rows that are there.
pub open spec fn present<T>(rows: Seq<Option<Sample<T>>>) -> Seq<Option<Sample<T>>>
    decreases rows.len(),
{
    if rows.len() == 0 {
        rows
    } else if rows.last() is Some {
        present(rows.drop_last()).push(rows.last())
    } else {
        present(rows.drop_last())
    }
}

/// Rows with a null do not count: the state is the same as without them.
pub proof fn null_rows_do_not_count<T: Arithmetic>(st: LassoModel<T>, rows: Seq<Option<Sample<T>>>)
    ensures
        after(st, rows, rows.len() as int) == after(
            st,
            present(rows),
            present(rows).len() as int,
        ),
    decreases rows.len(),
{
    if rows.len() > 0 {
        let front = rows.drop_last();
        null_rows_do_not_count(st, front);
        lemma_prefix(st, front, rows, front.len() as int);
        if rows.last() is Some {
            let kept = present(front);
            assert(present(rows).take(kept.len() as int) == kept);
            lemma_prefix(st, kept, present(rows), kept.len() as int);
        }
    }
}

/// The products of features are the same either way round.
pub open spec fn is_symmetric<T>(st: LassoModel<T>) -> bool {
    forall|i: int, j: int|
        0 <= i < st.n_features && 0 <= j < st.n_features ==> cross(st, i, j) == cross(st, j, i)
}

/// Products do not depend on the order of the factors.
pub open spec fn products_commute<T: Arithmetic>() -> bool {
    forall|a: T, b: T| #[trigger] T::product(a, b) == T::product(b, a)
}

/// The regression starts with symmetric sums.
pub proof fn a_blank_state_is_symmetric<T: Arithmetic>(n: nat, options: EwmLassoOptions<T>)
    ensures
        is_symmetric(blank(n, options)),
{
    let st = blank(n, options);
    assert forall|i: int, j: int| 0 <= i < n && 0 <= j < n implies cross(st, i, j) == cross(
        st,
        j,
        i,
    ) by {
        lemma_entry(i, j, n as int);
        lemma_entry(j, i, n as int);
    }
}

/// Where products do not depend on the order of the factors, a row keeps the sums symmetric.
pub proof fn steps_keep_the_symmetry<T: Arithmetic>(st: LassoModel<T>, x: Seq<T>, y: T)
    requires
        st.wf(),
        is_symmetric(st),
        products_commute::<T>(),
    ensures
        is_symmetric(stepped(st, x, y)),
{
    let sums = accumulated(st, x, y);
    let n = st.n_features as int;
    descent_keeps_all_but_the_coefficients(sums, st.options.max_iter as nat);
    assert forall|i: int, j: int| 0 <= i < n && 0 <= j < n implies cross(
        stepped(st, x, y),
        i,
        j,
    ) == cross(stepped(st, x, y), j, i) by {
        lemma_entry(i, j, n);
        lemma_entry(j, i, n);
        assert(cross(sums, i, j) == faded(
            st.options.decay,
            cross(st, i, j),
            T::product(x[i], x[j]),
        ));
        assert(cross(sums, j, i) == faded(
            st.options.decay,
            cross(st, j, i),
            T::product(x[j], x[i]),
        ));
    }
}

/// Of a row that is longer than there are features, the rest does not matter.
pub proof fn only_the_features_matter<T: Arithmetic>(st: LassoModel<T>, x: Seq<T>, y: T)
    requires
        st.wf(),
        x.len() >= st.n_features,
    ensures
        stepped(st, x, y) == stepped(st, x.take(st.n_features as int), y),
{
    let n = st.n_features as int;
    let short = x.take(n);
    let a = accumulated(st, x, y);
    let b = accumulated(st, short, y);
    assert forall|p: int| 0 <= p < st.s.len() implies a.s[p] == b.s[p] by {
        assert(0 <= p / n < n && 0 <= p % n < n) by (nonlinear_arith)
            requires
                0 <= p < n * n,
                0 <= n,
        ;
        assert(short[p / n] == x[p / n]);
        assert(short[p % n] == x[p % n]);
    }
    assert(a.s == b.s);
    assert(a.z == b.z);
    assert(a.m == b.m);
    assert(a == b);
}

/// A sweep leaves each coefficient the best one for what stood there when its turn came.
pub proof fn a_sweep_makes_each_coefficient_best<T: Arithmetic>(st: LassoModel<T>, j: int, k: int)
    requires
        st.wf(),
        0 <= j < k <= st.n_features,
    ensures
        swept(st, k).coef[j] == best(swept(st, j), j),
    decreases k,
{
    sweep_keeps_all_but_the_coefficients(st, k - 1);
    if j < k - 1 {
        a_sweep_makes_each_coefficient_best(st, j, k - 1);
    }
}

/// The state after so many whole sweeps.
pub open spec fn swept_times<T: Arithmetic>(st: LassoModel<T>, times: nat) -> LassoModel<T>
    decreases times,
{
    if times == 0 {
        st
    } else {
        let before = swept_times(st, (times - 1) as nat);
        swept(before, before.n_features as int)
    }
}

/// The last of so many sweeps changes no coefficient by the tolerance or more.
pub open spec fn settles<T: Arithmetic>(st: LassoModel<T>, times: nat) -> bool {
    let before = swept_times(st, (times - 1) as nat);
    times > 0 && T::below(largest_change(before, before.n_features as int), st.options.tol)
}

/// Whole sweeps keep all but the coefficients, and the first may come before the others.
pub proof fn lemma_swept_times<T: Arithmetic>(st: LassoModel<T>, times: nat)
    requires
        st.wf(),
    ensures
        swept_times(st, times).wf(),
        swept_times(st, times).options == st.options,
        swept_times(st, times).n_features == st.n_features,
        swept_times(st, times + 1) == swept_times(swept(st, st.n_features as int), times),
    decreases times,
{
    if times > 0 {
        lemma_swept_times(st, (times - 1) as nat);
        let before = swept_times(st, (times - 1) as nat);
        sweep_keeps_all_but_the_coefficients(before, before.n_features as int);
    } else {
        reveal_with_fuel(swept_times, 2);
    }
}

/// The descent is a number of whole sweeps. It stops at the first that settles, and it makes fewer
/// than allowed only then.
pub proof fn the_descent_ends_when_it_settles<T: Arithmetic>(st: LassoModel<T>, sweeps: nat) -> (times:
    nat)
    requires
        st.wf(),
    ensures
        times <= sweeps,
        descended(st, sweeps) == swept_times(st, times),
        times < sweeps ==> settles(st, times),
        forall|t: nat| t < times ==> !settles(st, t),
    decreases sweeps,
{
    if sweeps == 0 {
        0
    } else {
        let next = swept(st, st.n_features as int);
        sweep_keeps_all_but_the_coefficients(st, st.n_features as int);
        lemma_swept_times(st, 0);
        if T::below(largest_change(st, st.n_features as int), st.options.tol) {
            1
        } else {
            let rest = the_descent_ends_when_it_settles(next, (sweeps - 1) as nat);
            lemma_swept_times(st, rest);
            if rest > 0 {
                lemma_swept_times(st, (rest - 1) as nat);
            }
            assert forall|t: nat| t < rest + 1 implies !settles(st, t) by {
                if t > 1 {
                    lemma_swept_times(st, (t - 2) as nat);
                    assert(!settles(next, (t - 1) as nat));
                }
            }
            rest + 1
        }
    }
}

/// Coefficients that a sweep leaves as they are stay, however many sweeps follow.
pub proof fn a_settled_state_stays<T: Arithmetic>(st: LassoModel<T>, sweeps: nat)
    requires
        swept(st, st.n_features as int) == st,
    ensures
        descended(st, sweeps) == st,
    decreases sweeps,
{
    if sweeps > 0 {
        a_settled_state_stays(st, (sweeps - 1) as nat);
    }
}

/// Without sweeps, rows leave the coefficients as they are.
pub proof fn without_sweeps_coefficients_stay<T: Arithmetic>(
    st: LassoModel<T>,
    rows: Seq<Option<Sample<T>>>,
    k: int,
)
    requires
        st.wf(),
        st.options.max_iter == 0,
        0 <= k <= rows.len(),
    ensures
        after(st, rows, k).coef == st.coef,
    decreases k,
{
    if k > 0 {
        without_sweeps_coefficients_stay(st, rows, k - 1);
        steps_keep_the_shape(st, rows, k - 1);
    }
}

} // verus!
