//! What one row does to a regression, in whatever arithmetic it runs: each operation and its order,
//! so that rounding and special values come out alike.
use vstd::prelude::*;

use crate::lasso::{
    accumulated, blank, cross, descent_keeps_all_but_the_coefficients, deviation, largest_change,
    lemma_entry, residual, stepped, sweep_keeps_all_but_the_coefficients, swept, threshold, variance,
    EwmLassoOptions, LassoModel,
};
use crate::lasso_columns::{after, Sample};
use crate::lasso_laws::{
    a_sweep_makes_each_coefficient_best, settles, swept_times, the_descent_ends_when_it_settles,
};
use crate::scalar::Arithmetic;

verus! {

/// A row makes the sums fade and adds its own terms to them.
pub proof fn a_row_is_taken_in<T: Arithmetic>(st: LassoModel<T>, x: Seq<T>, y: T)
    requires
        st.wf(),
    ensures
        ({
            let end = stepped(st, x, y);
            let decay = st.options.decay;
            let n = st.n_features as int;
            &&& end.n_features == st.n_features
            &&& end.options == st.options
            &&& end.wsum == T::sum(T::product(decay, st.wsum), T::unit())
            &&& forall|j: int|
                0 <= j < n ==> #[trigger] end.m[j] == T::sum(T::product(decay, st.m[j]), x[j])
            &&& forall|j: int|
                0 <= j < n ==> #[trigger] end.z[j] == T::sum(
                    T::product(decay, st.z[j]),
                    T::product(x[j], y),
                )
            &&& forall|i: int, j: int|
                #![trigger x[i], x[j]]
                0 <= i < n && 0 <= j < n ==> end.s[i * n + j] == T::sum(
                    T::product(decay, st.s[i * n + j]),
                    T::product(x[i], x[j]),
                )
        }),
{
    let end = stepped(st, x, y);
    let acc = accumulated(st, x, y);
    let n = st.n_features as int;
    descent_keeps_all_but_the_coefficients(acc, st.options.max_iter as nat);
    assert forall|i: int, j: int|
        #![trigger x[i], x[j]]
        0 <= i < n && 0 <= j < n implies end.s[i * n + j] == T::sum(
        T::product(st.options.decay, st.s[i * n + j]),
        T::product(x[i], x[j]),
    ) by {
        lemma_entry(i, j, n);
    }
}

/// What the sums leave to feature `j`: the products of the other features and their coefficients
/// are taken away one after the other.
pub open spec fn leftover<T: Arithmetic>(st: LassoModel<T>, b: Seq<T>, j: int, k: int) -> T
    decreases k,
{
    if k <= 0 {
        st.z[j]
    } else if k == j + 1 {
        leftover(st, b, j, k - 1)
    } else {
        T::difference(
            leftover(st, b, j, k - 1),
            T::product(st.s[j * st.n_features + (k - 1)], b[k - 1]),
        )
    }
}

/// What is taken from what is left to feature `j`.
pub open spec fn limit<T: Arithmetic>(st: LassoModel<T>, j: int) -> T {
    let mean = T::quotient(st.m[j], st.wsum);
    let spread = T::difference(
        T::quotient(st.s[j * st.n_features + j], st.wsum),
        T::product(mean, mean),
    );
    let sigma = if T::below(T::nil(), spread) {
        T::root(spread)
    } else {
        T::nil()
    };
    T::product(T::product(st.options.alpha, sigma), st.wsum)
}

/// The coefficient that feature `j` gets while the others are as in `b`.
pub open spec fn fitted<T: Arithmetic>(st: LassoModel<T>, b: Seq<T>, j: int) -> T {
    let rest = leftover(st, b, j, st.n_features as int);
    let weight = st.s[j * st.n_features + j];
    if T::below(limit(st, j), rest) {
        T::quotient(T::difference(rest, limit(st, j)), weight)
    } else if T::below(rest, T::opposite(limit(st, j))) {
        T::quotient(T::sum(rest, limit(st, j)), weight)
    } else {
        T::nil()
    }
}

/// The widest move of the first `k` coefficients from one list to another.
pub open spec fn widest_move<T: Arithmetic>(a: Seq<T>, b: Seq<T>, k: int) -> T
    decreases k,
{
    if k <= 0 {
        T::nil()
    } else if T::below(widest_move(a, b, k - 1), T::size(T::difference(b[k - 1], a[k - 1]))) {
        T::size(T::difference(b[k - 1], a[k - 1]))
    } else {
        widest_move(a, b, k - 1)
    }
}

/// The first `j` entries of the new list and the others of the old one.
pub open spec fn partway<T>(a: Seq<T>, b: Seq<T>, j: int) -> Seq<T> {
    Seq::new(a.len(), |l: int| if l < j { b[l] } else { a[l] })
}

/// The lists of coefficients that sweeps over the sums of `st` go through. In each sweep the
/// coefficients are fitted in turn. The first sweep whose widest move is below the tolerance is the
/// last, and without one there are `max_iter`.
pub open spec fn are_sweeps<T: Arithmetic>(st: LassoModel<T>, path: Seq<Seq<T>>) -> bool {
    let last = path.len() - 1;
    let n = st.n_features as int;
    &&& 0 <= last <= st.options.max_iter
    &&& forall|i: int| 0 <= i <= last ==> #[trigger] path[i].len() == n
    &&& forall|i: int, j: int|
        0 <= i < last && 0 <= j < n ==> path[i + 1][j] == fitted(
            st,
            #[trigger] partway(path[i], path[i + 1], j),
            j,
        )
    &&& forall|i: int|
        0 <= i < last - 1 ==> !T::below(
            #[trigger] widest_move(path[i], path[i + 1], n),
            st.options.tol,
        )
    &&& last < st.options.max_iter ==> last > 0 && T::below(
        widest_move(path[last - 1], path[last], n),
        st.options.tol,
    )
}

proof fn lemma_leftover<T: Arithmetic>(st: LassoModel<T>, sums: LassoModel<T>, j: int, k: int)
    requires
        st == (LassoModel { coef: st.coef, ..sums }),
    ensures
        residual(st, j, k) == leftover(sums, st.coef, j, k),
    decreases k,
{
    if k > 0 {
        lemma_leftover(st, sums, j, k - 1);
    }
}

proof fn lemma_limit<T: Arithmetic>(st: LassoModel<T>, sums: LassoModel<T>, j: int)
    requires
        st == (LassoModel { coef: st.coef, ..sums }),
    ensures
        threshold(st, j) == limit(sums, j),
{
    assert(cross(st, j, j) == sums.s[j * sums.n_features + j]);
    assert(variance(st, j) == T::difference(
        T::quotient(sums.s[j * sums.n_features + j], sums.wsum),
        T::product(T::quotient(sums.m[j], sums.wsum), T::quotient(sums.m[j], sums.wsum)),
    ));
    assert(threshold(st, j) == T::product(
        T::product(sums.options.alpha, deviation(st, j)),
        sums.wsum,
    ));
}

/// A sweep fits each coefficient in its turn.
proof fn lemma_sweep_fits<T: Arithmetic>(st: LassoModel<T>, sums: LassoModel<T>, j: int)
    requires
        st.wf(),
        st == (LassoModel { coef: st.coef, ..sums }),
        0 <= j < st.n_features,
    ensures
        swept(st, st.n_features as int).coef[j] == fitted(
            sums,
            partway(st.coef, swept(st, st.n_features as int).coef, j),
            j,
        ),
{
    let n = st.n_features as int;
    let end = swept(st, n);
    let at = swept(st, j);
    sweep_keeps_all_but_the_coefficients(st, j);
    assert forall|l: int| 0 <= l < j implies at.coef[l] == end.coef[l] by {
        a_sweep_makes_each_coefficient_best(st, l, j);
        a_sweep_makes_each_coefficient_best(st, l, n);
    }
    assert(at.coef =~= partway(st.coef, end.coef, j));
    a_sweep_makes_each_coefficient_best(st, j, n);
    lemma_leftover(at, sums, j, n);
    lemma_limit(at, sums, j);
    assert(cross(at, j, j) == sums.s[j * sums.n_features + j]);
}

proof fn lemma_widest<T: Arithmetic>(st: LassoModel<T>, k: int)
    requires
        st.wf(),
        0 <= k <= st.n_features,
    ensures
        largest_change(st, k) == widest_move(st.coef, swept(st, st.n_features as int).coef, k),
    decreases k,
{
    if k > 0 {
        lemma_widest(st, k - 1);
        a_sweep_makes_each_coefficient_best(st, k - 1, k);
        a_sweep_makes_each_coefficient_best(st, k - 1, st.n_features as int);
    }
}

/// Whole sweeps change nothing but the coefficients.
pub proof fn lemma_whole_sweeps<T: Arithmetic>(st: LassoModel<T>, times: nat)
    requires
        st.wf(),
    ensures
        swept_times(st, times) == (LassoModel { coef: swept_times(st, times).coef, ..st }),
        swept_times(st, times).wf(),
    decreases times,
{
    if times > 0 {
        lemma_whole_sweeps(st, (times - 1) as nat);
        sweep_keeps_all_but_the_coefficients(
            swept_times(st, (times - 1) as nat),
            st.n_features as int,
        );
    }
}

/// What a row does to the coefficients: sweeps over the sums with the row in them, from the
/// coefficients that were there.
pub proof fn a_row_is_followed_by_sweeps<T: Arithmetic>(st: LassoModel<T>, x: Seq<T>, y: T) -> (path:
    Seq<Seq<T>>)
    requires
        st.wf(),
    ensures
        are_sweeps(stepped(st, x, y), path),
        path[0] == st.coef,
        path[path.len() - 1] == stepped(st, x, y).coef,
{
    let acc = accumulated(st, x, y);
    let end = stepped(st, x, y);
    let n = st.n_features as int;
    let tol = st.options.tol;
    descent_keeps_all_but_the_coefficients(acc, st.options.max_iter as nat);
    let times = the_descent_ends_when_it_settles(acc, st.options.max_iter as nat);
    let path = Seq::new(times + 1, |i: int| swept_times(acc, i as nat).coef);
    let last = path.len() - 1;
    assert forall|i: int| 0 <= i <= last implies #[trigger] path[i].len() == n by {
        lemma_whole_sweeps(acc, i as nat);
    }
    assert forall|i: int| 0 <= i < last implies #[trigger] path[i + 1] == swept(
        swept_times(acc, i as nat),
        n,
    ).coef by {
        lemma_whole_sweeps(acc, i as nat);
        assert(((i + 1) as nat - 1) as nat == i as nat);
    }
    assert forall|i: int, j: int| 0 <= i < last && 0 <= j < n implies path[i + 1][j] == fitted(
        end,
        #[trigger] partway(path[i], path[i + 1], j),
        j,
    ) by {
        let cur = swept_times(acc, i as nat);
        lemma_whole_sweeps(acc, i as nat);
        let _ = path[i + 1];
        lemma_sweep_fits(cur, end, j);
    }
    assert forall|i: int| 0 <= i < last implies settles(acc, (i + 1) as nat) == T::below(
        #[trigger] widest_move(path[i], path[i + 1], n),
        tol,
    ) by {
        let cur = swept_times(acc, i as nat);
        lemma_whole_sweeps(acc, i as nat);
        let _ = path[i + 1];
        assert(((i + 1) as nat - 1) as nat == i as nat);
        lemma_widest(cur, n);
    }
    assert forall|i: int| 0 <= i < last - 1 implies !T::below(
        #[trigger] widest_move(path[i], path[i + 1], n),
        tol,
    ) by {
        assert(!settles(acc, (i + 1) as nat));
    }
    if last < st.options.max_iter {
        assert(settles(acc, times));
        assert(path[last - 1 + 1] == path[last]);
        let _ = widest_move(path[last - 1], path[last - 1 + 1], n);
    }
    path
}

/// A fresh state has no sums and no coefficients yet. Rows are taken in one after the other, and
/// one with a null leaves the state as it is.
pub proof fn rows_are_taken_in_turn<T: Arithmetic>(
    n: nat,
    options: EwmLassoOptions<T>,
    st: LassoModel<T>,
    rows: Seq<Option<Sample<T>>>,
    k: int,
)
    requires
        0 <= k < rows.len(),
    ensures
        blank(n, options).n_features == n,
        blank(n, options).options == options,
        blank(n, options).wsum == T::nil(),
        blank(n, options).coef == Seq::new(n, |j: int| T::nil()),
        blank(n, options).z == Seq::new(n, |j: int| T::nil()),
        blank(n, options).m == Seq::new(n, |j: int| T::nil()),
        blank(n, options).s == Seq::new(n * n, |j: int| T::nil()),
        after(st, rows, 0) == st,
        after(st, rows, k + 1) == match rows[k] {
            Some(sample) => stepped(after(st, rows, k), sample.x, sample.y),
            None => after(st, rows, k),
        },
{
}

} // verus!
