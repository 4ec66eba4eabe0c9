//! The regression over columns: one list of coefficients for each row.
use vstd::prelude::*;
use vstd::slice::slice_subrange;

use crate::columns::{valid_at, ListColumn, ListValues, ScalarColumn};
use crate::lasso::{
    accumulated, blank, descent_keeps_all_but_the_coefficients, stepped, EwmLassoOptions,
    EwmLassoState, LassoModel,
};
use crate::scalar::{Arithmetic, Scalar};

verus! {

/// Why a regression over columns failed.
#[derive(Debug, PartialEq, Eq)]
pub enum EwmLassoError {
    /// The columns are not of the same length.
    LengthMismatch { x: usize, y: usize },
    /// The lists do not hold numbers.
    NotScalars,
    /// There is a null among the values of the lists.
    NullValues,
    /// A list has not as many values as there are features.
    RowLength { expected: usize, got: usize },
}

/// What is wrong with the columns as a whole, whatever the rows say.
pub open spec fn fault<T>(x: ListColumn<T>, y: ScalarColumn<T>) -> Option<EwmLassoError> {
    if x.rows() != y.values@.len() {
        Some(EwmLassoError::LengthMismatch { x: x.rows() as usize, y: y.values@.len() as usize })
    } else {
        match x.values {
            ListValues::Other { .. } => Some(EwmLassoError::NotScalars),
            ListValues::Scalars(column) => if exists|i: int|
                0 <= i < column.values@.len() && column.cell(i) is None {
                Some(EwmLassoError::NullValues)
            } else {
                None
            },
        }
    }
}

/// A row for the regression: features and target.
pub ghost struct Sample<T> {
    pub x: Seq<T>,
    pub y: T,
}

/// The rows of two columns. A row with a null on either side is none.
pub open spec fn samples<T>(x: ListColumn<T>, y: ScalarColumn<T>) -> Seq<Option<Sample<T>>> {
    Seq::new(
        x.rows(),
        |i: int|
            match (x.row(i), y.cell(i)) {
                (Some(features), Some(target)) => Some(Sample { x: features, y: target }),
                _ => None,
            },
    )
}

/// The state after the first `k` rows.
pub open spec fn after<T: Arithmetic>(
    st: LassoModel<T>,
    rows: Seq<Option<Sample<T>>>,
    k: int,
) -> LassoModel<T>
    decreases k,
{
    if k <= 0 {
        st
    } else {
        let before = after(st, rows, k - 1);
        match rows[k - 1] {
            Some(sample) => stepped(before, sample.x, sample.y),
            None => before,
        }
    }
}

/// Row `i` has another number of features than `n`.
pub open spec fn misfit<T>(rows: Seq<Option<Sample<T>>>, n: nat, i: int) -> bool {
    rows[i] is Some && rows[i]->0.x.len() != n
}

/// The first row that has another number of features than `n`.
pub open spec fn first_misfit<T>(rows: Seq<Option<Sample<T>>>, n: nat, i: int) -> bool {
    &&& 0 <= i < rows.len()
    &&& misfit(rows, n, i)
    &&& forall|k: int| 0 <= k < i ==> !misfit(rows, n, k)
}

/// The column holds, for each row, the coefficients after that row, or null where the row is none.
/// A null takes up no values, and a column without nulls has no validity.
pub open spec fn is_output<T: Arithmetic>(
    st: LassoModel<T>,
    rows: Seq<Option<Sample<T>>>,
    out: ListColumn<T>,
) -> bool {
    &&& out.wf()
    &&& out.rows() == rows.len()
    &&& out.offsets@[0] == 0
    &&& out.values matches ListValues::Scalars(column) && column.validity is None
    &&& out.offsets@[out.offsets@.len() - 1] == out.values.len()
    &&& forall|i: int|
        0 <= i < rows.len() ==> {
            &&& #[trigger] out.row(i) == match rows[i] {
                Some(_) => Some(after(st, rows, i + 1).coef),
                None => None,
            }
            &&& rows[i] is None ==> out.width(i) == 0
        }
    &&& out.validity is None <==> forall|i: int| 0 <= i < rows.len() ==> rows[i] is Some
}

/// What a regression that starts in `st` comes to: the result, and the state it leaves behind.
pub open spec fn is_outcome<T: Arithmetic>(
    st: LassoModel<T>,
    x: ListColumn<T>,
    y: ScalarColumn<T>,
    result: Result<ListColumn<T>, EwmLassoError>,
    end: LassoModel<T>,
) -> bool {
    let rows = samples(x, y);
    match (fault(x, y), result) {
        (Some(error), _) => result == Err::<ListColumn<T>, EwmLassoError>(error) && end == st,
        (None, Err(error)) => exists|i: int| #[trigger]
            first_misfit(rows, st.n_features, i) && error == (EwmLassoError::RowLength {
                expected: st.n_features as usize,
                got: rows[i]->0.x.len() as usize,
            }) && end == after(st, rows, i),
        (None, Ok(out)) => {
            &&& forall|i: int| 0 <= i < rows.len() ==> !misfit(rows, st.n_features, i)
            &&& is_output(st, rows, out)
            &&& end == after(st, rows, rows.len() as int)
        },
    }
}

/// The first list that is not null.
pub open spec fn first_list<T>(x: ListColumn<T>, i: int) -> bool {
    &&& 0 <= i < x.rows()
    &&& valid_at(x.validity, i)
    &&& forall|k: int| 0 <= k < i ==> !valid_at(x.validity, k)
}

/// The column holds nulls alone, without any values.
pub open spec fn is_null_column<T>(rows: nat, out: ListColumn<T>) -> bool {
    &&& out.wf()
    &&& out.offsets@ == Seq::new(rows + 1, |i: int| 0i64)
    &&& out.values matches ListValues::Scalars(column) && column.values@.len() == 0
        && column.validity is None
    &&& out.validity matches Some(mask) && mask@ == Seq::new(rows, |i: int| false)
}

/// What a regression over whole columns comes to. It has as many features as the first list that
/// is not null; where there is no such list, every row of the result is null.
pub open spec fn is_batch<T: Arithmetic>(
    x: ListColumn<T>,
    y: ScalarColumn<T>,
    options: EwmLassoOptions<T>,
    result: Result<ListColumn<T>, EwmLassoError>,
) -> bool {
    match fault(x, y) {
        Some(error) => result == Err::<ListColumn<T>, EwmLassoError>(error),
        None => {
            ||| exists|i: int, end: LassoModel<T>| #[trigger]
                first_list(x, i) && #[trigger] is_outcome(
                    blank(x.width(i), options),
                    x,
                    y,
                    result,
                    end,
                )
            ||| {
                &&& forall|i: int| 0 <= i < x.rows() ==> !valid_at(x.validity, i)
                &&& result matches Ok(out) && is_null_column(x.rows(), out)
            }
        },
    }
}

/// Steps keep the number of features and the options.
pub proof fn steps_keep_the_shape<T: Arithmetic>(
    st: LassoModel<T>,
    rows: Seq<Option<Sample<T>>>,
    k: int,
)
    requires
        st.wf(),
        0 <= k <= rows.len(),
    ensures
        after(st, rows, k).wf(),
        after(st, rows, k).n_features == st.n_features,
        after(st, rows, k).options == st.options,
    decreases k,
{
    if k > 0 {
        steps_keep_the_shape(st, rows, k - 1);
        let before = after(st, rows, k - 1);
        if rows[k - 1] is Some {
            let sample = rows[k - 1]->0;
            descent_keeps_all_but_the_coefficients(
                accumulated(before, sample.x, sample.y),
                before.options.max_iter as nat,
            );
        }
    }
}

/// The values of the lists, or what is wrong with the columns.
fn checked_values<'a, T>(x: &'a ListColumn<T>, y: &ScalarColumn<T>) -> (r: Result<
    &'a ScalarColumn<T>,
    EwmLassoError,
>)
    requires
        x.wf(),
        y.wf(),
    ensures
        match r {
            Ok(column) => fault(*x, *y) is None && x.values == ListValues::Scalars(*column),
            Err(error) => fault(*x, *y) == Some(error),
        },
{
    if x.len() != y.len() {
        return Err(EwmLassoError::LengthMismatch { x: x.len(), y: y.len() });
    }
    match &x.values {
        ListValues::Scalars(column) => {
            if column.has_nulls() {
                Err(EwmLassoError::NullValues)
            } else {
                Ok(column)
            }
        },
        ListValues::Other { .. } => Err(EwmLassoError::NotScalars),
    }
}

/// Checks the columns as a whole, whatever the rows say.
pub fn check_columns<T>(x: &ListColumn<T>, y: &ScalarColumn<T>) -> (r: Result<(), EwmLassoError>)
    requires
        x.wf(),
        y.wf(),
    ensures
        match fault(*x, *y) {
            Some(error) => r == Err::<(), EwmLassoError>(error),
            None => r == Ok::<(), EwmLassoError>(()),
        },
{
    match checked_values(x, y) {
        Ok(_) => Ok(()),
        Err(error) => Err(error),
    }
}

/// Appends numbers to a list.
fn append<T: Copy>(values: &mut Vec<T>, more: &[T])
    ensures
        final(values)@ == old(values)@ + more@,
{
    let mut i: usize = 0;
    while i < more.len()
        invariant
            i <= more@.len(),
            values@ == old(values)@ + more@.take(i as int),
        decreases more@.len() - i,
    {
        values.push(more[i]);
        i += 1;
        assert(more@.take(i as int) == more@.take(i - 1).push(more@[i - 1]));
    }
    assert(more@.take(more@.len() as int) == more@);
}

/// Whether all rows are there.
fn all_true(mask: &Vec<bool>) -> (r: bool)
    ensures
        r == forall|i: int| 0 <= i < mask@.len() ==> mask@[i],
{
    let mut i: usize = 0;
    while i < mask.len()
        invariant
            i <= mask@.len(),
            forall|k: int| 0 <= k < i ==> mask@[k],
        decreases mask@.len() - i,
    {
        if !mask[i] {
            return false;
        }
        i += 1;
    }
    true
}

/// The output for the first `k` rows, in parts: offsets, values and which rows are there.
spec fn is_partial<T: Arithmetic>(
    st: LassoModel<T>,
    rows: Seq<Option<Sample<T>>>,
    k: int,
    offsets: Seq<i64>,
    values: Seq<T>,
    mask: Seq<bool>,
) -> bool {
    &&& offsets.len() == k + 1
    &&& mask.len() == k
    &&& offsets[0] == 0
    &&& offsets[k] == values.len()
    &&& forall|i: int, j: int| 0 <= i <= j <= k ==> offsets[i] <= offsets[j]
    &&& forall|i: int| 0 <= i < k ==> mask[i] == (#[trigger] rows[i] is Some)
    &&& forall|i: int|
        0 <= i < k ==> match #[trigger] rows[i] {
            Some(_) => values.subrange(offsets[i] as int, offsets[i + 1] as int) == after(
                st,
                rows,
                i + 1,
            ).coef,
            None => offsets[i] == offsets[i + 1],
        }
}

/// One row more: the values grow by its coefficients, or do not.
proof fn lemma_partial<T: Arithmetic>(
    st: LassoModel<T>,
    rows: Seq<Option<Sample<T>>>,
    k: int,
    offsets: Seq<i64>,
    values: Seq<T>,
    mask: Seq<bool>,
    next: Seq<i64>,
    longer: Seq<T>,
)
    requires
        0 <= k < rows.len(),
        is_partial(st, rows, k, offsets, values, mask),
        next.len() == k + 2,
        next.take(k + 1) == offsets,
        next[k + 1] == longer.len(),
        longer == match rows[k] {
            Some(_) => values + after(st, rows, k + 1).coef,
            None => values,
        },
    ensures
        is_partial(st, rows, k + 1, next, longer, mask.push(rows[k] is Some)),
{
    assert(forall|i: int| 0 <= i <= k ==> next[i] == #[trigger] offsets[i]) by {
        assert(forall|i: int| 0 <= i <= k ==> next.take(k + 1)[i] == next[i]);
    }
    assert forall|i: int, j: int| 0 <= i <= j <= k + 1 implies next[i] <= next[j] by {
        if i <= k {
            assert(offsets[i] <= offsets[if j <= k { j } else { k }]);
        }
    }
    assert forall|i: int| 0 <= i < k + 1 implies match #[trigger] rows[i] {
        Some(_) => longer.subrange(next[i] as int, next[i + 1] as int) == after(
            st,
            rows,
            i + 1,
        ).coef,
        None => next[i] == next[i + 1],
    } by {
        if i < k {
            assert(0 <= offsets[0] <= offsets[i] <= offsets[i + 1] <= offsets[k]);
            assert(longer.subrange(next[i] as int, next[i + 1] as int) == values.subrange(
                offsets[i] as int,
                offsets[i + 1] as int,
            ));
        } else if rows[k] is Some {
            assert(longer.subrange(next[k] as int, next[k + 1] as int) == after(
                st,
                rows,
                k + 1,
            ).coef);
        }
    }
}

/// Runs the regression on over the rows of two columns.
pub fn ewm_lasso_with_state<T: Scalar>(
    state: &mut EwmLassoState<T>,
    x: &ListColumn<T>,
    y: &ScalarColumn<T>,
) -> (r: Result<ListColumn<T>, EwmLassoError>)
    requires
        old(state)@.wf(),
        x.wf(),
        y.wf(),
    ensures
        is_outcome(old(state)@, *x, *y, r, final(state)@),
        final(state)@.wf(),
        final(state)@.n_features == old(state)@.n_features,
        final(state)@.options == old(state)@.options,
{
    let values = match checked_values(x, y) {
        Ok(values) => values,
        Err(error) => return Err(error),
    };
    let ghost st = state@;
    let ghost rows = samples(*x, *y);
    let n_features: usize = state.n_features();
    let mut offsets_out: Vec<i64> = Vec::new();
    offsets_out.push(0);
    let mut values_out: Vec<T> = Vec::new();
    let mut validity: Vec<bool> = Vec::new();
    let mut i: usize = 0;
    while i < x.len()
        invariant
            x.wf(),
            y.wf(),
            fault(*x, *y) is None,
            x.values == ListValues::Scalars(*values),
            rows == samples(*x, *y),
            st == old(state)@,
            st.wf(),
            n_features == st.n_features,
            i <= x.rows(),
            state@ == after(st, rows, i as int),
            forall|k: int| 0 <= k < i ==> !misfit(rows, st.n_features, k),
            is_partial(st, rows, i as int, offsets_out@, values_out@, validity@),
            values_out@.len() <= x.offsets@[i as int] - x.offsets@[0],
        decreases x.rows() - i,
    {
        proof {
            steps_keep_the_shape(st, rows, i as int);
            steps_keep_the_shape(st, rows, i + 1);
            assert(x.offsets@[i as int] <= x.offsets@[i + 1]);
        }
        let ghost offsets_before = offsets_out@;
        let ghost values_before = values_out@;
        let ghost mask_before = validity@;
        let last: i64 = offsets_out[i];
        let valid = x.is_valid(i) && y.is_valid(i);
        validity.push(valid);
        if valid {
            let (start, end) = x.bounds(i);
            if end - start != n_features {
                proof {
                    assert(first_misfit(rows, st.n_features, i as int));
                    assert(rows[i as int]->0.x.len() == end - start);
                }
                return Err(
                    EwmLassoError::RowLength { expected: n_features, got: end - start },
                );
            }
            let features = slice_subrange(values.values.as_slice(), start, end);
            state.update_row(features, values_at(y, i));
            append(&mut values_out, state.coefficients());
            offsets_out.push(last + n_features as i64);
        } else {
            offsets_out.push(last);
        }
        proof {
            assert(offsets_out@.take(i + 1) == offsets_before);
            lemma_partial(
                st,
                rows,
                i as int,
                offsets_before,
                values_before,
                mask_before,
                offsets_out@,
                values_out@,
            );
        }
        i += 1;
    }
    proof {
        steps_keep_the_shape(st, rows, rows.len() as int);
    }
    let ghost mask = validity@;
    let validity = if all_true(&validity) {
        None
    } else {
        Some(validity)
    };
    let out = ListColumn {
        offsets: offsets_out,
        values: ListValues::Scalars(ScalarColumn { values: values_out, validity: None }),
        validity,
    };
    assert(is_output(st, rows, out)) by {
        assert(out.rows() == rows.len());
        assert forall|i: int| 0 <= i < rows.len() implies {
            &&& #[trigger] out.row(i) == match rows[i] {
                Some(_) => Some(after(st, rows, i + 1).coef),
                None => None,
            }
            &&& rows[i] is None ==> out.width(i) == 0
        } by {
            assert(mask[i] == (rows[i] is Some));
            assert(0 <= out.offsets@[0] <= out.offsets@[i] <= out.offsets@[i + 1]);
        }
        assert(out.validity is None <==> forall|i: int| 0 <= i < mask.len() ==> mask[i]);
        assert(forall|i: int| #![trigger mask[i]] #![trigger rows[i]]
            0 <= i < rows.len() ==> mask[i] == (rows[i] is Some));
        if out.validity is Some {
            let i = choose|i: int| 0 <= i < mask.len() && !mask[i];
            assert(rows[i] is None);
        }
    }
    Ok(out)
}

fn values_at<T: Scalar>(column: &ScalarColumn<T>, i: usize) -> (r: T)
    requires
        i < column.values@.len(),
    ensures
        r == column.values@[i as int],
{
    column.values[i]
}

/// The column of so many nulls.
pub fn null_column<T>(rows: usize) -> (out: ListColumn<T>)
    ensures
        is_null_column(rows as nat, out),
{
    let mut offsets: Vec<i64> = Vec::new();
    offsets.push(0);
    let mut mask: Vec<bool> = Vec::new();
    let mut i: usize = 0;
    while i < rows
        invariant
            i <= rows,
            offsets@ == Seq::new(i as nat + 1, |i: int| 0i64),
            mask@ == Seq::new(i as nat, |i: int| false),
        decreases rows - i,
    {
        offsets.push(0);
        mask.push(false);
        i += 1;
    }
    ListColumn {
        offsets,
        values: ListValues::Scalars(ScalarColumn { values: Vec::new(), validity: None }),
        validity: Some(mask),
    }
}

/// Finds the first list that is not null.
fn find_list<T>(x: &ListColumn<T>) -> (r: Option<usize>)
    requires
        x.wf(),
    ensures
        match r {
            Some(i) => first_list(*x, i as int),
            None => forall|i: int| 0 <= i < x.rows() ==> !valid_at(x.validity, i),
        },
{
    let mut i: usize = 0;
    while i < x.len()
        invariant
            x.wf(),
            i <= x.rows(),
            forall|k: int| 0 <= k < i ==> !valid_at(x.validity, k),
        decreases x.rows() - i,
    {
        if x.is_valid(i) {
            return Some(i);
        }
        i += 1;
    }
    None
}

/// Runs a regression over the rows of two columns. It has as many features as the first list that
/// is not null; where there is no such list, every row of the result is null.
pub fn ewm_lasso<T: Scalar>(
    x: &ListColumn<T>,
    y: &ScalarColumn<T>,
    options: EwmLassoOptions<T>,
) -> (r: Result<ListColumn<T>, EwmLassoError>)
    requires
        x.wf(),
        y.wf(),
        forall|i: int| #[trigger]
            first_list(*x, i) && fault(*x, *y) is None ==> x.width(i) * x.width(i) <= usize::MAX,
    ensures
        is_batch(*x, *y, options, r),
{
    if let Err(error) = check_columns(x, y) {
        return Err(error);
    }
    match find_list(x) {
        Some(i) => {
            let (start, end) = x.bounds(i);
            let mut state = EwmLassoState::new(end - start, options);
            ewm_lasso_with_state(&mut state, x, y)
        },
        None => Ok(null_column(x.len())),
    }
}

} // verus!
