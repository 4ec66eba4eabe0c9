//! What a regression over columns comes to, in terms of the parts of the columns.
use vstd::prelude::*;

use crate::columns::{valid_at, ListColumn, ListValues, ScalarColumn};
use crate::lasso::{blank, EwmLassoOptions, LassoModel};
use crate::lasso_columns::{
    after, fault, first_list, first_misfit, is_batch, is_null_column, is_outcome, is_output, misfit,
    samples, EwmLassoError, Sample,
};
use crate::lasso_node::{first_sample, is_processed, is_start};
use crate::scalar::Arithmetic;

verus! {

/// A mask says that entry `i` is null.
pub open spec fn is_null(mask: Option<Vec<bool>>, i: int) -> bool {
    mask is Some && !mask->0@[i]
}

/// The parts of a column of numbers fit: a mask, where there is one, has an entry for each number.
pub open spec fn numbers_fit<T>(column: ScalarColumn<T>) -> bool {
    column.validity is Some ==> column.validity->0@.len() == column.values@.len()
}

/// The parts of a column of lists fit: there is an offset more than there are lists, the first is
/// not negative, none is below one before it, the last is within the values, and a mask, where
/// there is one, has an entry for each list.
pub open spec fn lists_fit<T>(column: ListColumn<T>) -> bool {
    let offsets = column.offsets@;
    &&& offsets.len() > 0
    &&& offsets[0] >= 0
    &&& forall|i: int| 0 < i < offsets.len() ==> offsets[i - 1] <= #[trigger] offsets[i]
    &&& match column.values {
        ListValues::Scalars(values) => numbers_fit(values) && offsets[offsets.len() - 1]
            <= values.values@.len(),
        ListValues::Other { len } => offsets[offsets.len() - 1] <= len,
    }
    &&& column.validity is Some ==> column.validity->0@.len() == offsets.len() - 1
}

/// Columns are valid exactly where their parts fit.
pub proof fn columns_are_valid_where_their_parts_fit<T>(x: ListColumn<T>, y: ScalarColumn<T>)
    ensures
        y.wf() <==> numbers_fit(y),
        x.wf() <==> lists_fit(x),
{
    let offsets = x.offsets@;
    if lists_fit(x) {
        assert forall|i: int, j: int| 0 <= i <= j < offsets.len() implies offsets[i] <= offsets[j] by {
            lemma_offsets_grow(offsets, i, j);
        }
    }
}

proof fn lemma_offsets_grow(offsets: Seq<i64>, i: int, j: int)
    requires
        forall|i: int| 0 < i < offsets.len() ==> offsets[i - 1] <= #[trigger] offsets[i],
        0 <= i <= j < offsets.len(),
    ensures
        offsets[i] <= offsets[j],
    decreases j,
{
    if i < j {
        lemma_offsets_grow(offsets, i, j - 1);
        let _ = offsets[j];
    }
}

/// The columns are of different lengths.
pub open spec fn lengths_differ<T>(x: ListColumn<T>, y: ScalarColumn<T>) -> bool {
    x.offsets@.len() - 1 != y.values@.len()
}

/// Some number of the lists is null, whether a list holds it or not.
pub open spec fn holds_nulls<T>(x: ListColumn<T>) -> bool {
    x.values matches ListValues::Scalars(values) && exists|i: int|
        0 <= i < values.values@.len() && #[trigger] is_null(values.validity, i)
}

/// `rows` are the rows of two columns of one length: the numbers of the list and the target, and
/// none where either is null.
pub open spec fn are_samples<T>(
    x: ListColumn<T>,
    y: ScalarColumn<T>,
    rows: Seq<Option<Sample<T>>>,
) -> bool {
    &&& rows.len() == x.offsets@.len() - 1
    &&& forall|i: int|
        0 <= i < rows.len() ==> match #[trigger] rows[i] {
            Some(sample) => {
                &&& !is_null(x.validity, i)
                &&& !is_null(y.validity, i)
                &&& sample.y == y.values@[i]
                &&& x.values matches ListValues::Scalars(values) ==> sample.x
                    == values.values@.subrange(x.offsets@[i] as int, x.offsets@[i + 1] as int)
            },
            None => is_null(x.validity, i) || is_null(y.validity, i),
        }
}

/// A column with the coefficients after each row, and null for each row that is none. Nulls take up
/// no numbers, and there is a mask only where there is a null.
pub open spec fn holds_coefficients<T: Arithmetic>(
    st: LassoModel<T>,
    rows: Seq<Option<Sample<T>>>,
    out: ListColumn<T>,
) -> bool {
    let offsets = out.offsets@;
    &&& offsets.len() == rows.len() + 1
    &&& offsets[0] == 0
    &&& out.values matches ListValues::Scalars(values) && values.validity is None
        && offsets[offsets.len() - 1] == values.values@.len() && forall|i: int|
        0 <= i < rows.len() ==> match #[trigger] rows[i] {
            Some(_) => !is_null(out.validity, i) && values.values@.subrange(
                offsets[i] as int,
                offsets[i + 1] as int,
            ) == after(st, rows, i + 1).coef,
            None => is_null(out.validity, i) && offsets[i + 1] == offsets[i],
        }
    &&& out.validity is Some <==> exists|i: int| 0 <= i < rows.len() && #[trigger] rows[i] is None
    &&& out.validity is Some ==> out.validity->0@.len() == rows.len()
}

/// A column of so many nulls.
pub open spec fn holds_nulls_only<T>(rows: int, out: ListColumn<T>) -> bool {
    &&& out.offsets@.len() == rows + 1
    &&& forall|i: int| 0 <= i <= rows ==> #[trigger] out.offsets@[i] == 0
    &&& out.values matches ListValues::Scalars(values) && values.values@.len() == 0
        && values.validity is None
    &&& out.validity is Some && out.validity->0@.len() == rows
    &&& forall|i: int| 0 <= i < rows ==> #[trigger] is_null(out.validity, i)
}

/// What is wrong with columns as a whole: their lengths first, then what the lists hold.
pub proof fn what_is_wrong_with_columns<T>(x: ListColumn<T>, y: ScalarColumn<T>)
    requires
        x.wf(),
    ensures
        lengths_differ(x, y) ==> fault(x, y) == Some(
            EwmLassoError::LengthMismatch {
                x: (x.offsets@.len() - 1) as usize,
                y: y.values@.len() as usize,
            },
        ),
        !lengths_differ(x, y) && x.values !is Scalars ==> fault(x, y) == Some(
            EwmLassoError::NotScalars,
        ),
        !lengths_differ(x, y) && holds_nulls(x) ==> fault(x, y) == Some(EwmLassoError::NullValues),
        !lengths_differ(x, y) && x.values is Scalars && !holds_nulls(x) ==> fault(x, y) is None,
{
    if let ListValues::Scalars(values) = x.values {
        if holds_nulls(x) {
            let i = choose|i: int|
                0 <= i < values.values@.len() && #[trigger] is_null(values.validity, i);
            assert(values.cell(i) is None);
        } else {
            assert forall|i: int| 0 <= i < values.values@.len() implies values.cell(i) is Some by {
                assert(!is_null(values.validity, i));
            }
        }
    }
}

proof fn lemma_samples<T>(x: ListColumn<T>, y: ScalarColumn<T>, rows: Seq<Option<Sample<T>>>)
    requires
        x.wf(),
        x.values is Scalars,
        are_samples(x, y, rows),
    ensures
        samples(x, y) == rows,
{
    assert forall|i: int| 0 <= i < rows.len() implies samples(x, y)[i] == rows[i] by {
        let _ = rows[i];
    }
    assert(samples(x, y) =~= rows);
}

/// A row has as many numbers as lie between its offsets.
proof fn lemma_row_width<T>(x: ListColumn<T>, y: ScalarColumn<T>, i: int)
    requires
        x.wf(),
        x.values is Scalars,
        0 <= i < x.rows(),
        samples(x, y)[i] is Some,
    ensures
        samples(x, y)[i]->0.x.len() == x.offsets@[i + 1] - x.offsets@[i],
{
    assert(0 <= x.offsets@[0] <= x.offsets@[i] <= x.offsets@[i + 1] <= x.offsets@[x.rows() as int]);
}

proof fn lemma_output<T: Arithmetic>(
    st: LassoModel<T>,
    rows: Seq<Option<Sample<T>>>,
    out: ListColumn<T>,
)
    requires
        is_output(st, rows, out),
    ensures
        holds_coefficients(st, rows, out),
{
    if let ListValues::Scalars(values) = out.values {
        assert forall|i: int| 0 <= i < rows.len() implies match #[trigger] rows[i] {
            Some(_) => !is_null(out.validity, i) && values.values@.subrange(
                out.offsets@[i] as int,
                out.offsets@[i + 1] as int,
            ) == after(st, rows, i + 1).coef,
            None => is_null(out.validity, i) && out.offsets@[i + 1] == out.offsets@[i],
        } by {
            let _ = out.row(i);
            assert(out.offsets@[i] <= out.offsets@[i + 1]);
        }
    }
    if out.validity is Some {
        let i = choose|i: int| 0 <= i < rows.len() && !(rows[i] is Some);
        assert(rows[i] is None);
    }
}

proof fn lemma_nulls<T>(rows: nat, out: ListColumn<T>)
    requires
        is_null_column(rows, out),
    ensures
        holds_nulls_only(rows as int, out),
{
}

/// What a regression that starts in `st` comes to over two columns. Columns that do not fit are
/// refused and leave the state as it is. Else the rows are taken in one after the other; the first
/// that has another number of features ends the regression with an error, in the state after the
/// rows before it. Without such a row there is a list of coefficients for each row.
pub proof fn what_a_regression_comes_to<T: Arithmetic>(
    st: LassoModel<T>,
    x: ListColumn<T>,
    y: ScalarColumn<T>,
    rows: Seq<Option<Sample<T>>>,
    result: Result<ListColumn<T>, EwmLassoError>,
    end: LassoModel<T>,
)
    requires
        x.wf(),
        is_outcome(st, x, y, result, end),
        are_samples(x, y, rows),
    ensures
        lengths_differ(x, y) ==> result == Err::<ListColumn<T>, EwmLassoError>(
            EwmLassoError::LengthMismatch {
                x: (x.offsets@.len() - 1) as usize,
                y: y.values@.len() as usize,
            },
        ) && end == st,
        !lengths_differ(x, y) && x.values !is Scalars ==> result == Err::<
            ListColumn<T>,
            EwmLassoError,
        >(EwmLassoError::NotScalars) && end == st,
        !lengths_differ(x, y) && holds_nulls(x) ==> result == Err::<ListColumn<T>, EwmLassoError>(
            EwmLassoError::NullValues,
        ) && end == st,
        !lengths_differ(x, y) && x.values is Scalars && !holds_nulls(x) ==> {
            let fits = |i: int|
                rows[i] is None || x.offsets@[i + 1] - x.offsets@[i] == st.n_features;
            &&& (forall|i: int| 0 <= i < rows.len() ==> #[trigger] fits(i)) ==> {
                &&& result is Ok
                &&& holds_coefficients(st, rows, result->Ok_0)
                &&& end == after(st, rows, rows.len() as int)
            }
            &&& forall|i: int|
                0 <= i < rows.len() && !#[trigger] fits(i) && (forall|k: int|
                    0 <= k < i ==> #[trigger] fits(k)) ==> {
                    &&& result == Err::<ListColumn<T>, EwmLassoError>(
                        EwmLassoError::RowLength {
                            expected: st.n_features as usize,
                            got: (x.offsets@[i + 1] - x.offsets@[i]) as usize,
                        },
                    )
                    &&& end == after(st, rows, i)
                }
        },
{
    what_is_wrong_with_columns(x, y);
    if !lengths_differ(x, y) && x.values is Scalars && !holds_nulls(x) {
        lemma_samples(x, y, rows);
        let fits = |i: int| rows[i] is None || x.offsets@[i + 1] - x.offsets@[i] == st.n_features;
        assert forall|i: int| 0 <= i < rows.len() implies #[trigger] fits(i) == !misfit(
            rows,
            st.n_features,
            i,
        ) by {
            if rows[i] is Some {
                lemma_row_width(x, y, i);
            }
        }
        if let Ok(out) = result {
            assert forall|i: int| 0 <= i < rows.len() implies #[trigger] fits(i) by {
                assert(!misfit(rows, st.n_features, i));
            }
            lemma_output(st, rows, out);
        } else {
            let j = choose|j: int| #[trigger]
                first_misfit(rows, st.n_features, j) && result->Err_0
                    == (EwmLassoError::RowLength {
                    expected: st.n_features as usize,
                    got: rows[j]->0.x.len() as usize,
                }) && end == after(st, rows, j);
            assert(!fits(j));
            lemma_row_width(x, y, j);
            assert forall|i: int|
                0 <= i < rows.len() && !#[trigger] fits(i) && (forall|k: int|
                    0 <= k < i ==> #[trigger] fits(k)) implies i == j by {
                if i < j {
                    assert(!misfit(rows, st.n_features, i));
                }
                if j < i {
                    assert(fits(j));
                }
            }
        }
    }
}

/// A regression over whole columns starts blank, with as many features as the first list that is
/// not null. Where every list is null, so is every row of the result.
pub proof fn what_a_regression_over_columns_comes_to<T: Arithmetic>(
    x: ListColumn<T>,
    y: ScalarColumn<T>,
    options: EwmLassoOptions<T>,
    result: Result<ListColumn<T>, EwmLassoError>,
) -> (end: LassoModel<T>)
    requires
        x.wf(),
        is_batch(x, y, options, result),
    ensures
        lengths_differ(x, y) ==> result == Err::<ListColumn<T>, EwmLassoError>(
            EwmLassoError::LengthMismatch {
                x: (x.offsets@.len() - 1) as usize,
                y: y.values@.len() as usize,
            },
        ),
        !lengths_differ(x, y) && x.values !is Scalars ==> result == Err::<
            ListColumn<T>,
            EwmLassoError,
        >(EwmLassoError::NotScalars),
        !lengths_differ(x, y) && holds_nulls(x) ==> result == Err::<ListColumn<T>, EwmLassoError>(
            EwmLassoError::NullValues,
        ),
        !lengths_differ(x, y) && x.values is Scalars && !holds_nulls(x) ==> {
            &&& (forall|i: int|
                0 <= i < x.offsets@.len() - 1 ==> #[trigger] is_null(x.validity, i)) ==> {
                result is Ok && holds_nulls_only(x.offsets@.len() - 1, result->Ok_0)
            }
            &&& forall|i: int|
                0 <= i < x.offsets@.len() - 1 && !#[trigger] is_null(x.validity, i) && (forall|
                    k: int,
                |
                    0 <= k < i ==> #[trigger] is_null(x.validity, k)) ==> is_outcome(
                    blank((x.offsets@[i + 1] - x.offsets@[i]) as nat, options),
                    x,
                    y,
                    result,
                    end,
                )
        },
{
    what_is_wrong_with_columns(x, y);
    if !lengths_differ(x, y) && x.values is Scalars && !holds_nulls(x) {
        if exists|i: int, end: LassoModel<T>| #[trigger]
            first_list(x, i) && #[trigger] is_outcome(
                blank(x.width(i), options),
                x,
                y,
                result,
                end,
            ) {
            let (j, end) = choose|j: int, end: LassoModel<T>| #[trigger]
                first_list(x, j) && #[trigger] is_outcome(
                    blank(x.width(j), options),
                    x,
                    y,
                    result,
                    end,
                );
            assert(!is_null(x.validity, j));
            assert forall|i: int|
                0 <= i < x.offsets@.len() - 1 && !#[trigger] is_null(x.validity, i) && (forall|
                    k: int,
                |
                    0 <= k < i ==> #[trigger] is_null(x.validity, k)) implies i == j by {
                if j < i {
                    assert(is_null(x.validity, j));
                }
                if i < j {
                    assert(!valid_at(x.validity, i));
                }
            }
            end
        } else {
            lemma_nulls(x.rows(), result->Ok_0);
            assert forall|i: int| 0 <= i < x.offsets@.len() - 1 implies #[trigger] is_null(
                x.validity,
                i,
            ) by {
                assert(!valid_at(x.validity, i));
            }
            blank(0, options)
        }
    } else {
        blank(0, options)
    }
}

/// A morsel finds a node in the state that the one before left. A node without a state gets a blank
/// one with the first row that is there, with as many features as it has; until then its morsels
/// give nulls and leave it as it is.
pub proof fn what_a_morsel_comes_to<T: Arithmetic>(
    state: Option<LassoModel<T>>,
    options: EwmLassoOptions<T>,
    start: Option<LassoModel<T>>,
    x: ListColumn<T>,
    y: ScalarColumn<T>,
    result: Result<ListColumn<T>, EwmLassoError>,
    end: Option<LassoModel<T>>,
)
    requires
        x.wf(),
        is_start(state, options, x, y, start),
        is_processed(start, x, y, result, end),
    ensures
        state is Some ==> end is Some && is_outcome(state->0, x, y, result, end->0),
        state is None ==> {
            let there = |i: int| !is_null(x.validity, i) && !is_null(y.validity, i);
            &&& (forall|i: int| 0 <= i < x.offsets@.len() - 1 ==> !#[trigger] there(i)) ==> {
                &&& end is None
                &&& result is Ok
                &&& holds_nulls_only(x.offsets@.len() - 1, result->Ok_0)
            }
            &&& forall|i: int|
                0 <= i < x.offsets@.len() - 1 && #[trigger] there(i) && (forall|k: int|
                    0 <= k < i ==> !#[trigger] there(k)) ==> {
                    &&& end is Some
                    &&& is_outcome(
                        blank((x.offsets@[i + 1] - x.offsets@[i]) as nat, options),
                        x,
                        y,
                        result,
                        end->0,
                    )
                }
        },
{
    let there = |i: int| !is_null(x.validity, i) && !is_null(y.validity, i);
    assert forall|i: int| 0 <= i < x.rows() implies #[trigger] there(i) == (samples(
        x,
        y,
    )[i] is Some) by {}
    if state is None {
        if start is Some {
            let j = choose|j: int| #[trigger]
                first_sample(x, y, j) && start->0 == blank(x.width(j), options);
            assert(there(j));
            assert forall|i: int|
                0 <= i < x.offsets@.len() - 1 && #[trigger] there(i) && (forall|k: int|
                    0 <= k < i ==> !#[trigger] there(k)) implies i == j by {
                if j < i {
                    assert(!there(j));
                }
                if i < j {
                    assert(samples(x, y)[i] is None);
                }
            }
        } else {
            lemma_nulls(x.rows(), result->Ok_0);
            assert forall|i: int| 0 <= i < x.offsets@.len() - 1 implies !#[trigger] there(i) by {
                assert(samples(x, y)[i] is None);
            }
        }
    }
}

} // verus!
