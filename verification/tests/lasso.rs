//! The regression, on floating point numbers and on fixed point numbers.
use join_lasso::columns::{ListColumn, ListValues, ScalarColumn};
use join_lasso::fixed::Fixed;
use join_lasso::lasso::{EwmLassoOptions, EwmLassoState};
use join_lasso::lasso_columns::{ewm_lasso, ewm_lasso_with_state, null_column, EwmLassoError};
use join_lasso::scalar::{Arithmetic, Scalar};

#[derive(Clone, Copy, Debug, PartialEq)]
struct Double(f64);

impl Arithmetic for Double {
    fn nil() -> Self {
        Double(0.0)
    }
    fn unit() -> Self {
        Double(1.0)
    }
    fn sum(a: Self, b: Self) -> Self {
        Double(a.0 + b.0)
    }
    fn difference(a: Self, b: Self) -> Self {
        Double(a.0 - b.0)
    }
    fn product(a: Self, b: Self) -> Self {
        Double(a.0 * b.0)
    }
    fn quotient(a: Self, b: Self) -> Self {
        Double(a.0 / b.0)
    }
    fn opposite(a: Self) -> Self {
        Double(-a.0)
    }
    fn root(a: Self) -> Self {
        Double(a.0.sqrt())
    }
    fn size(a: Self) -> Self {
        Double(a.0.abs())
    }
    fn below(a: Self, b: Self) -> bool {
        a.0 < b.0
    }
}

impl Scalar for Double {
    fn zero() -> Self {
        Self::nil()
    }
    fn one() -> Self {
        Self::unit()
    }
    fn plus(self, other: Self) -> Self {
        Self::sum(self, other)
    }
    fn minus(self, other: Self) -> Self {
        Self::difference(self, other)
    }
    fn times(self, other: Self) -> Self {
        Self::product(self, other)
    }
    fn over(self, other: Self) -> Self {
        Self::quotient(self, other)
    }
    fn negated(self) -> Self {
        Self::opposite(self)
    }
    fn square_root(self) -> Self {
        Self::root(self)
    }
    fn magnitude(self) -> Self {
        Self::size(self)
    }
    fn less(self, other: Self) -> bool {
        Self::below(self, other)
    }
}

fn doubles(values: &[f64]) -> Vec<Double> {
    values.iter().map(|v| Double(*v)).collect()
}

fn options(decay: f64, alpha: f64, max_iter: usize, tol: f64) -> EwmLassoOptions<Double> {
    EwmLassoOptions {
        decay: Double(decay),
        alpha: Double(alpha),
        max_iter,
        tol: Double(tol),
    }
}

fn lists(rows: &[Option<&[f64]>]) -> ListColumn<Double> {
    let mut offsets = vec![0i64];
    let mut values = Vec::new();
    let mut mask = Vec::new();
    for row in rows {
        if let Some(items) = row {
            values.extend(doubles(items));
        }
        mask.push(row.is_some());
        offsets.push(values.len() as i64);
    }
    let values = ScalarColumn::try_new(values, None).unwrap();
    ListColumn::try_new(offsets, ListValues::Scalars(values), Some(mask)).unwrap()
}

fn targets(cells: &[Option<f64>]) -> ScalarColumn<Double> {
    let values = cells.iter().map(|c| Double(c.unwrap_or(0.0))).collect();
    let mask = cells.iter().map(|c| c.is_some()).collect();
    ScalarColumn::try_new(values, Some(mask)).unwrap()
}

fn read(column: &ListColumn<Double>) -> Vec<Option<Vec<f64>>> {
    let values = match &column.values {
        ListValues::Scalars(values) => values,
        ListValues::Other { .. } => panic!("numbers expected"),
    };
    (0..column.len())
        .map(|i| {
            let (start, end) = column.bounds(i);
            if column.is_valid(i) {
                Some(values.values[start..end].iter().map(|v| v.0).collect())
            } else {
                None
            }
        })
        .collect()
}

fn run(n: usize, options: EwmLassoOptions<Double>, rows: &[(&[f64], f64)]) -> Vec<f64> {
    let mut state = EwmLassoState::new(n, options);
    for (x, y) in rows {
        state.update_row(&doubles(x), Double(*y));
    }
    state.coefficients().iter().map(|v| v.0).collect()
}

#[test]
fn a_new_state_has_zero_coefficients() {
    let state = EwmLassoState::new(3, options(0.9, 0.1, 5, 1e-9));
    assert_eq!(state.coefficients(), doubles(&[0.0, 0.0, 0.0]).as_slice());
    assert_eq!(state.n_features(), 3);
}

#[test]
fn one_row_is_met_exactly() {
    // A single row has no variance, so nothing is drawn to zero.
    assert_eq!(run(1, options(1.0, 0.5, 10, 1e-9), &[(&[2.0], 6.0)]), vec![3.0]);
}

#[test]
fn the_threshold_grows_with_alpha_deviation_and_weight() {
    let rows: &[(&[f64], f64)] = &[(&[1.0], 2.0), (&[3.0], 6.0)];
    assert_eq!(run(1, options(1.0, 0.0, 10, 1e-9), rows), vec![2.0]);
    assert_eq!(run(1, options(1.0, 0.5, 10, 1e-9), rows), vec![1.9]);
    assert_eq!(run(1, options(1.0, 20.0, 10, 1e-9), rows), vec![0.0]);
}

#[test]
fn negative_residuals_are_drawn_to_zero_from_below() {
    let rows: &[(&[f64], f64)] = &[(&[1.0], -2.0), (&[3.0], -6.0)];
    assert_eq!(run(1, options(1.0, 0.5, 10, 1e-9), rows), vec![-1.9]);
}

#[test]
fn old_rows_fade() {
    // Weights 0.5 and 1: (0.5 * 4 + 3 * 3) / (0.5 * 1 + 9)
    let rows: &[(&[f64], f64)] = &[(&[1.0], 4.0), (&[3.0], 3.0)];
    assert_eq!(
        run(1, options(0.5, 0.0, 10, 1e-9), rows),
        vec![(0.5 * 4.0 + 9.0) / 9.5]
    );
    // Nothing is left of the first row.
    assert_eq!(run(1, options(0.0, 0.0, 10, 1e-9), rows), vec![1.0]);
}

#[test]
fn sweeps_are_limited_by_count_and_by_tolerance() {
    let rows: &[(&[f64], f64)] = &[(&[1.0, 0.0], 1.0), (&[1.0, 1.0], 3.0)];
    assert_eq!(run(2, options(1.0, 0.0, 1, 1e-9), rows), vec![2.0, 1.0]);
    assert_eq!(run(2, options(1.0, 0.0, 2, 1e-9), rows), vec![1.5, 1.5]);
    // The first sweep changes no coefficient by two or more, so it is the last.
    assert_eq!(run(2, options(1.0, 0.0, 10, 2.0), rows), vec![2.0, 1.0]);
    let settled = run(2, options(1.0, 0.0, 1000, 1e-12), rows);
    assert!((settled[0] - 1.0).abs() < 1e-9);
    assert!((settled[1] - 2.0).abs() < 1e-9);
}

#[test]
fn without_sweeps_the_coefficients_stay() {
    let rows: &[(&[f64], f64)] = &[(&[1.0], 2.0), (&[3.0], 6.0)];
    assert_eq!(run(1, options(1.0, 0.0, 0, 1e-9), rows), vec![0.0]);
}

#[test]
fn the_rest_of_a_long_row_does_not_matter() {
    let o = options(0.9, 0.1, 10, 1e-9);
    assert_eq!(
        run(1, o, &[(&[1.0, 7.0], 2.0), (&[3.0, 8.0], 5.0)]),
        run(1, o, &[(&[1.0], 2.0), (&[3.0], 5.0)])
    );
}

#[test]
fn no_features_no_coefficients() {
    assert_eq!(run(0, options(0.9, 0.1, 3, 1e-9), &[(&[], 2.0)]), Vec::<f64>::new());
}

#[test]
fn columns_give_one_list_for_each_row() {
    let x = lists(&[Some(&[1.0]), Some(&[3.0])]);
    let y = targets(&[Some(2.0), Some(6.0)]);
    let out = ewm_lasso(&x, &y, options(1.0, 0.5, 10, 1e-9)).unwrap();
    assert_eq!(read(&out), vec![Some(vec![2.0]), Some(vec![1.9])]);
    assert_eq!(out.offsets, vec![0, 1, 2]);
    assert!(out.validity.is_none());
}

#[test]
fn rows_with_a_null_are_null_and_do_not_count() {
    let x = lists(&[Some(&[1.0]), None, Some(&[9.0]), Some(&[3.0])]);
    let y = targets(&[Some(2.0), Some(5.0), None, Some(6.0)]);
    let out = ewm_lasso(&x, &y, options(1.0, 0.5, 10, 1e-9)).unwrap();
    assert_eq!(read(&out), vec![Some(vec![2.0]), None, None, Some(vec![1.9])]);
    assert_eq!(out.offsets, vec![0, 1, 1, 1, 2]);
    assert_eq!(out.validity, Some(vec![true, false, false, true]));
}

#[test]
fn the_first_list_sets_the_number_of_features_even_without_a_target() {
    let x = lists(&[Some(&[1.0, 2.0]), Some(&[3.0])]);
    let y = targets(&[None, Some(6.0)]);
    assert_eq!(
        ewm_lasso(&x, &y, options(1.0, 0.5, 10, 1e-9)).unwrap_err(),
        EwmLassoError::RowLength { expected: 2, got: 1 }
    );
}

#[test]
fn columns_without_lists_give_nulls() {
    let x = lists(&[None, None]);
    let y = targets(&[Some(1.0), None]);
    let out = ewm_lasso(&x, &y, options(1.0, 0.5, 10, 1e-9)).unwrap();
    assert_eq!(out.offsets, vec![0, 0, 0]);
    assert_eq!(out.validity, Some(vec![false, false]));
    assert_eq!(read(&out), vec![None, None]);

    let none = ewm_lasso(&lists(&[]), &targets(&[]), options(1.0, 0.5, 10, 1e-9)).unwrap();
    assert_eq!(none.offsets, vec![0]);
    assert_eq!(none.validity, Some(vec![]));
    assert_eq!(read(&null_column(3)), vec![None, None, None]);
}

#[test]
fn lists_may_start_anywhere_among_the_values() {
    let values = ScalarColumn::try_new(doubles(&[100.0, 1.0, 3.0, 100.0]), None).unwrap();
    let x = ListColumn::try_new(vec![1, 2, 3], ListValues::Scalars(values), None).unwrap();
    let y = ScalarColumn::try_new(doubles(&[2.0, 6.0]), None).unwrap();
    let out = ewm_lasso(&x, &y, options(1.0, 0.5, 10, 1e-9)).unwrap();
    assert_eq!(read(&out), vec![Some(vec![2.0]), Some(vec![1.9])]);
}

#[test]
fn columns_of_different_lengths_are_refused() {
    let x = lists(&[Some(&[1.0])]);
    let y = targets(&[Some(2.0), Some(3.0)]);
    let error = EwmLassoError::LengthMismatch { x: 1, y: 2 };
    assert_eq!(ewm_lasso(&x, &y, options(1.0, 0.5, 10, 1e-9)).unwrap_err(), error);
    let mut state = EwmLassoState::new(1, options(1.0, 0.5, 10, 1e-9));
    assert_eq!(ewm_lasso_with_state(&mut state, &x, &y).unwrap_err(), error);
    assert_eq!(state.coefficients(), doubles(&[0.0]).as_slice());
}

#[test]
fn lists_of_something_else_are_refused() {
    let x: ListColumn<Double> =
        ListColumn::try_new(vec![0, 1], ListValues::Other { len: 1 }, None).unwrap();
    let y = targets(&[Some(2.0)]);
    assert_eq!(
        ewm_lasso(&x, &y, options(1.0, 0.5, 10, 1e-9)).unwrap_err(),
        EwmLassoError::NotScalars
    );
}

#[test]
fn nulls_among_the_values_are_refused() {
    let values = ScalarColumn::try_new(doubles(&[1.0, 2.0]), Some(vec![true, false])).unwrap();
    let x = ListColumn::try_new(vec![0, 1], ListValues::Scalars(values), None).unwrap();
    let y = targets(&[Some(2.0)]);
    assert_eq!(
        ewm_lasso(&x, &y, options(1.0, 0.5, 10, 1e-9)).unwrap_err(),
        EwmLassoError::NullValues
    );
}

#[test]
fn a_row_of_another_length_stops_the_run_where_it_stands() {
    let o = options(1.0, 0.5, 10, 1e-9);
    let x = lists(&[Some(&[1.0]), Some(&[3.0, 4.0]), Some(&[3.0])]);
    let y = targets(&[Some(2.0), Some(6.0), Some(6.0)]);
    let mut state = EwmLassoState::new(1, o);
    assert_eq!(
        ewm_lasso_with_state(&mut state, &x, &y).unwrap_err(),
        EwmLassoError::RowLength { expected: 1, got: 2 }
    );
    assert_eq!(state.coefficients(), doubles(&[2.0]).as_slice());
}

#[test]
fn pieces_give_what_the_whole_gives() {
    let o = options(0.8, 0.05, 20, 1e-9);
    let rows: [Option<&[f64]>; 4] = [Some(&[1.0, 2.0]), None, Some(&[0.5, -1.0]), Some(&[2.0, 0.0])];
    let cells = [Some(1.0), Some(2.0), Some(-1.0), Some(0.25)];
    let whole = read(&ewm_lasso(&lists(&rows), &targets(&cells), o).unwrap());
    let mut state = EwmLassoState::new(2, o);
    let mut pieces = Vec::new();
    for (a, b) in [(0, 3), (3, 4)] {
        let out = ewm_lasso_with_state(&mut state, &lists(&rows[a..b]), &targets(&cells[a..b]));
        pieces.extend(read(&out.unwrap()));
    }
    assert_eq!(pieces, whole);
}

#[test]
fn parts_that_do_not_fit_make_no_column() {
    assert!(ScalarColumn::try_new(doubles(&[1.0]), Some(vec![])).is_none());
    let empty = || ListValues::<Double>::Other { len: 2 };
    assert!(ListColumn::try_new(vec![], empty(), None).is_none());
    assert!(ListColumn::try_new(vec![-1, 0], empty(), None).is_none());
    assert!(ListColumn::try_new(vec![0, 2, 1], empty(), None).is_none());
    assert!(ListColumn::try_new(vec![0, 3], empty(), None).is_none());
    assert!(ListColumn::try_new(vec![0, 2], empty(), Some(vec![])).is_none());
    assert!(ListColumn::try_new(vec![0, 2], empty(), Some(vec![true])).is_some());
}

fn fixed(raw: i64) -> Fixed {
    Fixed { raw }
}

#[test]
fn fixed_point_operations_round_towards_zero() {
    assert_eq!(fixed(1_500_000).plus(fixed(-2_000_000)), fixed(-500_000));
    assert_eq!(fixed(1_500_000).minus(fixed(2_000_000)), fixed(-500_000));
    assert_eq!(fixed(1_500_000).times(fixed(-2_000_000)), fixed(-3_000_000));
    assert_eq!(fixed(1).times(fixed(-999_999)), fixed(0));
    assert_eq!(fixed(1_000_000).over(fixed(-3_000_000)), fixed(-333_333));
    assert_eq!(fixed(2_000_000).square_root(), fixed(1_414_213));
    assert_eq!(fixed(4_000_000).square_root(), fixed(2_000_000));
    assert_eq!(fixed(-4_000_000).square_root(), fixed(0));
    assert_eq!(fixed(-5).magnitude(), fixed(5));
    assert_eq!(fixed(5).negated(), fixed(-5));
    assert!(fixed(-5).less(fixed(4)));
    assert!(!fixed(4).less(fixed(4)));
}

#[test]
fn fixed_point_operations_stop_at_the_ends_of_the_range() {
    let top = fixed(i64::MAX);
    let bottom = fixed(i64::MIN);
    assert_eq!(top.plus(fixed(1)), top);
    assert_eq!(bottom.minus(fixed(1)), bottom);
    assert_eq!(bottom.negated(), top);
    assert_eq!(bottom.magnitude(), top);
    assert_eq!(top.times(top), top);
    assert_eq!(top.times(bottom), bottom);
    assert_eq!(top.over(fixed(1)), top);
    assert_eq!(fixed(1).over(fixed(0)), top);
    assert_eq!(fixed(-1).over(fixed(0)), bottom);
    assert_eq!(fixed(0).over(fixed(0)), fixed(0));
    assert_eq!(top.square_root(), fixed(3_037_000_499_976));
}

#[test]
fn the_regression_runs_on_fixed_point_numbers() {
    let o = EwmLassoOptions {
        decay: fixed(1_000_000),
        alpha: fixed(500_000),
        max_iter: 10,
        tol: fixed(1),
    };
    let mut state = EwmLassoState::new(1, o);
    state.update_row(&[fixed(1_000_000)], fixed(2_000_000));
    assert_eq!(state.coefficients(), &[fixed(2_000_000)]);
    state.update_row(&[fixed(3_000_000)], fixed(6_000_000));
    assert_eq!(state.coefficients(), &[fixed(1_900_000)]);
}

const ROWS: &[(&[f64], f64)] = &[
    (&[1.0, 0.5], 2.0),
    (&[3.0, -1.0], 4.0),
    (&[2.0, 2.0], -1.0),
    (&[-1.0, 4.0], 3.0),
];

fn close(a: &[f64], b: &[f64]) -> bool {
    a.len() == b.len() && a.iter().zip(b).all(|(x, y)| (x - y).abs() < 1e-9)
}

#[test]
fn turned_targets_turn_the_coefficients() {
    let o = options(0.5, 0.125, 7, 0.0);
    let turned: Vec<(&[f64], f64)> = ROWS.iter().map(|(x, y)| (*x, -y)).collect();
    let expected: Vec<f64> = run(2, o, ROWS).iter().map(|c| -c).collect();
    assert_eq!(run(2, o, &turned), expected);
}

#[test]
fn a_doubled_feature_has_half_the_coefficient() {
    let o = options(0.5, 0.125, 7, 0.0);
    let doubled: Vec<(Vec<f64>, f64)> =
        ROWS.iter().map(|(x, y)| (vec![2.0 * x[0], x[1]], *y)).collect();
    let doubled: Vec<(&[f64], f64)> = doubled.iter().map(|(x, y)| (x.as_slice(), *y)).collect();
    let before = run(2, o, ROWS);
    assert_eq!(run(2, o, &doubled), vec![before[0] / 2.0, before[1]]);
}

#[test]
fn a_feature_that_is_always_zero_has_no_say() {
    let o = options(0.5, 0.125, 7, 0.0);
    let more: Vec<(Vec<f64>, f64)> =
        ROWS.iter().map(|(x, y)| (vec![x[0], 0.0, x[1]], *y)).collect();
    let more: Vec<(&[f64], f64)> = more.iter().map(|(x, y)| (x.as_slice(), *y)).collect();
    let before = run(2, o, ROWS);
    assert_eq!(run(3, o, &more), vec![before[0], 0.0, before[1]]);
}

/// The weighted lasso objective of `ROWS` at the given coefficients, less what does not depend on
/// them.
fn objective(decay: f64, alpha: f64, b: &[f64]) -> f64 {
    let n = b.len();
    let (mut s, mut z, mut m, mut w) = (vec![0.0; n * n], vec![0.0; n], vec![0.0; n], 0.0);
    for (x, y) in ROWS {
        for i in 0..n {
            for j in 0..n {
                s[i * n + j] = decay * s[i * n + j] + x[i] * x[j];
            }
            z[i] = decay * z[i] + x[i] * y;
            m[i] = decay * m[i] + x[i];
        }
        w = decay * w + 1.0;
    }
    let mut total = 0.0;
    for i in 0..n {
        for j in 0..n {
            total += b[i] * s[i * n + j] * b[j] / 2.0;
        }
        let deviation = (s[i * n + i] / w - (m[i] / w) * (m[i] / w)).sqrt();
        total += alpha * deviation * w * b[i].abs() - z[i] * b[i];
    }
    total
}

#[test]
fn more_sweeps_over_the_last_row_do_not_make_the_objective_worse() {
    let (decay, alpha) = (0.5, 0.125);
    let mut last = f64::INFINITY;
    for sweeps in 0..12 {
        let mut state = EwmLassoState::new(2, options(decay, alpha, sweeps, 0.0));
        for (x, y) in ROWS {
            state.update_row(&doubles(x), Double(*y));
        }
        let b: Vec<f64> = state.coefficients().iter().map(|v| v.0).collect();
        let now = objective(decay, alpha, &b);
        assert!(now <= last + 1e-12);
        last = now;
    }
}

#[test]
fn coefficients_that_stay_are_the_best() {
    let (decay, alpha) = (0.5, 0.125);
    let settled = run(2, options(decay, alpha, 400, 0.0), ROWS);
    assert!(close(&settled, &run(2, options(decay, alpha, 500, 0.0), ROWS)));
    let least = objective(decay, alpha, &settled);
    for step in [0.1, 0.01, -0.01, -0.1] {
        assert!(objective(decay, alpha, &[settled[0] + step, settled[1]]) > least);
        assert!(objective(decay, alpha, &[settled[0], settled[1] + step]) > least);
        assert!(objective(decay, alpha, &[settled[0] + step, settled[1] - step]) > least);
    }
}
