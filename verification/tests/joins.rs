//! Joins of real frames.
use join_lasso::join_inputs::JoinManyError;
use join_lasso::join_many::{join_many_sorted, try_join_many_sorted};
use join_lasso::layout::{append_group_column, group_rows};
use join_lasso::merge::{merge_groups, Group};
use join_lasso::row_keys::{compare_keys, encode_keys, keys_equal};
use polars_core::frame::column::Column;
use polars_core::frame::DataFrame;
use polars_core::prelude::{AnyValue, DataType, NamedFrom, Scalar, Series, UnknownKind};
use polars_core::series::builder::SeriesBuilder;
use std::cmp::Ordering;

fn ints(name: &str, values: &[Option<i64>]) -> Series {
    Series::new(name.into(), values.to_vec())
}

fn full(name: &str, values: &[i64]) -> Series {
    Series::new(name.into(), values.to_vec())
}

fn strings(name: &str, values: &[Option<&str>]) -> Series {
    Series::new(name.into(), values.to_vec())
}

fn frame(columns: Vec<Series>) -> DataFrame {
    let height = columns.first().map_or(0, |s| s.len());
    DataFrame::new(height, columns.into_iter().map(Column::from).collect()).unwrap()
}

fn keys(names: &[&str]) -> Vec<String> {
    names.iter().map(|n| n.to_string()).collect()
}

fn names(df: &DataFrame) -> Vec<String> {
    df.get_column_names().into_iter().map(|n| n.to_string()).collect()
}

fn column(df: &DataFrame, name: &str) -> Vec<Option<i64>> {
    let series = df.column(name).unwrap().as_materialized_series().clone();
    let values = series.i64().unwrap();
    (0..values.len()).map(|i| values.get(i)).collect()
}

fn words(df: &DataFrame, name: &str) -> Vec<Option<String>> {
    let series = df.column(name).unwrap().as_materialized_series().clone();
    let values = series.str().unwrap();
    (0..values.len()).map(|i| values.get(i).map(|s| s.to_string())).collect()
}

#[test]
fn every_row_comes_out_in_key_order() {
    let a = frame(vec![full("k", &[1, 3, 5]), full("a", &[10, 30, 50])]);
    let b = frame(vec![full("k", &[2, 3, 6]), full("b", &[200, 300, 600])]);
    let df = join_many_sorted(&[a, b], &keys(&["k"])).unwrap();
    assert_eq!(names(&df), vec!["k", "a", "b"]);
    assert_eq!(df.height(), 5);
    assert_eq!(column(&df, "k"), vec![Some(1), Some(2), Some(3), Some(5), Some(6)]);
    assert_eq!(column(&df, "a"), vec![Some(10), None, Some(30), Some(50), None]);
    assert_eq!(column(&df, "b"), vec![None, Some(200), Some(300), None, Some(600)]);
}

#[test]
fn rows_of_one_key_are_combined_with_the_last_input_running_fastest() {
    let a = frame(vec![full("k", &[1, 1]), full("a", &[10, 11])]);
    let b = frame(vec![full("k", &[1, 1, 1]), full("b", &[20, 21, 22])]);
    let c = frame(vec![full("k", &[1, 1]), full("c", &[30, 31])]);
    let df = join_many_sorted(&[a, b, c], &keys(&["k"])).unwrap();
    assert_eq!(df.height(), 12);
    assert_eq!(column(&df, "k"), vec![Some(1); 12]);
    let mut expected = (Vec::new(), Vec::new(), Vec::new());
    for i in [10, 11] {
        for j in [20, 21, 22] {
            for k in [30, 31] {
                expected.0.push(Some(i));
                expected.1.push(Some(j));
                expected.2.push(Some(k));
            }
        }
    }
    assert_eq!(column(&df, "a"), expected.0);
    assert_eq!(column(&df, "b"), expected.1);
    assert_eq!(column(&df, "c"), expected.2);
}

#[test]
fn rows_without_a_key_come_first_and_stand_alone() {
    let a = frame(vec![ints("k", &[None, None, Some(1)]), full("a", &[10, 11, 12])]);
    let b = frame(vec![ints("k", &[None, Some(1)]), full("b", &[20, 21])]);
    let df = join_many_sorted(&[a, b], &keys(&["k"])).unwrap();
    assert_eq!(column(&df, "k"), vec![None, None, None, Some(1)]);
    assert_eq!(column(&df, "a"), vec![Some(10), Some(11), None, Some(12)]);
    assert_eq!(column(&df, "b"), vec![None, None, Some(20), Some(21)]);
}

#[test]
fn one_null_among_several_keys_is_enough() {
    let a = frame(vec![
        ints("k", &[Some(1), Some(1)]),
        strings("l", &[None, Some("x")]),
        full("a", &[10, 11]),
    ]);
    let b = frame(vec![
        ints("k", &[Some(1), Some(1)]),
        strings("l", &[None, Some("x")]),
        full("b", &[20, 21]),
    ]);
    let df = join_many_sorted(&[a, b], &keys(&["k", "l"])).unwrap();
    assert_eq!(names(&df), vec!["k", "l", "a", "b"]);
    assert_eq!(column(&df, "k"), vec![Some(1); 3]);
    assert_eq!(words(&df, "l"), vec![None, None, Some("x".to_string())]);
    assert_eq!(column(&df, "a"), vec![Some(10), None, Some(11)]);
    assert_eq!(column(&df, "b"), vec![None, Some(20), Some(21)]);
}

#[test]
fn keys_may_stand_anywhere_and_come_in_the_order_asked_for() {
    let a = frame(vec![full("a", &[10, 20]), full("k", &[1, 2]), full("l", &[5, 5])]);
    let b = frame(vec![full("l", &[5]), full("b", &[7]), full("k", &[2])]);
    let df = join_many_sorted(&[a, b], &keys(&["l", "k"])).unwrap();
    assert_eq!(names(&df), vec!["l", "k", "a", "b"]);
    assert_eq!(column(&df, "l"), vec![Some(5), Some(5)]);
    assert_eq!(column(&df, "k"), vec![Some(1), Some(2)]);
    assert_eq!(column(&df, "a"), vec![Some(10), Some(20)]);
    assert_eq!(column(&df, "b"), vec![None, Some(7)]);
}

#[test]
fn empty_inputs_give_their_columns() {
    let a = frame(vec![full("k", &[]), full("a", &[])]);
    let b = frame(vec![full("k", &[4]), strings("b", &[Some("z")])]);
    let both = join_many_sorted(&[a.clone(), b], &keys(&["k"])).unwrap();
    assert_eq!(column(&both, "k"), vec![Some(4)]);
    assert_eq!(column(&both, "a"), vec![None]);
    assert_eq!(words(&both, "b"), vec![Some("z".to_string())]);
    let c = frame(vec![full("k", &[])]);
    let none = join_many_sorted(&[a, c], &keys(&["k"])).unwrap();
    assert_eq!(names(&none), vec!["k", "a"]);
    assert_eq!(none.height(), 0);
}

#[test]
fn nulls_among_other_columns_stay() {
    let a = frame(vec![full("k", &[1, 1]), ints("a", &[None, Some(3)])]);
    let b = frame(vec![full("k", &[1]), ints("b", &[None])]);
    let df = join_many_sorted(&[a, b], &keys(&["k"])).unwrap();
    assert_eq!(column(&df, "a"), vec![None, Some(3)]);
    assert_eq!(column(&df, "b"), vec![None, None]);
}

#[test]
fn unsorted_inputs_are_merged_as_they_stand() {
    let a = frame(vec![full("k", &[2, 1]), full("a", &[20, 10])]);
    let b = frame(vec![full("k", &[1, 2]), full("b", &[100, 200])]);
    let df = join_many_sorted(&[a, b], &keys(&["k"])).unwrap();
    assert_eq!(column(&df, "k"), vec![Some(1), Some(2), Some(1)]);
    assert_eq!(column(&df, "a"), vec![None, Some(20), Some(10)]);
    assert_eq!(column(&df, "b"), vec![Some(100), Some(200), None]);
}

#[test]
fn one_input_is_too_few() {
    let a = frame(vec![full("k", &[1])]);
    assert_eq!(
        join_many_sorted(&[a], &keys(&["k"])).unwrap_err(),
        JoinManyError::TooFewInputs
    );
    assert_eq!(join_many_sorted(&[], &[]).unwrap_err(), JoinManyError::TooFewInputs);
}

#[test]
fn there_must_be_a_key() {
    let a = frame(vec![full("k", &[1])]);
    let b = frame(vec![full("l", &[1])]);
    assert_eq!(join_many_sorted(&[a, b], &[]).unwrap_err(), JoinManyError::NoKeys);
}

#[test]
fn keys_must_be_distinct() {
    let a = frame(vec![full("k", &[1]), full("l", &[1])]);
    let b = a.clone();
    assert_eq!(
        join_many_sorted(&[a, b], &keys(&["k", "l", "l", "k"])).unwrap_err(),
        JoinManyError::DuplicateKey { key: 2 }
    );
}

#[test]
fn every_input_must_have_the_keys() {
    let a = frame(vec![full("k", &[1]), full("l", &[1])]);
    let b = frame(vec![full("k", &[1])]);
    assert_eq!(
        join_many_sorted(&[a, b], &keys(&["k", "l"])).unwrap_err(),
        JoinManyError::MissingKey { input: 1, key: 1 }
    );
}

#[test]
fn keys_must_be_of_one_type() {
    let a = frame(vec![full("k", &[1])]);
    let b = frame(vec![full("k", &[1])]);
    let c = frame(vec![strings("k", &[Some("1")])]);
    assert_eq!(
        join_many_sorted(&[a, b, c], &keys(&["k"])).unwrap_err(),
        JoinManyError::KeyTypeMismatch { input: 2, key: 0 }
    );
}

#[test]
fn other_columns_must_have_different_names() {
    let a = frame(vec![full("k", &[1]), full("v", &[1])]);
    let b = frame(vec![full("k", &[1]), full("w", &[1]), full("v", &[2])]);
    assert_eq!(
        join_many_sorted(&[a, b], &keys(&["k"])).unwrap_err(),
        JoinManyError::DuplicateColumn { input: 1, column: 2 }
    );
}

#[test]
fn a_group_too_large_to_count_is_noticed() {
    // 65536 to the power of 4 combinations.
    let group = Group {
        lead: 0,
        starts: vec![0; 4],
        lens: vec![65536; 4],
    };
    assert_eq!(group_rows(&group), None);
    let group = Group {
        lead: 0,
        starts: vec![0; 4],
        lens: vec![65536, 0, 65536, 3],
    };
    assert_eq!(group_rows(&group), Some(65536 * 65536 * 3));
}

#[test]
fn a_join_too_large_to_count_is_refused() {
    let column = |name: &str| full(name, &vec![7i64; 65536]);
    let inputs: Vec<DataFrame> = (0..4).map(|_| frame(vec![column("k")])).collect();
    assert_eq!(
        join_many_sorted(&inputs, &keys(&["k"])).unwrap_err(),
        JoinManyError::SizeOverflow
    );
    assert_eq!(
        join_many_sorted(&inputs[..2], &keys(&["k"])).unwrap_err(),
        JoinManyError::TooManyRows
    );
}

#[test]
fn encoded_keys_are_ordered_as_their_rows_are() {
    let a = encode_keys(&vec![
        ints("k", &[Some(-5), Some(-5), Some(3), None]),
        strings("l", &[Some("a"), Some("b"), Some("a"), Some("a")]),
    ]);
    assert_eq!(compare_keys(&a, 0, &a, 1), Ordering::Less);
    assert_eq!(compare_keys(&a, 2, &a, 1), Ordering::Greater);
    assert_eq!(compare_keys(&a, 2, &a, 2), Ordering::Equal);
    assert_eq!(compare_keys(&a, 3, &a, 0), Ordering::Less);
    assert_eq!(compare_keys(&a, 0, &a, 3), Ordering::Greater);
    assert_eq!(compare_keys(&a, 3, &a, 3), Ordering::Equal);
    assert!(keys_equal(&a, 1, &a, 1));
    assert!(!keys_equal(&a, 0, &a, 1));
    assert!(!keys_equal(&a, 3, &a, 3));
    let b = encode_keys(&vec![
        ints("k", &[Some(-5), Some(3), Some(3)]),
        strings("l", &[Some("aa"), Some("a"), Some("")]),
    ]);
    assert_eq!(compare_keys(&a, 0, &b, 0), Ordering::Less);
    assert_eq!(compare_keys(&a, 1, &b, 0), Ordering::Greater);
    assert_eq!(compare_keys(&a, 2, &b, 1), Ordering::Equal);
    assert!(keys_equal(&a, 2, &b, 1));
    assert_eq!(compare_keys(&a, 2, &b, 2), Ordering::Greater);
}

#[test]
fn the_merge_takes_every_row_once() {
    let a = encode_keys(&vec![ints("k", &[None, Some(1), Some(1), Some(4)])]);
    let b = encode_keys(&vec![ints("k", &[Some(1), Some(2)])]);
    let groups = merge_groups(&vec![a, b], &vec![4, 2]);
    let taken: Vec<(usize, Vec<usize>, Vec<usize>)> =
        groups.into_iter().map(|g| (g.lead, g.starts, g.lens)).collect();
    assert_eq!(taken.len(), 4);
    assert_eq!((taken[0].0, &taken[0].2), (0, &vec![1, 0]));
    assert_eq!(taken[1], (0, vec![1, 0], vec![2, 1]));
    assert_eq!((taken[2].0, &taken[2].2), (1, &vec![0, 1]));
    assert_eq!((taken[3].0, &taken[3].2), (0, &vec![1, 0]));
    assert_eq!(taken[3].1[0], 3);
    assert_eq!(taken[2].1[1], 1);
}

#[test]
fn four_keys_with_a_null_in_one_row() {
    let key = |name: &str| full(name, &[1, 1]);
    let a = frame(vec![
        key("k"),
        key("l"),
        key("m"),
        ints("n", &[None, Some(1)]),
        full("a", &[10, 11]),
    ]);
    let b = frame(vec![
        key("k"),
        key("l"),
        key("m"),
        ints("n", &[None, Some(1)]),
        full("b", &[20, 21]),
    ]);
    let df = join_many_sorted(&[a, b], &keys(&["k", "l", "m", "n"])).unwrap();
    assert_eq!(names(&df), vec!["k", "l", "m", "n", "a", "b"]);
    assert_eq!(column(&df, "n"), vec![None, None, Some(1)]);
    assert_eq!(column(&df, "a"), vec![Some(10), None, Some(11)]);
    assert_eq!(column(&df, "b"), vec![None, Some(20), Some(21)]);
}

#[test]
fn the_join_is_the_same_every_time() {
    let a = frame(vec![ints("k", &[None, Some(1), Some(1)]), full("a", &[1, 2, 3])]);
    let b = frame(vec![ints("k", &[Some(1), Some(2)]), full("b", &[4, 5])]);
    let dfs = [a, b];
    let one = join_many_sorted(&dfs, &keys(&["k"])).unwrap();
    let other = join_many_sorted(&dfs, &keys(&["k"])).unwrap();
    assert_eq!(names(&one), names(&other));
    for name in ["k", "a", "b"] {
        assert_eq!(column(&one, name), column(&other, name));
    }
}

#[test]
fn repeated_values_are_joined_as_the_columns_they_stand_for() {
    let lazy = DataFrame::new(
        2,
        vec![
            Column::from(full("k", &[1, 2])),
            Column::new_scalar("a".into(), Scalar::from(7i64), 2),
        ],
    )
    .unwrap();
    let b = frame(vec![full("k", &[2]), full("b", &[20])]);
    let dfs = [lazy, b];
    assert!(try_join_many_sorted(&dfs, &keys(&["k"])).is_some());
    let df = join_many_sorted(&dfs, &keys(&["k"])).unwrap();
    assert_eq!(column(&df, "a"), vec![Some(7), Some(7)]);
    assert_eq!(column(&df, "b"), vec![None, Some(20)]);
}

#[test]
fn frames_of_series_are_tried_with_success_and_refusals_come_first() {
    let a = frame(vec![full("k", &[1]), full("a", &[10])]);
    let b = frame(vec![full("k", &[1]), full("b", &[20])]);
    let dfs = [a, b];
    let df = try_join_many_sorted(&dfs, &keys(&["k"])).unwrap().unwrap();
    assert_eq!(column(&df, "b"), vec![Some(20)]);
    let misfit = Scalar::new(DataType::Int64, AnyValue::Boolean(true));
    let lazy = DataFrame::new(1, vec![Column::new_scalar("k".into(), misfit, 1)]).unwrap();
    let one = [lazy.clone()];
    assert_eq!(
        try_join_many_sorted(&one, &keys(&["k"])).unwrap().unwrap_err(),
        JoinManyError::TooFewInputs
    );
    let two = [dfs[0].clone(), lazy];
    assert!(try_join_many_sorted(&two, &keys(&["k"])).is_none());
    let unknown = DataType::List(Box::new(DataType::Unknown(UnknownKind::Float)));
    let c = frame(vec![full("k", &[1, 2]), Series::full_null("c".into(), 2, &unknown)]);
    assert!(try_join_many_sorted(&[dfs[0].clone(), c], &keys(&["k"])).is_none());
}

#[test]
fn small_and_temporal_types_are_joined() {
    let a = frame(vec![
        Series::new("k".into(), vec![1i8, 2]),
        full("d", &[0, 1]).cast(&DataType::Date).unwrap(),
    ]);
    let b = frame(vec![Series::new("k".into(), vec![2i8]), Series::new("u".into(), vec![9u16])]);
    let df = join_many_sorted(&[a, b], &keys(&["k"])).unwrap();
    assert_eq!(df.column("d").unwrap().dtype(), &DataType::Date);
    assert_eq!(df.column("u").unwrap().dtype(), &DataType::UInt16);
    assert_eq!(df.column("u").unwrap().null_count(), 1);
}

#[test]
fn a_range_is_tiled() {
    let values = full("v", &[5, 6, 7]);
    let tiled = |len: usize, pre: usize, post: usize| {
        let mut builder = SeriesBuilder::new(DataType::Int64);
        append_group_column(&mut builder, &values, 1, len, pre, post);
        let series = builder.freeze("v".into());
        let cells = series.i64().unwrap();
        (0..cells.len()).map(|i| cells.get(i).unwrap()).collect::<Vec<_>>()
    };
    assert_eq!(tiled(2, 2, 2), vec![6, 6, 7, 7, 6, 6, 7, 7]);
    assert_eq!(tiled(2, 2, 1), vec![6, 7, 6, 7]);
    assert_eq!(tiled(0, 2, 1), Vec::<i64>::new());
    assert_eq!(tiled(2, 2, 0), Vec::<i64>::new());
    assert_eq!(tiled(2, 0, 2), Vec::<i64>::new());
}

fn rows(df: &DataFrame, by: &[&str]) -> Vec<Vec<Option<i64>>> {
    let columns: Vec<_> = by.iter().map(|name| column(df, name)).collect();
    (0..df.height()).map(|i| columns.iter().map(|c| c[i]).collect()).collect()
}

fn three() -> [DataFrame; 3] {
    [
        frame(vec![
            ints("k", &[None, Some(1), Some(1), Some(3)]),
            full("a", &[10, 11, 12, 13]),
        ]),
        frame(vec![
            ints("k", &[None, None, Some(1), Some(2)]),
            full("b", &[20, 21, 22, 23]),
        ]),
        frame(vec![
            ints("k", &[None, Some(1), Some(1), Some(3)]),
            full("c", &[30, 31, 32, 33]),
        ]),
    ]
}

#[test]
fn frames_in_another_order_give_the_same_rows() {
    let [a, b, c] = three();
    let on = keys(&["k"]);
    let by = ["k", "a", "b", "c"];
    let one = join_many_sorted(&[a.clone(), b.clone(), c.clone()], &on).unwrap();
    let other = join_many_sorted(&[c, a, b], &on).unwrap();
    assert_eq!(names(&one), vec!["k", "a", "b", "c"]);
    assert_eq!(names(&other), vec!["k", "c", "a", "b"]);
    let mut here = rows(&one, &by);
    let mut there = rows(&other, &by);
    assert_eq!(here.len(), 10);
    assert_ne!(here, there);
    here.sort();
    there.sort();
    assert_eq!(here, there);
}

#[test]
fn unsorted_frames_in_another_order_give_the_same_rows() {
    let a = frame(vec![ints("k", &[Some(2), None, Some(1)]), full("a", &[1, 2, 3])]);
    let b = frame(vec![ints("k", &[Some(1), Some(2), None]), full("b", &[4, 5, 6])]);
    let on = keys(&["k"]);
    let by = ["k", "a", "b"];
    let mut here = rows(&join_many_sorted(&[a.clone(), b.clone()], &on).unwrap(), &by);
    let mut there = rows(&join_many_sorted(&[b, a], &on).unwrap(), &by);
    here.sort();
    there.sort();
    assert_eq!(here, there);
}

#[test]
fn frames_are_joined_at_once_or_one_after_the_other() {
    let [a, b, c] = three();
    let on = keys(&["k"]);
    let at_once = join_many_sorted(&[a.clone(), b.clone(), c.clone()], &on).unwrap();
    let two = join_many_sorted(&[a, b], &on).unwrap();
    let then = join_many_sorted(&[two, c], &on).unwrap();
    let by = ["k", "a", "b", "c"];
    assert_eq!(names(&at_once), names(&then));
    assert_eq!(rows(&at_once, &by), rows(&then, &by));
    assert_eq!(rows(&then, &by)[4], vec![Some(1), Some(11), Some(22), Some(31)]);
}

#[test]
fn a_frame_without_rows_adds_null_columns() {
    let [a, b, _] = three();
    let empty = frame(vec![ints("k", &[]), full("e", &[])]);
    let on = keys(&["k"]);
    let without = join_many_sorted(&[a.clone(), b.clone()], &on).unwrap();
    let last = [a.clone(), b.clone(), empty.clone()];
    let with = join_many_sorted(&last, &on).unwrap();
    assert_eq!(names(&with), vec!["k", "a", "b", "e"]);
    let by = ["k", "a", "b"];
    assert_eq!(rows(&with, &by), rows(&without, &by));
    assert_eq!(column(&with, "e"), vec![None; 7]);
    for dfs in [[empty.clone(), a.clone(), b.clone()], [a, empty, b]] {
        let with = join_many_sorted(&dfs, &on).unwrap();
        assert_eq!(rows(&with, &by), rows(&without, &by));
        assert_eq!(column(&with, "e"), vec![None; 7]);
    }
}

#[test]
fn keys_meet_wherever_rows_without_one_stand() {
    let a = frame(vec![ints("k", &[Some(1), None, Some(2)]), full("a", &[10, 11, 12])]);
    let b = frame(vec![ints("k", &[None, Some(1), Some(2)]), full("b", &[20, 21, 22])]);
    let df = join_many_sorted(&[a, b], &keys(&["k"])).unwrap();
    assert_eq!(column(&df, "k"), vec![None, Some(1), None, Some(2)]);
    assert_eq!(column(&df, "a"), vec![None, Some(10), Some(11), Some(12)]);
    assert_eq!(column(&df, "b"), vec![Some(20), Some(21), None, Some(22)]);
}

#[test]
fn a_row_without_a_key_parts_rows_with_one_key() {
    let a = frame(vec![ints("k", &[Some(1), None, Some(1)]), full("a", &[10, 11, 12])]);
    let b = frame(vec![ints("k", &[Some(1)]), full("b", &[20])]);
    let df = join_many_sorted(&[a, b], &keys(&["k"])).unwrap();
    assert_eq!(column(&df, "k"), vec![Some(1), None, Some(1)]);
    assert_eq!(column(&df, "a"), vec![Some(10), Some(11), Some(12)]);
    assert_eq!(column(&df, "b"), vec![Some(20), None, None]);
}

#[test]
fn four_masks_that_leave_no_row_go_unheeded() {
    let columns = |name: &str, values: &[i64]| {
        let rest = [Some(1), None];
        frame(vec![
            ints("k", &[None, Some(1)]),
            ints("l", &rest),
            ints("m", &rest),
            ints("n", &rest),
            full(name, values),
        ])
    };
    let dfs = [columns("a", &[10, 11]), columns("b", &[20, 21])];
    let four = join_many_sorted(&dfs, &keys(&["k", "l", "m", "n"])).unwrap();
    let by = ["k", "l", "a", "b"];
    assert_eq!(
        rows(&four, &by),
        vec![
            vec![None, Some(1), Some(10), Some(20)],
            vec![Some(1), None, Some(11), Some(21)],
        ]
    );
}

#[test]
fn equal_numbers_meet_in_a_column_of_floats() {
    let a = frame(vec![
        Series::new("k".into(), vec![-1.5, -0.0, 2.0, f64::NAN]),
        full("a", &[1, 2, 3, 4]),
    ]);
    let b = frame(vec![Series::new("k".into(), vec![0.0, 2.0, -f64::NAN]), full("b", &[5, 6, 7])]);
    let df = join_many_sorted(&[a, b], &keys(&["k"])).unwrap();
    assert_eq!(column(&df, "a"), vec![Some(1), Some(2), Some(3), Some(4)]);
    assert_eq!(column(&df, "b"), vec![None, Some(5), Some(6), Some(7)]);
}

#[test]
fn lists_are_keys_in_their_order() {
    let list = |items: &[i64]| Series::new("".into(), items.to_vec());
    let a = frame(vec![
        Series::new("k".into(), vec![list(&[1]), list(&[1, 2]), list(&[3])]),
        full("a", &[1, 2, 3]),
    ]);
    let b = frame(vec![
        Series::new("k".into(), vec![list(&[1, 1]), list(&[1, 2])]),
        full("b", &[4, 5]),
    ]);
    let df = join_many_sorted(&[a, b], &keys(&["k"])).unwrap();
    assert_eq!(column(&df, "a"), vec![Some(1), None, Some(2), Some(3)]);
    assert_eq!(column(&df, "b"), vec![None, Some(4), Some(5), None]);
}

#[test]
fn a_join_may_give_keys_to_rows_that_had_none() {
    let one = |cells: [Option<i64>; 4], name: &str| {
        let names = ["k", "l", "m", "n"];
        let mut columns: Vec<Series> =
            names.iter().zip(cells).map(|(name, cell)| ints(name, &[cell])).collect();
        columns.push(full(name, &[7]));
        frame(columns)
    };
    let on = keys(&["k", "l", "m", "n"]);
    let a = one([None, None, Some(5), Some(5)], "a");
    let b = one([Some(9), Some(9), None, None], "b");
    let c = one([Some(1); 4], "c");
    let at_once = join_many_sorted(&[a.clone(), b.clone(), c.clone()], &on).unwrap();
    assert_eq!(column(&at_once, "k"), vec![None, Some(9), Some(1)]);
    let two = join_many_sorted(&[a, b], &on).unwrap();
    let then = join_many_sorted(&[two, c], &on).unwrap();
    assert_eq!(column(&then, "k"), vec![None, Some(1), Some(9)]);
}
