//! Steps of a pipeline and of a plan.
use join_lasso::columns::{ListColumn, ListValues, ScalarColumn};
use join_lasso::fixed::Fixed;
use join_lasso::join_inputs::JoinManyError;
use join_lasso::join_many::columns_are_ready;
use join_lasso::join_node::{
    Delegate, ExecStep, JoinManyExec, JoinManyNode, JoinManyState, PortState, Spawn, Update,
};
use join_lasso::lasso::EwmLassoOptions;
use join_lasso::lasso_columns::{ewm_lasso, EwmLassoError};
use join_lasso::lasso_node::EwmLassoNode;
use polars_core::frame::column::Column;
use polars_core::frame::DataFrame;
use polars_core::prelude::{AnyValue, DataType, NamedFrom, Scalar, Series};

fn frame(key: &[i64], name: &str, values: &[i64]) -> DataFrame {
    let columns = vec![
        Column::from(Series::new("k".into(), key.to_vec())),
        Column::from(Series::new(name.into(), values.to_vec())),
    ];
    DataFrame::new(key.len(), columns).unwrap()
}

fn ints(df: &DataFrame, name: &str) -> Vec<Option<i64>> {
    let series = df.column(name).unwrap().as_materialized_series().clone();
    let values = series.i64().unwrap();
    (0..values.len()).map(|i| values.get(i)).collect()
}

fn on() -> Vec<String> {
    vec!["k".to_string()]
}

#[test]
fn a_join_gathers_then_hands_out_then_ends() {
    let mut node = JoinManyNode::new(2, on());
    assert_eq!(node.name(), "join-many");
    assert_eq!(node.state, JoinManyState::Sink { inputs: 2 });
    assert!(node.is_memory_intensive_pipeline_blocker());

    let mut recv = [PortState::Ready, PortState::Done];
    let mut send = [PortState::Ready];
    assert_eq!(node.begin_update(&recv, &send), Update::Settle);
    assert_eq!(node.settle_ports(&mut recv, &mut send), Delegate::Sinks);
    assert_eq!(recv, [PortState::Ready, PortState::Done]);
    assert_eq!(send, [PortState::Ready]);
    node.block_result(&mut send);
    assert_eq!(send, [PortState::Blocked]);
    assert_eq!(node.spawn(&[true, false]), Spawn::Sinks(vec![0]));
    assert_eq!(node.spawn(&[true, true]), Spawn::Sinks(vec![0, 1]));

    recv = [PortState::Done, PortState::Done];
    send = [PortState::Ready];
    assert_eq!(node.begin_update(&recv, &send), Update::Join);
    let dfs = [frame(&[1, 2], "a", &[10, 20]), frame(&[2], "b", &[200])];
    let joined = node.join_inputs(&dfs).unwrap();
    assert_eq!(ints(&joined, "a"), vec![Some(10), Some(20)]);
    assert_eq!(ints(&joined, "b"), vec![None, Some(200)]);
    assert_eq!(node.state, JoinManyState::Source);
    assert!(!node.is_memory_intensive_pipeline_blocker());
    assert_eq!(node.settle_ports(&mut recv, &mut send), Delegate::Source);
    assert_eq!(recv, [PortState::Done, PortState::Done]);
    assert_eq!(send, [PortState::Ready]);
    assert_eq!(node.spawn(&[false, false]), Spawn::Source);

    send = [PortState::Done];
    assert_eq!(node.begin_update(&recv, &send), Update::Settle);
    assert_eq!(node.state, JoinManyState::Done);
    assert_eq!(node.settle_ports(&mut recv, &mut send), Delegate::Nobody);
    assert_eq!(recv, [PortState::Done, PortState::Done]);
    assert_eq!(send, [PortState::Done]);
    assert_eq!(node.begin_update(&recv, &[PortState::Ready]), Update::Settle);
    assert_eq!(node.state, JoinManyState::Done);
}

#[test]
fn a_receiver_that_is_done_ends_a_join_that_still_gathers() {
    let mut node = JoinManyNode::new(2, on());
    let mut recv = [PortState::Ready, PortState::Blocked];
    let mut send = [PortState::Done];
    assert_eq!(node.begin_update(&recv, &send), Update::Settle);
    assert_eq!(node.settle_ports(&mut recv, &mut send), Delegate::Nobody);
    assert_eq!(recv, [PortState::Done, PortState::Done]);
}

#[test]
fn a_join_that_fails_stays_where_it_is() {
    let mut node = JoinManyNode::new(2, on());
    let dfs = [frame(&[1], "a", &[10]), frame(&[1], "a", &[10])];
    assert_eq!(
        node.join_inputs(&dfs).unwrap_err(),
        JoinManyError::DuplicateColumn { input: 1, column: 1 }
    );
    assert_eq!(node.state, JoinManyState::Sink { inputs: 2 });
}

#[test]
fn frames_of_one_row_with_a_list_are_joined() {
    let list = Series::new("x".into(), vec![1i64, 2]);
    let column = Series::new("xs".into(), vec![list.clone()]);
    let key = Series::new("k".into(), vec![1i64]);
    let one = DataFrame::new(1, vec![Column::from(key), Column::from(column)]).unwrap();
    assert!(one.columns()[1].as_series().is_none());
    let dfs = [one, frame(&[1], "b", &[5])];

    let exec = JoinManyExec::new(vec![(), ()], on());
    let joined = exec.join(&dfs).unwrap();
    assert_eq!(joined.height(), 1);
    assert_eq!(joined.column("xs").unwrap().get(0).unwrap(), AnyValue::List(list.clone()));
    assert_eq!(ints(&joined, "b"), vec![Some(5)]);

    let mut node = JoinManyNode::new(2, on());
    let emitted = node.join_inputs(&dfs).unwrap();
    assert_eq!(emitted.column("xs").unwrap().get(0).unwrap(), AnyValue::List(list.clone()));
    assert_eq!(node.state, JoinManyState::Source);

    // The result can be joined again.
    let again = exec.join(&[joined, frame(&[1, 1], "c", &[6, 7])]).unwrap();
    assert_eq!(again.column("xs").unwrap().get(1).unwrap(), AnyValue::List(list));
    assert_eq!(ints(&again, "c"), vec![Some(6), Some(7)]);
}

#[test]
fn frames_that_are_refused_need_not_be_readable() {
    let misfit = Scalar::new(DataType::Int64, AnyValue::Boolean(true));
    let lazy = DataFrame::new(1, vec![Column::new_scalar("k".into(), misfit, 1)]).unwrap();
    let dfs = [lazy.clone(), frame(&[1], "a", &[10]), frame(&[1], "a", &[10])];
    let mut node = JoinManyNode::new(3, on());
    let error = JoinManyError::DuplicateColumn { input: 2, column: 1 };
    assert!(columns_are_ready(&dfs, &on()));
    assert_eq!(node.join_inputs(&dfs).unwrap_err(), error);
    assert_eq!(node.state, JoinManyState::Sink { inputs: 3 });
    let exec = JoinManyExec::new(vec![(), (), ()], on());
    assert_eq!(exec.join(&dfs).unwrap_err(), error);
    assert!(!columns_are_ready(&[lazy, frame(&[1], "a", &[10])], &on()));
}

#[test]
fn a_join_in_a_plan_runs_its_inputs_in_order() {
    let exec = JoinManyExec::new(vec!["first", "second"], on());
    let mut dfs = Vec::new();
    let mut ran = Vec::new();
    while let ExecStep::Run(i) = exec.next_step(dfs.len()) {
        ran.push(exec.inputs[i]);
        let name = format!("c{}", i);
        dfs.push(frame(&[1, 1], &name, &[3, 4]));
    }
    assert_eq!(ran, vec!["first", "second"]);
    let joined = exec.join(&dfs).unwrap();
    assert_eq!(ints(&joined, "c0"), vec![Some(3), Some(3), Some(4), Some(4)]);
    assert_eq!(ints(&joined, "c1"), vec![Some(3), Some(4), Some(3), Some(4)]);
}

fn fixed(value: i64) -> Fixed {
    Fixed { raw: value * 1_000_000 }
}

fn options() -> EwmLassoOptions<Fixed> {
    EwmLassoOptions {
        decay: fixed(1),
        alpha: Fixed { raw: 500_000 },
        max_iter: 10,
        tol: Fixed { raw: 1 },
    }
}

fn lists(rows: &[Option<i64>]) -> ListColumn<Fixed> {
    let mut offsets = vec![0];
    let mut values = Vec::new();
    for row in rows {
        values.extend(row.map(fixed));
        offsets.push(values.len() as i64);
    }
    let mask = rows.iter().map(|row| row.is_some()).collect();
    let values = ListValues::Scalars(ScalarColumn::try_new(values, None).unwrap());
    ListColumn::try_new(offsets, values, Some(mask)).unwrap()
}

fn targets(rows: &[Option<i64>]) -> ScalarColumn<Fixed> {
    let values = rows.iter().map(|row| fixed(row.unwrap_or(0))).collect();
    let mask = rows.iter().map(|row| row.is_some()).collect();
    ScalarColumn::try_new(values, Some(mask)).unwrap()
}

fn read(column: &ListColumn<Fixed>) -> Vec<Option<Vec<i64>>> {
    let values = match &column.values {
        ListValues::Scalars(values) => values,
        ListValues::Other { .. } => panic!("numbers expected"),
    };
    (0..column.len())
        .map(|i| {
            let (start, end) = column.bounds(i);
            let row: Vec<i64> = values.values[start..end].iter().map(|v| v.raw).collect();
            column.is_valid(i).then_some(row)
        })
        .collect()
}

#[test]
fn a_regression_passes_port_states_through() {
    let mut node = EwmLassoNode::new("lasso", "coef".to_string(), options());
    assert_eq!(node.name(), "lasso");
    assert_eq!(node.output_name(), "coef");
    let mut recv = [PortState::Done];
    let mut send = [PortState::Blocked];
    node.update_state(&mut recv, &mut send);
    assert_eq!(recv, [PortState::Blocked]);
    assert_eq!(send, [PortState::Done]);
}

#[test]
fn morsels_give_what_the_whole_gives() {
    let x = [None, Some(4), Some(1), Some(3), None, Some(2)];
    let y = [Some(1), None, Some(2), Some(6), Some(5), Some(5)];
    let whole = read(&ewm_lasso(&lists(&x), &targets(&y), options()).unwrap());
    assert_eq!(whole[0], None);
    assert_eq!(whole[2], Some(vec![2_000_000]));
    assert_eq!(whole[3], Some(vec![1_900_000]));
    let mut node = EwmLassoNode::new("lasso", "coef".to_string(), options());
    let mut pieces = Vec::new();
    for (a, b) in [(0, 2), (2, 3), (3, 6)] {
        let out = node.process(&lists(&x[a..b]), &targets(&y[a..b])).unwrap();
        pieces.extend(read(&out));
    }
    assert_eq!(pieces, whole);
    let mut node = EwmLassoNode::new("lasso", "coef".to_string(), options());
    assert_eq!(read(&node.process(&lists(&x), &targets(&y)).unwrap()), whole);
}

#[test]
fn a_regression_without_rows_gives_nulls() {
    let mut node = EwmLassoNode::new("lasso", "coef".to_string(), options());
    let out = node.process(&lists(&[Some(1), None]), &targets(&[None, Some(1)])).unwrap();
    assert_eq!(out.offsets, vec![0, 0, 0]);
    assert_eq!(out.validity, Some(vec![false, false]));
    assert!(!node.has_started());
    node.process(&lists(&[Some(1)]), &targets(&[Some(1)])).unwrap();
    assert!(node.has_started());
}

#[test]
fn the_first_row_sets_the_number_of_features() {
    let mut node = EwmLassoNode::new("lasso", "coef".to_string(), options());
    node.process(&lists(&[Some(1)]), &targets(&[Some(1)])).unwrap();
    let values = ListValues::Scalars(
        ScalarColumn::try_new(vec![fixed(1), fixed(2)], None).unwrap(),
    );
    let wide = ListColumn::try_new(vec![0, 2], values, None).unwrap();
    assert_eq!(
        node.process(&wide, &targets(&[Some(1)])).unwrap_err(),
        EwmLassoError::RowLength { expected: 1, got: 2 }
    );
}
