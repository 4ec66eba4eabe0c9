//! The join of several frames, each sorted by the same key columns, into one.
//!
//! It is a full outer join: every row of every frame ends up in the result, next to the rows of
//! the other frames that have the same key. A row with a null in its key stands alone.
use vstd::prelude::*;

use polars_core::frame::DataFrame;
use polars_core::series::builder::SeriesBuilder;
use polars_core::series::Series;

use crate::frames::{
    builder_cells, builder_dtype, column_masked, column_series, dtype_known, frame_cells,
    frame_dtypes, frame_from_series, frame_height, frame_names, freeze, new_builder, schema_dtypes,
    series_cells, series_dtype, series_len, series_masked, series_name, Cell, MAX_ROWS,
};
use crate::join_inputs::{
    accepted, all_ready, all_sound, bad_key, build_output_schema, check_columns, check_keys,
    check_ready, column_sound, columns_from, dtypes_for, frame_sound, key_dtype, keys_present,
    keys_usable, lemma_refusal, names_of, names_read, output_sources, payload, read_names, refused,
    source_dtype, source_name, source_valid, JoinManyError, OutputColumns, Source,
};
use crate::layout::{
    append_key_column, append_payload, group_column, group_key_column, group_rows,
    lemma_rows_positive, rows_of, share_fits,
};
use crate::merge::{
    cursors_after, group_models, is_merge, is_next, is_share, joins, key_lists, live, merge_groups,
    Group, GroupModel,
};
use crate::names::{find_name, lemma_position, position_of, text};
use crate::row_keys::{
    cells_of, dtypes_of, encode_keys, encoded_rows, is_encoding, masks_of, EncodedKeys, Key,
};

verus! {

/// The cells of the column of the given name.
pub open spec fn key_cells(df: DataFrame, name: Seq<char>) -> Seq<Cell> {
    frame_cells(df)[position_of(frame_names(df), name)]
}

/// The cells of the key columns of a frame, in the order of the keys.
pub open spec fn key_columns_of(df: DataFrame, keys: Seq<Seq<char>>) -> Seq<Seq<Cell>> {
    keys.map_values(|name: Seq<char>| key_cells(df, name))
}

/// The data types of the key columns of a frame, in the order of the keys.
pub open spec fn key_dtypes_of(df: DataFrame, keys: Seq<Seq<char>>) -> Seq<int> {
    keys.map_values(|name: Seq<char>| key_dtype(df, name))
}

/// Which key columns of a frame carry a mask, in the order of the keys.
pub open spec fn key_masks_of(df: DataFrame, keys: Seq<Seq<char>>) -> Seq<bool> {
    keys.map_values(|name: Seq<char>| column_masked(df, position_of(frame_names(df), name)))
}

/// The list holds the keys of the rows of a frame.
pub open spec fn are_keys_of(df: DataFrame, keys: Seq<Seq<char>>, list: Seq<Key>) -> bool {
    is_encoding(
        key_dtypes_of(df, keys),
        key_columns_of(df, keys),
        key_masks_of(df, keys),
        list,
    )
}

/// The lists hold the keys of the rows of the frames.
pub open spec fn are_encodings(
    dfs: Seq<DataFrame>,
    keys: Seq<Seq<char>>,
    lists: Seq<Seq<Key>>,
) -> bool {
    &&& lists.len() == dfs.len()
    &&& forall|i: int| 0 <= i < dfs.len() ==> are_keys_of(dfs[i], keys, #[trigger] lists[i])
}

/// What a column of the result holds for a group.
pub open spec fn source_cells(
    dfs: Seq<DataFrame>,
    keys: Seq<Seq<char>>,
    source: Source,
    group: GroupModel,
) -> Seq<Cell> {
    match source {
        Source::Key { key } => group_key_column(
            key_cells(dfs[group.lead], keys[key as int]),
            group,
        ),
        Source::Payload { input, column } => group_column(
            frame_cells(dfs[input as int])[column as int],
            group,
            input as int,
        ),
    }
}

/// What a column of the result holds for the first `t` groups.
pub open spec fn filled(
    dfs: Seq<DataFrame>,
    keys: Seq<Seq<char>>,
    source: Source,
    groups: Seq<GroupModel>,
    t: int,
) -> Seq<Cell>
    decreases t,
{
    if t <= 0 {
        Seq::empty()
    } else {
        filled(dfs, keys, source, groups, t - 1) + source_cells(dfs, keys, source, groups[t - 1])
    }
}

/// The number of rows that the first `t` groups give.
pub open spec fn total_rows(groups: Seq<GroupModel>, t: int) -> int
    decreases t,
{
    if t <= 0 {
        0
    } else {
        total_rows(groups, t - 1) + rows_of(groups[t - 1])
    }
}

/// The frame is the result of the join, where the rows fall into the given groups.
pub open spec fn is_joined(
    dfs: Seq<DataFrame>,
    keys: Seq<Seq<char>>,
    groups: Seq<GroupModel>,
    df: DataFrame,
) -> bool {
    let sources = output_sources(dfs, keys);
    &&& frame_names(df) == names_of(dfs, keys, sources)
    &&& frame_dtypes(df) == dtypes_for(dfs, keys, sources)
    &&& frame_cells(df) == sources.map_values(
        |s: Source| filled(dfs, keys, s, groups, groups.len() as int),
    )
}

/// Some group has more rows than a machine integer can count.
pub open spec fn oversized(groups: Seq<GroupModel>) -> bool {
    exists|t: int| 0 <= t < groups.len() && rows_of(#[trigger] groups[t]) > usize::MAX
}

/// The outcome of the join, where the rows fall into the given groups.
pub open spec fn is_outcome(
    dfs: Seq<DataFrame>,
    keys: Seq<Seq<char>>,
    groups: Seq<GroupModel>,
    outcome: Result<DataFrame, JoinManyError>,
) -> bool {
    if oversized(groups) {
        outcome == Err::<DataFrame, JoinManyError>(JoinManyError::SizeOverflow)
    } else if total_rows(groups, groups.len() as int) > MAX_ROWS {
        outcome == Err::<DataFrame, JoinManyError>(JoinManyError::TooManyRows)
    } else {
        outcome is Ok && is_joined(dfs, keys, groups, outcome->Ok_0)
    }
}

/// What comes of joining the frames on the keys: an error where they are refused, and for the
/// others the outcome for the groups into which their rows fall.
pub open spec fn joins_to(
    dfs: Seq<DataFrame>,
    keys: Seq<Seq<char>>,
    joined: Result<DataFrame, JoinManyError>,
) -> bool {
    &&& accepted(dfs, keys) ==> exists|lists: Seq<Seq<Key>>, groups: Seq<GroupModel>|
        are_encodings(dfs, keys, lists) && #[trigger] is_merge(lists, groups) && is_outcome(
            dfs,
            keys,
            groups,
            joined,
        )
    &&& !accepted(dfs, keys) ==> joined is Err && refused(dfs, keys, joined->Err_0)
    &&& forall|error: JoinManyError| #[trigger]
        refused(dfs, keys, error) ==> joined == Err::<DataFrame, JoinManyError>(error)
}

/// The series are the key columns of a frame.
pub open spec fn are_key_columns(df: DataFrame, keys: Seq<Seq<char>>, series: Seq<Series>) -> bool {
    &&& dtypes_of(series) == key_dtypes_of(df, keys)
    &&& cells_of(series) == key_columns_of(df, keys)
    &&& masks_of(series) == key_masks_of(df, keys)
}

/// Reads the key columns of input `i`.
fn read_key_columns(dfs: &[DataFrame], keys: &[String], names: &Vec<Vec<String>>, i: usize) -> (columns:
    Vec<Series>)
    requires
        i < dfs@.len(),
        keys_usable(dfs@, text(keys@)),
        keys_present(dfs@, text(keys@)),
        all_sound(dfs@),
        names_read(dfs@, names@),
    ensures
        columns@.len() == keys@.len(),
        are_key_columns(dfs@[i as int], text(keys@), columns@),
        forall|k: int|
            0 <= k < keys@.len() ==> dtype_known(#[trigger] series_dtype(columns@[k])),
        forall|k: int|
            0 <= k < keys@.len() ==> #[trigger] series_cells(columns@[k]).len() == series_cells(
                columns@[0],
            ).len(),
{
    let ghost wanted = text(keys@);
    let ghost df = dfs@[i as int];
    let height = frame_height(&dfs[i]);
    let mut columns: Vec<Series> = Vec::new();
    let mut k: usize = 0;
    while k < keys.len()
        invariant
            i < dfs@.len(),
            df == dfs@[i as int],
            wanted == text(keys@),
            keys_present(dfs@, wanted),
            all_sound(dfs@),
            names_read(dfs@, names@),
            forall|c: int|
                0 <= c < frame_cells(df).len() ==> #[trigger] frame_cells(df)[c].len() == height,
            k <= keys@.len(),
            columns@.len() == k,
            forall|j: int|
                0 <= j < k ==> {
                    &&& series_dtype(#[trigger] columns@[j]) == key_dtype(df, wanted[j])
                    &&& series_cells(columns@[j]) == key_cells(df, wanted[j])
                    &&& series_cells(columns@[j]).len() == height
                    &&& series_masked(columns@[j]) == key_masks_of(df, wanted)[j]
                    &&& dtype_known(series_dtype(columns@[j]))
                },
        decreases keys@.len() - k,
    {
        assert(wanted[k as int] == keys@[k as int]@);
        assert(text(names@[i as int]@) == frame_names(df));
        assert(!bad_key(dfs@, wanted, i as int, k as int));
        if let Some(position) = find_name(names[i].as_slice(), &keys[k]) {
            assert(column_sound(dfs@[i as int], position as int));
            columns.push(column_series(&dfs[i], position));
        }
        k += 1;
    }
    assert(dtypes_of(columns@) =~= key_dtypes_of(df, wanted));
    assert(cells_of(columns@) =~= key_columns_of(df, wanted));
    assert(masks_of(columns@) =~= key_masks_of(df, wanted));
    columns
}

/// The frames, their keys and the groups fit together.
#[verifier::opaque]
spec fn groups_fit(
    dfs: Seq<DataFrame>,
    keys: Seq<Seq<char>>,
    lists: Seq<Seq<Key>>,
    groups: Seq<GroupModel>,
) -> bool {
    &&& accepted(dfs, keys)
    &&& all_sound(dfs)
    &&& lists.len() == dfs.len()
    &&& is_merge(lists, groups)
    &&& forall|i: int, c: int|
        0 <= i < dfs.len() && 0 <= c < frame_cells(dfs[i]).len() ==> #[trigger] frame_cells(
            dfs[i],
        )[c].len() == lists[i].len()
    &&& forall|i: int|
        0 <= i < dfs.len() ==> #[trigger] frame_names(dfs[i]).len() == frame_cells(dfs[i]).len()
    &&& forall|i: int|
        0 <= i < dfs.len() ==> #[trigger] frame_dtypes(dfs[i]).len() == frame_names(dfs[i]).len()
}

/// A group takes rows that are there, and at least one of the leading list.
proof fn lemma_group_in_range(lists: Seq<Seq<Key>>, groups: Seq<GroupModel>, t: int, f: int)
    requires
        is_merge(lists, groups),
        0 <= t < groups.len(),
        0 <= f < lists.len(),
    ensures
        0 <= groups[t].lead < lists.len(),
        groups[t].starts.len() == lists.len(),
        groups[t].lens.len() == lists.len(),
        share_fits(groups[t], f, lists[f].len() as int),
        0 <= groups[t].starts[groups[t].lead] < lists[groups[t].lead].len(),
{
    let group = groups[t];
    let cursors = cursors_after(groups, lists.len(), t);
    assert(is_next(lists, cursors, group));
    assert(live(lists, cursors, group.lead));
    assert(is_share(lists, cursors, group.lead, f, group.starts[f], group.lens[f]));
    assert(is_share(
        lists,
        cursors,
        group.lead,
        group.lead,
        group.starts[group.lead],
        group.lens[group.lead],
    ));
    assert(joins(lists, cursors, group.lead, group.lead));
}

/// A group takes rows that its inputs have.
proof fn lemma_group_fits(
    dfs: Seq<DataFrame>,
    keys: Seq<Seq<char>>,
    lists: Seq<Seq<Key>>,
    groups: Seq<GroupModel>,
    t: int,
    f: int,
)
    requires
        groups_fit(dfs, keys, lists, groups),
        0 <= t < groups.len(),
        0 <= f < dfs.len(),
    ensures
        lists.len() == dfs.len(),
        0 <= groups[t].lead < lists.len(),
        groups[t].starts.len() == lists.len(),
        groups[t].lens.len() == lists.len(),
        share_fits(groups[t], f, lists[f].len() as int),
        0 <= groups[t].starts[groups[t].lead] < lists[groups[t].lead].len(),
        frame_names(dfs[f]).len() == frame_cells(dfs[f]).len(),
        forall|c: int|
            0 <= c < frame_cells(dfs[f]).len() ==> #[trigger] frame_cells(dfs[f])[c].len()
                == lists[f].len(),
{
    reveal(groups_fit);
    lemma_group_in_range(lists, groups, t, f);
}

/// The rows of the groups have been counted.
spec fn rows_counted(groups: Seq<GroupModel>, rows: Seq<usize>) -> bool {
    &&& rows.len() == groups.len()
    &&& forall|t: int| 0 <= t < rows.len() ==> #[trigger] rows[t] == rows_of(groups[t])
    &&& total_rows(groups, groups.len() as int) <= MAX_ROWS
}

/// A column of the result is as long as the groups have rows.
proof fn lemma_filled_len(
    dfs: Seq<DataFrame>,
    keys: Seq<Seq<char>>,
    source: Source,
    groups: Seq<GroupModel>,
    rows: Seq<usize>,
    t: int,
)
    requires
        0 <= t <= groups.len(),
        rows.len() == groups.len(),
        forall|i: int| 0 <= i < rows.len() ==> #[trigger] rows[i] == rows_of(groups[i]),
    ensures
        filled(dfs, keys, source, groups, t).len() == total_rows(groups, t),
        total_rows(groups, t) <= total_rows(groups, groups.len() as int),
    decreases groups.len() - t, t,
{
    lemma_total_rows_grow(groups, rows, t);
    lemma_filled_len_only(dfs, keys, source, groups, rows, t);
}

proof fn lemma_filled_len_only(
    dfs: Seq<DataFrame>,
    keys: Seq<Seq<char>>,
    source: Source,
    groups: Seq<GroupModel>,
    rows: Seq<usize>,
    t: int,
)
    requires
        0 <= t <= groups.len(),
        rows.len() == groups.len(),
        forall|i: int| 0 <= i < rows.len() ==> #[trigger] rows[i] == rows_of(groups[i]),
    ensures
        filled(dfs, keys, source, groups, t).len() == total_rows(groups, t),
    decreases t,
{
    if t > 0 {
        lemma_filled_len_only(dfs, keys, source, groups, rows, t - 1);
        assert(rows[t - 1] == rows_of(groups[t - 1]));
    }
}

proof fn lemma_total_rows_grow(groups: Seq<GroupModel>, rows: Seq<usize>, t: int)
    requires
        0 <= t <= groups.len(),
        rows.len() == groups.len(),
        forall|i: int| 0 <= i < rows.len() ==> #[trigger] rows[i] == rows_of(groups[i]),
    ensures
        total_rows(groups, t) <= total_rows(groups, groups.len() as int),
    decreases groups.len() - t,
{
    if t < groups.len() {
        lemma_total_rows_grow(groups, rows, t + 1);
        assert(rows[t] == rows_of(groups[t]));
    }
}

/// Fills a key column of the result.
fn fill_key_column(
    builder: &mut SeriesBuilder,
    dfs: &[DataFrame],
    keys: &[String],
    key_columns: &Vec<Vec<Series>>,
    key: usize,
    groups: &Vec<Group>,
    rows: &Vec<usize>,
    Ghost(lists): Ghost<Seq<Seq<Key>>>,
)
    requires
        groups_fit(dfs@, text(keys@), lists, group_models(groups@)),
        rows_counted(group_models(groups@), rows@),
        key < keys@.len(),
        key_columns@.len() == dfs@.len(),
        forall|i: int|
            0 <= i < dfs@.len() ==> are_key_columns(
                dfs@[i],
                text(keys@),
                (#[trigger] key_columns@[i])@,
            ),
        builder_dtype(*old(builder)) == key_dtype(dfs@[0], text(keys@)[key as int]),
        builder_cells(*old(builder)) == Seq::<Cell>::empty(),
    ensures
        builder_dtype(*final(builder)) == builder_dtype(*old(builder)),
        builder_cells(*final(builder)) == filled(
            dfs@,
            text(keys@),
            Source::Key { key },
            group_models(groups@),
            groups@.len() as int,
        ),
{
    let ghost wanted = text(keys@);
    let ghost models = group_models(groups@);
    let ghost source = Source::Key { key };
    let mut t: usize = 0;
    while t < groups.len()
        invariant
            wanted == text(keys@),
            models == group_models(groups@),
            groups_fit(dfs@, wanted, lists, models),
            rows_counted(models, rows@),
            key_columns@.len() == dfs@.len(),
            forall|i: int|
                0 <= i < dfs@.len() ==> are_key_columns(
                    dfs@[i],
                    wanted,
                    (#[trigger] key_columns@[i])@,
                ),
            source == (Source::Key { key }),
            key < wanted.len(),
            t <= groups@.len(),
            builder_dtype(*builder) == builder_dtype(*old(builder)),
            builder_dtype(*builder) == key_dtype(dfs@[0], wanted[key as int]),
            builder_cells(*builder) == filled(dfs@, wanted, source, models, t as int),
        decreases groups@.len() - t,
    {
        let group = &groups[t];
        assert(models[t as int] == group@);
        proof {
            assert(dfs@.len() > 0) by {
                reveal(groups_fit);
            }
            lemma_group_fits(dfs@, wanted, lists, models, t as int, 0);
            lemma_filled_len(dfs@, wanted, source, models, rows@, t as int);
            lemma_filled_len(dfs@, wanted, source, models, rows@, t + 1);
            assert(rows@[t as int] == rows_of(models[t as int]));
        }
        let lead: usize = group.lead;
        let ghost series = key_columns@[lead as int]@[key as int];
        proof {
            lemma_key_series(
                dfs@,
                wanted,
                lists,
                models,
                key_columns@[lead as int]@,
                lead as int,
                key as int,
            );
            assert(group@.starts[lead as int] == group.starts@[lead as int]);
        }
        append_key_column(builder, &key_columns[lead][key], group.starts[lead], rows[t]);
        assert(source_cells(dfs@, wanted, source, models[t as int]) =~= Seq::new(
            rows@[t as int] as nat,
            |r: int| series_cells(series)[group.starts@[lead as int] as int],
        ));
        t += 1;
    }
}

/// A key column of an input holds the cells of the column of that name, and has the data type
/// that this key has throughout.
proof fn lemma_key_series(
    dfs: Seq<DataFrame>,
    keys: Seq<Seq<char>>,
    lists: Seq<Seq<Key>>,
    groups: Seq<GroupModel>,
    series: Seq<Series>,
    i: int,
    k: int,
)
    requires
        groups_fit(dfs, keys, lists, groups),
        0 <= i < dfs.len(),
        0 <= k < keys.len(),
        are_key_columns(dfs[i], keys, series),
    ensures
        series.len() == keys.len(),
        series_cells(series[k]) == key_cells(dfs[i], keys[k]),
        series_dtype(series[k]) == key_dtype(dfs[0], keys[k]),
        series_cells(series[k]).len() == lists[i].len(),
{
    reveal(groups_fit);
    assert(!bad_key(dfs, keys, i, k));
    assert(frame_names(dfs[i]).len() == frame_cells(dfs[i]).len());
    assert(cells_of(series).len() == key_columns_of(dfs[i], keys).len());
    assert(cells_of(series)[k] == series_cells(series[k]));
    assert(dtypes_of(series)[k] == series_dtype(series[k]));
    assert(key_columns_of(dfs[i], keys)[k] == key_cells(dfs[i], keys[k]));
    assert(key_dtypes_of(dfs[i], keys)[k] == key_dtype(dfs[i], keys[k]));
    lemma_position(frame_names(dfs[i]), keys[k]);
}

/// Fills a column of the result that is no key column.
fn fill_payload_column(
    builder: &mut SeriesBuilder,
    dfs: &[DataFrame],
    keys: &[String],
    input: usize,
    column: usize,
    groups: &Vec<Group>,
    rows: &Vec<usize>,
    Ghost(lists): Ghost<Seq<Seq<Key>>>,
)
    requires
        groups_fit(dfs@, text(keys@), lists, group_models(groups@)),
        rows_counted(group_models(groups@), rows@),
        payload(dfs@, text(keys@), input as int, column as int),
        builder_dtype(*old(builder)) == frame_dtypes(dfs@[input as int])[column as int],
        builder_cells(*old(builder)) == Seq::<Cell>::empty(),
    ensures
        builder_dtype(*final(builder)) == builder_dtype(*old(builder)),
        builder_cells(*final(builder)) == filled(
            dfs@,
            text(keys@),
            Source::Payload { input, column },
            group_models(groups@),
            groups@.len() as int,
        ),
{
    let ghost wanted = text(keys@);
    let ghost models = group_models(groups@);
    let ghost source = Source::Payload { input, column };
    let ghost df = dfs@[input as int];
    assert(frame_names(df).len() == frame_cells(df).len() && frame_names(df).len() == frame_dtypes(
        df,
    ).len() && column_sound(df, column as int)) by {
        reveal(groups_fit);
        assert(column_sound(dfs@[input as int], column as int));
    }
    let series = column_series(&dfs[input], column);
    let mut t: usize = 0;
    while t < groups.len()
        invariant
            wanted == text(keys@),
            models == group_models(groups@),
            groups_fit(dfs@, wanted, lists, models),
            rows_counted(models, rows@),
            source == (Source::Payload { input, column }),
            payload(dfs@, wanted, input as int, column as int),
            df == dfs@[input as int],
            frame_names(df).len() == frame_cells(df).len(),
            series_dtype(series) == builder_dtype(*builder),
            series_cells(series) == frame_cells(df)[column as int],
            t <= groups@.len(),
            builder_dtype(*builder) == builder_dtype(*old(builder)),
            builder_cells(*builder) == filled(dfs@, wanted, source, models, t as int),
        decreases groups@.len() - t,
    {
        assert(models[t as int] == groups@[t as int]@);
        proof {
            lemma_group_fits(dfs@, wanted, lists, models, t as int, input as int);
            lemma_filled_len(dfs@, wanted, source, models, rows@, t as int);
            lemma_filled_len(dfs@, wanted, source, models, rows@, t + 1);
            assert(rows@[t as int] == rows_of(models[t as int]));
            assert(frame_cells(df)[column as int].len() == lists[input as int].len());
        }
        append_payload(builder, &series, &groups[t], input, rows[t]);
        t += 1;
    }
}

/// Builds a column of the result.
fn build_column(
    dfs: &[DataFrame],
    keys: &[String],
    key_columns: &Vec<Vec<Series>>,
    columns: &OutputColumns,
    position: usize,
    groups: &Vec<Group>,
    rows: &Vec<usize>,
    Ghost(lists): Ghost<Seq<Seq<Key>>>,
) -> (series: Series)
    requires
        groups_fit(dfs@, text(keys@), lists, group_models(groups@)),
        rows_counted(group_models(groups@), rows@),
        columns_from(dfs@, text(keys@), *columns, columns.sources@),
        position < columns.sources@.len(),
        key_columns@.len() == dfs@.len(),
        forall|i: int|
            0 <= i < dfs@.len() ==> are_key_columns(
                dfs@[i],
                text(keys@),
                (#[trigger] key_columns@[i])@,
            ),
    ensures
        series_name(series) == source_name(
            dfs@,
            text(keys@),
            columns.sources@[position as int],
        ),
        series_dtype(series) == source_dtype(
            dfs@,
            text(keys@),
            columns.sources@[position as int],
        ),
        dtype_known(series_dtype(series)),
        series_cells(series) == filled(
            dfs@,
            text(keys@),
            columns.sources@[position as int],
            group_models(groups@),
            groups@.len() as int,
        ),
{
    let ghost wanted = text(keys@);
    let ghost models = group_models(groups@);
    let source: Source = columns.sources[position];
    assert(source_valid(dfs@, wanted, columns.sources@[position as int]));
    assert(schema_dtypes(columns.schema)[position as int] == source_dtype(dfs@, wanted, source));
    assert(text(columns.names@).len() == columns.sources@.len());
    assert(text(columns.names@)[position as int] == source_name(dfs@, wanted, source));
    assert(columns.names@[position as int]@ == source_name(dfs@, wanted, source));
    proof {
        reveal(groups_fit);
        match source {
            Source::Key { key } => {
                assert(!bad_key(dfs@, wanted, 0, key as int));
                lemma_position(frame_names(dfs@[0]), wanted[key as int]);
                assert(column_sound(
                    dfs@[0],
                    position_of(frame_names(dfs@[0]), wanted[key as int]),
                ));
            },
            Source::Payload { input, column } => {
                assert(column_sound(dfs@[input as int], column as int));
            },
        }
    }
    let mut builder = new_builder(&columns.schema, position);
    match source {
        Source::Key { key } => {
            fill_key_column(
                &mut builder,
                dfs,
                keys,
                key_columns,
                key,
                groups,
                rows,
                Ghost(lists),
            );
        },
        Source::Payload { input, column } => {
            fill_payload_column(
                &mut builder,
                dfs,
                keys,
                input,
                column,
                groups,
                rows,
                Ghost(lists),
            );
        },
    }
    proof {
        lemma_filled_len(dfs@, wanted, source, models, rows@, models.len() as int);
    }
    freeze(builder, &columns.names[position])
}

/// Counts the rows of every group. Fails where a group has more than a machine integer can
/// count, and where all of them together have more than a series can hold.
fn count_rows(groups: &Vec<Group>) -> (counted: Result<Vec<usize>, JoinManyError>)
    ensures
        match counted {
            Ok(rows) => !oversized(group_models(groups@)) && rows_counted(
                group_models(groups@),
                rows@,
            ),
            Err(error) => if oversized(group_models(groups@)) {
                error == JoinManyError::SizeOverflow
            } else {
                error == JoinManyError::TooManyRows && total_rows(
                    group_models(groups@),
                    groups@.len() as int,
                ) > MAX_ROWS
            },
        },
{
    let ghost models = group_models(groups@);
    let mut rows: Vec<usize> = Vec::new();
    let mut total: usize = 0;
    let mut too_many = false;
    let mut t: usize = 0;
    while t < groups.len()
        invariant
            models == group_models(groups@),
            t <= groups@.len(),
            rows@.len() == t,
            forall|i: int| 0 <= i < t ==> #[trigger] rows@[i] == rows_of(models[i]),
            if too_many {
                total_rows(models, t as int) > MAX_ROWS
            } else {
                total == total_rows(models, t as int) && total <= MAX_ROWS
            },
        decreases groups@.len() - t,
    {
        assert(models[t as int] == groups@[t as int]@);
        match group_rows(&groups[t]) {
            None => {
                assert(rows_of(models[t as int]) > usize::MAX);
                return Err(JoinManyError::SizeOverflow);
            },
            Some(count) => {
                assert(rows_of(models[t as int]) == count) by {
                    lemma_rows_positive(models[t as int]);
                }
                rows.push(count);
                if !too_many {
                    if count > MAX_ROWS - total {
                        too_many = true;
                    } else {
                        total += count;
                    }
                }
            },
        }
        t += 1;
    }
    assert(!oversized(models)) by {
        if oversized(models) {
            let i = choose|i: int|
                0 <= i < models.len() && rows_of(#[trigger] models[i]) > usize::MAX;
            assert(rows@[i] == rows_of(models[i]));
        }
    }
    if too_many {
        return Err(JoinManyError::TooManyRows);
    }
    Ok(rows)
}

/// Joins frames whose keys have been encoded.
///
/// The frames must be fit to be joined on the keys, `columns` must list the columns of the result,
/// and there must be one encoding for each frame, with one key for each of its rows. The result
/// holds, group by group of the merge of the encoded keys, every combination of the rows of the
/// frames that are part of the group.
pub fn join_encoded(
    dfs: &[DataFrame],
    keys: &[String],
    columns: &OutputColumns,
    encoded: &Vec<EncodedKeys>,
) -> (joined: Result<DataFrame, JoinManyError>)
    requires
        accepted(dfs@, text(keys@)),
        all_sound(dfs@),
        columns_from(dfs@, text(keys@), *columns, output_sources(dfs@, text(keys@))),
        encoded@.len() == dfs@.len(),
        forall|i: int|
            0 <= i < dfs@.len() ==> encoded_rows(#[trigger] encoded@[i]).len() == key_cells(
                dfs@[i],
                text(keys@)[0],
            ).len(),
    ensures
        exists|groups: Seq<GroupModel>| #[trigger]
            is_merge(key_lists(encoded@), groups) && is_outcome(
                dfs@,
                text(keys@),
                groups,
                joined,
            ),
        joined is Ok ==> frame_sound(joined->Ok_0),
{
    let ghost wanted = text(keys@);
    let ghost lists = key_lists(encoded@);
    let names = read_names(dfs);
    let mut key_columns: Vec<Vec<Series>> = Vec::new();
    let mut heights: Vec<usize> = Vec::new();
    let mut i: usize = 0;
    while i < dfs.len()
        invariant
            wanted == text(keys@),
            accepted(dfs@, wanted),
            all_sound(dfs@),
            names_read(dfs@, names@),
            encoded@.len() == dfs@.len(),
            forall|j: int|
                0 <= j < dfs@.len() ==> encoded_rows(#[trigger] encoded@[j]).len() == key_cells(
                    dfs@[j],
                    wanted[0],
                ).len(),
            i <= dfs@.len(),
            key_columns@.len() == i,
            heights@.len() == i,
            forall|j: int|
                0 <= j < i ==> are_key_columns(dfs@[j], wanted, (#[trigger] key_columns@[j])@),
            forall|j: int|
                0 <= j < i ==> #[trigger] heights@[j] == encoded_rows(encoded@[j]).len(),
            forall|j: int, c: int|
                0 <= j < i && 0 <= c < frame_cells(dfs@[j]).len() ==> #[trigger] frame_cells(
                    dfs@[j],
                )[c].len() == heights@[j],
        decreases dfs@.len() - i,
    {
        let height = frame_height(&dfs[i]);
        proof {
            assert(!bad_key(dfs@, wanted, i as int, 0));
            lemma_position(frame_names(dfs@[i as int]), wanted[0]);
            assert(text(names@[i as int]@) == frame_names(dfs@[i as int]));
            assert(encoded_rows(encoded@[i as int]).len() == key_cells(
                dfs@[i as int],
                wanted[0],
            ).len());
        }
        key_columns.push(read_key_columns(dfs, keys, &names, i));
        heights.push(height);
        i += 1;
    }
    let groups = merge_groups(encoded, &heights);
    let ghost models = group_models(groups@);
    let rows = match count_rows(&groups) {
        Ok(rows) => rows,
        Err(error) => {
            assert(is_merge(lists, models) && is_outcome(
                dfs@,
                wanted,
                models,
                Err::<DataFrame, JoinManyError>(error),
            ));
            return Err(error);
        },
    };
    assert forall|j: int, c: int|
        0 <= j < dfs@.len() && 0 <= c < frame_cells(dfs@[j]).len() implies #[trigger] frame_cells(
        dfs@[j],
    )[c].len() == lists[j].len() by {
        assert(heights@[j] == encoded_rows(encoded@[j]).len());
    }
    assert forall|j: int| 0 <= j < dfs@.len() implies #[trigger] frame_names(dfs@[j]).len()
        == frame_cells(dfs@[j]).len() by {
        assert(text(names@[j]@) == frame_names(dfs@[j]));
    }
    assert forall|j: int| 0 <= j < dfs@.len() implies #[trigger] frame_dtypes(dfs@[j]).len()
        == frame_names(dfs@[j]).len() by {
        assert(text(names@[j]@) == frame_names(dfs@[j]));
    }
    assert(groups_fit(dfs@, wanted, lists, models)) by {
        reveal(groups_fit);
    }
    let mut series: Vec<Series> = Vec::new();
    let mut position: usize = 0;
    while position < columns.sources.len()
        invariant
            wanted == text(keys@),
            lists == key_lists(encoded@),
            models == group_models(groups@),
            groups_fit(dfs@, wanted, lists, models),
            rows_counted(models, rows@),
            columns_from(dfs@, wanted, *columns, columns.sources@),
            key_columns@.len() == dfs@.len(),
            forall|j: int|
                0 <= j < dfs@.len() ==> are_key_columns(
                    dfs@[j],
                    wanted,
                    (#[trigger] key_columns@[j])@,
                ),
            position <= columns.sources@.len(),
            series@.len() == position,
            forall|p: int|
                0 <= p < position ==> {
                    &&& series_name(#[trigger] series@[p]) == source_name(
                        dfs@,
                        wanted,
                        columns.sources@[p],
                    )
                    &&& dtype_known(series_dtype(series@[p]))
                    &&& series_dtype(series@[p]) == source_dtype(
                        dfs@,
                        wanted,
                        columns.sources@[p],
                    )
                    &&& series_cells(series@[p]) == filled(
                        dfs@,
                        wanted,
                        columns.sources@[p],
                        models,
                        models.len() as int,
                    )
                },
        decreases columns.sources@.len() - position,
    {
        series.push(
            build_column(
                dfs,
                keys,
                &key_columns,
                columns,
                position,
                &groups,
                &rows,
                Ghost(lists),
            ),
        );
        position += 1;
    }
    assert(columns.sources@[0] == Source::Key { key: 0 });
    let height = series_len(&series[0]);
    let ghost built = series@;
    proof {
        assert forall|p: int| 0 <= p < built.len() implies #[trigger] series_cells(built[p]).len()
            == height by {
            lemma_filled_len(
                dfs@,
                wanted,
                columns.sources@[p],
                models,
                rows@,
                models.len() as int,
            );
            lemma_filled_len(
                dfs@,
                wanted,
                columns.sources@[0],
                models,
                rows@,
                models.len() as int,
            );
            assert(series_cells(built[0]) == filled(
                dfs@,
                wanted,
                columns.sources@[0],
                models,
                models.len() as int,
            ));
        }
        assert forall|a: int, b: int| 0 <= a < b < built.len() implies #[trigger] series_name(
            built[a],
        ) != #[trigger] series_name(built[b]) by {
            assert(source_name(dfs@, wanted, columns.sources@[a]) != source_name(
                dfs@,
                wanted,
                columns.sources@[b],
            ));
        }
    }
    let df = frame_from_series(height, series).unwrap();
    proof {
        assert forall|c: int| 0 <= c < frame_dtypes(df).len() implies #[trigger] column_sound(
            df,
            c,
        ) by {
            assert(dtype_known(series_dtype(built[c])));
        }
        assert(frame_names(df) =~= names_of(dfs@, wanted, columns.sources@));
        assert(frame_dtypes(df) =~= dtypes_for(dfs@, wanted, columns.sources@));
        assert(frame_cells(df) =~= columns.sources@.map_values(
            |s: Source| filled(dfs@, wanted, s, models, models.len() as int),
        ));
        assert(is_merge(lists, models) && is_outcome(
            dfs@,
            wanted,
            models,
            Ok::<DataFrame, JoinManyError>(df),
        ));
    }
    Ok(df)
}

/// Checks frames and keys, and reads the names of the columns and lists those of the result.
fn check_inputs(dfs: &[DataFrame], keys: &[String]) -> (checked: Result<
    (Vec<Vec<String>>, OutputColumns),
    JoinManyError,
>)
    ensures
        match checked {
            Ok((names, columns)) => {
                &&& accepted(dfs@, text(keys@))
                &&& names_read(dfs@, names@)
                &&& columns_from(dfs@, text(keys@), columns, output_sources(dfs@, text(keys@)))
            },
            Err(error) => {
                &&& !accepted(dfs@, text(keys@))
                &&& refused(dfs@, text(keys@), error)
                &&& forall|other: JoinManyError| #[trigger]
                    refused(dfs@, text(keys@), other) ==> other == error
            },
        },
        forall|error: JoinManyError| #[trigger]
            refused(dfs@, text(keys@), error) ==> !accepted(dfs@, text(keys@)),
{
    let ghost wanted = text(keys@);
    proof {
        assert forall|error: JoinManyError| #[trigger] refused(
            dfs@,
            wanted,
            error,
        ) implies !accepted(dfs@, wanted) by {
            lemma_refusal(dfs@, wanted, error);
        }
    }
    if let Err(error) = check_keys(dfs, keys) {
        proof {
            lemma_refusal(dfs@, wanted, error);
        }
        return Err(error);
    }
    let names = read_names(dfs);
    if let Err(error) = check_columns(dfs, keys, &names) {
        proof {
            lemma_refusal(dfs@, wanted, error);
        }
        return Err(error);
    }
    match build_output_schema(dfs, keys, &names) {
        Ok(columns) => Ok((names, columns)),
        Err(error) => {
            proof {
                if let JoinManyError::MissingKey { input, key } = error {
                    assert(!bad_key(dfs@, wanted, 0, key as int));
                }
                lemma_refusal(dfs@, wanted, error);
            }
            Err(error)
        },
    }
}

/// Joins frames that have been checked: encodes the keys of each and merges them.
fn join_checked(
    dfs: &[DataFrame],
    keys: &[String],
    names: &Vec<Vec<String>>,
    columns: &OutputColumns,
) -> (joined: Result<DataFrame, JoinManyError>)
    requires
        accepted(dfs@, text(keys@)),
        all_sound(dfs@),
        names_read(dfs@, names@),
        columns_from(dfs@, text(keys@), *columns, output_sources(dfs@, text(keys@))),
    ensures
        exists|lists: Seq<Seq<Key>>, groups: Seq<GroupModel>|
            are_encodings(dfs@, text(keys@), lists) && #[trigger] is_merge(lists, groups)
                && is_outcome(dfs@, text(keys@), groups, joined),
        joined is Ok ==> frame_sound(joined->Ok_0),
{
    let ghost wanted = text(keys@);
    let mut encoded: Vec<EncodedKeys> = Vec::new();
    let mut i: usize = 0;
    while i < dfs.len()
        invariant
            wanted == text(keys@),
            accepted(dfs@, wanted),
            all_sound(dfs@),
            names_read(dfs@, names@),
            i <= dfs@.len(),
            encoded@.len() == i,
            forall|j: int|
                0 <= j < i ==> are_keys_of(
                    dfs@[j],
                    wanted,
                    encoded_rows(#[trigger] encoded@[j]),
                ),
        decreases dfs@.len() - i,
    {
        let key_columns = read_key_columns(dfs, keys, names, i);
        encoded.push(encode_keys(&key_columns));
        i += 1;
    }
    let ghost lists = key_lists(encoded@);
    assert forall|j: int| 0 <= j < dfs@.len() implies encoded_rows(#[trigger] encoded@[j]).len()
        == key_cells(dfs@[j], wanted[0]).len() by {
        assert(key_columns_of(dfs@[j], wanted)[0] == key_cells(dfs@[j], wanted[0]));
    }
    assert forall|j: int| 0 <= j < dfs@.len() implies are_keys_of(
        dfs@[j],
        wanted,
        #[trigger] lists[j],
    ) by {
        assert(lists[j] == encoded_rows(encoded@[j]));
    }
    join_encoded(dfs, keys, columns, &encoded)
}

/// Joins two or more frames, each sorted by the key columns, on these columns.
///
/// The result has the key columns first, then the other columns of the frames from left to right,
/// and its rows in the order of the key columns. Frames that are not sorted are merged all the
/// same, as if they were. Frames that pass the checks must hold data types that are known in full,
/// and values of these types; so does the result, which can be joined again.
pub fn join_many_sorted(dfs: &[DataFrame], keys: &[String]) -> (joined: Result<
    DataFrame,
    JoinManyError,
>)
    requires
        accepted(dfs@, text(keys@)) ==> all_sound(dfs@),
    ensures
        joins_to(dfs@, text(keys@), joined),
        joined is Ok ==> frame_sound(joined->Ok_0),
{
    match check_inputs(dfs, keys) {
        Ok((names, columns)) => join_checked(dfs, keys, &names, &columns),
        Err(error) => Err(error),
    }
}

/// Tests whether frames can be joined without a panic, or are refused by the checks: whether those
/// that pass them have only columns of data types that are known in full, and these are series or
/// repeat plain values of their types. There may be frames that can be joined among the others:
/// those with a repeated value of a type that holds values of other types.
pub fn columns_are_ready(dfs: &[DataFrame], keys: &[String]) -> (ready: bool)
    ensures
        ready == (accepted(dfs@, text(keys@)) ==> all_ready(dfs@)),
        ready && accepted(dfs@, text(keys@)) ==> all_sound(dfs@),
{
    match check_inputs(dfs, keys) {
        Ok((names, _)) => check_ready(dfs, &names),
        Err(_) => true,
    }
}

/// Joins frames of whose columns nothing is known. There is no result where the frames pass the
/// checks and have a column of a data type that is not known in full, or one that is no series and
/// repeats no plain value of its type.
pub fn try_join_many_sorted(dfs: &[DataFrame], keys: &[String]) -> (joined: Option<
    Result<DataFrame, JoinManyError>,
>)
    ensures
        match joined {
            Some(joined) => {
                &&& joins_to(dfs@, text(keys@), joined)
                &&& joined is Ok ==> frame_sound(joined->Ok_0)
            },
            None => true,
        },
        joined is None <==> accepted(dfs@, text(keys@)) && !all_ready(dfs@),
{
    if columns_are_ready(dfs, keys) {
        Some(join_many_sorted(dfs, keys))
    } else {
        None
    }
}

} // verus!
