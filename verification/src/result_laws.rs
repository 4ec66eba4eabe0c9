//! What the result of a join holds: which rows of the inputs stand side by side in it, and in
//! which order.
use vstd::prelude::*;

use polars_core::frame::DataFrame;

use crate::frames::{frame_cells, frame_dtypes, frame_names, Cell};
use crate::join_inputs::{accepted, bad_key, output_sources, JoinManyError, Source};
use crate::join_laws::{
    a_row_without_a_key_stands_alone, all_keys_sorted, all_sorted, all_unbroken, equal_keys_meet,
    every_combination_is_there, every_row_is_taken, group_key, groups_are_in_order,
    groups_with_keys_are_in_order, is_choice, keys_sorted, merge_is_unique,
    no_combination_is_there_twice, no_row_is_taken_twice, picked_rows_are_taken,
    rows_of_a_group_have_its_key, takes,
};
use crate::join_many::{
    are_encodings, are_keys_of, filled, is_joined, is_outcome, joins_to, key_cells, key_columns_of,
    key_masks_of, key_dtypes_of, source_cells, total_rows,
};
use crate::layout::{lemma_rows_positive, picked, rows_of};
use crate::merge::{cursors_after, is_merge, is_next, GroupModel};
use crate::row_keys::{
    ascending_bytes, bytes_stand_for, complete, is_row, key_less, key_order_is_total, key_same,
    mask_count, masks_dropped, row_key, row_less, row_of, Key,
};

verus! {

/// The frame is the join of the inputs, by the merge of the given lists of keys.
pub open spec fn is_join(
    dfs: Seq<DataFrame>,
    keys: Seq<Seq<char>>,
    lists: Seq<Seq<Key>>,
    groups: Seq<GroupModel>,
    df: DataFrame,
) -> bool {
    &&& lists.len() == dfs.len()
    &&& is_merge(lists, groups)
    &&& is_joined(dfs, keys, groups, df)
}

/// Row `row` of the result shows row `i` of input `f`: its cells, in all columns of the result
/// that come from columns of that input other than the keys.
pub open spec fn shows(
    dfs: Seq<DataFrame>,
    keys: Seq<Seq<char>>,
    df: DataFrame,
    row: int,
    f: int,
    i: int,
) -> bool {
    forall|p: int|
        0 <= p < output_sources(dfs, keys).len() ==> match #[trigger] output_sources(dfs, keys)[p] {
            Source::Payload { input, column } => input == f ==> frame_cells(df)[p][row]
                == frame_cells(dfs[f])[column as int][i],
            Source::Key { .. } => true,
        }
}

/// Row `row` of the result shows no row of input `f`: the columns that come from it are null.
pub open spec fn shows_none(
    dfs: Seq<DataFrame>,
    keys: Seq<Seq<char>>,
    df: DataFrame,
    row: int,
    f: int,
) -> bool {
    forall|p: int|
        0 <= p < output_sources(dfs, keys).len() ==> match #[trigger] output_sources(dfs, keys)[p] {
            Source::Payload { input, column } => input == f ==> frame_cells(df)[p][row] is None,
            Source::Key { .. } => true,
        }
}

/// Row `row` of the result shows, in its key columns, the key of row `i` of input `f`.
pub open spec fn shows_key(
    dfs: Seq<DataFrame>,
    keys: Seq<Seq<char>>,
    df: DataFrame,
    row: int,
    f: int,
    i: int,
) -> bool {
    forall|p: int|
        0 <= p < output_sources(dfs, keys).len() ==> match #[trigger] output_sources(dfs, keys)[p] {
            Source::Key { key } => frame_cells(df)[p][row] == key_cells(
                dfs[f],
                keys[key as int],
            )[i],
            Source::Payload { .. } => true,
        }
}

/// Row `r` of group `t` stands in row `row` of the result.
pub open spec fn stands_at(groups: Seq<GroupModel>, t: int, r: int, row: int) -> bool {
    &&& 0 <= t < groups.len()
    &&& 0 <= r < rows_of(groups[t])
    &&& row == total_rows(groups, t) + r
}

/// The rows before a group only grow in number.
pub proof fn lemma_totals(groups: Seq<GroupModel>, t: int, u: int)
    requires
        0 <= t <= u <= groups.len(),
    ensures
        0 <= total_rows(groups, t) <= total_rows(groups, u),
        t < u ==> total_rows(groups, t) < total_rows(groups, u),
    decreases u,
{
    if u > 0 {
        lemma_rows_positive(groups[u - 1]);
        if t < u {
            lemma_totals(groups, t, u - 1);
        } else {
            lemma_totals(groups, u - 1, u - 1);
        }
    }
}

/// What a column holds for the first groups is as long as these have rows, and holds each of
/// them in its place.
proof fn lemma_filled(
    dfs: Seq<DataFrame>,
    keys: Seq<Seq<char>>,
    source: Source,
    groups: Seq<GroupModel>,
    n: int,
)
    requires
        0 <= n <= groups.len(),
    ensures
        filled(dfs, keys, source, groups, n).len() == total_rows(groups, n),
        forall|t: int, r: int|
            0 <= t < n && 0 <= r < rows_of(groups[t]) ==> filled(dfs, keys, source, groups, n)[(
            #[trigger] total_rows(groups, t)) + r] == #[trigger] source_cells(
                dfs,
                keys,
                source,
                groups[t],
            )[r],
    decreases n,
{
    if n > 0 {
        lemma_filled(dfs, keys, source, groups, n - 1);
        lemma_rows_positive(groups[n - 1]);
        lemma_totals(groups, n - 1, n - 1);
        assert forall|t: int, r: int| 0 <= t < n && 0 <= r < rows_of(groups[t]) implies filled(
            dfs,
            keys,
            source,
            groups,
            n,
        )[(#[trigger] total_rows(groups, t)) + r] == #[trigger] source_cells(
            dfs,
            keys,
            source,
            groups[t],
        )[r] by {
            lemma_totals(groups, t, t);
            if t < n - 1 {
                lemma_totals(groups, t + 1, n - 1);
            }
        }
    }
}

/// A group has an entry for each list.
proof fn lemma_shape(lists: Seq<Seq<Key>>, groups: Seq<GroupModel>, t: int)
    requires
        is_merge(lists, groups),
        0 <= t < groups.len(),
    ensures
        groups[t].starts.len() == lists.len(),
        groups[t].lens.len() == lists.len(),
{
    assert(is_next(lists, cursors_after(groups, lists.len(), t), groups[t]));
}

/// The cells of a row of the result, by the row of the group that stands there.
pub proof fn lemma_cell(
    dfs: Seq<DataFrame>,
    keys: Seq<Seq<char>>,
    lists: Seq<Seq<Key>>,
    groups: Seq<GroupModel>,
    df: DataFrame,
    t: int,
    r: int,
    row: int,
)
    requires
        is_join(dfs, keys, lists, groups, df),
        stands_at(groups, t, r, row),
    ensures
        forall|p: int|
            0 <= p < output_sources(dfs, keys).len() ==> frame_cells(df)[p][row] == source_cells(
                dfs,
                keys,
                #[trigger] output_sources(dfs, keys)[p],
                groups[t],
            )[r],
{
    let sources = output_sources(dfs, keys);
    assert forall|p: int| 0 <= p < sources.len() implies frame_cells(df)[p][row] == source_cells(
        dfs,
        keys,
        #[trigger] sources[p],
        groups[t],
    )[r] by {
        lemma_filled(dfs, keys, sources[p], groups, groups.len() as int);
        assert(frame_cells(df)[p] == filled(dfs, keys, sources[p], groups, groups.len() as int));
        assert(source_cells(dfs, keys, sources[p], groups[t])[r] == filled(
            dfs,
            keys,
            sources[p],
            groups,
            groups.len() as int,
        )[total_rows(groups, t) + r]);
    }
}

/// Every column of the result has as many cells as the groups have rows.
pub proof fn result_has_one_row_for_each_combination(
    dfs: Seq<DataFrame>,
    keys: Seq<Seq<char>>,
    lists: Seq<Seq<Key>>,
    groups: Seq<GroupModel>,
    df: DataFrame,
    p: int,
)
    requires
        is_join(dfs, keys, lists, groups, df),
        0 <= p < output_sources(dfs, keys).len(),
    ensures
        frame_cells(df)[p].len() == total_rows(groups, groups.len() as int),
{
    lemma_filled(dfs, keys, output_sources(dfs, keys)[p], groups, groups.len() as int);
}

/// Every row of the result is a row of one group. It shows a row that the group takes of each
/// input that is part of the group, nothing of the others, and the key of the group's first row.
pub proof fn result_rows_come_from_groups(
    dfs: Seq<DataFrame>,
    keys: Seq<Seq<char>>,
    lists: Seq<Seq<Key>>,
    groups: Seq<GroupModel>,
    df: DataFrame,
    row: int,
) -> (place: (int, int))
    requires
        is_join(dfs, keys, lists, groups, df),
        0 <= row < total_rows(groups, groups.len() as int),
    ensures
        ({
            let (t, r) = place;
            &&& stands_at(groups, t, r, row)
            &&& shows_key(
                dfs,
                keys,
                df,
                row,
                groups[t].lead,
                groups[t].starts[groups[t].lead],
            )
            &&& forall|f: int|
                0 <= f < dfs.len() ==> match #[trigger] picked(groups[t], f, r) {
                    Some(i) => {
                        &&& takes(groups[t], f, i)
                        &&& lists[f][i] == group_key(lists, groups[t])
                        &&& shows(dfs, keys, df, row, f, i)
                    },
                    None => shows_none(dfs, keys, df, row, f),
                }
        }),
{
    let t = lemma_group_at(groups, row, groups.len() as int);
    let r = row - total_rows(groups, t);
    let group = groups[t];
    lemma_cell(dfs, keys, lists, groups, df, t, r, row);
    lemma_shape(lists, groups, t);
    assert forall|f: int| 0 <= f < dfs.len() implies match #[trigger] picked(group, f, r) {
        Some(i) => {
            &&& takes(group, f, i)
            &&& lists[f][i] == group_key(lists, group)
            &&& shows(dfs, keys, df, row, f, i)
        },
        None => shows_none(dfs, keys, df, row, f),
    } by {
        if group.lens[f] > 0 {
            picked_rows_are_taken(group, f, r);
            rows_of_a_group_have_its_key(lists, groups, t, f, picked(group, f, r)->0);
        }
    }
    (t, r)
}

/// The group whose row stands in a row of the result.
pub proof fn lemma_group_at(groups: Seq<GroupModel>, row: int, n: int) -> (t: int)
    requires
        0 <= n <= groups.len(),
        0 <= row < total_rows(groups, n),
    ensures
        0 <= t < n,
        stands_at(groups, t, row - total_rows(groups, t), row),
    decreases n,
{
    if row < total_rows(groups, n - 1) {
        lemma_group_at(groups, row, n - 1)
    } else {
        n - 1
    }
}

/// A row of a group that picks row `i` of input `f` shows it.
proof fn lemma_shows(
    dfs: Seq<DataFrame>,
    keys: Seq<Seq<char>>,
    lists: Seq<Seq<Key>>,
    groups: Seq<GroupModel>,
    df: DataFrame,
    t: int,
    r: int,
    f: int,
    i: int,
)
    requires
        is_join(dfs, keys, lists, groups, df),
        0 <= t < groups.len(),
        0 <= r < rows_of(groups[t]),
        picked(groups[t], f, r) == Some(i),
    ensures
        shows(dfs, keys, df, total_rows(groups, t) + r, f, i),
{
    lemma_cell(dfs, keys, lists, groups, df, t, r, total_rows(groups, t) + r);
}

/// A row of the result is a row of one group only.
pub proof fn lemma_one_place(
    groups: Seq<GroupModel>,
    t: int,
    r: int,
    u: int,
    q: int,
    row: int,
)
    requires
        stands_at(groups, t, r, row),
        stands_at(groups, u, q, row),
    ensures
        t == u,
        r == q,
{
    if t < u {
        lemma_totals(groups, t + 1, u);
    } else if u < t {
        lemma_totals(groups, u + 1, t);
    }
}

/// The rows of a group stand among those of the result.
pub proof fn lemma_place(groups: Seq<GroupModel>, t: int, r: int)
    requires
        0 <= t < groups.len(),
        0 <= r < rows_of(groups[t]),
    ensures
        0 <= total_rows(groups, t) + r < total_rows(groups, groups.len() as int),
{
    lemma_totals(groups, t, t);
    lemma_totals(groups, t + 1, groups.len() as int);
}

/// Of the rows that a group takes, each is picked by a row of the group.
proof fn lemma_row_that_picks(group: GroupModel, f: int, i: int) -> (r: int)
    requires
        group.starts.len() == group.lens.len(),
        0 <= f < group.lens.len(),
        takes(group, f, i),
    ensures
        0 <= r < rows_of(group),
        picked(group, f, r) == Some(i),
{
    let choice = Seq::new(
        group.lens.len(),
        |g: int|
            if g == f {
                i - group.starts[f]
            } else {
                0
            },
    );
    assert(is_choice(group.lens, choice));
    let r = every_combination_is_there(group, choice);
    assert(picked(group, f, r) == Some(group.starts[f] + choice[f]));
    r
}

/// The join loses no row: every row of every input is shown by a row of the result.
pub proof fn result_shows_every_row(
    dfs: Seq<DataFrame>,
    keys: Seq<Seq<char>>,
    lists: Seq<Seq<Key>>,
    groups: Seq<GroupModel>,
    df: DataFrame,
    f: int,
    i: int,
) -> (row: int)
    requires
        is_join(dfs, keys, lists, groups, df),
        0 <= f < dfs.len(),
        0 <= i < lists[f].len(),
    ensures
        0 <= row < total_rows(groups, groups.len() as int),
        shows(dfs, keys, df, row, f, i),
{
    let t = every_row_is_taken(lists, groups, f, i);
    lemma_shape(lists, groups, t);
    let r = lemma_row_that_picks(groups[t], f, i);
    lemma_shows(dfs, keys, lists, groups, df, t, r, f, i);
    lemma_place(groups, t, r);
    total_rows(groups, t) + r
}

/// Where the keys of the inputs are sorted, rows of two inputs with the same key stand side by
/// side: a row of the result shows both. Rows without a key may stand anywhere in the inputs but
/// between rows with one key.
pub proof fn result_shows_equal_keys_together(
    dfs: Seq<DataFrame>,
    keys: Seq<Seq<char>>,
    lists: Seq<Seq<Key>>,
    groups: Seq<GroupModel>,
    df: DataFrame,
    f: int,
    i: int,
    g: int,
    j: int,
) -> (row: int)
    requires
        is_join(dfs, keys, lists, groups, df),
        all_keys_sorted(lists),
        all_unbroken(lists),
        0 <= f < dfs.len(),
        0 <= i < lists[f].len(),
        0 <= g < dfs.len(),
        0 <= j < lists[g].len(),
        f != g,
        key_same(lists[f][i], lists[g][j]),
    ensures
        0 <= row < total_rows(groups, groups.len() as int),
        shows(dfs, keys, df, row, f, i),
        shows(dfs, keys, df, row, g, j),
{
    let t = equal_keys_meet(lists, groups, f, i, g, j);
    let group = groups[t];
    lemma_shape(lists, groups, t);
    let choice = Seq::new(
        group.lens.len(),
        |h: int|
            if h == f {
                i - group.starts[f]
            } else if h == g {
                j - group.starts[g]
            } else {
                0
            },
    );
    assert(is_choice(group.lens, choice));
    let r = every_combination_is_there(group, choice);
    assert(picked(group, f, r) == Some(group.starts[f] + choice[f]));
    assert(picked(group, g, r) == Some(group.starts[g] + choice[g]));
    lemma_shows(dfs, keys, lists, groups, df, t, r, f, i);
    lemma_shows(dfs, keys, lists, groups, df, t, r, g, j);
    lemma_place(groups, t, r);
    total_rows(groups, t) + r
}

/// A row without a key is shown once, next to nothing: one row of the result shows it together
/// with nulls in the columns of all other inputs.
pub proof fn result_shows_a_row_without_a_key_alone(
    dfs: Seq<DataFrame>,
    keys: Seq<Seq<char>>,
    lists: Seq<Seq<Key>>,
    groups: Seq<GroupModel>,
    df: DataFrame,
    f: int,
    i: int,
) -> (row: int)
    requires
        is_join(dfs, keys, lists, groups, df),
        0 <= f < dfs.len(),
        0 <= i < lists[f].len(),
        lists[f][i] is None,
    ensures
        0 <= row < total_rows(groups, groups.len() as int),
        shows(dfs, keys, df, row, f, i),
        shows_key(dfs, keys, df, row, f, i),
        forall|g: int| 0 <= g < dfs.len() && g != f ==> #[trigger] shows_none(dfs, keys, df, row, g),
        forall|t: int, r: int, other: int|
            #[trigger] stands_at(groups, t, r, other) && picked(groups[t], f, r) == Some(i)
                ==> other == row,
{
    let t = every_row_is_taken(lists, groups, f, i);
    let group = groups[t];
    lemma_shape(lists, groups, t);
    a_row_without_a_key_stands_alone(lists, groups, t, f, i);
    let choice = Seq::new(group.lens.len(), |g: int| 0int);
    assert(is_choice(group.lens, choice));
    let r = every_combination_is_there(group, choice);
    assert(picked(group, f, r) == Some(group.starts[f] + choice[f]));
    lemma_place(groups, t, r);
    let row = total_rows(groups, t) + r;
    lemma_shows(dfs, keys, lists, groups, df, t, r, f, i);
    lemma_cell(dfs, keys, lists, groups, df, t, r, row);
    assert forall|g: int| 0 <= g < dfs.len() && g != f implies #[trigger] shows_none(
        dfs,
        keys,
        df,
        row,
        g,
    ) by {
        assert(group.lens[g] == 0);
    }
    assert forall|u: int, q: int, other: int|
        #[trigger] stands_at(groups, u, q, other) && picked(groups[u], f, q) == Some(i) implies other
        == row by {
        lemma_shape(lists, groups, u);
        picked_rows_are_taken(groups[u], f, q);
        no_row_is_taken_twice(lists, groups, f, i, t, u);
        assert forall|g: int| 0 <= g < group.lens.len() implies #[trigger] picked(group, g, q)
            == picked(group, g, r) by {
            if g != f {
                assert(group.lens[g] == 0);
            }
        }
        no_combination_is_there_twice(group, q, r);
    }
    row
}

/// Where the inputs are sorted, the rows of the result are in the order of their keys, those
/// without a key first.
pub proof fn result_is_sorted(
    dfs: Seq<DataFrame>,
    keys: Seq<Seq<char>>,
    lists: Seq<Seq<Key>>,
    groups: Seq<GroupModel>,
    df: DataFrame,
    t: int,
    r: int,
    row: int,
    u: int,
    q: int,
    later: int,
)
    requires
        is_join(dfs, keys, lists, groups, df),
        all_sorted(lists),
        stands_at(groups, t, r, row),
        stands_at(groups, u, q, later),
        row <= later,
    ensures
        !key_less(group_key(lists, groups[u]), group_key(lists, groups[t])),
{
    key_order_is_total(group_key(lists, groups[t]), group_key(lists, groups[u]));
    if t < u {
        groups_are_in_order(lists, groups, t, u);
    } else if u < t {
        lemma_totals(groups, u + 1, t);
    }
}

/// Where the keys of the inputs are sorted, the rows of the result that have a key are in the order
/// of their keys, wherever rows without one stand.
pub proof fn result_keys_are_sorted(
    dfs: Seq<DataFrame>,
    keys: Seq<Seq<char>>,
    lists: Seq<Seq<Key>>,
    groups: Seq<GroupModel>,
    df: DataFrame,
    t: int,
    r: int,
    row: int,
    u: int,
    q: int,
    later: int,
)
    requires
        is_join(dfs, keys, lists, groups, df),
        all_keys_sorted(lists),
        stands_at(groups, t, r, row),
        stands_at(groups, u, q, later),
        row <= later,
        group_key(lists, groups[t]) is Some,
        group_key(lists, groups[u]) is Some,
    ensures
        !key_less(group_key(lists, groups[u]), group_key(lists, groups[t])),
{
    key_order_is_total(group_key(lists, groups[t]), group_key(lists, groups[u]));
    if t < u {
        groups_with_keys_are_in_order(lists, groups, t, u);
    } else if u < t {
        lemma_totals(groups, u + 1, t);
    }
}

/// The cells of the key columns in row `i` of input `f`.
pub open spec fn key_row(dfs: Seq<DataFrame>, keys: Seq<Seq<char>>, f: int, i: int) -> Seq<Cell> {
    row_of(key_columns_of(dfs[f], keys), i)
}

/// The masks of the key columns of input `f` go unheeded: more than three of them carry one, and no
/// row is without a null there.
pub open spec fn masks_unheeded(dfs: Seq<DataFrame>, keys: Seq<Seq<char>>, f: int) -> bool {
    masks_dropped(key_columns_of(dfs[f], keys), key_masks_of(dfs[f], keys))
}

/// The masks are heeded where there are three key columns at most, or a row without a null in them.
pub proof fn masks_are_heeded(dfs: Seq<DataFrame>, keys: Seq<Seq<char>>, f: int)
    requires
        keys.len() <= 3 || exists|k: int|
            0 <= k < key_columns_of(dfs[f], keys)[0].len() && #[trigger] complete(
                key_row(dfs, keys, f, k),
            ),
    ensures
        !masks_unheeded(dfs, keys, f),
{
    let columns = key_columns_of(dfs[f], keys);
    let masks = key_masks_of(dfs[f], keys);
    lemma_mask_count(masks, masks.len() as int);
    if keys.len() > 3 {
        let k = choose|k: int|
            0 <= k < key_columns_of(dfs[f], keys)[0].len() && #[trigger] complete(
                key_row(dfs, keys, f, k),
            );
        assert(complete(row_of(columns, k)));
    }
}

proof fn lemma_mask_count(masks: Seq<bool>, n: int)
    requires
        0 <= n,
    ensures
        0 <= mask_count(masks, n) <= n,
    decreases n,
{
    if n > 0 {
        lemma_mask_count(masks, n - 1);
    }
}

/// The key columns have the same data types in all inputs.
pub proof fn lemma_key_dtypes(dfs: Seq<DataFrame>, keys: Seq<Seq<char>>, f: int, g: int)
    requires
        accepted(dfs, keys),
        0 <= f < dfs.len(),
        0 <= g < dfs.len(),
    ensures
        key_dtypes_of(dfs[f], keys) == key_dtypes_of(dfs[g], keys),
{
    assert forall|k: int| 0 <= k < keys.len() implies key_dtypes_of(dfs[f], keys)[k]
        == key_dtypes_of(dfs[g], keys)[k] by {
        assert(!bad_key(dfs, keys, f, k));
        assert(!bad_key(dfs, keys, g, k));
    }
    assert(key_dtypes_of(dfs[f], keys) =~= key_dtypes_of(dfs[g], keys));
}

/// The key of a row is the bytes of its cells in the key columns. It is missing where one of them
/// is null, unless the masks go unheeded.
pub proof fn the_key_of_a_row(
    dfs: Seq<DataFrame>,
    keys: Seq<Seq<char>>,
    lists: Seq<Seq<Key>>,
    f: int,
    i: int,
)
    requires
        are_encodings(dfs, keys, lists),
        0 <= f < dfs.len(),
        0 <= i < lists[f].len(),
    ensures
        lists[f][i] == if complete(key_row(dfs, keys, f, i)) || masks_unheeded(dfs, keys, f) {
            Some(ascending_bytes(key_dtypes_of(dfs[f], keys), key_row(dfs, keys, f, i)))
        } else {
            None
        },
        is_row(key_dtypes_of(dfs[f], keys), key_row(dfs, keys, f, i)),
        bytes_stand_for(key_dtypes_of(dfs[f], keys), key_row(dfs, keys, f, i)),
{
    let list = lists[f];
    assert(are_keys_of(dfs[f], keys, list));
    assert(list[i] == row_key(
        key_dtypes_of(dfs[f], keys),
        key_columns_of(dfs[f], keys),
        key_masks_of(dfs[f], keys),
        i,
    ));
    assert(key_row(dfs, keys, f, i) == row_of(key_columns_of(dfs[f], keys), i));
}

/// Rows with the same cells in their key columns, none of them null, have the same key.
pub proof fn equal_cells_give_equal_keys(
    dfs: Seq<DataFrame>,
    keys: Seq<Seq<char>>,
    lists: Seq<Seq<Key>>,
    f: int,
    i: int,
    g: int,
    j: int,
)
    requires
        accepted(dfs, keys),
        are_encodings(dfs, keys, lists),
        0 <= f < dfs.len(),
        0 <= i < lists[f].len(),
        0 <= g < dfs.len(),
        0 <= j < lists[g].len(),
        complete(key_row(dfs, keys, f, i)),
        key_row(dfs, keys, f, i) == key_row(dfs, keys, g, j),
    ensures
        key_same(lists[f][i], lists[g][j]),
{
    lemma_key_dtypes(dfs, keys, f, g);
    the_key_of_a_row(dfs, keys, lists, f, i);
    the_key_of_a_row(dfs, keys, lists, g, j);
}

/// Rows with the same key have the same cells in their key columns.
pub proof fn equal_keys_come_from_equal_cells(
    dfs: Seq<DataFrame>,
    keys: Seq<Seq<char>>,
    lists: Seq<Seq<Key>>,
    f: int,
    i: int,
    g: int,
    j: int,
)
    requires
        accepted(dfs, keys),
        are_encodings(dfs, keys, lists),
        0 <= f < dfs.len(),
        0 <= i < lists[f].len(),
        0 <= g < dfs.len(),
        0 <= j < lists[g].len(),
        key_same(lists[f][i], lists[g][j]),
    ensures
        key_row(dfs, keys, f, i) == key_row(dfs, keys, g, j),
{
    lemma_key_dtypes(dfs, keys, f, g);
    the_key_of_a_row(dfs, keys, lists, f, i);
    the_key_of_a_row(dfs, keys, lists, g, j);
}

/// Keys are ordered as the cells in the key columns are, from left to right, each in the order of
/// its data type.
pub proof fn keys_are_ordered_as_cells(
    dfs: Seq<DataFrame>,
    keys: Seq<Seq<char>>,
    lists: Seq<Seq<Key>>,
    f: int,
    i: int,
    g: int,
    j: int,
)
    requires
        accepted(dfs, keys),
        are_encodings(dfs, keys, lists),
        0 <= f < dfs.len(),
        0 <= i < lists[f].len(),
        0 <= g < dfs.len(),
        0 <= j < lists[g].len(),
        lists[f][i] is Some,
        lists[g][j] is Some,
    ensures
        key_less(lists[f][i], lists[g][j]) <==> row_less(
            key_dtypes_of(dfs[0], keys),
            key_row(dfs, keys, f, i),
            key_row(dfs, keys, g, j),
        ),
{
    lemma_key_dtypes(dfs, keys, f, g);
    lemma_key_dtypes(dfs, keys, 0, f);
    the_key_of_a_row(dfs, keys, lists, f, i);
    the_key_of_a_row(dfs, keys, lists, g, j);
}

/// The rows of input `f` without nulls in the key columns are sorted by these columns.
pub open spec fn cells_sorted(dfs: Seq<DataFrame>, keys: Seq<Seq<char>>, f: int) -> bool {
    forall|i: int, j: int|
        0 <= i < j < key_columns_of(dfs[f], keys)[0].len() && complete(
            #[trigger] key_row(dfs, keys, f, i),
        ) && complete(#[trigger] key_row(dfs, keys, f, j)) ==> !row_less(
            key_dtypes_of(dfs[0], keys),
            key_row(dfs, keys, f, j),
            key_row(dfs, keys, f, i),
        )
}

/// Where the rows of an input are sorted by its key columns, so are their keys.
pub proof fn sorted_cells_give_sorted_keys(
    dfs: Seq<DataFrame>,
    keys: Seq<Seq<char>>,
    lists: Seq<Seq<Key>>,
    f: int,
)
    requires
        accepted(dfs, keys),
        are_encodings(dfs, keys, lists),
        0 <= f < dfs.len(),
        !masks_unheeded(dfs, keys, f),
        cells_sorted(dfs, keys, f),
    ensures
        keys_sorted(lists[f]),
{
    let list = lists[f];
    assert(are_keys_of(dfs[f], keys, list));
    assert forall|i: int, j: int|
        0 <= i < j < list.len() && list[i] is Some && list[j] is Some implies !key_less(
        #[trigger] list[j],
        #[trigger] list[i],
    ) by {
        the_key_of_a_row(dfs, keys, lists, f, i);
        the_key_of_a_row(dfs, keys, lists, f, j);
        keys_are_ordered_as_cells(dfs, keys, lists, f, j, f, i);
    }
}

/// Where the keys of the inputs are sorted, rows of two inputs with the same cells in their key
/// columns, none of them null, stand side by side in the result.
pub proof fn result_shows_equal_cells_together(
    dfs: Seq<DataFrame>,
    keys: Seq<Seq<char>>,
    lists: Seq<Seq<Key>>,
    groups: Seq<GroupModel>,
    df: DataFrame,
    f: int,
    i: int,
    g: int,
    j: int,
) -> (row: int)
    requires
        accepted(dfs, keys),
        are_encodings(dfs, keys, lists),
        is_join(dfs, keys, lists, groups, df),
        all_keys_sorted(lists),
        all_unbroken(lists),
        0 <= f < dfs.len(),
        0 <= i < lists[f].len(),
        0 <= g < dfs.len(),
        0 <= j < lists[g].len(),
        f != g,
        complete(key_row(dfs, keys, f, i)),
        key_row(dfs, keys, f, i) == key_row(dfs, keys, g, j),
    ensures
        0 <= row < total_rows(groups, groups.len() as int),
        shows(dfs, keys, df, row, f, i),
        shows(dfs, keys, df, row, g, j),
{
    equal_cells_give_equal_keys(dfs, keys, lists, f, i, g, j);
    result_shows_equal_keys_together(dfs, keys, lists, groups, df, f, i, g, j)
}

/// The inputs have one encoding.
pub proof fn lemma_one_encoding(
    dfs: Seq<DataFrame>,
    keys: Seq<Seq<char>>,
    a: Seq<Seq<Key>>,
    b: Seq<Seq<Key>>,
)
    requires
        are_encodings(dfs, keys, a),
        are_encodings(dfs, keys, b),
    ensures
        a == b,
{
    assert forall|f: int| 0 <= f < dfs.len() implies a[f] == b[f] by {
        assert(are_keys_of(dfs[f], keys, a[f]));
        assert(are_keys_of(dfs[f], keys, b[f]));
        assert(a[f] =~= b[f]);
    }
    assert(a =~= b);
}

/// The join is a function of what the inputs hold: the same inputs and keys give the same error,
/// or frames with the same columns and the same cells.
pub proof fn the_join_is_determined(
    dfs: Seq<DataFrame>,
    keys: Seq<Seq<char>>,
    a: Result<DataFrame, JoinManyError>,
    b: Result<DataFrame, JoinManyError>,
)
    requires
        joins_to(dfs, keys, a),
        joins_to(dfs, keys, b),
    ensures
        match (a, b) {
            (Ok(one), Ok(other)) => {
                &&& frame_names(one) == frame_names(other)
                &&& frame_dtypes(one) == frame_dtypes(other)
                &&& frame_cells(one) == frame_cells(other)
            },
            (Err(one), Err(other)) => one == other,
            _ => false,
        },
{
    if accepted(dfs, keys) {
        let (lists, groups) = choose|lists: Seq<Seq<Key>>, groups: Seq<GroupModel>|
            are_encodings(dfs, keys, lists) && #[trigger] is_merge(lists, groups) && is_outcome(
                dfs,
                keys,
                groups,
                a,
            );
        let (others, pieces) = choose|lists: Seq<Seq<Key>>, groups: Seq<GroupModel>|
            are_encodings(dfs, keys, lists) && #[trigger] is_merge(lists, groups) && is_outcome(
                dfs,
                keys,
                groups,
                b,
            );
        lemma_one_encoding(dfs, keys, lists, others);
        merge_is_unique(lists, groups, pieces);
    }
}

} // verus!
