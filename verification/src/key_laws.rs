//! The key columns of a joined frame: what they hold, and in which order.
use vstd::prelude::*;

use polars_core::frame::DataFrame;

use crate::empty_laws::{is_countable, sources_are_valid};
use crate::frames::{frame_cells, frame_names, Cell};
use crate::join_inputs::{
    accepted, bad_key, duplicate_key, key_dtype, output_sources, JoinManyError, Source,
};
use crate::join_laws::{all_keys_sorted, group_key, keys_sorted, lemma_lead, lemma_share};
use crate::join_many::{
    are_encodings, is_joined, is_outcome, joins_to, key_cells, key_columns_of, key_dtypes_of,
    source_cells, total_rows,
};
use crate::merge::{is_merge, GroupModel};
use crate::names::{first_at, lemma_position, position_of};
use crate::result_laws::{
    cells_sorted, is_join, key_row, keys_are_ordered_as_cells, lemma_cell, lemma_group_at,
    masks_unheeded, result_has_one_row_for_each_combination, result_keys_are_sorted,
    sorted_cells_give_sorted_keys, stands_at, the_key_of_a_row,
};
use crate::row_keys::{
    ascending_bytes, complete, key_less, key_order_is_total, key_same, row_bytes, row_less, row_of,
    smaller_at, Key,
};

verus! {

/// The keys are the first columns of the result, in their order.
pub proof fn lemma_key_position(
    dfs: Seq<DataFrame>,
    keys: Seq<Seq<char>>,
    groups: Seq<GroupModel>,
    df: DataFrame,
    k: int,
)
    requires
        is_countable(dfs, keys),
        accepted(dfs, keys),
        is_joined(dfs, keys, groups, df),
        0 <= k < keys.len(),
    ensures
        frame_names(df).contains(keys[k]),
        position_of(frame_names(df), keys[k]) == k,
        key_cells(df, keys[k]) == frame_cells(df)[k],
        key_dtype(df, keys[k]) == key_dtype(dfs[0], keys[k]),
        output_sources(dfs, keys)[k] == (Source::Key { key: k as usize }),
        k < output_sources(dfs, keys).len(),
{
    sources_are_valid(dfs, keys);
    let sources = output_sources(dfs, keys);
    let names = frame_names(df);
    assert(sources[k] == (Source::Key { key: k as usize }));
    assert(names[k] == keys[k]);
    assert(names.contains(keys[k]));
    lemma_position(names, keys[k]);
    let p = position_of(names, keys[k]);
    assert(first_at(names, keys[k], p));
    if p < k {
        assert(sources[p] == (Source::Key { key: p as usize }));
        assert(names[p] == keys[p]);
        assert(!duplicate_key(keys, k));
    } else if k < p {
        assert(names[k] != keys[k]);
    }
}

/// A row of the joined frame shows in its key columns the cells of the row that leads its group.
pub proof fn lemma_joined_key_row(
    dfs: Seq<DataFrame>,
    keys: Seq<Seq<char>>,
    lists: Seq<Seq<Key>>,
    some: Seq<GroupModel>,
    df: DataFrame,
    t: int,
    r: int,
    row: int,
)
    requires
        is_countable(dfs, keys),
        accepted(dfs, keys),
        is_join(dfs, keys, lists, some, df),
        stands_at(some, t, r, row),
    ensures
        row_of(key_columns_of(df, keys), row) == key_row(
            dfs,
            keys,
            some[t].lead,
            some[t].starts[some[t].lead],
        ),
{
    let lead = some[t].lead;
    let start = some[t].starts[lead];
    let one = row_of(key_columns_of(df, keys), row);
    let other = key_row(dfs, keys, lead, start);
    lemma_cell(dfs, keys, lists, some, df, t, r, row);
    assert forall|k: int| 0 <= k < keys.len() implies one[k] == other[k] by {
        lemma_key_position(dfs, keys, some, df, k);
        let source = output_sources(dfs, keys)[k];
        assert(one[k] == frame_cells(df)[k][row]);
        assert(frame_cells(df)[k][row] == source_cells(dfs, keys, source, some[t])[r]);
    }
    assert(one =~= other);
}

/// A key column of the joined frame has the data type that the key has in all inputs.
pub proof fn lemma_joined_dtypes(
    dfs: Seq<DataFrame>,
    keys: Seq<Seq<char>>,
    groups: Seq<GroupModel>,
    df: DataFrame,
    f: int,
)
    requires
        is_countable(dfs, keys),
        accepted(dfs, keys),
        is_joined(dfs, keys, groups, df),
        0 <= f < dfs.len(),
    ensures
        key_dtypes_of(df, keys) == key_dtypes_of(dfs[f], keys),
{
    assert forall|k: int| 0 <= k < keys.len() implies key_dtypes_of(df, keys)[k] == key_dtypes_of(
        dfs[f],
        keys,
    )[k] by {
        lemma_key_position(dfs, keys, groups, df, k);
        assert(!bad_key(dfs, keys, f, k));
    }
    assert(key_dtypes_of(df, keys) =~= key_dtypes_of(dfs[f], keys));
}

/// The row that leads the group of a row of the joined frame, where that has no null in its key
/// columns: it has a key, and the same cells there.
proof fn lemma_lead_of_row(
    dfs: Seq<DataFrame>,
    keys: Seq<Seq<char>>,
    lists: Seq<Seq<Key>>,
    groups: Seq<GroupModel>,
    df: DataFrame,
    row: int,
) -> (place: (int, int))
    requires
        is_countable(dfs, keys),
        accepted(dfs, keys),
        are_encodings(dfs, keys, lists),
        is_join(dfs, keys, lists, groups, df),
        0 <= row < total_rows(groups, groups.len() as int),
        complete(row_of(key_columns_of(df, keys), row)),
    ensures
        ({
            let (t, r) = place;
            let lead = groups[t].lead;
            let start = groups[t].starts[lead];
            &&& stands_at(groups, t, r, row)
            &&& 0 <= lead < dfs.len()
            &&& 0 <= start < lists[lead].len()
            &&& lists[lead][start] is Some
            &&& group_key(lists, groups[t]) == lists[lead][start]
            &&& row_of(key_columns_of(df, keys), row) == key_row(dfs, keys, lead, start)
        }),
{
    let t = lemma_group_at(groups, row, groups.len() as int);
    let r = row - total_rows(groups, t);
    let lead = groups[t].lead;
    lemma_lead(lists, groups, t);
    lemma_share(lists, groups, t, lead);
    lemma_joined_key_row(dfs, keys, lists, groups, df, t, r, row);
    the_key_of_a_row(dfs, keys, lists, lead, groups[t].starts[lead]);
    (t, r)
}

/// The rows of the result without nulls in the key columns are sorted by these columns, where those
/// of each input are and its masks are heeded.
pub proof fn the_result_is_sorted_by_its_keys(
    dfs: Seq<DataFrame>,
    keys: Seq<Seq<char>>,
    df: DataFrame,
    row: int,
    later: int,
)
    requires
        is_countable(dfs, keys),
        joins_to(dfs, keys, Ok::<DataFrame, JoinManyError>(df)),
        forall|f: int| 0 <= f < dfs.len() ==> #[trigger] cells_sorted(dfs, keys, f),
        forall|f: int| 0 <= f < dfs.len() ==> !#[trigger] masks_unheeded(dfs, keys, f),
        0 <= row <= later < frame_cells(df)[0].len(),
        complete(row_of(key_columns_of(df, keys), row)),
        complete(row_of(key_columns_of(df, keys), later)),
    ensures
        !row_less(
            key_dtypes_of(df, keys),
            row_of(key_columns_of(df, keys), later),
            row_of(key_columns_of(df, keys), row),
        ),
{
    assert(accepted(dfs, keys));
    let (lists, groups) = choose|lists: Seq<Seq<Key>>, groups: Seq<GroupModel>|
        are_encodings(dfs, keys, lists) && #[trigger] is_merge(lists, groups) && is_outcome(
            dfs,
            keys,
            groups,
            Ok::<DataFrame, JoinManyError>(df),
        );
    assert(is_join(dfs, keys, lists, groups, df));
    assert forall|f: int| 0 <= f < lists.len() implies keys_sorted(#[trigger] lists[f]) by {
        assert(cells_sorted(dfs, keys, f));
        assert(!masks_unheeded(dfs, keys, f));
        sorted_cells_give_sorted_keys(dfs, keys, lists, f);
    }
    assert(all_keys_sorted(lists));
    lemma_key_position(dfs, keys, groups, df, 0);
    result_has_one_row_for_each_combination(dfs, keys, lists, groups, df, 0);
    let (t, r) = lemma_lead_of_row(dfs, keys, lists, groups, df, row);
    let (u, q) = lemma_lead_of_row(dfs, keys, lists, groups, df, later);
    result_keys_are_sorted(dfs, keys, lists, groups, df, t, r, row, u, q, later);
    keys_are_ordered_as_cells(
        dfs,
        keys,
        lists,
        groups[u].lead,
        groups[u].starts[groups[u].lead],
        groups[t].lead,
        groups[t].starts[groups[t].lead],
    );
    lemma_joined_dtypes(dfs, keys, groups, df, 0);
}

/// The key of a row is made of its key cells, in ascending order with nulls first. Keys are ordered
/// by the first byte in which they differ; one that another goes on from comes before it, and a
/// missing key before every other. Missing keys are the same as none.
pub proof fn keys_are_ordered_by_their_bytes(a: Seq<u8>, b: Seq<u8>, p: int)
    requires
        0 <= p <= a.len(),
        p <= b.len(),
        forall|i: int| 0 <= i < p ==> #[trigger] a[i] == b[i],
    ensures
        p < a.len() && p < b.len() && a[p] != b[p] ==> (key_less(Some(a), Some(b)) <==> a[p]
            < b[p]),
        p == a.len() && p < b.len() ==> key_less(Some(a), Some(b)) && !key_less(Some(b), Some(a)),
        p == a.len() && p == b.len() ==> !key_less(Some(a), Some(b)),
        key_less(None, Some(a)),
        !key_less(Some(a), None),
        !key_less(None, None),
        key_same(Some(a), Some(b)) <==> a == b,
        !key_same(None, None),
        !key_same(Some(a), None),
        !key_same(None, Some(a)),
        forall|dtypes: Seq<int>, cells: Seq<Cell>| #[trigger]
            ascending_bytes(dtypes, cells) == row_bytes(
                dtypes,
                cells,
                Seq::new(dtypes.len(), |c: int| false),
                Seq::new(dtypes.len(), |c: int| false),
            ),
{
    key_order_is_total(Some(a), Some(b));
    if p < a.len() && p < b.len() {
        if a[p] < b[p] {
            assert(smaller_at(a, b, p));
        } else if b[p] < a[p] {
            assert(smaller_at(b, a, p));
        }
    } else if p == a.len() && p < b.len() {
        assert(smaller_at(a, b, p));
    } else if p == a.len() && p == b.len() {
        assert(a =~= b);
    }
}

} // verus!
