//! How the rows of the frames of a join are parted into groups, in terms of their cells.
use vstd::prelude::*;

use polars_core::frame::DataFrame;

use crate::acceptance_laws::{is_named, lemma_named};
use crate::frames::{column_masked, frame_cells, frame_dtypes, Cell};
use crate::join_inputs::accepted;
use crate::join_laws::{lemma_consumed_grows, lemma_share};
use crate::join_many::{are_encodings, are_keys_of, key_columns_of, key_dtypes_of, key_masks_of};
use crate::merge::{consumed, cursors_after, head, is_merge, is_run, leads, live, GroupModel};
use crate::result_laws::{
    equal_keys_come_from_equal_cells, key_row, keys_are_ordered_as_cells, lemma_key_dtypes,
    masks_unheeded, the_key_of_a_row,
};
use crate::row_keys::{
    cell_less, complete, key_less, key_same, mask_count, row_less, row_of, value_less, Key,
};

verus! {

/// `at` gives for each frame and each key the column of the frame.
pub open spec fn are_key_positions(
    dfs: Seq<DataFrame>,
    keys: Seq<Seq<char>>,
    at: Seq<Seq<int>>,
) -> bool {
    &&& at.len() == dfs.len()
    &&& forall|f: int| 0 <= f < dfs.len() ==> #[trigger] at[f].len() == keys.len()
    &&& forall|f: int, k: int|
        0 <= f < dfs.len() && 0 <= k < keys.len() ==> is_named(
            dfs[f],
            keys[k],
            #[trigger] at[f][k],
        )
}

/// The cell of frame `f` for key `k` in row `i`.
pub open spec fn key_cell(dfs: Seq<DataFrame>, at: Seq<Seq<int>>, f: int, k: int, i: int) -> Cell {
    frame_cells(dfs[f])[at[f][k]][i]
}

/// The number of rows of frame `f`.
pub open spec fn height(dfs: Seq<DataFrame>, at: Seq<Seq<int>>, f: int) -> int {
    frame_cells(dfs[f])[at[f][0]].len() as int
}

/// Row `i` of frame `f` has no null in its key columns.
pub open spec fn is_whole(dfs: Seq<DataFrame>, at: Seq<Seq<int>>, f: int, i: int) -> bool {
    forall|k: int| 0 <= k < at[f].len() ==> #[trigger] key_cell(dfs, at, f, k, i) is Some
}

/// How many of the first `n` key columns of frame `f` carry a mask.
pub open spec fn masked_keys(dfs: Seq<DataFrame>, at: Seq<Seq<int>>, f: int, n: int) -> int
    decreases n,
{
    if n <= 0 {
        0
    } else {
        masked_keys(dfs, at, f, n - 1) + if column_masked(dfs[f], at[f][n - 1]) {
            1int
        } else {
            0
        }
    }
}

/// A row has a key where it has no null in its key columns. Where more than three of these carry a
/// mask and no row of the frame is without a null, nulls count as cells like others.
pub open spec fn has_key(dfs: Seq<DataFrame>, at: Seq<Seq<int>>, f: int, i: int) -> bool {
    ||| is_whole(dfs, at, f, i)
    ||| masked_keys(dfs, at, f, at[f].len() as int) > 3 && forall|j: int|
        0 <= j < height(dfs, at, f) ==> !#[trigger] is_whole(dfs, at, f, j)
}

/// Two rows have one key: both have one, and their key columns hold the same cells.
pub open spec fn have_one_key(
    dfs: Seq<DataFrame>,
    at: Seq<Seq<int>>,
    f: int,
    i: int,
    g: int,
    j: int,
) -> bool {
    &&& has_key(dfs, at, f, i)
    &&& has_key(dfs, at, g, j)
    &&& forall|k: int|
        0 <= k < at[f].len() ==> #[trigger] key_cell(dfs, at, f, k, i) == key_cell(dfs, at, g, k, j)
}

/// A null comes before every value, and values come in the order of their data type.
pub open spec fn cell_precedes(dtype: int, a: Cell, b: Cell) -> bool {
    ||| a is None && b is Some
    ||| a is Some && b is Some && value_less(dtype, a->0, b->0)
}

/// A row comes before another by its key: it has none and the other has one, or both have one and
/// the first of their key cells that differ is the smaller in it.
pub open spec fn precedes(
    dfs: Seq<DataFrame>,
    at: Seq<Seq<int>>,
    f: int,
    i: int,
    g: int,
    j: int,
) -> bool {
    ||| !has_key(dfs, at, f, i) && has_key(dfs, at, g, j)
    ||| has_key(dfs, at, f, i) && has_key(dfs, at, g, j) && exists|k: int|
        0 <= k < at[f].len() && #[trigger] cell_precedes(
            frame_dtypes(dfs[0])[at[0][k]],
            key_cell(dfs, at, f, k, i),
            key_cell(dfs, at, g, k, j),
        ) && forall|l: int|
            0 <= l < k ==> #[trigger] key_cell(dfs, at, f, l, i) == key_cell(dfs, at, g, l, j)
}

/// With the first `from[f]` rows of each frame gone, the next group ends behind row `to[f]` of
/// each. Its leader is the first frame whose next row comes before that of every other frame. A
/// leader without a key is a group by itself. Else the group takes from each frame the rows with
/// the key of the leader that come next, as many as follow each other.
pub open spec fn is_group(
    dfs: Seq<DataFrame>,
    at: Seq<Seq<int>>,
    from: Seq<int>,
    to: Seq<int>,
    lead: int,
) -> bool {
    &&& 0 <= lead < dfs.len()
    &&& from[lead] < height(dfs, at, lead)
    &&& forall|g: int|
        0 <= g < dfs.len() && #[trigger] from[g] < height(dfs, at, g) ==> {
            &&& !precedes(dfs, at, g, from[g], lead, from[lead])
            &&& g < lead ==> precedes(dfs, at, lead, from[lead], g, from[g])
        }
    &&& forall|f: int|
        #![trigger from[f]]
        #![trigger to[f]]
        0 <= f < dfs.len() ==> 0 <= from[f] <= to[f] <= height(dfs, at, f)
    &&& !has_key(dfs, at, lead, from[lead]) ==> forall|f: int|
        0 <= f < dfs.len() ==> #[trigger] to[f] == from[f] + if f == lead {
            1int
        } else {
            0
        }
    &&& has_key(dfs, at, lead, from[lead]) ==> forall|f: int|
        0 <= f < dfs.len() && #[trigger] to[f] < height(dfs, at, f) ==> !have_one_key(
            dfs,
            at,
            f,
            to[f],
            lead,
            from[lead],
        )
    &&& has_key(dfs, at, lead, from[lead]) ==> forall|f: int, i: int|
        0 <= f < dfs.len() && from[f] <= i < to[f] ==> #[trigger] have_one_key(
            dfs,
            at,
            f,
            i,
            lead,
            from[lead],
        )
}

/// The rows of the frames are parted into groups: `cuts[t]` says how many rows of each frame stand
/// in the first `t` groups, and `leads` which frame leads each. All rows stand in groups.
pub open spec fn is_parting(
    dfs: Seq<DataFrame>,
    at: Seq<Seq<int>>,
    cuts: Seq<Seq<int>>,
    leads: Seq<int>,
) -> bool {
    &&& cuts.len() == leads.len() + 1
    &&& forall|t: int| 0 <= t < cuts.len() ==> #[trigger] cuts[t].len() == dfs.len()
    &&& forall|f: int| 0 <= f < dfs.len() ==> #[trigger] cuts[0][f] == 0
    &&& forall|f: int|
        0 <= f < dfs.len() ==> #[trigger] cuts[cuts.len() - 1][f] == height(dfs, at, f)
    &&& forall|t: int|
        0 <= t < leads.len() ==> is_group(dfs, at, cuts[t], cuts[t + 1], #[trigger] leads[t])
}

/// The lists hold the keys of the frames, whose key columns stand at the given positions.
pub open spec fn are_lists(
    dfs: Seq<DataFrame>,
    keys: Seq<Seq<char>>,
    at: Seq<Seq<int>>,
    lists: Seq<Seq<Key>>,
) -> bool {
    &&& accepted(dfs, keys)
    &&& are_encodings(dfs, keys, lists)
    &&& are_key_positions(dfs, keys, at)
}

/// The key cells of a row.
pub proof fn lemma_key_cells(
    dfs: Seq<DataFrame>,
    keys: Seq<Seq<char>>,
    at: Seq<Seq<int>>,
    lists: Seq<Seq<Key>>,
    f: int,
    i: int,
)
    requires
        are_lists(dfs, keys, at, lists),
        0 <= f < dfs.len(),
    ensures
        lists[f].len() == height(dfs, at, f),
        key_row(dfs, keys, f, i).len() == keys.len(),
        forall|k: int|
            0 <= k < keys.len() ==> #[trigger] key_row(dfs, keys, f, i)[k] == key_cell(
                dfs,
                at,
                f,
                k,
                i,
            ),
        forall|k: int|
            0 <= k < keys.len() ==> #[trigger] key_dtypes_of(dfs[f], keys)[k] == frame_dtypes(
                dfs[f],
            )[at[f][k]],
        forall|k: int|
            0 <= k < keys.len() ==> #[trigger] key_masks_of(dfs[f], keys)[k] == column_masked(
                dfs[f],
                at[f][k],
            ),
        forall|k: int|
            0 <= k < keys.len() ==> #[trigger] key_columns_of(dfs[f], keys)[k] == frame_cells(
                dfs[f],
            )[at[f][k]],
{
    assert(are_keys_of(dfs[f], keys, lists[f]));
    assert(at[f].len() == keys.len());
    assert forall|k: int| 0 <= k < keys.len() implies #[trigger] key_columns_of(dfs[f], keys)[k]
        == frame_cells(dfs[f])[at[f][k]] && key_dtypes_of(dfs[f], keys)[k] == frame_dtypes(
        dfs[f],
    )[at[f][k]] && key_masks_of(dfs[f], keys)[k] == column_masked(dfs[f], at[f][k]) by {
        assert(is_named(dfs[f], keys[k], at[f][k]));
        lemma_named(dfs[f], keys[k]);
    }
    assert forall|k: int| 0 <= k < keys.len() implies #[trigger] key_row(dfs, keys, f, i)[k]
        == key_cell(dfs, at, f, k, i) by {
        assert(key_columns_of(dfs[f], keys)[k] == frame_cells(dfs[f])[at[f][k]]);
    }
    assert(key_columns_of(dfs[f], keys)[0] == frame_cells(dfs[f])[at[f][0]]);
    assert forall|k: int| 0 <= k < keys.len() implies #[trigger] key_dtypes_of(dfs[f], keys)[k]
        == frame_dtypes(dfs[f])[at[f][k]] by {
        let _ = key_columns_of(dfs[f], keys)[k];
    }
    assert forall|k: int| 0 <= k < keys.len() implies #[trigger] key_masks_of(dfs[f], keys)[k]
        == column_masked(dfs[f], at[f][k]) by {
        let _ = key_columns_of(dfs[f], keys)[k];
    }
}

proof fn lemma_whole(
    dfs: Seq<DataFrame>,
    keys: Seq<Seq<char>>,
    at: Seq<Seq<int>>,
    lists: Seq<Seq<Key>>,
    f: int,
    i: int,
)
    requires
        are_lists(dfs, keys, at, lists),
        0 <= f < dfs.len(),
    ensures
        complete(key_row(dfs, keys, f, i)) <==> is_whole(dfs, at, f, i),
{
    lemma_key_cells(dfs, keys, at, lists, f, i);
    assert(at[f].len() == keys.len());
    let cells = key_row(dfs, keys, f, i);
    if complete(cells) {
        assert forall|k: int| 0 <= k < at[f].len() implies #[trigger] key_cell(
            dfs,
            at,
            f,
            k,
            i,
        ) is Some by {
            assert(cells[k] is Some);
        }
    }
    if is_whole(dfs, at, f, i) {
        assert forall|k: int| 0 <= k < cells.len() implies #[trigger] cells[k] is Some by {
            assert(key_cell(dfs, at, f, k, i) is Some);
        }
    }
}

proof fn lemma_masked(
    dfs: Seq<DataFrame>,
    keys: Seq<Seq<char>>,
    at: Seq<Seq<int>>,
    lists: Seq<Seq<Key>>,
    f: int,
    n: int,
)
    requires
        are_lists(dfs, keys, at, lists),
        0 <= f < dfs.len(),
        0 <= n <= keys.len(),
    ensures
        mask_count(key_masks_of(dfs[f], keys), n) == masked_keys(dfs, at, f, n),
    decreases n,
{
    if n > 0 {
        lemma_masked(dfs, keys, at, lists, f, n - 1);
        lemma_key_cells(dfs, keys, at, lists, f, 0);
        assert(key_masks_of(dfs[f], keys)[n - 1] == column_masked(dfs[f], at[f][n - 1]));
    }
}

/// Which rows have keys.
pub proof fn lemma_has_key(
    dfs: Seq<DataFrame>,
    keys: Seq<Seq<char>>,
    at: Seq<Seq<int>>,
    lists: Seq<Seq<Key>>,
    f: int,
    i: int,
)
    requires
        are_lists(dfs, keys, at, lists),
        0 <= f < dfs.len(),
        0 <= i < lists[f].len(),
    ensures
        lists[f][i] is Some <==> has_key(dfs, at, f, i),
{
    the_key_of_a_row(dfs, keys, lists, f, i);
    lemma_key_cells(dfs, keys, at, lists, f, i);
    lemma_whole(dfs, keys, at, lists, f, i);
    lemma_masked(dfs, keys, at, lists, f, keys.len() as int);
    assert(at[f].len() == keys.len());
    let columns = key_columns_of(dfs[f], keys);
    assert(columns[0].len() == height(dfs, at, f));
    let ignored = forall|j: int|
        0 <= j < height(dfs, at, f) ==> !#[trigger] is_whole(dfs, at, f, j);
    if masks_unheeded(dfs, keys, f) {
        assert forall|j: int| 0 <= j < height(dfs, at, f) implies !#[trigger] is_whole(
            dfs,
            at,
            f,
            j,
        ) by {
            lemma_whole(dfs, keys, at, lists, f, j);
            assert(!complete(row_of(columns, j)));
        }
    }
    if ignored {
        assert forall|j: int| 0 <= j < columns[0].len() implies !#[trigger] complete(
            row_of(columns, j),
        ) by {
            lemma_whole(dfs, keys, at, lists, f, j);
            assert(!is_whole(dfs, at, f, j));
        }
    }
}

/// Which rows have one key.
pub proof fn lemma_one_key(
    dfs: Seq<DataFrame>,
    keys: Seq<Seq<char>>,
    at: Seq<Seq<int>>,
    lists: Seq<Seq<Key>>,
    f: int,
    i: int,
    g: int,
    j: int,
)
    requires
        are_lists(dfs, keys, at, lists),
        0 <= f < dfs.len(),
        0 <= i < lists[f].len(),
        0 <= g < dfs.len(),
        0 <= j < lists[g].len(),
    ensures
        key_same(lists[f][i], lists[g][j]) <==> have_one_key(dfs, at, f, i, g, j),
{
    lemma_has_key(dfs, keys, at, lists, f, i);
    lemma_has_key(dfs, keys, at, lists, g, j);
    lemma_key_cells(dfs, keys, at, lists, f, i);
    lemma_key_cells(dfs, keys, at, lists, g, j);
    assert(at[f].len() == keys.len());
    let a = key_row(dfs, keys, f, i);
    let b = key_row(dfs, keys, g, j);
    if key_same(lists[f][i], lists[g][j]) {
        equal_keys_come_from_equal_cells(dfs, keys, lists, f, i, g, j);
        assert forall|k: int| 0 <= k < at[f].len() implies #[trigger] key_cell(dfs, at, f, k, i)
            == key_cell(dfs, at, g, k, j) by {
            assert(a[k] == b[k]);
        }
    }
    if have_one_key(dfs, at, f, i, g, j) {
        assert forall|k: int| 0 <= k < keys.len() implies a[k] == b[k] by {
            assert(key_cell(dfs, at, f, k, i) == key_cell(dfs, at, g, k, j));
        }
        assert(a =~= b);
        lemma_key_dtypes(dfs, keys, f, g);
        the_key_of_a_row(dfs, keys, lists, f, i);
        the_key_of_a_row(dfs, keys, lists, g, j);
    }
}

/// Which rows come before others.
pub proof fn lemma_precedes(
    dfs: Seq<DataFrame>,
    keys: Seq<Seq<char>>,
    at: Seq<Seq<int>>,
    lists: Seq<Seq<Key>>,
    f: int,
    i: int,
    g: int,
    j: int,
)
    requires
        are_lists(dfs, keys, at, lists),
        0 <= f < dfs.len(),
        0 <= i < lists[f].len(),
        0 <= g < dfs.len(),
        0 <= j < lists[g].len(),
    ensures
        key_less(lists[f][i], lists[g][j]) <==> precedes(dfs, at, f, i, g, j),
{
    lemma_has_key(dfs, keys, at, lists, f, i);
    lemma_has_key(dfs, keys, at, lists, g, j);
    if lists[f][i] is Some && lists[g][j] is Some {
        keys_are_ordered_as_cells(dfs, keys, lists, f, i, g, j);
        lemma_rows_ordered(dfs, keys, at, lists, f, i, g, j);
    }
}

proof fn lemma_rows_ordered(
    dfs: Seq<DataFrame>,
    keys: Seq<Seq<char>>,
    at: Seq<Seq<int>>,
    lists: Seq<Seq<Key>>,
    f: int,
    i: int,
    g: int,
    j: int,
)
    requires
        are_lists(dfs, keys, at, lists),
        0 <= f < dfs.len(),
        0 <= g < dfs.len(),
    ensures
        row_less(
            key_dtypes_of(dfs[0], keys),
            key_row(dfs, keys, f, i),
            key_row(dfs, keys, g, j),
        ) <==> exists|k: int|
            0 <= k < at[f].len() && #[trigger] cell_precedes(
                frame_dtypes(dfs[0])[at[0][k]],
                key_cell(dfs, at, f, k, i),
                key_cell(dfs, at, g, k, j),
            ) && forall|l: int|
                0 <= l < k ==> #[trigger] key_cell(dfs, at, f, l, i) == key_cell(
                    dfs,
                    at,
                    g,
                    l,
                    j,
                ),
{
    lemma_key_cells(dfs, keys, at, lists, f, i);
    lemma_key_cells(dfs, keys, at, lists, g, j);
    lemma_key_cells(dfs, keys, at, lists, 0, 0);
    assert(at[f].len() == keys.len());
    let dtypes = key_dtypes_of(dfs[0], keys);
    let a = key_row(dfs, keys, f, i);
    let b = key_row(dfs, keys, g, j);
    if row_less(dtypes, a, b) {
        let k = choose|c: int|
            0 <= c < dtypes.len() && (forall|d: int| 0 <= d < c ==> #[trigger] a[d] == b[d])
                && #[trigger] cell_less(dtypes[c], a[c], b[c]);
        assert(cell_precedes(
            frame_dtypes(dfs[0])[at[0][k]],
            key_cell(dfs, at, f, k, i),
            key_cell(dfs, at, g, k, j),
        ));
        assert forall|l: int| 0 <= l < k implies #[trigger] key_cell(dfs, at, f, l, i) == key_cell(
            dfs,
            at,
            g,
            l,
            j,
        ) by {
            assert(a[l] == b[l]);
        }
    }
    if exists|k: int|
        0 <= k < at[f].len() && #[trigger] cell_precedes(
            frame_dtypes(dfs[0])[at[0][k]],
            key_cell(dfs, at, f, k, i),
            key_cell(dfs, at, g, k, j),
        ) && forall|l: int|
            0 <= l < k ==> #[trigger] key_cell(dfs, at, f, l, i) == key_cell(dfs, at, g, l, j) {
        let k = choose|k: int|
            0 <= k < at[f].len() && #[trigger] cell_precedes(
                frame_dtypes(dfs[0])[at[0][k]],
                key_cell(dfs, at, f, k, i),
                key_cell(dfs, at, g, k, j),
            ) && forall|l: int|
                0 <= l < k ==> #[trigger] key_cell(dfs, at, f, l, i) == key_cell(
                    dfs,
                    at,
                    g,
                    l,
                    j,
                );
        assert forall|d: int| 0 <= d < k implies #[trigger] a[d] == b[d] by {
            assert(key_cell(dfs, at, f, d, i) == key_cell(dfs, at, g, d, j));
        }
        assert(cell_less(dtypes[k], a[k], b[k]));
    }
}

/// The leader of a group, and where the group ends.
proof fn lemma_group_leads(
    dfs: Seq<DataFrame>,
    keys: Seq<Seq<char>>,
    at: Seq<Seq<int>>,
    lists: Seq<Seq<Key>>,
    groups: Seq<GroupModel>,
    t: int,
    f: int,
)
    requires
        are_lists(dfs, keys, at, lists),
        is_merge(lists, groups),
        0 <= t < groups.len(),
        0 <= f < dfs.len(),
    ensures
        ({
            let from = consumed(groups, f, t);
            let to = consumed(groups, f, t + 1);
            let lead = groups[t].lead;
            let first = consumed(groups, lead, t);
            &&& 0 <= lead < dfs.len()
            &&& first < height(dfs, at, lead)
            &&& 0 <= from <= to <= height(dfs, at, f)
            &&& from < height(dfs, at, f) ==> {
                &&& !precedes(dfs, at, f, from, lead, first)
                &&& f < lead ==> precedes(dfs, at, lead, first, f, from)
            }
        }),
{
    let cursors = cursors_after(groups, lists.len(), t);
    let lead = groups[t].lead;
    lemma_lead_of(lists, groups, t);
    lemma_key_cells(dfs, keys, at, lists, lead, 0);
    lemma_key_cells(dfs, keys, at, lists, f, 0);
    lemma_consumed_grows(lists, groups, f, t, t + 1);
    if cursors[f] < height(dfs, at, f) {
        assert(live(lists, cursors, f));
        lemma_precedes(dfs, keys, at, lists, f, cursors[f], lead, cursors[lead]);
        lemma_precedes(dfs, keys, at, lists, lead, cursors[lead], f, cursors[f]);
    }
}

/// The rows that a group takes of a frame.
proof fn lemma_group_takes(
    dfs: Seq<DataFrame>,
    keys: Seq<Seq<char>>,
    at: Seq<Seq<int>>,
    lists: Seq<Seq<Key>>,
    groups: Seq<GroupModel>,
    t: int,
    f: int,
)
    requires
        are_lists(dfs, keys, at, lists),
        is_merge(lists, groups),
        0 <= t < groups.len(),
        0 <= f < dfs.len(),
    ensures
        ({
            let from = consumed(groups, f, t);
            let to = consumed(groups, f, t + 1);
            let lead = groups[t].lead;
            let first = consumed(groups, lead, t);
            if has_key(dfs, at, lead, first) {
                &&& forall|i: int|
                    from <= i < to ==> #[trigger] have_one_key(dfs, at, f, i, lead, first)
                &&& to < height(dfs, at, f) ==> !have_one_key(dfs, at, f, to, lead, first)
            } else {
                to == from + if f == lead {
                    1int
                } else {
                    0
                }
            }
        }),
{
    let cursors = cursors_after(groups, lists.len(), t);
    let from = consumed(groups, f, t);
    let to = consumed(groups, f, t + 1);
    let lead = groups[t].lead;
    let first = consumed(groups, lead, t);
    let start = groups[t].starts[f];
    let len = groups[t].lens[f];
    lemma_lead_of(lists, groups, t);
    lemma_has_key(dfs, keys, at, lists, lead, first);
    lemma_key_cells(dfs, keys, at, lists, f, 0);
    lemma_consumed_grows(lists, groups, f, t, t + 1);
    lemma_share(lists, groups, t, f);
    assert(to == from + len);
    if !has_key(dfs, at, lead, first) {
        if f == lead && len > 1 {
            assert(is_run(lists[f], start, len));
            assert(key_same(lists[f][start + 1], lists[f][start]));
        }
    } else {
        if len > 0 {
            assert(is_run(lists[f], start, len));
            assert(key_same(lists[f][start], lists[lead][first]));
        }
        assert forall|i: int| from <= i < to implies #[trigger] have_one_key(
            dfs,
            at,
            f,
            i,
            lead,
            first,
        ) by {
            lemma_one_key(dfs, keys, at, lists, f, i, lead, first);
            if i > start {
                assert(key_same(lists[f][i], lists[f][start]));
            }
        }
        if to < height(dfs, at, f) {
            lemma_one_key(dfs, keys, at, lists, f, to, lead, first);
            if len == 0 {
                assert(live(lists, cursors, f));
            }
        }
    }
}

proof fn lemma_group(
    dfs: Seq<DataFrame>,
    keys: Seq<Seq<char>>,
    at: Seq<Seq<int>>,
    lists: Seq<Seq<Key>>,
    groups: Seq<GroupModel>,
    t: int,
    from: Seq<int>,
    to: Seq<int>,
)
    requires
        are_lists(dfs, keys, at, lists),
        is_merge(lists, groups),
        0 <= t < groups.len(),
        forall|f: int| 0 <= f < dfs.len() ==> #[trigger] from[f] == consumed(groups, f, t),
        forall|f: int| 0 <= f < dfs.len() ==> #[trigger] to[f] == consumed(groups, f, t + 1),
    ensures
        is_group(dfs, at, from, to, groups[t].lead),
{
    let lead = groups[t].lead;
    lemma_lead_of(lists, groups, t);
    lemma_group_leads(dfs, keys, at, lists, groups, t, lead);
    assert forall|g: int| 0 <= g < dfs.len() && #[trigger] from[g] < height(dfs, at, g) implies {
        &&& !precedes(dfs, at, g, from[g], lead, from[lead])
        &&& g < lead ==> precedes(dfs, at, lead, from[lead], g, from[g])
    } by {
        lemma_group_leads(dfs, keys, at, lists, groups, t, g);
    }
    assert forall|f: int|
        #![trigger from[f]]
        #![trigger to[f]]
        0 <= f < dfs.len() implies 0 <= from[f] <= to[f] <= height(dfs, at, f) by {
        lemma_group_leads(dfs, keys, at, lists, groups, t, f);
    }
    if has_key(dfs, at, lead, from[lead]) {
        assert forall|f: int|
            0 <= f < dfs.len() && #[trigger] to[f] < height(dfs, at, f) implies !have_one_key(
            dfs,
            at,
            f,
            to[f],
            lead,
            from[lead],
        ) by {
            lemma_group_takes(dfs, keys, at, lists, groups, t, f);
        }
        assert forall|f: int, i: int|
            0 <= f < dfs.len() && from[f] <= i < to[f] implies #[trigger] have_one_key(
            dfs,
            at,
            f,
            i,
            lead,
            from[lead],
        ) by {
            lemma_group_takes(dfs, keys, at, lists, groups, t, f);
        }
    } else {
        assert forall|f: int| 0 <= f < dfs.len() implies #[trigger] to[f] == from[f] + if f
            == lead {
            1int
        } else {
            0
        } by {
            lemma_group_takes(dfs, keys, at, lists, groups, t, f);
        }
    }
}

proof fn lemma_lead_of(lists: Seq<Seq<Key>>, groups: Seq<GroupModel>, t: int)
    requires
        is_merge(lists, groups),
        0 <= t < groups.len(),
    ensures
        ({
            let from = cursors_after(groups, lists.len(), t);
            let lead = groups[t].lead;
            &&& 0 <= lead < lists.len()
            &&& 0 <= from[lead] < lists[lead].len()
            &&& leads(lists, from, lead)
            &&& head(lists, from, lead) == lists[lead][from[lead]]
        }),
{
    crate::join_laws::lemma_lead(lists, groups, t);
    let lead = groups[t].lead;
    lemma_share(lists, groups, t, lead);
    lemma_consumed_grows(lists, groups, lead, t, t);
    assert(live(lists, cursors_after(groups, lists.len(), t), lead));
}

/// The groups of a merge part the rows of the frames.
pub proof fn lemma_parting(
    dfs: Seq<DataFrame>,
    keys: Seq<Seq<char>>,
    at: Seq<Seq<int>>,
    lists: Seq<Seq<Key>>,
    groups: Seq<GroupModel>,
)
    requires
        are_lists(dfs, keys, at, lists),
        is_merge(lists, groups),
    ensures
        is_parting(
            dfs,
            at,
            Seq::new(groups.len() + 1, |t: int| cursors_after(groups, lists.len(), t)),
            Seq::new(groups.len(), |t: int| groups[t].lead),
        ),
{
    let cuts = Seq::new(groups.len() + 1, |t: int| cursors_after(groups, lists.len(), t));
    let leads = Seq::new(groups.len(), |t: int| groups[t].lead);
    assert forall|f: int| 0 <= f < dfs.len() implies #[trigger] cuts[cuts.len() - 1][f] == height(
        dfs,
        at,
        f,
    ) by {
        lemma_key_cells(dfs, keys, at, lists, f, 0);
        assert(consumed(groups, f, groups.len() as int) == lists[f].len());
    }
    assert forall|t: int| 0 <= t < leads.len() implies is_group(
        dfs,
        at,
        cuts[t],
        cuts[t + 1],
        #[trigger] leads[t],
    ) by {
        lemma_group(dfs, keys, at, lists, groups, t, cuts[t], cuts[t + 1]);
    }
}

} // verus!
