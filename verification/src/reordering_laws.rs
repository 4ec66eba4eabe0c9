//! The frames of a join in another order: the same rows come out.
use vstd::prelude::*;

use polars_core::frame::DataFrame;

use crate::empty_laws::{is_countable, sources_are_valid};
use crate::frames::{frame_cells, frame_dtypes, frame_names, Cell};
use crate::join_inputs::{
    accepted, all_payload_sources, bad_key, duplicate_key, earlier, key_sources, names_of,
    no_repeated_column, output_sources, payload, payload_sources, repeated_column, source_name,
    source_valid, JoinManyError, Source,
};
use crate::join_laws::{a_row_without_a_key_stands_alone, lemma_lead, lemma_share, takes};
use crate::join_many::{
    are_encodings, are_keys_of, is_joined, is_outcome, joins_to, source_cells,
};
use crate::layout::{picked, rows_of};
use crate::merge::{is_merge, GroupModel};
use crate::names::{first_at, lemma_position, position_of};
use crate::order_laws::{
    are_twins, is_match, is_order, lemma_same_things, reordered, same_picks,
    the_order_of_lists_moves_rows,
};
use crate::result_laws::{
    equal_keys_come_from_equal_cells, is_join, key_row, lemma_cell, lemma_one_encoding,
    result_has_one_row_for_each_combination, stands_at,
};
use crate::row_keys::Key;

verus! {

/// A row of a frame, read by column name.
pub open spec fn row_by_name(df: DataFrame, row: int) -> Map<Seq<char>, Cell> {
    Map::new(
        |name: Seq<char>| frame_names(df).contains(name),
        |name: Seq<char>| frame_cells(df)[position_of(frame_names(df), name)][row],
    )
}

/// The rows of a frame, read by column name.
pub open spec fn rows_by_name(df: DataFrame) -> Seq<Map<Seq<char>, Cell>> {
    Seq::new(frame_cells(df)[0].len(), |row: int| row_by_name(df, row))
}

/// The data types of the columns of a frame, by column name.
pub open spec fn dtypes_by_name(df: DataFrame) -> Map<Seq<char>, int> {
    Map::new(
        |name: Seq<char>| frame_names(df).contains(name),
        |name: Seq<char>| frame_dtypes(df)[position_of(frame_names(df), name)],
    )
}

/// Where no column is there twice, one column has a name.
proof fn lemma_one_column(dfs: Seq<DataFrame>, keys: Seq<Seq<char>>, f: int, c: int, g: int, d: int)
    requires
        no_repeated_column(dfs, keys),
        payload(dfs, keys, f, c),
        payload(dfs, keys, g, d),
        frame_names(dfs[f])[c] == frame_names(dfs[g])[d],
    ensures
        f == g,
        c == d,
{
    if f != g || c != d {
        if earlier(f, c, g, d) {
            assert(repeated_column(dfs, keys, g, d));
        } else {
            assert(earlier(g, d, f, c));
            assert(repeated_column(dfs, keys, f, c));
        }
    }
}

/// Where no column is there twice, a name says where a column comes from.
pub proof fn lemma_one_source(dfs: Seq<DataFrame>, keys: Seq<Seq<char>>, a: Source, b: Source)
    requires
        accepted(dfs, keys),
        source_valid(dfs, keys, a),
        source_valid(dfs, keys, b),
        source_name(dfs, keys, a) == source_name(dfs, keys, b),
    ensures
        a == b,
{
    match (a, b) {
        (Source::Key { key: j }, Source::Key { key: k }) => {
            assert(!duplicate_key(keys, j as int));
            assert(!duplicate_key(keys, k as int));
        },
        (
            Source::Payload { input: f, column: c },
            Source::Payload { input: g, column: d },
        ) => {
            lemma_one_column(dfs, keys, f as int, c as int, g as int, d as int);
        },
        (Source::Key { key }, Source::Payload { .. }) => {
            assert(keys.contains(keys[key as int]));
        },
        (Source::Payload { .. }, Source::Key { key }) => {
            assert(keys.contains(keys[key as int]));
        },
    }
}

proof fn lemma_column_listed(
    dfs: Seq<DataFrame>,
    keys: Seq<Seq<char>>,
    f: int,
    c: int,
    n: int,
)
    requires
        payload(dfs, keys, f, c),
        c < n <= frame_names(dfs[f]).len(),
    ensures
        payload_sources(dfs, keys, f, n).contains(
            Source::Payload { input: f as usize, column: c as usize },
        ),
    decreases n,
{
    let wanted = Source::Payload { input: f as usize, column: c as usize };
    let all = payload_sources(dfs, keys, f, n);
    if c == n - 1 {
        assert(all[all.len() - 1] == wanted);
    } else {
        lemma_column_listed(dfs, keys, f, c, n - 1);
        let p = payload_sources(dfs, keys, f, n - 1).index_of(wanted);
        assert(all[p] == wanted);
    }
}

proof fn lemma_columns_listed(
    dfs: Seq<DataFrame>,
    keys: Seq<Seq<char>>,
    f: int,
    c: int,
    n: int,
)
    requires
        payload(dfs, keys, f, c),
        f < n <= dfs.len(),
    ensures
        all_payload_sources(dfs, keys, n).contains(
            Source::Payload { input: f as usize, column: c as usize },
        ),
    decreases n,
{
    let wanted = Source::Payload { input: f as usize, column: c as usize };
    let before = all_payload_sources(dfs, keys, n - 1);
    let more = payload_sources(dfs, keys, n - 1, frame_names(dfs[n - 1]).len() as int);
    if f == n - 1 {
        lemma_column_listed(dfs, keys, f, c, frame_names(dfs[f]).len() as int);
        let p = more.index_of(wanted);
        assert((before + more)[before.len() + p] == wanted);
    } else {
        lemma_columns_listed(dfs, keys, f, c, n - 1);
        let p = before.index_of(wanted);
        assert((before + more)[p] == wanted);
    }
}

/// Every key, and every other column of an input, is a column of the result.
pub proof fn every_source_is_listed(dfs: Seq<DataFrame>, keys: Seq<Seq<char>>, source: Source)
    requires
        source_valid(dfs, keys, source),
    ensures
        output_sources(dfs, keys).contains(source),
{
    let a = key_sources(keys.len());
    let b = all_payload_sources(dfs, keys, dfs.len() as int);
    match source {
        Source::Key { key } => {
            assert((a + b)[key as int] == source);
        },
        Source::Payload { input, column } => {
            lemma_columns_listed(dfs, keys, input as int, column as int, dfs.len() as int);
            let p = b.index_of(source);
            assert((a + b)[a.len() + p] == source);
        },
    }
}

/// Frames that can be joined can be joined in another order.
pub proof fn another_order_is_accepted(
    dfs: Seq<DataFrame>,
    keys: Seq<Seq<char>>,
    order: Seq<int>,
    back: Seq<int>,
)
    requires
        accepted(dfs, keys),
        is_order(order, back, dfs.len()),
    ensures
        accepted(reordered(dfs, order), keys),
{
    let others = reordered(dfs, order);
    assert forall|i: int, k: int| 0 <= i < others.len() && 0 <= k < keys.len() implies !#[trigger] bad_key(
        others,
        keys,
        i,
        k,
    ) by {
        assert(!bad_key(dfs, keys, order[i], k));
        assert(!bad_key(dfs, keys, order[0], k));
    }
    assert forall|i: int, c: int| !#[trigger] repeated_column(others, keys, i, c) by {
        if repeated_column(others, keys, i, c) {
            let (j, d) = choose|j: int, d: int|
                earlier(j, d, i, c) && #[trigger] payload(others, keys, j, d) && frame_names(
                    others[j],
                )[d] == frame_names(others[i])[c];
            assert(payload(dfs, keys, order[i], c));
            assert(payload(dfs, keys, order[j], d));
            lemma_one_column(dfs, keys, order[i], c, order[j], d);
            assert(back[order[i]] == back[order[j]]);
        }
    }
}

/// Where a column comes from when the inputs are in another order.
pub open spec fn moved(source: Source, back: Seq<int>) -> Source {
    match source {
        Source::Key { .. } => source,
        Source::Payload { input, column } => Source::Payload {
            input: back[input as int] as usize,
            column,
        },
    }
}

proof fn lemma_moved(
    dfs: Seq<DataFrame>,
    keys: Seq<Seq<char>>,
    order: Seq<int>,
    back: Seq<int>,
    source: Source,
)
    requires
        is_countable(dfs, keys),
        is_order(order, back, dfs.len()),
        source_valid(dfs, keys, source),
    ensures
        source_valid(reordered(dfs, order), keys, moved(source, back)),
        source_name(reordered(dfs, order), keys, moved(source, back)) == source_name(
            dfs,
            keys,
            source,
        ),
{
    if let Source::Payload { input, column } = source {
        let f = input as int;
        assert(0 <= back[f] < dfs.len() && order[back[f]] == f);
        assert(reordered(dfs, order)[back[f]] == dfs[f]);
    }
}

proof fn lemma_countable(dfs: Seq<DataFrame>, keys: Seq<Seq<char>>, order: Seq<int>, back: Seq<int>)
    requires
        is_countable(dfs, keys),
        is_order(order, back, dfs.len()),
    ensures
        is_countable(reordered(dfs, order), keys),
{
    assert forall|f: int| 0 <= f < dfs.len() implies #[trigger] frame_names(
        reordered(dfs, order)[f],
    ).len() <= usize::MAX by {
        assert(0 <= order[f] < dfs.len());
        assert(frame_names(dfs[order[f]]).len() <= usize::MAX);
    }
}

/// The column of a name in the result, and in the one for the inputs in another order.
proof fn lemma_same_column(
    dfs: Seq<DataFrame>,
    keys: Seq<Seq<char>>,
    order: Seq<int>,
    back: Seq<int>,
    name: Seq<char>,
)
    requires
        is_countable(dfs, keys),
        is_order(order, back, dfs.len()),
        accepted(dfs, keys),
        names_of(dfs, keys, output_sources(dfs, keys)).contains(name),
    ensures
        ({
            let others = reordered(dfs, order);
            let names = names_of(dfs, keys, output_sources(dfs, keys));
            let too = names_of(others, keys, output_sources(others, keys));
            let p = position_of(names, name);
            let q = position_of(too, name);
            &&& too.contains(name)
            &&& 0 <= p < output_sources(dfs, keys).len()
            &&& 0 <= q < output_sources(others, keys).len()
            &&& source_valid(dfs, keys, output_sources(dfs, keys)[p])
            &&& output_sources(others, keys)[q] == moved(output_sources(dfs, keys)[p], back)
        }),
{
    let others = reordered(dfs, order);
    let sources = output_sources(dfs, keys);
    let ones = output_sources(others, keys);
    let names = names_of(dfs, keys, sources);
    let too = names_of(others, keys, ones);
    lemma_countable(dfs, keys, order, back);
    sources_are_valid(dfs, keys);
    sources_are_valid(others, keys);
    another_order_is_accepted(dfs, keys, order, back);
    lemma_position(names, name);
    let p = position_of(names, name);
    assert(first_at(names, name, p));
    assert(names[p] == source_name(dfs, keys, sources[p]));
    lemma_moved(dfs, keys, order, back, sources[p]);
    every_source_is_listed(others, keys, moved(sources[p], back));
    let there = ones.index_of(moved(sources[p], back));
    assert(too[there] == name);
    lemma_position(too, name);
    let q = position_of(too, name);
    assert(first_at(too, name, q));
    assert(too[q] == source_name(others, keys, ones[q]));
    lemma_one_source(others, keys, ones[q], moved(sources[p], back));
}

/// Twin rows show the same in a column and where it has gone.
proof fn lemma_same_cell(
    dfs: Seq<DataFrame>,
    keys: Seq<Seq<char>>,
    lists: Seq<Seq<Key>>,
    a: Seq<GroupModel>,
    t: int,
    r: int,
    b: Seq<GroupModel>,
    u: int,
    q: int,
    order: Seq<int>,
    back: Seq<int>,
    source: Source,
)
    requires
        is_countable(dfs, keys),
        is_order(order, back, dfs.len()),
        accepted(dfs, keys),
        are_encodings(dfs, keys, lists),
        is_merge(lists, a),
        is_merge(reordered(lists, order), b),
        0 <= t < a.len(),
        0 <= u < b.len(),
        0 <= r < rows_of(a[t]),
        0 <= q < rows_of(b[u]),
        is_match(lists, a[t], reordered(lists, order), b[u], back),
        same_picks(a[t], r, b[u], q, back),
        source_valid(dfs, keys, source),
    ensures
        source_cells(dfs, keys, source, a[t])[r] == source_cells(
            reordered(dfs, order),
            keys,
            moved(source, back),
            b[u],
        )[q],
{
    let others = reordered(dfs, order);
    match source {
        Source::Payload { input, column } => {
            let f = input as int;
            assert(0 <= back[f] < dfs.len() && order[back[f]] == f);
            assert(others[back[f]] == dfs[f]);
            assert(picked(b[u], back[f], q) == picked(a[t], f, r));
        },
        Source::Key { key } => {
            let lead = a[t].lead;
            let there = b[u].lead;
            lemma_lead(lists, a, t);
            lemma_share(lists, a, t, lead);
            lemma_lead(reordered(lists, order), b, u);
            lemma_share(reordered(lists, order), b, u, there);
            let i = a[t].starts[lead];
            let j = b[u].starts[there];
            let g = order[there];
            assert(others[there] == dfs[g]);
            assert(reordered(lists, order)[there] == lists[g]);
            assert(lists[lead][i] == lists[g][j]);
            lemma_key_cells(dfs, keys, lists, a, t, lead, i, b, u, there, j, order, back);
            assert(key_row(dfs, keys, lead, i)[key as int] == key_row(dfs, keys, g, j)[key as int]);
        },
    }
}

/// The rows that lead two matching groups have the same cells in their key columns.
proof fn lemma_key_cells(
    dfs: Seq<DataFrame>,
    keys: Seq<Seq<char>>,
    lists: Seq<Seq<Key>>,
    a: Seq<GroupModel>,
    t: int,
    lead: int,
    i: int,
    b: Seq<GroupModel>,
    u: int,
    there: int,
    j: int,
    order: Seq<int>,
    back: Seq<int>,
)
    requires
        is_order(order, back, dfs.len()),
        accepted(dfs, keys),
        are_encodings(dfs, keys, lists),
        is_merge(lists, a),
        is_merge(reordered(lists, order), b),
        0 <= t < a.len(),
        0 <= u < b.len(),
        is_match(lists, a[t], reordered(lists, order), b[u], back),
        0 <= lead < dfs.len(),
        0 <= there < dfs.len(),
        lead == a[t].lead,
        there == b[u].lead,
        i == a[t].starts[lead],
        j == b[u].starts[there],
        0 <= i < lists[lead].len(),
        0 <= j < lists[order[there]].len(),
        lists[lead][i] == lists[order[there]][j],
    ensures
        key_row(dfs, keys, lead, i) == key_row(dfs, keys, order[there], j),
{
    let g = order[there];
    assert(0 <= g < dfs.len() && back[g] == there);
    lemma_share(lists, a, t, lead);
    lemma_share(reordered(lists, order), b, u, there);
    if lists[lead][i] is None {
        assert(takes(a[t], lead, i));
        a_row_without_a_key_stands_alone(lists, a, t, lead, i);
        assert(b[u].lens[back[g]] == a[t].lens[g]);
        assert(g == lead);
        assert(b[u].lens[back[lead]] == a[t].lens[lead]);
    } else {
        equal_keys_come_from_equal_cells(dfs, keys, lists, lead, i, g, j);
    }
}

/// Twin rows are the same, read by column name.
proof fn lemma_twin_rows(
    dfs: Seq<DataFrame>,
    keys: Seq<Seq<char>>,
    lists: Seq<Seq<Key>>,
    a: Seq<GroupModel>,
    joined: DataFrame,
    row: int,
    b: Seq<GroupModel>,
    other: DataFrame,
    twin: int,
    order: Seq<int>,
    back: Seq<int>,
)
    requires
        is_countable(dfs, keys),
        is_order(order, back, dfs.len()),
        accepted(dfs, keys),
        are_encodings(dfs, keys, lists),
        is_merge(lists, a),
        is_merge(reordered(lists, order), b),
        is_joined(dfs, keys, a, joined),
        is_joined(reordered(dfs, order), keys, b, other),
        are_twins(lists, a, row, reordered(lists, order), b, twin, back),
        forall|name: Seq<char>| #[trigger]
            frame_names(joined).contains(name) <==> frame_names(other).contains(name),
    ensures
        row_by_name(joined, row) == row_by_name(other, twin),
{
    let others = reordered(dfs, order);
    let shuffled = reordered(lists, order);
    let (t, r, u, q) = choose|t: int, r: int, u: int, q: int|
        #![trigger stands_at(a, t, r, row), stands_at(b, u, q, twin)]
        stands_at(a, t, r, row) && stands_at(b, u, q, twin) && is_match(
            lists,
            a[t],
            shuffled,
            b[u],
            back,
        ) && same_picks(a[t], r, b[u], q, back);
    assert(is_join(dfs, keys, lists, a, joined));
    assert(is_join(others, keys, shuffled, b, other));
    let one = row_by_name(joined, row);
    let too = row_by_name(other, twin);
    assert forall|name: Seq<char>| one.dom().contains(name) implies one[name] == too[name] by {
        lemma_same_column(dfs, keys, order, back, name);
        let p = position_of(frame_names(joined), name);
        let source = output_sources(dfs, keys)[p];
        lemma_cell(dfs, keys, lists, a, joined, t, r, row);
        lemma_cell(others, keys, shuffled, b, other, u, q, twin);
        lemma_same_cell(dfs, keys, lists, a, t, r, b, u, q, order, back, source);
        let _ = output_sources(others, keys)[position_of(frame_names(other), name)];
    }
    assert(one.dom() =~= too.dom());
    assert(one =~= too);
}

proof fn lemma_same_names(
    dfs: Seq<DataFrame>,
    keys: Seq<Seq<char>>,
    a: Seq<GroupModel>,
    joined: DataFrame,
    b: Seq<GroupModel>,
    other: DataFrame,
    order: Seq<int>,
    back: Seq<int>,
)
    requires
        is_countable(dfs, keys),
        is_order(order, back, dfs.len()),
        accepted(dfs, keys),
        is_joined(dfs, keys, a, joined),
        is_joined(reordered(dfs, order), keys, b, other),
    ensures
        forall|name: Seq<char>| #[trigger]
            frame_names(joined).contains(name) <==> frame_names(other).contains(name),
        dtypes_by_name(joined) == dtypes_by_name(other),
{
    let others = reordered(dfs, order);
    lemma_countable(dfs, keys, order, back);
    another_order_is_accepted(dfs, keys, order, back);
    assert(reordered(others, back) =~= dfs);
    assert forall|name: Seq<char>| #[trigger]
        frame_names(joined).contains(name) <==> frame_names(other).contains(name) by {
        if frame_names(joined).contains(name) {
            lemma_same_column(dfs, keys, order, back, name);
        }
        if frame_names(other).contains(name) {
            lemma_same_column(others, keys, back, order, name);
        }
    }
    let one = dtypes_by_name(joined);
    let too = dtypes_by_name(other);
    assert forall|name: Seq<char>| one.dom().contains(name) implies one[name] == too[name] by {
        lemma_same_column(dfs, keys, order, back, name);
        let p = position_of(frame_names(joined), name);
        match output_sources(dfs, keys)[p] {
            Source::Key { key } => {
                assert(!bad_key(dfs, keys, order[0], key as int));
            },
            Source::Payload { input, .. } => {
                let f = input as int;
                assert(others[back[f]] == dfs[f]);
            },
        }
    }
    assert(one.dom() =~= too.dom());
    assert(one =~= too);
}

/// The order of the frames decides only where rows and columns stand: joined in another order,
/// frames give a frame with the same columns that holds the same rows, each as many times, read by
/// column name. It does not matter whether the frames are sorted.
pub proof fn the_order_of_frames_does_not_matter(
    dfs: Seq<DataFrame>,
    keys: Seq<Seq<char>>,
    order: Seq<int>,
    back: Seq<int>,
    joined: DataFrame,
    other: Result<DataFrame, JoinManyError>,
)
    requires
        is_countable(dfs, keys),
        is_order(order, back, dfs.len()),
        joins_to(dfs, keys, Ok::<DataFrame, JoinManyError>(joined)),
        joins_to(reordered(dfs, order), keys, other),
    ensures
        other is Ok,
        dtypes_by_name(joined) == dtypes_by_name(other->Ok_0),
        rows_by_name(joined).to_multiset() == rows_by_name(other->Ok_0).to_multiset(),
{
    let others = reordered(dfs, order);
    assert(accepted(dfs, keys));
    another_order_is_accepted(dfs, keys, order, back);
    let (lists, a) = choose|lists: Seq<Seq<Key>>, groups: Seq<GroupModel>|
        are_encodings(dfs, keys, lists) && #[trigger] is_merge(lists, groups) && is_outcome(
            dfs,
            keys,
            groups,
            Ok::<DataFrame, JoinManyError>(joined),
        );
    let (found, b) = choose|lists: Seq<Seq<Key>>, groups: Seq<GroupModel>|
        are_encodings(others, keys, lists) && #[trigger] is_merge(lists, groups) && is_outcome(
            others,
            keys,
            groups,
            other,
        );
    let shuffled = reordered(lists, order);
    assert(are_encodings(others, keys, shuffled)) by {
        assert forall|i: int| 0 <= i < others.len() implies are_keys_of(
            others[i],
            keys,
            #[trigger] shuffled[i],
        ) by {
            let _ = lists[order[i]];
        }
    }
    lemma_one_encoding(others, keys, found, shuffled);
    let places = the_order_of_lists_moves_rows(lists, a, b, order, back);
    assert(other is Ok);
    let df = other->Ok_0;
    lemma_same_names(dfs, keys, a, joined, b, df, order, back);
    assert(is_join(dfs, keys, lists, a, joined));
    assert(is_join(others, keys, shuffled, b, df));
    result_has_one_row_for_each_combination(dfs, keys, lists, a, joined, 0);
    result_has_one_row_for_each_combination(others, keys, shuffled, b, df, 0);
    let one = rows_by_name(joined);
    let too = rows_by_name(df);
    assert forall|row: int| 0 <= row < one.len() implies 0 <= #[trigger] places[row] < too.len()
        && too[places[row]] == one[row] by {
        lemma_twin_rows(dfs, keys, lists, a, joined, row, b, df, places[row], order, back);
    }
    lemma_same_things(one, too, places);
}

} // verus!
