//! The join of several frames at once, and the join of the last of them with what the others give.
use vstd::prelude::*;

use vstd::arithmetic::div_mod::{
    lemma_div_denominator, lemma_multiply_divide_lt, lemma_small_mod,
};
use polars_core::frame::DataFrame;

use crate::empty_laws::{added_sources, is_countable, lemma_sources_with, sources_are_valid};
use crate::frames::{frame_cells, frame_dtypes, frame_names};
use crate::join_inputs::{
    accepted, all_payload_sources, bad_key, earlier, output_sources,
    payload, payload_sources, repeated_column, source_dtype, source_name, source_valid,
    JoinManyError, Source,
};
use crate::join_laws::{
    every_row_is_taken, group_key, lemma_lead, lemma_share, rows_of_a_group_have_its_key,
};
use crate::join_many::{
    are_encodings, are_keys_of, filled, is_joined, is_outcome, joins_to, key_cells,
    key_columns_of, key_dtypes_of, key_masks_of, oversized, source_cells, total_rows,
};
use crate::key_laws::{lemma_joined_dtypes, lemma_joined_key_row, lemma_key_position};
use crate::layout::{
    combinations_from, digit, factor, lemma_from_positive, lemma_rows_positive, picked, rows_of,
};
use crate::merge::{is_merge, GroupModel};
use crate::nesting_laws::{
    all_folded, folded, front_of, led_in_front, lemma_ones, lemma_result_key,
    merging_the_last_list_folds_the_merge, result_keys,
};
use crate::reordering_laws::lemma_one_source;
use crate::result_laws::{
    equal_keys_come_from_equal_cells, is_join, key_row, lemma_cell, lemma_group_at,
    lemma_one_encoding, lemma_place, lemma_totals, masks_are_heeded, masks_unheeded,
    result_has_one_row_for_each_combination, stands_at, the_key_of_a_row,
};
use crate::row_keys::{bytes_stand_for, complete, is_row, masks_dropped, row_key, row_of, Key};

verus! {

/// Two frames.
pub open spec fn pair_of(df: DataFrame, last: DataFrame) -> Seq<DataFrame> {
    seq![df, last]
}

proof fn lemma_combinations_push(lens: Seq<int>, c: int, f: int)
    requires
        0 <= f <= lens.len(),
    ensures
        combinations_from(lens.push(c), f) == combinations_from(lens, f) * factor(c),
    decreases lens.len() - f,
{
    if f == lens.len() {
        assert(lens.push(c)[f] == c);
        assert(combinations_from(lens.push(c), f + 1) == 1);
        assert(combinations_from(lens, f) == 1);
        assert(factor(c) * 1 == 1 * factor(c));
    } else {
        lemma_combinations_push(lens, c, f + 1);
        assert(lens.push(c)[f] == lens[f]);
        let a = factor(lens[f]);
        let b = combinations_from(lens, f + 1);
        let d = factor(c);
        assert(a * (b * d) == (a * b) * d) by (nonlinear_arith);
    }
}

proof fn lemma_two_lists(a: int, b: int)
    ensures
        combinations_from(seq![a, b], 2) == 1,
        combinations_from(seq![a, b], 1) == factor(b),
        combinations_from(seq![a, b], 0) == factor(a) * factor(b),
{
    let lens = seq![a, b];
    assert(combinations_from(lens, 2) == 1);
    assert(combinations_from(lens, 1) == factor(lens[1]) * combinations_from(lens, 2));
    assert(combinations_from(lens, 0) == factor(lens[0]) * combinations_from(lens, 1));
}

/// A group and its fold have as many rows.
proof fn lemma_folded_rows(some: Seq<GroupModel>, all: Seq<GroupModel>, n: int, t: int)
    requires
        0 <= n,
        0 <= t < all.len(),
        all[t].lens.len() == n + 1,
        all[t].lead < n ==> some[led_in_front(all, n, t)] == front_of(all[t], n),
        all[t].lead >= n ==> forall|f: int| 0 <= f < n ==> #[trigger] all[t].lens[f] == 0,
    ensures
        rows_of(folded(some, all, n, t)) == rows_of(all[t]),
        all[t].lead < n ==> rows_of(all[t]) == rows_of(some[led_in_front(all, n, t)]) * factor(
            all[t].lens[n],
        ),
{
    let front = all[t].lens.take(n);
    let c = all[t].lens[n];
    assert(all[t].lens =~= front.push(c));
    lemma_combinations_push(front, c, 0);
    if all[t].lead < n {
        let u = led_in_front(all, n, t);
        lemma_rows_positive(some[u]);
        lemma_two_lists(rows_of(some[u]), c);
    } else {
        lemma_two_lists(0, c);
        assert forall|f: int| 0 <= f < front.len() implies factor(#[trigger] front[f]) == 1 by {
            assert(all[t].lens[f] == 0);
        }
        lemma_ones(front, 0);
    }
}

/// What a row of a group picks is what the row of its fold picks, of the last list and, through the
/// row that the first lists give, of these.
proof fn lemma_folded_picks(some: Seq<GroupModel>, all: Seq<GroupModel>, n: int, t: int, r: int)
    requires
        0 <= n,
        0 <= t < all.len(),
        all[t].lens.len() == n + 1,
        all[t].starts.len() == n + 1,
        all[t].lead < n ==> some[led_in_front(all, n, t)] == front_of(all[t], n),
        all[t].lead >= n ==> forall|f: int| 0 <= f < n ==> #[trigger] all[t].lens[f] == 0,
        0 <= r < rows_of(all[t]),
    ensures
        picked(folded(some, all, n, t), 1, r) == picked(all[t], n, r),
        all[t].lead >= n ==> picked(folded(some, all, n, t), 0, r) is None,
        all[t].lead < n ==> {
            let u = led_in_front(all, n, t);
            let q = r / factor(all[t].lens[n]);
            &&& 0 <= q < rows_of(some[u])
            &&& picked(folded(some, all, n, t), 0, r) == Some(total_rows(some, u) + q)
            &&& forall|f: int|
                0 <= f < n ==> #[trigger] picked(all[t], f, r) == picked(some[u], f, q)
        },
{
    let front = all[t].lens.take(n);
    let c = all[t].lens[n];
    let d = factor(c);
    let h = folded(some, all, n, t);
    assert(all[t].lens =~= front.push(c));
    lemma_folded_rows(some, all, n, t);
    assert(combinations_from(all[t].lens, n + 1) == 1);
    if all[t].lead < n {
        let u = led_in_front(all, n, t);
        let rows = rows_of(some[u]);
        let q = r / d;
        lemma_rows_positive(some[u]);
        lemma_two_lists(rows, c);
        assert(rows * d == d * rows) by (nonlinear_arith);
        lemma_multiply_divide_lt(r, d, rows);
        assert(0 <= q) by (nonlinear_arith)
            requires
                q == r / d,
                r >= 0,
                d >= 1,
        ;
        lemma_small_mod(q as nat, rows as nat);
        assert(h.lens[0] == rows);
        assert(digit(h.lens, 0, r) == q);
        assert forall|f: int| 0 <= f < n implies #[trigger] picked(all[t], f, r) == picked(
            some[u],
            f,
            q,
        ) by {
            lemma_combinations_push(front, c, f + 1);
            lemma_from_positive(front, f + 1);
            let b = combinations_from(front, f + 1);
            assert(b * d == d * b) by (nonlinear_arith);
            lemma_div_denominator(r, d, b);
            assert(some[u].lens[f] == all[t].lens[f]);
            assert(some[u].starts[f] == all[t].starts[f]);
        }
    } else {
        lemma_two_lists(0, c);
    }
}

proof fn lemma_columns_ascend(dfs: Seq<DataFrame>, keys: Seq<Seq<char>>, f: int, n: int)
    requires
        is_countable(dfs, keys),
        0 <= f < dfs.len(),
        n <= frame_names(dfs[f]).len(),
    ensures
        forall|p: int|
            0 <= p < payload_sources(dfs, keys, f, n).len() ==> {
                &&& #[trigger] payload_sources(dfs, keys, f, n)[p] is Payload
                &&& payload_sources(dfs, keys, f, n)[p]->input == f
                &&& payload_sources(dfs, keys, f, n)[p]->column < n
            },
        forall|p: int, q: int|
            0 <= p < q < payload_sources(dfs, keys, f, n).len() ==> (
            #[trigger] payload_sources(dfs, keys, f, n)[p])->column < (
            #[trigger] payload_sources(dfs, keys, f, n)[q])->column,
    decreases n,
{
    if n > 0 {
        lemma_columns_ascend(dfs, keys, f, n - 1);
        assert(frame_names(dfs[f]).len() <= usize::MAX);
    }
}

/// One column comes before another, by the inputs that they come from and their places there.
spec fn comes_before(a: Source, b: Source) -> bool {
    earlier(a->input as int, a->column as int, b->input as int, b->column as int)
}

proof fn lemma_sources_ascend(dfs: Seq<DataFrame>, keys: Seq<Seq<char>>, n: int)
    requires
        is_countable(dfs, keys),
        0 <= n <= dfs.len(),
    ensures
        forall|p: int|
            0 <= p < all_payload_sources(dfs, keys, n).len() ==> {
                &&& #[trigger] all_payload_sources(dfs, keys, n)[p] is Payload
                &&& all_payload_sources(dfs, keys, n)[p]->input < n
            },
        forall|p: int, q: int|
            0 <= p < q < all_payload_sources(dfs, keys, n).len() ==> comes_before(
                #[trigger] all_payload_sources(dfs, keys, n)[p],
                #[trigger] all_payload_sources(dfs, keys, n)[q],
            ),
    decreases n,
{
    if n > 0 {
        lemma_sources_ascend(dfs, keys, n - 1);
        let len = frame_names(dfs[n - 1]).len() as int;
        lemma_columns_ascend(dfs, keys, n - 1, len);
        let before = all_payload_sources(dfs, keys, n - 1);
        let more = payload_sources(dfs, keys, n - 1, len);
        let sum = before + more;
        assert forall|p: int| 0 <= p < sum.len() implies #[trigger] sum[p] is Payload
            && sum[p]->input < n by {
            if p < before.len() {
                assert(sum[p] == before[p]);
            } else {
                assert(sum[p] == more[p - before.len()]);
            }
        }
        assert forall|p: int, q: int| 0 <= p < q < sum.len() implies comes_before(
            #[trigger] sum[p],
            #[trigger] sum[q],
        ) by {
            if q < before.len() {
                assert(sum[p] == before[p] && sum[q] == before[q]);
            } else {
                assert(sum[q] == more[q - before.len()]);
                if p < before.len() {
                    assert(sum[p] == before[p]);
                } else {
                    assert(sum[p] == more[p - before.len()]);
                }
            }
        }
    }
}

/// No column of the result comes from where another does.
proof fn lemma_sources_differ(dfs: Seq<DataFrame>, keys: Seq<Seq<char>>, p: int, q: int)
    requires
        is_countable(dfs, keys),
        keys.len() <= p < q < output_sources(dfs, keys).len(),
    ensures
        output_sources(dfs, keys)[p] != output_sources(dfs, keys)[q],
{
    lemma_sources_ascend(dfs, keys, dfs.len() as int);
    let rest = all_payload_sources(dfs, keys, dfs.len() as int);
    let m = keys.len() as int;
    assert(output_sources(dfs, keys)[p] == rest[p - m]);
    assert(output_sources(dfs, keys)[q] == rest[q - m]);
    assert(comes_before(rest[p - m], rest[q - m]));
}

/// The columns of the joined frame that are no keys are its columns behind the keys.
proof fn lemma_joined_columns(
    dfs: Seq<DataFrame>,
    last: DataFrame,
    keys: Seq<Seq<char>>,
    groups: Seq<GroupModel>,
    df: DataFrame,
    q: int,
)
    requires
        is_countable(dfs, keys),
        is_countable(pair_of(df, last), keys),
        accepted(dfs, keys),
        is_joined(dfs, keys, groups, df),
        0 <= q <= output_sources(dfs, keys).len(),
    ensures
        payload_sources(pair_of(df, last), keys, 0, q).len() == if q <= keys.len() {
            0
        } else {
            q - keys.len()
        },
        forall|j: int|
            0 <= j < q - keys.len() ==> #[trigger] payload_sources(pair_of(df, last), keys, 0, q)[j]
                == (Source::Payload { input: 0, column: (keys.len() + j) as usize }),
    decreases q,
{
    if q > 0 {
        lemma_joined_columns(dfs, last, keys, groups, df, q - 1);
        let pair = pair_of(df, last);
        let sources = output_sources(dfs, keys);
        sources_are_valid(dfs, keys);
        assert(frame_names(pair[0]).len() <= usize::MAX);
        assert(source_valid(dfs, keys, sources[q - 1]));
        assert(frame_names(df)[q - 1] == source_name(dfs, keys, sources[q - 1]));
        if q - 1 < keys.len() {
            assert(keys.contains(keys[q - 1]));
            assert(!payload(pair, keys, 0, q - 1));
        } else {
            assert(payload(pair, keys, 0, q - 1));
        }
    }
}

/// The columns of the last frame are the same in both joins.
proof fn lemma_last_columns(
    dfs: Seq<DataFrame>,
    last: DataFrame,
    keys: Seq<Seq<char>>,
    df: DataFrame,
    q: int,
)
    requires
        is_countable(dfs.push(last), keys),
        0 <= q <= frame_names(last).len(),
    ensures
        payload_sources(pair_of(df, last), keys, 1, q).len() == payload_sources(
            dfs.push(last),
            keys,
            dfs.len() as int,
            q,
        ).len(),
        forall|j: int|
            0 <= j < payload_sources(pair_of(df, last), keys, 1, q).len()
                ==> #[trigger] payload_sources(pair_of(df, last), keys, 1, q)[j] == (Source::Payload {
                input: 1,
                column: payload_sources(dfs.push(last), keys, dfs.len() as int, q)[j]->column,
            }),
        forall|j: int|
            0 <= j < payload_sources(dfs.push(last), keys, dfs.len() as int, q).len()
                ==> #[trigger] payload_sources(dfs.push(last), keys, dfs.len() as int, q)[j] is Payload,
    decreases q,
{
    if q > 0 {
        lemma_last_columns(dfs, last, keys, df, q - 1);
        let n = dfs.len() as int;
        assert(dfs.push(last)[n] == last);
        assert(pair_of(df, last)[1] == last);
        assert(payload(pair_of(df, last), keys, 1, q - 1) == payload(dfs.push(last), keys, n, q - 1));
    }
}

/// Where column `p` of the join of all frames comes from in the join of the last frame with what
/// the others give.
spec fn nested(source: Source, n: int, p: int) -> Source {
    match source {
        Source::Key { .. } => source,
        Source::Payload { input, column } => if input < n {
            Source::Payload { input: 0, column: p as usize }
        } else {
            Source::Payload { input: 1, column }
        },
    }
}

proof fn lemma_nested_sources(
    dfs: Seq<DataFrame>,
    last: DataFrame,
    keys: Seq<Seq<char>>,
    groups: Seq<GroupModel>,
    df: DataFrame,
)
    requires
        is_countable(dfs.push(last), keys),
        is_countable(dfs, keys),
        is_countable(pair_of(df, last), keys),
        accepted(dfs, keys),
        is_joined(dfs, keys, groups, df),
    ensures
        output_sources(pair_of(df, last), keys).len() == output_sources(dfs.push(last), keys).len(),
        forall|p: int|
            0 <= p < output_sources(dfs.push(last), keys).len() ==> output_sources(
                pair_of(df, last),
                keys,
            )[p] == nested(
                #[trigger] output_sources(dfs.push(last), keys)[p],
                dfs.len() as int,
                p,
            ),
        forall|p: int|
            0 <= p < output_sources(dfs.push(last), keys).len() ==> {
                let source = #[trigger] output_sources(dfs.push(last), keys)[p];
                source is Payload ==> if source->input < dfs.len() {
                    keys.len() <= p < output_sources(dfs, keys).len() && output_sources(
                        dfs,
                        keys,
                    )[p] == source
                } else {
                    source->input == dfs.len()
                }
            },
{
    let pair = pair_of(df, last);
    let n = dfs.len() as int;
    let m = keys.len() as int;
    let sources = output_sources(dfs, keys);
    let added = added_sources(dfs, last, keys);
    let all = output_sources(dfs.push(last), keys);
    lemma_sources_with(dfs, last, keys);
    sources_are_valid(dfs, keys);
    lemma_joined_columns(dfs, last, keys, groups, df, sources.len() as int);
    lemma_last_columns(dfs, last, keys, df, frame_names(last).len() as int);
    lemma_columns_ascend(dfs.push(last), keys, n, frame_names(last).len() as int);
    assert(dfs.push(last)[n] == last);
    assert(frame_names(df).len() == sources.len());
    let front = payload_sources(pair, keys, 0, frame_names(df).len() as int);
    let back = payload_sources(pair, keys, 1, frame_names(last).len() as int);
    assert(pair[0] == df && pair[1] == last);
    assert(all_payload_sources(pair, keys, 0) =~= Seq::empty());
    assert(all_payload_sources(pair, keys, 1) =~= front);
    assert(all_payload_sources(pair, keys, 2) =~= front + back);
    let folded = output_sources(pair, keys);
    assert(m <= sources.len());
    assert(folded.len() == m + (sources.len() - m) + added.len());
    assert forall|p: int| 0 <= p < all.len() implies folded[p] == nested(#[trigger] all[p], n, p)
        && (all[p] is Payload ==> if all[p]->input < n {
        m <= p < sources.len() && sources[p] == all[p]
    } else {
        all[p]->input == n
    }) by {
        if p < sources.len() {
            assert(all[p] == sources[p]);
            assert(source_valid(dfs, keys, sources[p]));
            if p >= m {
                assert(folded[p] == front[p - m]);
            } else {
                assert(folded[p] == (Source::Key { key: p as usize }));
            }
        } else {
            assert(all[p] == added[p - sources.len()]);
            assert(folded[p] == back[p - sources.len()]);
        }
    }
}

/// What the last frame is joined with is fit to be joined with it.
proof fn lemma_pair_accepted(
    dfs: Seq<DataFrame>,
    last: DataFrame,
    keys: Seq<Seq<char>>,
    groups: Seq<GroupModel>,
    df: DataFrame,
)
    requires
        is_countable(dfs.push(last), keys),
        is_countable(dfs, keys),
        is_countable(pair_of(df, last), keys),
        accepted(dfs, keys),
        accepted(dfs.push(last), keys),
        is_joined(dfs, keys, groups, df),
    ensures
        accepted(pair_of(df, last), keys),
{
    let pair = pair_of(df, last);
    let more = dfs.push(last);
    let n = dfs.len() as int;
    assert(pair[0] == df && pair[1] == last);
    assert(more[n] == last && more[0] == dfs[0]);
    assert forall|i: int, k: int| 0 <= i < pair.len() && 0 <= k < keys.len() implies !#[trigger] bad_key(
        pair,
        keys,
        i,
        k,
    ) by {
        lemma_key_position(dfs, keys, groups, df, k);
        assert(!bad_key(more, keys, n, k));
        if i != 0 {
            assert(i == 1);
        }
    }
    assert forall|i: int, c: int| !#[trigger] repeated_column(pair, keys, i, c) by {
        if repeated_column(pair, keys, i, c) {
            let (j, d) = choose|j: int, d: int|
                earlier(j, d, i, c) && #[trigger] payload(pair, keys, j, d) && frame_names(
                    pair[j],
                )[d] == frame_names(pair[i])[c];
            let a = lemma_column_origin(dfs, last, keys, groups, df, i, c);
            let b = lemma_column_origin(dfs, last, keys, groups, df, j, d);
            lemma_one_source(more, keys, a, b);
            if i == j && i == 0 {
                lemma_sources_differ(dfs, keys, d, c);
            }
        }
    }
}

/// Where a column of the pair comes from in the join of all frames.
proof fn lemma_column_origin(
    dfs: Seq<DataFrame>,
    last: DataFrame,
    keys: Seq<Seq<char>>,
    groups: Seq<GroupModel>,
    df: DataFrame,
    i: int,
    c: int,
) -> (source: Source)
    requires
        is_countable(dfs.push(last), keys),
        is_countable(dfs, keys),
        is_countable(pair_of(df, last), keys),
        accepted(dfs, keys),
        is_joined(dfs, keys, groups, df),
        payload(pair_of(df, last), keys, i, c),
    ensures
        source_valid(dfs.push(last), keys, source),
        source_name(dfs.push(last), keys, source) == frame_names(pair_of(df, last)[i])[c],
        source is Payload,
        i == 0 ==> {
            &&& keys.len() <= c < output_sources(dfs, keys).len()
            &&& source == output_sources(dfs, keys)[c]
            &&& source->input < dfs.len()
        },
        i != 0 ==> source == (Source::Payload { input: dfs.len() as usize, column: c as usize }),
        i == 0 || i == 1,
        0 <= c <= usize::MAX,
        dfs.len() <= usize::MAX,
{
    let pair = pair_of(df, last);
    let more = dfs.push(last);
    let n = dfs.len() as int;
    if i == 0 {
        let sources = output_sources(dfs, keys);
        sources_are_valid(dfs, keys);
        assert(pair[0] == df);
        assert(frame_names(df)[c] == source_name(dfs, keys, sources[c]));
        assert(source_valid(dfs, keys, sources[c]));
        if c < keys.len() {
            assert(keys.contains(keys[c]));
        }
        let input = sources[c]->input as int;
        assert(more[input] == dfs[input]);
        assert(frame_names(dfs[input]).len() <= usize::MAX);
        assert(frame_names(pair[0]).len() <= usize::MAX);
        sources[c]
    } else {
        assert(pair[1] == last);
        assert(more[n] == last);
        assert(frame_names(more[n]).len() <= usize::MAX);
        Source::Payload { input: n as usize, column: c as usize }
    }
}

/// The joined frame keeps the keys: its masks go unheeded exactly where those of the frames with
/// rows do.
pub open spec fn keys_kept(dfs: Seq<DataFrame>, keys: Seq<Seq<char>>, df: DataFrame) -> bool {
    forall|f: int|
        0 <= f < dfs.len() && key_columns_of(dfs[f], keys)[0].len() > 0
            ==> #[trigger] masks_unheeded(dfs, keys, f) == masks_dropped(
            key_columns_of(df, keys),
            key_masks_of(df, keys),
        )
}

/// A row of the joined frame has the key of its group.
proof fn lemma_joined_key(
    dfs: Seq<DataFrame>,
    keys: Seq<Seq<char>>,
    lists: Seq<Seq<Key>>,
    some: Seq<GroupModel>,
    df: DataFrame,
    t: int,
    r: int,
    row: int,
)
    requires
        is_countable(dfs, keys),
        accepted(dfs, keys),
        are_encodings(dfs, keys, lists),
        keys_kept(dfs, keys, df),
        is_join(dfs, keys, lists, some, df),
        stands_at(some, t, r, row),
    ensures
        group_key(lists, some[t]) == row_key(
            key_dtypes_of(df, keys),
            key_columns_of(df, keys),
            key_masks_of(df, keys),
            row,
        ),
        is_row(key_dtypes_of(df, keys), row_of(key_columns_of(df, keys), row)),
        bytes_stand_for(key_dtypes_of(df, keys), row_of(key_columns_of(df, keys), row)),
{
    let lead = some[t].lead;
    let start = some[t].starts[lead];
    assert(0 <= lead < dfs.len() && 0 <= start < lists[lead].len()) by {
        lemma_lead(lists, some, t);
        lemma_share(lists, some, t, lead);
    }
    lemma_joined_key_row(dfs, keys, lists, some, df, t, r, row);
    lemma_joined_dtypes(dfs, keys, some, df, lead);
    the_key_of_a_row(dfs, keys, lists, lead, start);
    assert(are_keys_of(dfs[lead], keys, lists[lead]));
    assert(masks_unheeded(dfs, keys, lead) == masks_dropped(
        key_columns_of(df, keys),
        key_masks_of(df, keys),
    ));
}

/// The keys of the rows of the joined frame are those of their groups.
proof fn lemma_joined_encoding(
    dfs: Seq<DataFrame>,
    keys: Seq<Seq<char>>,
    lists: Seq<Seq<Key>>,
    some: Seq<GroupModel>,
    df: DataFrame,
)
    requires
        is_countable(dfs, keys),
        accepted(dfs, keys),
        are_encodings(dfs, keys, lists),
        keys_kept(dfs, keys, df),
        is_join(dfs, keys, lists, some, df),
    ensures
        are_keys_of(df, keys, result_keys(lists, some)),
{
    let rows = result_keys(lists, some);
    let dtypes = key_dtypes_of(df, keys);
    let columns = key_columns_of(df, keys);
    let masks = key_masks_of(df, keys);
    lemma_totals(some, 0, some.len() as int);
    lemma_key_position(dfs, keys, some, df, 0);
    result_has_one_row_for_each_combination(dfs, keys, lists, some, df, 0);
    assert(rows.len() == columns[0].len());
    assert forall|row: int| 0 <= row < rows.len() implies #[trigger] rows[row] == row_key(
        dtypes,
        columns,
        masks,
        row,
    ) by {
        let t = lemma_group_at(some, row, some.len() as int);
        let r = row - total_rows(some, t);
        lemma_result_key(lists, some, t, r, row);
        lemma_joined_key(dfs, keys, lists, some, df, t, r, row);
    }
    assert forall|row: int| 0 <= row < rows.len() implies is_row(
        dtypes,
        #[trigger] row_of(columns, row),
    ) && bytes_stand_for(dtypes, row_of(columns, row)) by {
        let t = lemma_group_at(some, row, some.len() as int);
        let r = row - total_rows(some, t);
        lemma_joined_key(dfs, keys, lists, some, df, t, r, row);
    }
}

/// Keys are kept where there are three at most, or where every frame with rows has one without a
/// null in its key columns.
pub proof fn keys_are_kept(
    dfs: Seq<DataFrame>,
    keys: Seq<Seq<char>>,
    df: DataFrame,
)
    requires
        is_countable(dfs, keys),
        joins_to(dfs, keys, Ok::<DataFrame, JoinManyError>(df)),
        keys.len() <= 3 || forall|f: int|
            #![trigger key_columns_of(dfs[f], keys)]
            0 <= f < dfs.len() && key_columns_of(dfs[f], keys)[0].len() > 0 ==> exists|k: int|
                0 <= k < key_columns_of(dfs[f], keys)[0].len() && #[trigger] complete(
                    key_row(dfs, keys, f, k),
                ),
    ensures
        keys_kept(dfs, keys, df),
{
    assert(accepted(dfs, keys));
    let (lists, some) = lemma_open(dfs, keys, Ok::<DataFrame, JoinManyError>(df));
    lemma_is_join(dfs, keys, lists, some, df);
    assert forall|f: int|
        0 <= f < dfs.len() && key_columns_of(dfs[f], keys)[0].len() > 0 implies #[trigger] masks_unheeded(
        dfs,
        keys,
        f,
    ) == masks_dropped(key_columns_of(df, keys), key_masks_of(df, keys)) by {
        masks_are_heeded(dfs, keys, f);
        lemma_joined_heeded(dfs, keys, lists, some, df, f);
    }
}

/// The masks of the joined frame are heeded where there are three keys at most, or a frame has a
/// row without a null in its key columns.
proof fn lemma_joined_heeded(
    dfs: Seq<DataFrame>,
    keys: Seq<Seq<char>>,
    lists: Seq<Seq<Key>>,
    some: Seq<GroupModel>,
    df: DataFrame,
    f: int,
)
    requires
        is_countable(dfs, keys),
        accepted(dfs, keys),
        are_encodings(dfs, keys, lists),
        is_join(dfs, keys, lists, some, df),
        0 <= f < dfs.len(),
        keys.len() <= 3 || exists|k: int|
            0 <= k < key_columns_of(dfs[f], keys)[0].len() && #[trigger] complete(
                key_row(dfs, keys, f, k),
            ),
    ensures
        !masks_dropped(key_columns_of(df, keys), key_masks_of(df, keys)),
{
    let pair = pair_of(df, df);
    assert(pair[0] == df);
    if keys.len() > 3 {
        let k = choose|k: int|
            0 <= k < key_columns_of(dfs[f], keys)[0].len() && #[trigger] complete(
                key_row(dfs, keys, f, k),
            );
        assert(are_keys_of(dfs[f], keys, lists[f]));
        the_key_of_a_row(dfs, keys, lists, f, k);
        let t = every_row_is_taken(lists, some, f, k);
        rows_of_a_group_have_its_key(lists, some, t, f, k);
        lemma_lead(lists, some, t);
        let lead = some[t].lead;
        let start = some[t].starts[lead];
        lemma_share(lists, some, t, lead);
        equal_keys_come_from_equal_cells(dfs, keys, lists, f, k, lead, start);
        lemma_rows_positive(some[t]);
        let row = total_rows(some, t);
        assert(stands_at(some, t, 0, row));
        lemma_place(some, t, 0);
        lemma_joined_key_row(dfs, keys, lists, some, df, t, 0, row);
        lemma_key_position(dfs, keys, some, df, 0);
        result_has_one_row_for_each_combination(dfs, keys, lists, some, df, 0);
        assert(key_row(pair, keys, 0, row) == row_of(key_columns_of(df, keys), row));
        assert(complete(key_row(pair, keys, 0, row)));
    }
    masks_are_heeded(pair, keys, 0);
}

/// Group `t` and its fold belong together: the first lists give the rows of a group of their merge,
/// or nothing.
spec fn is_folded(some: Seq<GroupModel>, all: Seq<GroupModel>, n: int, t: int) -> bool {
    let u = led_in_front(all, n, t);
    &&& all[t].lens.len() == n + 1
    &&& all[t].starts.len() == n + 1
    &&& 0 <= all[t].lead <= n
    &&& all[t].lead < n ==> 0 <= u < some.len() && some[u] == front_of(all[t], n)
    &&& all[t].lead >= n ==> forall|f: int| 0 <= f < n ==> #[trigger] all[t].lens[f] == 0
}

/// Column `p` of the join of all frames is a key, a column of the joined frame, or one of the last.
spec fn has_origin(dfs: Seq<DataFrame>, last: DataFrame, keys: Seq<Seq<char>>, p: int) -> bool {
    let source = output_sources(dfs.push(last), keys)[p];
    &&& source_valid(dfs.push(last), keys, source)
    &&& source is Payload ==> if source->input < dfs.len() {
        &&& keys.len() <= p < output_sources(dfs, keys).len()
        &&& output_sources(dfs, keys)[p] == source
        &&& p <= usize::MAX
    } else {
        source->input == dfs.len()
    }
}

/// A cell of the joined frame, in the row that stands in place `q` of group `u`.
proof fn lemma_joined_cell(
    dfs: Seq<DataFrame>,
    keys: Seq<Seq<char>>,
    lists: Seq<Seq<Key>>,
    some: Seq<GroupModel>,
    df: DataFrame,
    p: int,
    u: int,
    q: int,
)
    requires
        is_join(dfs, keys, lists, some, df),
        0 <= u < some.len(),
        0 <= q < rows_of(some[u]),
        0 <= p < output_sources(dfs, keys).len(),
    ensures
        frame_cells(df)[p][total_rows(some, u) + q] == source_cells(
            dfs,
            keys,
            output_sources(dfs, keys)[p],
            some[u],
        )[q],
{
    lemma_cell(dfs, keys, lists, some, df, u, q, total_rows(some, u) + q);
    let _ = output_sources(dfs, keys)[p];
}

/// A key column holds the same for a group and its fold.
proof fn lemma_nested_key(
    dfs: Seq<DataFrame>,
    last: DataFrame,
    keys: Seq<Seq<char>>,
    lists: Seq<Seq<Key>>,
    some: Seq<GroupModel>,
    df: DataFrame,
    all: Seq<GroupModel>,
    key: usize,
    t: int,
)
    requires
        is_countable(dfs, keys),
        accepted(dfs, keys),
        is_join(dfs, keys, lists, some, df),
        is_folded(some, all, dfs.len() as int, t),
        0 <= t < all.len(),
        key < keys.len(),
    ensures
        source_cells(
            pair_of(df, last),
            keys,
            Source::Key { key },
            folded(some, all, dfs.len() as int, t),
        ) == source_cells(dfs.push(last), keys, Source::Key { key }, all[t]),
{
    let n = dfs.len() as int;
    let more = dfs.push(last);
    let pair = pair_of(df, last);
    let source = Source::Key { key };
    let group = folded(some, all, n, t);
    let u = led_in_front(all, n, t);
    let lead = all[t].lead;
    lemma_folded_rows(some, all, n, t);
    assert(more[n] == last && pair[0] == df && pair[1] == last);
    if lead < n {
        lemma_rows_positive(some[u]);
        lemma_key_position(dfs, keys, some, df, key as int);
        lemma_joined_cell(dfs, keys, lists, some, df, key as int, u, 0);
        assert(some[u].lead == lead);
        assert(some[u].starts[lead] == all[t].starts[lead]);
        assert(more[lead] == dfs[lead]);
        assert(key_cells(df, keys[key as int])[group.starts[0]] == key_cells(
            dfs[lead],
            keys[key as int],
        )[all[t].starts[lead]]);
    }
    assert(source_cells(pair, keys, source, group) =~= source_cells(more, keys, source, all[t]));
}

/// A column of the joined frame holds the same for a group and its fold.
proof fn lemma_nested_front(
    dfs: Seq<DataFrame>,
    last: DataFrame,
    keys: Seq<Seq<char>>,
    lists: Seq<Seq<Key>>,
    some: Seq<GroupModel>,
    df: DataFrame,
    all: Seq<GroupModel>,
    p: int,
    t: int,
    r: int,
)
    requires
        is_join(dfs, keys, lists, some, df),
        is_folded(some, all, dfs.len() as int, t),
        0 <= t < all.len(),
        0 <= r < rows_of(all[t]),
        0 <= p < output_sources(dfs, keys).len(),
        output_sources(dfs, keys)[p] is Payload,
        source_valid(dfs, keys, output_sources(dfs, keys)[p]),
        p <= usize::MAX,
    ensures
        source_cells(
            pair_of(df, last),
            keys,
            Source::Payload { input: 0, column: p as usize },
            folded(some, all, dfs.len() as int, t),
        )[r] == source_cells(
            dfs.push(last),
            keys,
            output_sources(dfs, keys)[p],
            all[t],
        )[r],
{
    let n = dfs.len() as int;
    let source = output_sources(dfs, keys)[p];
    let f = source->input as int;
    let u = led_in_front(all, n, t);
    lemma_folded_rows(some, all, n, t);
    lemma_folded_picks(some, all, n, t, r);
    assert(dfs.push(last)[f] == dfs[f]);
    assert(pair_of(df, last)[0] == df);
    if all[t].lead < n {
        let q = r / factor(all[t].lens[n]);
        lemma_joined_cell(dfs, keys, lists, some, df, p, u, q);
        assert(picked(all[t], f, r) == picked(some[u], f, q));
    } else {
        assert(all[t].lens[f] == 0);
    }
}

proof fn lemma_nested_front_column(
    dfs: Seq<DataFrame>,
    last: DataFrame,
    keys: Seq<Seq<char>>,
    lists: Seq<Seq<Key>>,
    some: Seq<GroupModel>,
    df: DataFrame,
    all: Seq<GroupModel>,
    p: int,
    t: int,
)
    requires
        is_join(dfs, keys, lists, some, df),
        is_folded(some, all, dfs.len() as int, t),
        0 <= t < all.len(),
        0 <= p < output_sources(dfs, keys).len(),
        output_sources(dfs, keys)[p] is Payload,
        source_valid(dfs, keys, output_sources(dfs, keys)[p]),
        p <= usize::MAX,
    ensures
        source_cells(
            pair_of(df, last),
            keys,
            Source::Payload { input: 0, column: p as usize },
            folded(some, all, dfs.len() as int, t),
        ) == source_cells(dfs.push(last), keys, output_sources(dfs, keys)[p], all[t]),
{
    let n = dfs.len() as int;
    let one = source_cells(
        pair_of(df, last),
        keys,
        Source::Payload { input: 0, column: p as usize },
        folded(some, all, n, t),
    );
    let other = source_cells(dfs.push(last), keys, output_sources(dfs, keys)[p], all[t]);
    lemma_folded_rows(some, all, n, t);
    lemma_rows_positive(all[t]);
    assert(one.len() == rows_of(all[t]) && other.len() == rows_of(all[t]));
    assert forall|r: int| 0 <= r < rows_of(all[t]) implies one[r] == other[r] by {
        lemma_nested_front(dfs, last, keys, lists, some, df, all, p, t, r);
    }
    assert(one =~= other);
}

/// A column of the last frame holds the same for a group and its fold.
proof fn lemma_nested_last_column(
    dfs: Seq<DataFrame>,
    last: DataFrame,
    keys: Seq<Seq<char>>,
    some: Seq<GroupModel>,
    df: DataFrame,
    all: Seq<GroupModel>,
    column: usize,
    t: int,
)
    requires
        is_folded(some, all, dfs.len() as int, t),
        0 <= t < all.len(),
        dfs.len() <= usize::MAX,
    ensures
        source_cells(
            pair_of(df, last),
            keys,
            Source::Payload { input: 1, column },
            folded(some, all, dfs.len() as int, t),
        ) == source_cells(
            dfs.push(last),
            keys,
            Source::Payload { input: dfs.len() as usize, column },
            all[t],
        ),
{
    let n = dfs.len() as int;
    let group = folded(some, all, n, t);
    assert(dfs.push(last)[n] == last && pair_of(df, last)[1] == last);
    lemma_folded_rows(some, all, n, t);
    assert forall|r: int| 0 <= r < rows_of(all[t]) implies picked(group, 1, r) == #[trigger] picked(
        all[t],
        n,
        r,
    ) by {
        lemma_folded_picks(some, all, n, t, r);
    }
    assert(source_cells(
        pair_of(df, last),
        keys,
        Source::Payload { input: 1, column },
        group,
    ) =~= source_cells(
        dfs.push(last),
        keys,
        Source::Payload { input: dfs.len() as usize, column },
        all[t],
    ));
}

/// What a column of the result holds for a group is what it holds for the fold of the group.
proof fn lemma_nested_cells(
    dfs: Seq<DataFrame>,
    last: DataFrame,
    keys: Seq<Seq<char>>,
    lists: Seq<Seq<Key>>,
    some: Seq<GroupModel>,
    df: DataFrame,
    all: Seq<GroupModel>,
    p: int,
    t: int,
)
    requires
        is_countable(dfs, keys),
        accepted(dfs, keys),
        is_join(dfs, keys, lists, some, df),
        is_folded(some, all, dfs.len() as int, t),
        0 <= t < all.len(),
        has_origin(dfs, last, keys, p),
    ensures
        source_cells(
            pair_of(df, last),
            keys,
            nested(output_sources(dfs.push(last), keys)[p], dfs.len() as int, p),
            folded(some, all, dfs.len() as int, t),
        ) == source_cells(
            dfs.push(last),
            keys,
            output_sources(dfs.push(last), keys)[p],
            all[t],
        ),
{
    let n = dfs.len() as int;
    let source = output_sources(dfs.push(last), keys)[p];
    match source {
        Source::Key { key } => {
            lemma_nested_key(dfs, last, keys, lists, some, df, all, key, t);
        },
        Source::Payload { input, column } => {
            if input < n {
                assert(dfs.push(last)[input as int] == dfs[input as int]);
                assert(source_valid(dfs, keys, source));
                lemma_nested_front_column(dfs, last, keys, lists, some, df, all, p, t);
            } else {
                lemma_nested_last_column(dfs, last, keys, some, df, all, column, t);
            }
        },
    }
}

/// What a column of the result holds for the first groups is what it holds for their folds.
proof fn lemma_nested_filled(
    dfs: Seq<DataFrame>,
    last: DataFrame,
    keys: Seq<Seq<char>>,
    lists: Seq<Seq<Key>>,
    some: Seq<GroupModel>,
    df: DataFrame,
    all: Seq<GroupModel>,
    p: int,
    t: int,
)
    requires
        is_countable(dfs, keys),
        accepted(dfs, keys),
        is_join(dfs, keys, lists, some, df),
        forall|i: int|
            0 <= i < all.len() ==> #[trigger] is_folded(some, all, dfs.len() as int, i),
        has_origin(dfs, last, keys, p),
        0 <= t <= all.len(),
    ensures
        filled(
            pair_of(df, last),
            keys,
            nested(output_sources(dfs.push(last), keys)[p], dfs.len() as int, p),
            all_folded(some, all, dfs.len() as int),
            t,
        ) == filled(
            dfs.push(last),
            keys,
            output_sources(dfs.push(last), keys)[p],
            all,
            t,
        ),
    decreases t,
{
    if t > 0 {
        let n = dfs.len() as int;
        lemma_nested_filled(dfs, last, keys, lists, some, df, all, p, t - 1);
        assert(is_folded(some, all, n, t - 1));
        lemma_nested_cells(dfs, last, keys, lists, some, df, all, p, t - 1);
        assert(all_folded(some, all, n)[t - 1] == folded(some, all, n, t - 1));
    }
}

/// Folding changes no number of rows.
proof fn lemma_folded_totals(some: Seq<GroupModel>, all: Seq<GroupModel>, n: int, t: int)
    requires
        0 <= n,
        forall|i: int| 0 <= i < all.len() ==> #[trigger] is_folded(some, all, n, i),
        0 <= t <= all.len(),
    ensures
        total_rows(all_folded(some, all, n), t) == total_rows(all, t),
        oversized(all_folded(some, all, n)) ==> oversized(all),
    decreases t,
{
    let h = all_folded(some, all, n);
    if t > 0 {
        lemma_folded_totals(some, all, n, t - 1);
        assert(is_folded(some, all, n, t - 1));
        lemma_folded_rows(some, all, n, t - 1);
        assert(h[t - 1] == folded(some, all, n, t - 1));
    }
    if oversized(h) {
        let i = choose|i: int| 0 <= i < h.len() && rows_of(#[trigger] h[i]) > usize::MAX;
        assert(is_folded(some, all, n, i));
        lemma_folded_rows(some, all, n, i);
        assert(h[i] == folded(some, all, n, i));
        assert(rows_of(all[i]) > usize::MAX);
    }
}

/// The result of joining the last frame with the joined frame is that of joining all frames at
/// once.
proof fn lemma_nested_result(
    dfs: Seq<DataFrame>,
    last: DataFrame,
    keys: Seq<Seq<char>>,
    lists: Seq<Seq<Key>>,
    some: Seq<GroupModel>,
    df: DataFrame,
    all: Seq<GroupModel>,
    at_once: DataFrame,
    other: DataFrame,
)
    requires
        is_countable(dfs.push(last), keys),
        is_countable(dfs, keys),
        is_countable(pair_of(df, last), keys),
        accepted(dfs, keys),
        accepted(dfs.push(last), keys),
        is_join(dfs, keys, lists, some, df),
        forall|i: int|
            0 <= i < all.len() ==> #[trigger] is_folded(some, all, dfs.len() as int, i),
        is_joined(dfs.push(last), keys, all, at_once),
        is_joined(pair_of(df, last), keys, all_folded(some, all, dfs.len() as int), other),
    ensures
        frame_names(other) == frame_names(at_once),
        frame_dtypes(other) == frame_dtypes(at_once),
        frame_cells(other) == frame_cells(at_once),
{
    let n = dfs.len() as int;
    let more = dfs.push(last);
    let pair = pair_of(df, last);
    let sources = output_sources(more, keys);
    let ones = output_sources(pair, keys);
    assert(more[n] == last && more[0] == dfs[0] && pair[0] == df && pair[1] == last);
    lemma_nested_sources(dfs, last, keys, some, df);
    sources_are_valid(more, keys);
    assert(frame_names(df).len() == output_sources(dfs, keys).len());
    assert(frame_names(pair[0]).len() <= usize::MAX);
    assert forall|p: int| 0 <= p < sources.len() implies frame_cells(other)[p] == frame_cells(
        at_once,
    )[p] && frame_names(other)[p] == frame_names(at_once)[p] && frame_dtypes(other)[p]
        == frame_dtypes(at_once)[p] by {
        let source = sources[p];
        assert(ones[p] == nested(source, n, p));
        assert(has_origin(dfs, last, keys, p));
        lemma_nested_filled(dfs, last, keys, lists, some, df, all, p, all.len() as int);
        assert(frame_cells(at_once)[p] == filled(more, keys, source, all, all.len() as int));
        match source {
            Source::Key { key } => {
                lemma_key_position(dfs, keys, some, df, key as int);
            },
            Source::Payload { input, column } => {
                if input < n {
                    assert(more[input as int] == dfs[input as int]);
                    assert(frame_names(df)[p] == source_name(dfs, keys, source));
                    assert(frame_dtypes(df)[p] == source_dtype(dfs, keys, source));
                }
            },
        }
    }
    assert(frame_names(other) =~= frame_names(at_once));
    assert(frame_dtypes(other) =~= frame_dtypes(at_once));
    assert(frame_cells(other) =~= frame_cells(at_once));
}

/// The keys of the frames, the groups into which their rows fall, and what comes of them.
#[verifier::opaque]
spec fn comes_to(
    dfs: Seq<DataFrame>,
    keys: Seq<Seq<char>>,
    lists: Seq<Seq<Key>>,
    groups: Seq<GroupModel>,
    outcome: Result<DataFrame, JoinManyError>,
) -> bool {
    &&& are_encodings(dfs, keys, lists)
    &&& is_merge(lists, groups)
    &&& is_outcome(dfs, keys, groups, outcome)
}

proof fn lemma_open(
    dfs: Seq<DataFrame>,
    keys: Seq<Seq<char>>,
    outcome: Result<DataFrame, JoinManyError>,
) -> (found: (Seq<Seq<Key>>, Seq<GroupModel>))
    requires
        joins_to(dfs, keys, outcome),
        accepted(dfs, keys),
    ensures
        comes_to(dfs, keys, found.0, found.1, outcome),
{
    reveal(comes_to);
    choose|lists: Seq<Seq<Key>>, groups: Seq<GroupModel>|
        are_encodings(dfs, keys, lists) && #[trigger] is_merge(lists, groups) && is_outcome(
            dfs,
            keys,
            groups,
            outcome,
        )
}

proof fn lemma_is_join(
    dfs: Seq<DataFrame>,
    keys: Seq<Seq<char>>,
    lists: Seq<Seq<Key>>,
    groups: Seq<GroupModel>,
    df: DataFrame,
)
    requires
        comes_to(dfs, keys, lists, groups, Ok::<DataFrame, JoinManyError>(df)),
    ensures
        is_join(dfs, keys, lists, groups, df),
        are_encodings(dfs, keys, lists),
{
    reveal(comes_to);
}

/// The keys of all frames are those of all but the last, and those of the last. These are also the
/// keys of the last frame when it is joined with the joined frame, whose keys are those of its
/// groups.
proof fn lemma_nested_lists(
    dfs: Seq<DataFrame>,
    last: DataFrame,
    keys: Seq<Seq<char>>,
    df: DataFrame,
    other: Result<DataFrame, JoinManyError>,
    at_once: Result<DataFrame, JoinManyError>,
    lists: Seq<Seq<Key>>,
    some: Seq<GroupModel>,
    wide: Seq<Seq<Key>>,
    all: Seq<GroupModel>,
    found: Seq<Seq<Key>>,
    two: Seq<GroupModel>,
) -> (lc: Seq<Key>)
    requires
        is_countable(dfs, keys),
        accepted(dfs, keys),
        keys_kept(dfs, keys, df),
        comes_to(dfs, keys, lists, some, Ok::<DataFrame, JoinManyError>(df)),
        comes_to(dfs.push(last), keys, wide, all, at_once),
        comes_to(pair_of(df, last), keys, found, two, other),
    ensures
        lists.len() == dfs.len(),
        wide == lists.push(lc),
        found == seq![result_keys(lists, some), lc],
{
    let n = dfs.len() as int;
    let lc = wide[n];
    lemma_is_join(dfs, keys, lists, some, df);
    assert(are_encodings(dfs.push(last), keys, wide) && are_encodings(
        pair_of(df, last),
        keys,
        found,
    )) by {
        reveal(comes_to);
    }
    lemma_part_encoding(dfs, last, keys, lists, wide);
    lemma_pair_encoding(dfs, last, keys, lists, some, df, lc, found);
    lc
}

/// Frames can be joined one after the other: joining all but the last, and then the last to what
/// they give, comes to the same as joining all at once. The columns, the rows and the order of both
/// are the same, whether or not the frames are sorted. What the others give must keep the keys: a
/// row with nulls in its key columns must not get a key by the join, nor lose one.
pub proof fn frames_can_be_joined_one_after_the_other(
    dfs: Seq<DataFrame>,
    last: DataFrame,
    keys: Seq<Seq<char>>,
    df: DataFrame,
    at_once: DataFrame,
    other: Result<DataFrame, JoinManyError>,
)
    requires
        is_countable(dfs.push(last), keys),
        is_countable(pair_of(df, last), keys),
        keys_kept(dfs, keys, df),
        joins_to(dfs, keys, Ok::<DataFrame, JoinManyError>(df)),
        joins_to(dfs.push(last), keys, Ok::<DataFrame, JoinManyError>(at_once)),
        joins_to(pair_of(df, last), keys, other),
    ensures
        other is Ok,
        frame_names(other->Ok_0) == frame_names(at_once),
        frame_dtypes(other->Ok_0) == frame_dtypes(at_once),
        frame_cells(other->Ok_0) == frame_cells(at_once),
{
    let n = dfs.len() as int;
    let more = dfs.push(last);
    let pair = pair_of(df, last);
    let result = Ok::<DataFrame, JoinManyError>(at_once);
    assert(accepted(dfs, keys));
    assert(accepted(more, keys));
    let (lists, some) = lemma_open(dfs, keys, Ok::<DataFrame, JoinManyError>(df));
    let (wide, all) = lemma_open(more, keys, result);
    lemma_part_countable(dfs, last, keys);
    assert(accepted(pair, keys)) by {
        lemma_is_join(dfs, keys, lists, some, df);
        lemma_pair_accepted(dfs, last, keys, some, df);
    }
    let (found, two) = lemma_open(pair, keys, other);
    let lc = lemma_nested_lists(
        dfs,
        last,
        keys,
        df,
        other,
        result,
        lists,
        some,
        wide,
        all,
        found,
        two,
    );
    assert(two == all_folded(some, all, n) && forall|i: int|
        0 <= i < all.len() ==> #[trigger] is_folded(some, all, n, i)) by {
        reveal(comes_to);
        lemma_all_folded(lists, lc, some, all, two);
    }
    lemma_nested_outcome(dfs, last, keys, df, at_once, other, lists, some, wide, all, found);
}

/// The outcome of joining the last frame with the joined frame, given that its groups are those of
/// all frames, folded.
proof fn lemma_nested_outcome(
    dfs: Seq<DataFrame>,
    last: DataFrame,
    keys: Seq<Seq<char>>,
    df: DataFrame,
    at_once: DataFrame,
    other: Result<DataFrame, JoinManyError>,
    lists: Seq<Seq<Key>>,
    some: Seq<GroupModel>,
    wide: Seq<Seq<Key>>,
    all: Seq<GroupModel>,
    found: Seq<Seq<Key>>,
)
    requires
        is_countable(dfs.push(last), keys),
        is_countable(dfs, keys),
        is_countable(pair_of(df, last), keys),
        accepted(dfs, keys),
        accepted(dfs.push(last), keys),
        comes_to(dfs, keys, lists, some, Ok::<DataFrame, JoinManyError>(df)),
        forall|i: int|
            0 <= i < all.len() ==> #[trigger] is_folded(some, all, dfs.len() as int, i),
        comes_to(dfs.push(last), keys, wide, all, Ok::<DataFrame, JoinManyError>(at_once)),
        comes_to(
            pair_of(df, last),
            keys,
            found,
            all_folded(some, all, dfs.len() as int),
            other,
        ),
    ensures
        other is Ok,
        frame_names(other->Ok_0) == frame_names(at_once),
        frame_dtypes(other->Ok_0) == frame_dtypes(at_once),
        frame_cells(other->Ok_0) == frame_cells(at_once),
{
    let n = dfs.len() as int;
    lemma_folded_totals(some, all, n, all.len() as int);
    lemma_is_join(dfs, keys, lists, some, df);
    assert(is_joined(dfs.push(last), keys, all, at_once) && other is Ok && is_joined(
        pair_of(df, last),
        keys,
        all_folded(some, all, n),
        other->Ok_0,
    )) by {
        reveal(comes_to);
    }
    lemma_nested_result(dfs, last, keys, lists, some, df, all, at_once, other->Ok_0);
}

proof fn lemma_all_folded(
    lists: Seq<Seq<Key>>,
    lc: Seq<Key>,
    some: Seq<GroupModel>,
    all: Seq<GroupModel>,
    two: Seq<GroupModel>,
)
    requires
        is_merge(lists, some),
        is_merge(lists.push(lc), all),
        is_merge(seq![result_keys(lists, some), lc], two),
    ensures
        two == all_folded(some, all, lists.len() as int),
        forall|i: int|
            0 <= i < all.len() ==> #[trigger] is_folded(some, all, lists.len() as int, i),
{
    let n = lists.len() as int;
    merging_the_last_list_folds_the_merge(lists, lc, some, all, two);
    assert forall|i: int| 0 <= i < all.len() implies #[trigger] is_folded(some, all, n, i) by {
        lemma_lead(lists.push(lc), all, i);
        lemma_share(lists.push(lc), all, i, all[i].lead);
        let _ = all[i];
    }
}

proof fn lemma_part_countable(dfs: Seq<DataFrame>, last: DataFrame, keys: Seq<Seq<char>>)
    requires
        is_countable(dfs.push(last), keys),
    ensures
        is_countable(dfs, keys),
{
    assert forall|f: int| 0 <= f < dfs.len() implies #[trigger] frame_names(dfs[f]).len()
        <= usize::MAX by {
        assert(dfs.push(last)[f] == dfs[f]);
    }
}

/// The keys of all frames are those of all but the last, and those of the last.
proof fn lemma_part_encoding(
    dfs: Seq<DataFrame>,
    last: DataFrame,
    keys: Seq<Seq<char>>,
    lists: Seq<Seq<Key>>,
    wide: Seq<Seq<Key>>,
)
    requires
        are_encodings(dfs, keys, lists),
        are_encodings(dfs.push(last), keys, wide),
    ensures
        wide == lists.push(wide[dfs.len() as int]),
        are_keys_of(last, keys, wide[dfs.len() as int]),
{
    let n = dfs.len() as int;
    let front = wide.take(n);
    assert forall|i: int| 0 <= i < n implies are_keys_of(dfs[i], keys, #[trigger] front[i]) by {
        let _ = wide[i];
        assert(dfs.push(last)[i] == dfs[i]);
    }
    lemma_one_encoding(dfs, keys, lists, front);
    let _ = wide[n];
    assert(dfs.push(last)[n] == last);
    assert forall|i: int| 0 <= i < n + 1 implies wide[i] == lists.push(wide[n])[i] by {
        if i < n {
            assert(front[i] == wide[i]);
        }
    }
    assert(wide =~= lists.push(wide[n]));
}

/// The keys of the joined frame are those of its groups, and those of the last frame its own.
proof fn lemma_pair_encoding(
    dfs: Seq<DataFrame>,
    last: DataFrame,
    keys: Seq<Seq<char>>,
    lists: Seq<Seq<Key>>,
    some: Seq<GroupModel>,
    df: DataFrame,
    lc: Seq<Key>,
    found: Seq<Seq<Key>>,
)
    requires
        is_countable(dfs, keys),
        accepted(dfs, keys),
        are_encodings(dfs, keys, lists),
        keys_kept(dfs, keys, df),
        is_join(dfs, keys, lists, some, df),
        are_keys_of(last, keys, lc),
        are_encodings(pair_of(df, last), keys, found),
    ensures
        found == seq![result_keys(lists, some), lc],
{
    let n = dfs.len() as int;
    let pair = pair_of(df, last);
    let wanted = seq![result_keys(lists, some), lc];
    lemma_joined_encoding(dfs, keys, lists, some, df);
    assert(pair[0] == df && pair[1] == last && dfs.push(last)[n] == last);
    assert forall|i: int| 0 <= i < pair.len() implies are_keys_of(
        pair[i],
        keys,
        #[trigger] wanted[i],
    ) by {
        if i != 0 {
            assert(i == 1);
        }
    }
    lemma_one_encoding(pair, keys, found, wanted);
}

} // verus!
