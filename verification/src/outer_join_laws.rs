//! What a join is: its outcome in terms of the cells of the frames, all of it at once.
use vstd::prelude::*;

use polars_core::frame::DataFrame;

use crate::acceptance_laws::{
    can_be_joined, frames_that_can_be_joined_are_accepted, is_extra, lemma_extra, lemma_named,
};
use crate::empty_laws::{is_countable, sources_are_valid};
use crate::frames::{frame_cells, frame_dtypes, frame_names};
use crate::join_inputs::{
    accepted, all_payload_sources, output_sources, payload, payload_sources, source_valid,
    JoinManyError, Source,
};
use crate::join_laws::{
    every_combination_is_there, lemma_digit_round, lemma_lead, lemma_share, lemma_split,
    picked_rows_are_taken, takes,
};
use crate::join_many::{
    are_encodings, is_joined, is_outcome, joins_to, key_cells, oversized, total_rows,
};
use crate::layout::{combinations_from, digit, factor, picked, rows_of};
use crate::merge::{consumed, cursors_after, is_merge, GroupModel};
use crate::parting_laws::{
    are_key_positions, are_lists, has_key, have_one_key, is_group, is_parting, key_cell,
    lemma_parting,
};
use crate::reordering_laws::every_source_is_listed;
use crate::result_laws::{
    lemma_cell, lemma_group_at, lemma_one_place, lemma_place, lemma_totals,
    result_has_one_row_for_each_combination, stands_at,
};
use crate::row_keys::Key;

verus! {

/// The number of ways to take one row of each frame from `f` on that has rows in a group.
pub open spec fn combinations(from: Seq<int>, to: Seq<int>, f: int) -> int
    decreases from.len() - f,
{
    if f < 0 || f >= from.len() {
        1
    } else if to[f] > from[f] {
        (to[f] - from[f]) * combinations(from, to, f + 1)
    } else {
        combinations(from, to, f + 1)
    }
}

/// The number of rows that group `t` gives.
pub open spec fn group_size(cuts: Seq<Seq<int>>, t: int) -> int {
    combinations(cuts[t], cuts[t + 1], 0)
}

/// The number of rows that the first `t` groups give.
pub open spec fn row_count(cuts: Seq<Seq<int>>, t: int) -> int
    decreases t,
{
    if t <= 0 {
        0
    } else {
        row_count(cuts, t - 1) + group_size(cuts, t - 1)
    }
}

/// The columns of the result: the keys in their order, with the data types of the first frame, then
/// the columns that `spots` lists by frame and column. These are all columns that are not named
/// like keys, each once, frame by frame from left to right.
pub open spec fn are_columns(
    dfs: Seq<DataFrame>,
    keys: Seq<Seq<char>>,
    at: Seq<Seq<int>>,
    spots: Seq<(int, int)>,
    df: DataFrame,
) -> bool {
    let m = keys.len() as int;
    &&& frame_names(df).len() == m + spots.len()
    &&& frame_dtypes(df).len() == m + spots.len()
    &&& frame_cells(df).len() == m + spots.len()
    &&& forall|k: int|
        0 <= k < m ==> frame_names(df)[k] == #[trigger] keys[k] && frame_dtypes(df)[k]
            == frame_dtypes(dfs[0])[at[0][k]]
    &&& forall|p: int|
        0 <= p < spots.len() ==> {
            &&& is_extra(dfs, keys, (#[trigger] spots[p]).0, spots[p].1)
            &&& frame_names(df)[m + p] == frame_names(dfs[spots[p].0])[spots[p].1]
            &&& frame_dtypes(df)[m + p] == frame_dtypes(dfs[spots[p].0])[spots[p].1]
        }
    &&& forall|p: int, q: int|
        0 <= p < q < spots.len() ==> (#[trigger] spots[p]).0 < (#[trigger] spots[q]).0 || (
        spots[p].0 == spots[q].0 && spots[p].1 < spots[q].1)
    &&& forall|f: int, c: int| #[trigger] is_extra(dfs, keys, f, c) ==> spots.contains((f, c))
}

/// Where a row of the result comes from: a group, and a row of each frame that has one in it.
pub ghost struct Origin {
    pub group: int,
    pub rows: Seq<Option<int>>,
}

/// A row of each of `n` frames that has one in the group.
pub open spec fn is_origin(cuts: Seq<Seq<int>>, n: nat, origin: Origin) -> bool {
    &&& 0 <= origin.group < cuts.len() - 1
    &&& origin.rows.len() == n
    &&& forall|f: int|
        0 <= f < n ==> match #[trigger] origin.rows[f] {
            Some(i) => cuts[origin.group][f] <= i < cuts[origin.group + 1][f],
            None => cuts[origin.group][f] == cuts[origin.group + 1][f],
        }
}

/// An origin comes before another: its group does, or it takes the earlier row of the first frame
/// of which they take different rows.
pub open spec fn comes_before(a: Origin, b: Origin) -> bool {
    ||| a.group < b.group
    ||| a.group == b.group && exists|f: int|
        0 <= f < a.rows.len() && (#[trigger] a.rows[f]) is Some && b.rows[f] is Some && a.rows[f]->0
            < b.rows[f]->0 && forall|e: int| 0 <= e < f ==> #[trigger] a.rows[e] == b.rows[e]
}

/// The rows of the result come from `origins`: from each that there is, once, in their order. A row
/// shows the key cells of the rows that it comes from, and of each frame the other cells of its
/// row, or nulls where the frame has none in the group.
pub open spec fn are_rows(
    dfs: Seq<DataFrame>,
    keys: Seq<Seq<char>>,
    at: Seq<Seq<int>>,
    cuts: Seq<Seq<int>>,
    spots: Seq<(int, int)>,
    origins: Seq<Origin>,
    df: DataFrame,
) -> bool {
    &&& forall|r: int|
        0 <= r < origins.len() ==> is_origin(cuts, dfs.len(), #[trigger] origins[r])
    &&& forall|r: int, s: int|
        0 <= r < s < origins.len() ==> comes_before(#[trigger] origins[r], #[trigger] origins[s])
    &&& forall|origin: Origin| #[trigger]
        is_origin(cuts, dfs.len(), origin) ==> origins.contains(origin)
    &&& forall|p: int|
        0 <= p < frame_cells(df).len() ==> (#[trigger] frame_cells(df)[p]).len() == origins.len()
    &&& forall|k: int, r: int, f: int|
        0 <= k < keys.len() && 0 <= r < origins.len() && 0 <= f < dfs.len() && (
        #[trigger] origins[r].rows[f]) is Some ==> #[trigger] frame_cells(df)[k][r] == frame_cells(
            dfs[f],
        )[at[f][k]][origins[r].rows[f]->0]
    &&& forall|p: int, r: int|
        0 <= p < spots.len() && 0 <= r < origins.len() ==> #[trigger] frame_cells(df)[keys.len()
            + p][r] == match origins[r].rows[spots[p].0] {
            Some(i) => frame_cells(dfs[spots[p].0])[spots[p].1][i],
            None => None,
        }
}

proof fn lemma_combinations(lens: Seq<int>, from: Seq<int>, to: Seq<int>, f: int)
    requires
        lens.len() == from.len(),
        0 <= f,
        forall|g: int| 0 <= g < lens.len() ==> #[trigger] lens[g] == to[g] - from[g],
    ensures
        combinations_from(lens, f) == combinations(from, to, f),
    decreases lens.len() - f,
{
    if f < lens.len() {
        lemma_combinations(lens, from, to, f + 1);
        assert(lens[f] == to[f] - from[f]);
        let rest = combinations(from, to, f + 1);
        assert(1 * rest == rest);
    }
}

/// The cuts behind the groups.
spec fn cuts_of(groups: Seq<GroupModel>, n: nat) -> Seq<Seq<int>> {
    Seq::new(groups.len() + 1, |t: int| cursors_after(groups, n, t))
}

proof fn lemma_group_size(lists: Seq<Seq<Key>>, groups: Seq<GroupModel>, t: int)
    requires
        is_merge(lists, groups),
        0 <= t < groups.len(),
    ensures
        group_size(cuts_of(groups, lists.len()), t) == rows_of(groups[t]),
{
    lemma_lead(lists, groups, t);
    let cuts = cuts_of(groups, lists.len());
    let lens = groups[t].lens;
    assert forall|g: int| 0 <= g < lens.len() implies #[trigger] lens[g] == cuts[t + 1][g]
        - cuts[t][g] by {
        assert(consumed(groups, g, t + 1) == consumed(groups, g, t) + lens[g]);
    }
    lemma_combinations(lens, cuts[t], cuts[t + 1], 0);
}

proof fn lemma_row_count(lists: Seq<Seq<Key>>, groups: Seq<GroupModel>, t: int)
    requires
        is_merge(lists, groups),
        0 <= t <= groups.len(),
    ensures
        row_count(cuts_of(groups, lists.len()), t) == total_rows(groups, t),
    decreases t,
{
    if t > 0 {
        lemma_row_count(lists, groups, t - 1);
        lemma_group_size(lists, groups, t - 1);
    }
}

/// The place that a column of the result comes from.
spec fn spot(source: Source) -> (int, int) {
    match source {
        Source::Payload { input, column } => (input as int, column as int),
        Source::Key { .. } => (0, 0),
    }
}

spec fn spots_before(a: (int, int), b: (int, int)) -> bool {
    a.0 < b.0 || (a.0 == b.0 && a.1 < b.1)
}

proof fn lemma_columns_ordered(dfs: Seq<DataFrame>, keys: Seq<Seq<char>>, f: int, n: int)
    requires
        is_countable(dfs, keys),
        0 <= f < dfs.len(),
        0 <= n <= frame_names(dfs[f]).len(),
    ensures
        ({
            let all = payload_sources(dfs, keys, f, n);
            &&& forall|p: int|
                0 <= p < all.len() ==> spot(#[trigger] all[p]).0 == f && spot(all[p]).1 < n
            &&& forall|p: int, q: int|
                0 <= p < q < all.len() ==> spots_before(
                    spot(#[trigger] all[p]),
                    spot(#[trigger] all[q]),
                )
        }),
    decreases n,
{
    if n > 0 {
        lemma_columns_ordered(dfs, keys, f, n - 1);
        assert(frame_names(dfs[f]).len() <= usize::MAX);
        let before = payload_sources(dfs, keys, f, n - 1);
        let all = payload_sources(dfs, keys, f, n);
        if payload(dfs, keys, f, n - 1) {
            assert(spot(all[before.len() as int]) == (f, n - 1));
            assert forall|p: int| 0 <= p < before.len() implies #[trigger] all[p] == before[p] by {}
            assert forall|p: int| 0 <= p < all.len() implies spot(#[trigger] all[p]).0 == f && spot(
                all[p],
            ).1 < n by {
                if p < before.len() {
                    assert(spot(before[p]).1 < n - 1);
                }
            }
            assert forall|p: int, q: int| 0 <= p < q < all.len() implies spots_before(
                spot(#[trigger] all[p]),
                spot(#[trigger] all[q]),
            ) by {
                assert(spot(before[p]).1 < n - 1);
                if q < before.len() {
                    assert(spots_before(spot(before[p]), spot(before[q])));
                }
            }
        }
    }
}

proof fn lemma_spots_ordered(dfs: Seq<DataFrame>, keys: Seq<Seq<char>>, n: int)
    requires
        is_countable(dfs, keys),
        0 <= n <= dfs.len(),
    ensures
        ({
            let all = all_payload_sources(dfs, keys, n);
            &&& forall|p: int| 0 <= p < all.len() ==> spot(#[trigger] all[p]).0 < n
            &&& forall|p: int, q: int|
                0 <= p < q < all.len() ==> spots_before(
                    spot(#[trigger] all[p]),
                    spot(#[trigger] all[q]),
                )
        }),
    decreases n,
{
    if n > 0 {
        lemma_spots_ordered(dfs, keys, n - 1);
        let width = frame_names(dfs[n - 1]).len() as int;
        lemma_columns_ordered(dfs, keys, n - 1, width);
        let before = all_payload_sources(dfs, keys, n - 1);
        let more = payload_sources(dfs, keys, n - 1, width);
        let all = before + more;
        assert forall|p: int| 0 <= p < all.len() implies spot(#[trigger] all[p]).0 < n by {
            if p < before.len() {
                assert(all[p] == before[p]);
            } else {
                assert(all[p] == more[p - before.len()]);
            }
        }
        assert forall|p: int, q: int| 0 <= p < q < all.len() implies spots_before(
            spot(#[trigger] all[p]),
            spot(#[trigger] all[q]),
        ) by {
            if q < before.len() {
                assert(all[p] == before[p] && all[q] == before[q]);
            } else if p < before.len() {
                assert(all[p] == before[p] && all[q] == more[q - before.len()]);
            } else {
                assert(all[p] == more[p - before.len()] && all[q] == more[q - before.len()]);
            }
        }
    }
}

/// The places that the columns of the result come from, but for the keys.
spec fn spots_of(dfs: Seq<DataFrame>, keys: Seq<Seq<char>>) -> Seq<(int, int)> {
    all_payload_sources(dfs, keys, dfs.len() as int).map_values(|source: Source| spot(source))
}

/// What stands at a place of the columns of the result.
proof fn lemma_sources(dfs: Seq<DataFrame>, keys: Seq<Seq<char>>)
    requires
        is_countable(dfs, keys),
    ensures
        ({
            let sources = output_sources(dfs, keys);
            let spots = spots_of(dfs, keys);
            &&& sources.len() == keys.len() + spots.len()
            &&& forall|k: int|
                0 <= k < keys.len() ==> #[trigger] sources[k] == (Source::Key { key: k as usize })
            &&& forall|p: int|
                0 <= p < spots.len() ==> {
                    let f = (#[trigger] spots[p]).0;
                    let c = spots[p].1;
                    &&& payload(dfs, keys, f, c)
                    &&& f <= usize::MAX
                    &&& c <= usize::MAX
                    &&& sources[keys.len() + p] == (Source::Payload {
                        input: f as usize,
                        column: c as usize,
                    })
                }
        }),
{
    sources_are_valid(dfs, keys);
    let sources = output_sources(dfs, keys);
    let spots = spots_of(dfs, keys);
    assert forall|p: int| 0 <= p < spots.len() implies {
        let f = (#[trigger] spots[p]).0;
        let c = spots[p].1;
        &&& payload(dfs, keys, f, c)
        &&& f <= usize::MAX
        &&& c <= usize::MAX
        &&& sources[keys.len() + p] == (Source::Payload { input: f as usize, column: c as usize })
    } by {
        let source = sources[keys.len() + p];
        assert(source == all_payload_sources(dfs, keys, dfs.len() as int)[p]);
        assert(source_valid(dfs, keys, source));
        assert(source is Payload);
    }
}

proof fn lemma_columns(
    dfs: Seq<DataFrame>,
    keys: Seq<Seq<char>>,
    at: Seq<Seq<int>>,
    groups: Seq<GroupModel>,
    df: DataFrame,
)
    requires
        is_countable(dfs, keys),
        accepted(dfs, keys),
        are_key_positions(dfs, keys, at),
        is_joined(dfs, keys, groups, df),
    ensures
        are_columns(dfs, keys, at, spots_of(dfs, keys), df),
{
    let sources = output_sources(dfs, keys);
    let spots = spots_of(dfs, keys);
    let m = keys.len() as int;
    lemma_sources(dfs, keys);
    assert forall|k: int| 0 <= k < m implies frame_names(df)[k] == #[trigger] keys[k]
        && frame_dtypes(df)[k] == frame_dtypes(dfs[0])[at[0][k]] by {
        assert(sources[k] == (Source::Key { key: k as usize }));
        let _ = at[0][k];
        lemma_named(dfs[0], keys[k]);
    }
    assert forall|p: int| 0 <= p < spots.len() implies {
        &&& is_extra(dfs, keys, (#[trigger] spots[p]).0, spots[p].1)
        &&& frame_names(df)[m + p] == frame_names(dfs[spots[p].0])[spots[p].1]
        &&& frame_dtypes(df)[m + p] == frame_dtypes(dfs[spots[p].0])[spots[p].1]
    } by {
        lemma_extra(dfs, keys, spots[p].0, spots[p].1);
        let _ = sources[m + p];
    }
    let all = all_payload_sources(dfs, keys, dfs.len() as int);
    lemma_spots_ordered(dfs, keys, dfs.len() as int);
    assert forall|p: int, q: int| 0 <= p < q < spots.len() implies (#[trigger] spots[p]).0 < (
    #[trigger] spots[q]).0 || (spots[p].0 == spots[q].0 && spots[p].1 < spots[q].1) by {
        assert(spots_before(spot(all[p]), spot(all[q])));
    }
    assert forall|f: int, c: int| #[trigger] is_extra(dfs, keys, f, c) implies spots.contains(
        (f, c),
    ) by {
        lemma_extra(dfs, keys, f, c);
        assert(frame_names(dfs[f]).len() <= usize::MAX);
        let source = Source::Payload { input: f as usize, column: c as usize };
        every_source_is_listed(dfs, keys, source);
        let p = choose|p: int| 0 <= p < sources.len() && sources[p] == source;
        assert(p >= m);
        assert(spots[p - m] == (f, c));
    }
}

/// The first list of which two rows of a group show different rows decides which comes first.
proof fn lemma_digits_ordered(lens: Seq<int>, f: int, a: int, b: int) -> (g: int)
    requires
        0 <= f <= lens.len(),
        0 <= a < b < combinations_from(lens, f),
    ensures
        f <= g < lens.len(),
        lens[g] > 0,
        digit(lens, g, a) < digit(lens, g, b),
        forall|e: int|
            f <= e < g && lens[e] > 0 ==> #[trigger] digit(lens, e, a) == digit(lens, e, b),
    decreases lens.len() - f,
{
    let post = combinations_from(lens, f + 1);
    if f == lens.len() {
        f
    } else if lens[f] > 0 {
        lemma_split(lens, f, a);
        lemma_split(lens, f, b);
        let x = a / post;
        let y = b / post;
        if x < y {
            f
        } else {
            assert(x == y) by {
                if y < x {
                    assert(y * post + post <= x * post) by (nonlinear_arith)
                        requires
                            y + 1 <= x,
                            post >= 1,
                    ;
                }
            }
            let g = lemma_digits_ordered(lens, f + 1, a % post, b % post);
            assert forall|e: int| f + 1 <= e < lens.len() && lens[e] > 0 implies #[trigger] digit(
                lens,
                e,
                a,
            ) == digit(lens, e, a % post) && digit(lens, e, b) == digit(lens, e, b % post) by {
                lemma_digit_round(lens, f + 1, e, x, a % post);
                lemma_digit_round(lens, f + 1, e, y, b % post);
            }
            assert(digit(lens, g, a) == digit(lens, g, a % post));
            assert forall|e: int| f <= e < g && lens[e] > 0 implies #[trigger] digit(lens, e, a)
                == digit(lens, e, b) by {
                if e > f {
                    assert(digit(lens, e, a % post) == digit(lens, e, b % post));
                }
            }
            g
        }
    } else {
        assert(factor(lens[f]) == 1);
        assert(combinations_from(lens, f) == 1 * post);
        lemma_digits_ordered(lens, f + 1, a, b)
    }
}

/// The group whose row stands in a row of the result.
spec fn group_of(groups: Seq<GroupModel>, row: int) -> int {
    choose|t: int| stands_at(groups, t, row - total_rows(groups, t), row)
}

/// Where row `r` of group `t` comes from.
spec fn origin_in(groups: Seq<GroupModel>, n: nat, t: int, r: int) -> Origin {
    Origin { group: t, rows: Seq::new(n, |f: int| picked(groups[t], f, r)) }
}

/// Where the rows of the result come from.
spec fn origins_of(groups: Seq<GroupModel>, n: nat) -> Seq<Origin> {
    Seq::new(
        total_rows(groups, groups.len() as int) as nat,
        |row: int|
            {
                let t = group_of(groups, row);
                origin_in(groups, n, t, row - total_rows(groups, t))
            },
    )
}

proof fn lemma_origin_at(groups: Seq<GroupModel>, n: nat, row: int) -> (t: int)
    requires
        0 <= row < total_rows(groups, groups.len() as int),
    ensures
        stands_at(groups, t, row - total_rows(groups, t), row),
        origins_of(groups, n)[row] == origin_in(groups, n, t, row - total_rows(groups, t)),
{
    let t = lemma_group_at(groups, row, groups.len() as int);
    let u = group_of(groups, row);
    assert(stands_at(groups, u, row - total_rows(groups, u), row));
    u
}

proof fn lemma_is_origin(lists: Seq<Seq<Key>>, groups: Seq<GroupModel>, t: int, r: int)
    requires
        is_merge(lists, groups),
        0 <= t < groups.len(),
        0 <= r,
    ensures
        is_origin(
            cuts_of(groups, lists.len()),
            lists.len(),
            origin_in(groups, lists.len(), t, r),
        ),
{
    let cuts = cuts_of(groups, lists.len());
    let origin = origin_in(groups, lists.len(), t, r);
    lemma_lead(lists, groups, t);
    assert forall|f: int| 0 <= f < lists.len() implies match #[trigger] origin.rows[f] {
        Some(i) => cuts[origin.group][f] <= i < cuts[origin.group + 1][f],
        None => cuts[origin.group][f] == cuts[origin.group + 1][f],
    } by {
        lemma_share(lists, groups, t, f);
        assert(consumed(groups, f, t + 1) == consumed(groups, f, t) + groups[t].lens[f]);
        if groups[t].lens[f] > 0 {
            picked_rows_are_taken(groups[t], f, r);
        }
    }
}

proof fn lemma_origins_ordered(lists: Seq<Seq<Key>>, groups: Seq<GroupModel>, row: int, later: int)
    requires
        is_merge(lists, groups),
        0 <= row < later < total_rows(groups, groups.len() as int),
    ensures
        comes_before(
            origins_of(groups, lists.len())[row],
            origins_of(groups, lists.len())[later],
        ),
{
    let n = lists.len();
    let t = lemma_origin_at(groups, n, row);
    let u = lemma_origin_at(groups, n, later);
    let r = row - total_rows(groups, t);
    let q = later - total_rows(groups, u);
    if u < t {
        lemma_totals(groups, u + 1, t);
    } else if t == u {
        lemma_lead(lists, groups, t);
        let lens = groups[t].lens;
        let f = lemma_digits_ordered(lens, 0, r, q);
        let a = origin_in(groups, n, t, r);
        let b = origin_in(groups, n, t, q);
        assert(a.rows[f] == Some(groups[t].starts[f] + digit(lens, f, r)));
        assert(b.rows[f] == Some(groups[t].starts[f] + digit(lens, f, q)));
        assert forall|e: int| 0 <= e < f implies #[trigger] a.rows[e] == b.rows[e] by {
            if lens[e] > 0 {
                assert(digit(lens, e, r) == digit(lens, e, q));
            }
        }
    }
}

proof fn lemma_origins_complete(lists: Seq<Seq<Key>>, groups: Seq<GroupModel>, origin: Origin)
    requires
        is_merge(lists, groups),
        is_origin(cuts_of(groups, lists.len()), lists.len(), origin),
    ensures
        origins_of(groups, lists.len()).contains(origin),
{
    let n = lists.len();
    let cuts = cuts_of(groups, n);
    let t = origin.group;
    lemma_lead(lists, groups, t);
    let group = groups[t];
    let choice = Seq::new(
        n,
        |f: int|
            match origin.rows[f] {
                Some(i) => i - group.starts[f],
                None => 0,
            },
    );
    assert forall|f: int| 0 <= f < n implies (match #[trigger] origin.rows[f] {
        Some(i) => group.lens[f] > 0 && 0 <= i - group.starts[f] < group.lens[f],
        None => group.lens[f] == 0,
    }) by {
        lemma_share(lists, groups, t, f);
        assert(consumed(groups, f, t + 1) == consumed(groups, f, t) + group.lens[f]);
        assert(cuts[t][f] == consumed(groups, f, t));
        assert(cuts[t + 1][f] == consumed(groups, f, t + 1));
    }
    assert forall|f: int| 0 <= f < group.lens.len() && group.lens[f] > 0 implies 0
        <= #[trigger] choice[f] < group.lens[f] by {
        let _ = origin.rows[f];
    }
    let r = every_combination_is_there(group, choice);
    let found = origin_in(groups, n, t, r);
    assert forall|f: int| 0 <= f < n implies found.rows[f] == origin.rows[f] by {
        let _ = origin.rows[f];
        if group.lens[f] > 0 {
            assert(picked(group, f, r) == Some(group.starts[f] + choice[f]));
        }
    }
    assert(found.rows =~= origin.rows);
    lemma_place(groups, t, r);
    let row = total_rows(groups, t) + r;
    let u = lemma_origin_at(groups, n, row);
    assert(stands_at(groups, t, r, row));
    lemma_one_place(groups, t, r, u, row - total_rows(groups, u), row);
    assert(origins_of(groups, n)[row] == origin);
}

/// The cells of a row of the result.
proof fn lemma_row_cells(
    dfs: Seq<DataFrame>,
    keys: Seq<Seq<char>>,
    at: Seq<Seq<int>>,
    lists: Seq<Seq<Key>>,
    groups: Seq<GroupModel>,
    df: DataFrame,
    row: int,
)
    requires
        is_countable(dfs, keys),
        are_lists(dfs, keys, at, lists),
        is_merge(lists, groups),
        is_joined(dfs, keys, groups, df),
        0 <= row < total_rows(groups, groups.len() as int),
    ensures
        ({
            let spots = spots_of(dfs, keys);
            let origin = origins_of(groups, dfs.len())[row];
            &&& forall|k: int, f: int|
                0 <= k < keys.len() && 0 <= f < dfs.len() && (#[trigger] origin.rows[f]) is Some
                    ==> #[trigger] frame_cells(df)[k][row] == frame_cells(
                    dfs[f],
                )[at[f][k]][origin.rows[f]->0]
            &&& forall|p: int|
                0 <= p < spots.len() ==> #[trigger] frame_cells(df)[keys.len() + p][row]
                    == match origin.rows[spots[p].0] {
                    Some(i) => frame_cells(dfs[spots[p].0])[spots[p].1][i],
                    None => None,
                }
        }),
{
    let n = dfs.len();
    let spots = spots_of(dfs, keys);
    let sources = output_sources(dfs, keys);
    let origin = origins_of(groups, n)[row];
    let t = lemma_origin_at(groups, n, row);
    let r = row - total_rows(groups, t);
    let group = groups[t];
    lemma_lead(lists, groups, t);
    lemma_share(lists, groups, t, group.lead);
    lemma_cell(dfs, keys, lists, groups, df, t, r, row);
    lemma_sources(dfs, keys);
    lemma_is_origin(lists, groups, t, r);
    let cuts = cuts_of(groups, n);
    assert forall|k: int, f: int|
        0 <= k < keys.len() && 0 <= f < dfs.len() && (
        #[trigger] origin.rows[f]) is Some implies #[trigger] frame_cells(df)[k][row]
        == frame_cells(dfs[f])[at[f][k]][origin.rows[f]->0] by {
        let lead = group.lead;
        let first = cuts[t][lead];
        assert(sources[k] == (Source::Key { key: k as usize }));
        assert(frame_cells(df)[k][row] == key_cells(dfs[lead], keys[k])[first]);
        let _ = at[lead][k];
        lemma_named(dfs[lead], keys[k]);
        assert(frame_cells(df)[k][row] == key_cell(dfs, at, lead, k, first));
        lemma_group_row(dfs, keys, at, lists, groups, t, f, origin.rows[f]->0, k);
    }
    assert forall|p: int| 0 <= p < spots.len() implies #[trigger] frame_cells(df)[keys.len()
        + p][row] == match origin.rows[spots[p].0] {
        Some(i) => frame_cells(dfs[spots[p].0])[spots[p].1][i],
        None => None,
    } by {
        let _ = spots[p];
        let f = spots[p].0;
        let c = spots[p].1;
        assert(sources[keys.len() + p] == (Source::Payload {
            input: f as usize,
            column: c as usize,
        }));
        assert(origin.rows[f] == picked(group, f, r));
    }
}

/// The rows of a group have the key cells of its leader.
proof fn lemma_group_row(
    dfs: Seq<DataFrame>,
    keys: Seq<Seq<char>>,
    at: Seq<Seq<int>>,
    lists: Seq<Seq<Key>>,
    groups: Seq<GroupModel>,
    t: int,
    f: int,
    i: int,
    k: int,
)
    requires
        are_lists(dfs, keys, at, lists),
        is_merge(lists, groups),
        0 <= t < groups.len(),
        0 <= f < dfs.len(),
        consumed(groups, f, t) <= i < consumed(groups, f, t + 1),
        0 <= k < keys.len(),
    ensures
        key_cell(dfs, at, f, k, i) == key_cell(
            dfs,
            at,
            groups[t].lead,
            k,
            consumed(groups, groups[t].lead, t),
        ),
{
    lemma_parting(dfs, keys, at, lists, groups);
    let cuts = cuts_of(groups, lists.len());
    let leads = Seq::new(groups.len(), |t: int| groups[t].lead);
    let lead = leads[t];
    assert(is_group(dfs, at, cuts[t], cuts[t + 1], lead));
    assert(at[f].len() == keys.len());
    assert(cuts[t][f] == consumed(groups, f, t));
    assert(cuts[t + 1][f] == consumed(groups, f, t + 1));
    assert(cuts[t][lead] == consumed(groups, lead, t));
    if has_key(dfs, at, lead, cuts[t][lead]) {
        assert(have_one_key(dfs, at, f, i, lead, cuts[t][lead]));
        assert(key_cell(dfs, at, f, k, i) == key_cell(dfs, at, lead, k, cuts[t][lead]));
    } else {
        let _ = cuts[t + 1][f];
    }
}

proof fn lemma_rows(
    dfs: Seq<DataFrame>,
    keys: Seq<Seq<char>>,
    at: Seq<Seq<int>>,
    lists: Seq<Seq<Key>>,
    groups: Seq<GroupModel>,
    df: DataFrame,
)
    requires
        is_countable(dfs, keys),
        are_lists(dfs, keys, at, lists),
        is_merge(lists, groups),
        is_joined(dfs, keys, groups, df),
    ensures
        are_rows(
            dfs,
            keys,
            at,
            cuts_of(groups, dfs.len()),
            spots_of(dfs, keys),
            origins_of(groups, dfs.len()),
            df,
        ),
{
    let n = dfs.len();
    let cuts = cuts_of(groups, n);
    let spots = spots_of(dfs, keys);
    let origins = origins_of(groups, n);
    lemma_totals(groups, 0, groups.len() as int);
    assert forall|r: int| 0 <= r < origins.len() implies is_origin(cuts, n, #[trigger] origins[r]) by {
        let t = lemma_origin_at(groups, n, r);
        lemma_is_origin(lists, groups, t, r - total_rows(groups, t));
    }
    assert forall|r: int, s: int| 0 <= r < s < origins.len() implies comes_before(
        #[trigger] origins[r],
        #[trigger] origins[s],
    ) by {
        lemma_origins_ordered(lists, groups, r, s);
    }
    assert forall|origin: Origin| #[trigger] is_origin(cuts, n, origin) implies origins.contains(
        origin,
    ) by {
        lemma_origins_complete(lists, groups, origin);
    }
    assert forall|p: int| 0 <= p < frame_cells(df).len() implies (
    #[trigger] frame_cells(df)[p]).len() == origins.len() by {
        result_has_one_row_for_each_combination(dfs, keys, lists, groups, df, p);
    }
    assert forall|k: int, r: int, f: int|
        0 <= k < keys.len() && 0 <= r < origins.len() && 0 <= f < dfs.len() && (
        #[trigger] origins[r].rows[f]) is Some implies #[trigger] frame_cells(df)[k][r]
        == frame_cells(dfs[f])[at[f][k]][origins[r].rows[f]->0] by {
        lemma_row_cells(dfs, keys, at, lists, groups, df, r);
    }
    assert forall|p: int, r: int|
        0 <= p < spots.len() && 0 <= r < origins.len() implies #[trigger] frame_cells(
        df,
    )[keys.len() + p][r] == match origins[r].rows[spots[p].0] {
        Some(i) => frame_cells(dfs[spots[p].0])[spots[p].1][i],
        None => None,
    } by {
        lemma_row_cells(dfs, keys, at, lists, groups, df, r);
    }
}

/// What a join gives. The rows of the frames are parted into groups by their keys. Where each group
/// has no more combinations of rows than a machine can count, and all together no more than
/// 4294967294, the result is a frame with one row for each of them, in order; else it is the error
/// that says which number is too large.
pub proof fn what_a_join_gives(
    dfs: Seq<DataFrame>,
    keys: Seq<Seq<char>>,
    at: Seq<Seq<int>>,
    joined: Result<DataFrame, JoinManyError>,
) -> (parts: (Seq<Seq<int>>, Seq<int>, Seq<(int, int)>, Seq<Origin>))
    requires
        joins_to(dfs, keys, joined),
        can_be_joined(dfs, keys),
        are_key_positions(dfs, keys, at),
        dfs.len() <= usize::MAX,
        keys.len() <= usize::MAX,
        forall|f: int| 0 <= f < dfs.len() ==> #[trigger] frame_names(dfs[f]).len() <= usize::MAX,
    ensures
        ({
            let (cuts, leads, spots, origins) = parts;
            let small = forall|t: int|
                0 <= t < leads.len() ==> #[trigger] group_size(cuts, t) <= usize::MAX;
            let rows = row_count(cuts, leads.len() as int);
            &&& is_parting(dfs, at, cuts, leads)
            &&& !small ==> joined == Err::<DataFrame, JoinManyError>(JoinManyError::SizeOverflow)
            &&& small && rows > 4294967294 ==> joined == Err::<DataFrame, JoinManyError>(
                JoinManyError::TooManyRows,
            )
            &&& small && rows <= 4294967294 ==> {
                &&& joined is Ok
                &&& origins.len() == rows
                &&& are_columns(dfs, keys, at, spots, joined->Ok_0)
                &&& are_rows(dfs, keys, at, cuts, spots, origins, joined->Ok_0)
            }
        }),
{
    frames_that_can_be_joined_are_accepted(dfs, keys);
    let (lists, groups) = choose|lists: Seq<Seq<Key>>, groups: Seq<GroupModel>|
        are_encodings(dfs, keys, lists) && #[trigger] is_merge(lists, groups) && is_outcome(
            dfs,
            keys,
            groups,
            joined,
        );
    let cuts = cuts_of(groups, dfs.len());
    let leads = Seq::new(groups.len(), |t: int| groups[t].lead);
    let spots = spots_of(dfs, keys);
    let origins = origins_of(groups, dfs.len());
    lemma_parting(dfs, keys, at, lists, groups);
    lemma_row_count(lists, groups, groups.len() as int);
    lemma_totals(groups, 0, groups.len() as int);
    assert forall|t: int| 0 <= t < groups.len() implies #[trigger] group_size(cuts, t) == rows_of(
        groups[t],
    ) by {
        lemma_group_size(lists, groups, t);
    }
    let small = forall|t: int|
        0 <= t < leads.len() ==> #[trigger] group_size(cuts, t) <= usize::MAX;
    assert(oversized(groups) == !small) by {
        if oversized(groups) {
            let t = choose|t: int| 0 <= t < groups.len() && rows_of(#[trigger] groups[t]) > usize::MAX;
            assert(group_size(cuts, t) == rows_of(groups[t]));
        }
        if !small {
            let t = choose|t: int|
                0 <= t < leads.len() && #[trigger] group_size(cuts, t) > usize::MAX;
            assert(rows_of(groups[t]) > usize::MAX);
        }
    }
    if small && row_count(cuts, leads.len() as int) <= 4294967294 {
        let df = joined->Ok_0;
        lemma_columns(dfs, keys, at, groups, df);
        lemma_rows(dfs, keys, at, lists, groups, df);
    }
    (cuts, leads, spots, origins)
}

} // verus!
