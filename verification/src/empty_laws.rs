//! A frame without rows in a join: it adds its columns, and nothing to the rows.
use vstd::prelude::*;

use polars_core::frame::DataFrame;

use crate::frames::{frame_cells, frame_dtypes, frame_names};
use crate::join_inputs::{
    accepted, all_payload_sources, bad_key, dtypes_for, key_dtype, key_sources, names_of,
    output_sources, payload_sources, source_dtype, source_name, source_valid, JoinManyError, Source,
};
use crate::join_laws::{lemma_lead, merge_is_unique};
use crate::join_many::{
    are_encodings, are_keys_of, filled, is_joined, is_outcome, joins_to, key_cells, key_columns_of,
    source_cells, total_rows,
};
use crate::layout::{combinations_from, factor, lemma_rows_positive, picked, rows_of};
use crate::merge::{
    consumed, cursors_after, head, is_merge, is_next, is_share, joins, leads, live, GroupModel,
};
use crate::names::{first_at, lemma_position, position_of};
use crate::reordering_laws::{every_source_is_listed, lemma_one_source};
use crate::result_laws::{
    lemma_one_encoding, result_has_one_row_for_each_combination,
};
use crate::row_keys::{key_less, Key};

verus! {

/// A frame has one name, one data type and one list of cells for each column, and all columns are
/// of one height.
pub open spec fn is_frame(df: DataFrame) -> bool {
    &&& frame_dtypes(df).len() == frame_names(df).len()
    &&& frame_cells(df).len() == frame_names(df).len()
    &&& forall|c: int, d: int|
        0 <= c < frame_cells(df).len() && 0 <= d < frame_cells(df).len() ==> #[trigger] frame_cells(
            df,
        )[c].len() == #[trigger] frame_cells(df)[d].len()
}

/// Frames, columns and keys can be counted by a machine.
pub open spec fn is_countable(dfs: Seq<DataFrame>, keys: Seq<Seq<char>>) -> bool {
    &&& dfs.len() <= usize::MAX
    &&& keys.len() <= usize::MAX
    &&& forall|f: int|
        0 <= f < dfs.len() ==> #[trigger] frame_names(dfs[f]).len() <= usize::MAX
}

proof fn lemma_payload_valid(dfs: Seq<DataFrame>, keys: Seq<Seq<char>>, f: int, n: int)
    requires
        is_countable(dfs, keys),
        0 <= f < dfs.len(),
        0 <= n <= frame_names(dfs[f]).len(),
    ensures
        forall|p: int|
            0 <= p < payload_sources(dfs, keys, f, n).len() ==> source_valid(
                dfs,
                keys,
                #[trigger] payload_sources(dfs, keys, f, n)[p],
            ) && payload_sources(dfs, keys, f, n)[p] is Payload && payload_sources(
                dfs,
                keys,
                f,
                n,
            )[p]->input == f,
    decreases n,
{
    if n > 0 {
        lemma_payload_valid(dfs, keys, f, n - 1);
        assert(frame_names(dfs[f]).len() <= usize::MAX);
    }
}

proof fn lemma_payloads_valid(dfs: Seq<DataFrame>, keys: Seq<Seq<char>>, n: int)
    requires
        is_countable(dfs, keys),
        0 <= n <= dfs.len(),
    ensures
        forall|p: int|
            0 <= p < all_payload_sources(dfs, keys, n).len() ==> source_valid(
                dfs,
                keys,
                #[trigger] all_payload_sources(dfs, keys, n)[p],
            ) && all_payload_sources(dfs, keys, n)[p] is Payload,
    decreases n,
{
    if n > 0 {
        lemma_payloads_valid(dfs, keys, n - 1);
        lemma_payload_valid(dfs, keys, n - 1, frame_names(dfs[n - 1]).len() as int);
        let more = payload_sources(dfs, keys, n - 1, frame_names(dfs[n - 1]).len() as int);
        let before = all_payload_sources(dfs, keys, n - 1);
        assert forall|p: int| 0 <= p < (before + more).len() implies source_valid(
            dfs,
            keys,
            #[trigger] (before + more)[p],
        ) && (before + more)[p] is Payload by {
            if p >= before.len() {
                assert((before + more)[p] == more[p - before.len()]);
            } else {
                assert((before + more)[p] == before[p]);
            }
        }
    }
}

/// Every column of the result comes from a key or from another column of an input, those from keys
/// first, in the order of the keys.
pub proof fn sources_are_valid(dfs: Seq<DataFrame>, keys: Seq<Seq<char>>)
    requires
        is_countable(dfs, keys),
    ensures
        forall|p: int|
            0 <= p < output_sources(dfs, keys).len() ==> source_valid(
                dfs,
                keys,
                #[trigger] output_sources(dfs, keys)[p],
            ) && if p < keys.len() {
                output_sources(dfs, keys)[p] == (Source::Key { key: p as usize })
            } else {
                output_sources(dfs, keys)[p] is Payload
            },
{
    lemma_payloads_valid(dfs, keys, dfs.len() as int);
    let a = key_sources(keys.len());
    let b = all_payload_sources(dfs, keys, dfs.len() as int);
    assert forall|p: int| 0 <= p < (a + b).len() implies source_valid(
        dfs,
        keys,
        #[trigger] (a + b)[p],
    ) && if p < keys.len() {
        (a + b)[p] == (Source::Key { key: p as usize })
    } else {
        (a + b)[p] is Payload
    } by {
        if p >= a.len() {
            assert((a + b)[p] == b[p - a.len()]);
        } else {
            assert((a + b)[p] == a[p]);
        }
    }
}

/// The columns of an input do not depend on the inputs after it.
proof fn lemma_payload_kept(
    dfs: Seq<DataFrame>,
    e: DataFrame,
    keys: Seq<Seq<char>>,
    f: int,
    n: int,
)
    requires
        0 <= f < dfs.len(),
        n <= frame_names(dfs[f]).len(),
    ensures
        payload_sources(dfs.push(e), keys, f, n) == payload_sources(dfs, keys, f, n),
    decreases n,
{
    if n > 0 {
        lemma_payload_kept(dfs, e, keys, f, n - 1);
    }
}

proof fn lemma_payloads_kept(dfs: Seq<DataFrame>, e: DataFrame, keys: Seq<Seq<char>>, n: int)
    requires
        0 <= n <= dfs.len(),
    ensures
        all_payload_sources(dfs.push(e), keys, n) == all_payload_sources(dfs, keys, n),
    decreases n,
{
    if n > 0 {
        lemma_payloads_kept(dfs, e, keys, n - 1);
        lemma_payload_kept(dfs, e, keys, n - 1, frame_names(dfs[n - 1]).len() as int);
    }
}

/// The columns that a frame adds to a join of others.
pub open spec fn added_sources(
    dfs: Seq<DataFrame>,
    e: DataFrame,
    keys: Seq<Seq<char>>,
) -> Seq<Source> {
    payload_sources(dfs.push(e), keys, dfs.len() as int, frame_names(e).len() as int)
}

/// A frame more adds its columns behind the others.
pub proof fn lemma_sources_with(dfs: Seq<DataFrame>, e: DataFrame, keys: Seq<Seq<char>>)
    ensures
        output_sources(dfs.push(e), keys) == output_sources(dfs, keys) + added_sources(
            dfs,
            e,
            keys,
        ),
{
    lemma_payloads_kept(dfs, e, keys, dfs.len() as int);
    assert(dfs.push(e)[dfs.len() as int] == e);
    assert(output_sources(dfs.push(e), keys) =~= output_sources(dfs, keys) + added_sources(
        dfs,
        e,
        keys,
    ));
}

/// A sequence with one thing more, at place `at`.
pub open spec fn inserted<A>(things: Seq<A>, at: int, thing: A) -> Seq<A> {
    Seq::new(
        things.len() + 1,
        |i: int|
            if i < at {
                things[i]
            } else if i == at {
                thing
            } else {
                things[i - 1]
            },
    )
}

/// The place of thing `f` once another has been inserted at place `at`.
pub open spec fn shifted(f: int, at: int) -> int {
    if f < at {
        f
    } else {
        f + 1
    }
}

/// A group with one list more, at place `at`, which it takes nothing of.
pub open spec fn widened(group: GroupModel, at: int) -> GroupModel {
    GroupModel {
        lead: shifted(group.lead, at),
        starts: inserted(group.starts, at, 0),
        lens: inserted(group.lens, at, 0),
    }
}

/// Groups with one list more, at place `at`, which they take nothing of.
pub open spec fn all_widened(groups: Seq<GroupModel>, at: int) -> Seq<GroupModel> {
    groups.map_values(|g: GroupModel| widened(g, at))
}

proof fn lemma_combinations_widened(lens: Seq<int>, at: int, f: int)
    requires
        0 <= at <= lens.len(),
        0 <= f <= lens.len() + 1,
    ensures
        combinations_from(inserted(lens, at, 0), f) == combinations_from(
            lens,
            if f <= at {
                f
            } else {
                f - 1
            },
        ),
    decreases lens.len() + 1 - f,
{
    let more = inserted(lens, at, 0);
    if f == lens.len() + 1 {
        assert(combinations_from(more, f) == 1);
        assert(combinations_from(lens, f - 1) == 1);
    } else {
        lemma_combinations_widened(lens, at, f + 1);
        assert(combinations_from(more, f) == factor(more[f]) * combinations_from(more, f + 1));
        if f == at {
            assert(factor(more[f]) == 1);
        } else if f < at {
            assert(more[f] == lens[f]);
        } else {
            assert(more[f] == lens[f - 1]);
            assert(combinations_from(lens, f - 1) == factor(lens[f - 1]) * combinations_from(
                lens,
                f,
            ));
        }
    }
}

proof fn lemma_consumed_widened(
    lists: Seq<Seq<Key>>,
    groups: Seq<GroupModel>,
    at: int,
    t: int,
)
    requires
        is_merge(lists, groups),
        0 <= at <= lists.len(),
        0 <= t <= groups.len(),
    ensures
        forall|f: int|
            0 <= f < lists.len() ==> consumed(all_widened(groups, at), shifted(f, at), t)
                == #[trigger] consumed(groups, f, t),
        consumed(all_widened(groups, at), at, t) == 0,
    decreases t,
{
    if t > 0 {
        lemma_consumed_widened(lists, groups, at, t - 1);
        let group = groups[t - 1];
        let wide = all_widened(groups, at);
        lemma_lead(lists, groups, t - 1);
        assert(wide[t - 1] == widened(group, at));
        assert(wide[t - 1].lens[at] == 0);
        assert forall|f: int| 0 <= f < lists.len() implies consumed(wide, shifted(f, at), t)
            == #[trigger] consumed(groups, f, t) by {
            assert(consumed(wide, shifted(f, at), t - 1) == consumed(groups, f, t - 1));
            assert(widened(group, at).lens[shifted(f, at)] == group.lens[f]);
        }
    }
}

/// The list that a place stands for, once an empty one has been inserted.
spec fn unshifted(g: int, at: int) -> int {
    if g < at {
        g
    } else {
        g - 1
    }
}

/// The group that comes next with an empty list is the one that comes next without it.
proof fn lemma_next_widened(lists: Seq<Seq<Key>>, groups: Seq<GroupModel>, at: int, t: int)
    requires
        is_merge(lists, groups),
        0 <= at <= lists.len(),
        0 <= t < groups.len(),
    ensures
        is_next(
            inserted(lists, at, Seq::empty()),
            cursors_after(all_widened(groups, at), lists.len() + 1, t),
            widened(groups[t], at),
        ),
{
    let more = inserted(lists, at, Seq::<Key>::empty());
    let wide = all_widened(groups, at);
    let group = groups[t];
    let lead = shifted(group.lead, at);
    let old_cursors = cursors_after(groups, lists.len(), t);
    let cursors = cursors_after(wide, lists.len() + 1, t);
    lemma_consumed_widened(lists, groups, at, t);
    lemma_lead(lists, groups, t);
    assert(is_next(lists, old_cursors, group));
    assert forall|f: int| 0 <= f < lists.len() implies #[trigger] old_cursors[f]
        == cursors[shifted(f, at)] && more[shifted(f, at)] == lists[f] by {
        assert(consumed(wide, shifted(f, at), t) == consumed(groups, f, t));
    }
    assert(cursors[at] == 0 && more[at].len() == 0);
    assert(live(lists, old_cursors, group.lead));
    assert(old_cursors[group.lead] == cursors[lead]);
    assert(leads(more, cursors, lead)) by {
        assert forall|g: int| #[trigger] live(more, cursors, g) implies {
            &&& !key_less(head(more, cursors, g), head(more, cursors, lead))
            &&& g < lead ==> key_less(head(more, cursors, lead), head(more, cursors, g))
        } by {
            assert(g != at);
            let f = unshifted(g, at);
            assert(shifted(f, at) == g);
            assert(old_cursors[f] == cursors[g]);
            assert(live(lists, old_cursors, f));
        }
    }
    assert forall|g: int| 0 <= g < more.len() implies is_share(
        more,
        cursors,
        lead,
        g,
        widened(group, at).starts[g],
        #[trigger] widened(group, at).lens[g],
    ) by {
        if g == at {
            assert(!joins(more, cursors, lead, g));
        } else {
            let f = unshifted(g, at);
            assert(shifted(f, at) == g);
            assert(old_cursors[f] == cursors[g]);
            assert(widened(group, at).lens[g] == group.lens[f]);
            assert(is_share(lists, old_cursors, group.lead, f, group.starts[f], group.lens[f]));
            assert(live(more, cursors, g) == live(lists, old_cursors, f));
            assert(joins(more, cursors, lead, g) == joins(lists, old_cursors, group.lead, f));
        }
    }
}

/// The merge with an empty list is the merge without it.
proof fn lemma_merge_widened(lists: Seq<Seq<Key>>, groups: Seq<GroupModel>, at: int)
    requires
        is_merge(lists, groups),
        0 <= at <= lists.len(),
    ensures
        is_merge(inserted(lists, at, Seq::empty()), all_widened(groups, at)),
{
    let more = inserted(lists, at, Seq::<Key>::empty());
    let wide = all_widened(groups, at);
    assert forall|t: int| 0 <= t < wide.len() implies is_next(
        more,
        #[trigger] cursors_after(wide, more.len(), t),
        wide[t],
    ) by {
        lemma_next_widened(lists, groups, at, t);
    }
    lemma_consumed_widened(lists, groups, at, groups.len() as int);
    assert forall|g: int| 0 <= g < more.len() implies #[trigger] consumed(
        wide,
        g,
        wide.len() as int,
    ) == more[g].len() by {
        if g != at {
            let f = unshifted(g, at);
            assert(shifted(f, at) == g);
            assert(consumed(groups, f, groups.len() as int) == lists[f].len());
        }
    }
}

/// A group with an empty list more has the rows that it had, and each picks what it did.
proof fn lemma_picks_widened(group: GroupModel, at: int)
    requires
        group.starts.len() == group.lens.len(),
        0 <= at <= group.lens.len(),
    ensures
        rows_of(widened(group, at)) == rows_of(group),
        forall|f: int, r: int|
            0 <= f < group.lens.len() ==> picked(widened(group, at), shifted(f, at), r)
                == #[trigger] picked(group, f, r),
        forall|r: int| #[trigger] picked(widened(group, at), at, r) is None,
{
    lemma_combinations_widened(group.lens, at, 0);
    assert forall|f: int, r: int| 0 <= f < group.lens.len() implies picked(
        widened(group, at),
        shifted(f, at),
        r,
    ) == #[trigger] picked(group, f, r) by {
        lemma_combinations_widened(group.lens, at, shifted(f, at) + 1);
    }
}

proof fn lemma_rows_widened(
    lists: Seq<Seq<Key>>,
    groups: Seq<GroupModel>,
    at: int,
    t: int,
)
    requires
        is_merge(lists, groups),
        0 <= at <= lists.len(),
        0 <= t <= groups.len(),
    ensures
        total_rows(all_widened(groups, at), t) == total_rows(groups, t),
        forall|u: int|
            0 <= u < groups.len() ==> rows_of(#[trigger] all_widened(groups, at)[u]) == rows_of(
                groups[u],
            ),
    decreases t,
{
    assert forall|u: int| 0 <= u < groups.len() implies rows_of(
        #[trigger] all_widened(groups, at)[u],
    ) == rows_of(groups[u]) by {
        lemma_lead(lists, groups, u);
        lemma_picks_widened(groups[u], at);
    }
    if t > 0 {
        lemma_rows_widened(lists, groups, at, t - 1);
        let _ = all_widened(groups, at)[t - 1];
    }
}

/// Where a column comes from once a frame has been inserted at place `at`.
pub open spec fn shifted_source(source: Source, at: int) -> Source {
    match source {
        Source::Key { .. } => source,
        Source::Payload { input, column } => Source::Payload {
            input: shifted(input as int, at) as usize,
            column,
        },
    }
}

/// What a column of the result holds is the same with the empty frame.
proof fn lemma_filled_widened(
    dfs: Seq<DataFrame>,
    at: int,
    e: DataFrame,
    keys: Seq<Seq<char>>,
    lists: Seq<Seq<Key>>,
    groups: Seq<GroupModel>,
    source: Source,
    t: int,
)
    requires
        lists.len() == dfs.len(),
        dfs.len() < usize::MAX,
        0 <= at <= dfs.len(),
        is_merge(lists, groups),
        source_valid(dfs, keys, source),
        0 <= t <= groups.len(),
    ensures
        filled(
            inserted(dfs, at, e),
            keys,
            shifted_source(source, at),
            all_widened(groups, at),
            t,
        ) == filled(dfs, keys, source, groups, t),
    decreases t,
{
    if t > 0 {
        lemma_filled_widened(dfs, at, e, keys, lists, groups, source, t - 1);
        let group = groups[t - 1];
        let wide = widened(group, at);
        assert(all_widened(groups, at)[t - 1] == wide);
        lemma_lead(lists, groups, t - 1);
        lemma_picks_widened(group, at);
        let one = source_cells(inserted(dfs, at, e), keys, shifted_source(source, at), wide);
        let other = source_cells(dfs, keys, source, group);
        match source {
            Source::Key { .. } => {
                assert(wide.starts[wide.lead] == group.starts[group.lead]);
            },
            Source::Payload { input, .. } => {
                assert(inserted(dfs, at, e)[shifted(input as int, at)] == dfs[input as int]);
                assert forall|r: int| 0 <= r < one.len() implies one[r] == other[r] by {
                    assert(picked(wide, shifted(input as int, at), r) == picked(
                        group,
                        input as int,
                        r,
                    ));
                }
            },
        }
        assert(one =~= other);
    }
}

/// A column of the empty frame is null throughout.
proof fn lemma_filled_empty(
    dfs: Seq<DataFrame>,
    at: int,
    e: DataFrame,
    keys: Seq<Seq<char>>,
    lists: Seq<Seq<Key>>,
    groups: Seq<GroupModel>,
    source: Source,
    t: int,
)
    requires
        lists.len() == dfs.len(),
        0 <= at <= dfs.len(),
        is_merge(lists, groups),
        source is Payload,
        source->input == at,
        0 <= t <= groups.len(),
    ensures
        forall|r: int|
            0 <= r < filled(inserted(dfs, at, e), keys, source, all_widened(groups, at), t).len()
                ==> #[trigger] filled(
                inserted(dfs, at, e),
                keys,
                source,
                all_widened(groups, at),
                t,
            )[r] is None,
        filled(inserted(dfs, at, e), keys, source, all_widened(groups, at), t).len() == total_rows(
            groups,
            t,
        ),
    decreases t,
{
    if t > 0 {
        lemma_filled_empty(dfs, at, e, keys, lists, groups, source, t - 1);
        let group = groups[t - 1];
        assert(all_widened(groups, at)[t - 1] == widened(group, at));
        lemma_lead(lists, groups, t - 1);
        lemma_picks_widened(group, at);
        lemma_rows_positive(group);
        let before = filled(inserted(dfs, at, e), keys, source, all_widened(groups, at), t - 1);
        let more = source_cells(inserted(dfs, at, e), keys, source, widened(group, at));
        assert forall|r: int| 0 <= r < (before + more).len() implies #[trigger] (before
            + more)[r] is None by {
            if r < before.len() {
                assert((before + more)[r] == before[r]);
            } else {
                assert((before + more)[r] == more[r - before.len()]);
                assert(picked(widened(group, at), at, r - before.len()) is None);
            }
        }
    }
}

/// The keys of the inputs with an empty frame are those without it, and an empty list.
proof fn lemma_encoding_with(
    dfs: Seq<DataFrame>,
    at: int,
    e: DataFrame,
    keys: Seq<Seq<char>>,
    lists: Seq<Seq<Key>>,
    others: Seq<Seq<Key>>,
)
    requires
        0 <= at <= dfs.len(),
        is_frame(e),
        forall|c: int| 0 <= c < frame_cells(e).len() ==> #[trigger] frame_cells(e)[c].len() == 0,
        accepted(inserted(dfs, at, e), keys),
        are_encodings(dfs, keys, lists),
        are_encodings(inserted(dfs, at, e), keys, others),
    ensures
        others == inserted(lists, at, Seq::<Key>::empty()),
{
    let all = inserted(dfs, at, e);
    let n = dfs.len() as int;
    let rest = Seq::new(dfs.len(), |i: int| others[shifted(i, at)]);
    assert forall|i: int| 0 <= i < n implies are_keys_of(dfs[i], keys, #[trigger] rest[i]) by {
        let _ = others[shifted(i, at)];
        assert(all[shifted(i, at)] == dfs[i]);
    }
    lemma_one_encoding(dfs, keys, lists, rest);
    let empty = others[at];
    assert(all[at] == e);
    assert(are_keys_of(e, keys, empty));
    assert(!bad_key(all, keys, at, 0));
    lemma_position(frame_names(e), keys[0]);
    assert(key_columns_of(e, keys)[0].len() == 0);
    assert(empty =~= Seq::<Key>::empty());
    assert forall|i: int| 0 <= i < n + 1 implies others[i] == inserted(
        lists,
        at,
        Seq::<Key>::empty(),
    )[i] by {
        if i != at {
            assert(rest[unshifted(i, at)] == others[i]);
        }
    }
    assert(others =~= inserted(lists, at, Seq::<Key>::empty()));
}

/// The frame joined with the empty one, given the groups of the one without it.
proof fn lemma_result_with(
    dfs: Seq<DataFrame>,
    e: DataFrame,
    keys: Seq<Seq<char>>,
    lists: Seq<Seq<Key>>,
    groups: Seq<GroupModel>,
    joined: DataFrame,
    more: DataFrame,
)
    requires
        is_countable(dfs.push(e), keys),
        dfs.len() > 0,
        lists.len() == dfs.len(),
        is_merge(lists, groups),
        is_joined(dfs, keys, groups, joined),
        is_joined(dfs.push(e), keys, all_widened(groups, dfs.len() as int), more),
    ensures
        ({
            let added = added_sources(dfs, e, keys);
            let n = frame_cells(joined).len();
            &&& frame_names(more) == frame_names(joined) + names_of(dfs.push(e), keys, added)
            &&& frame_dtypes(more) == frame_dtypes(joined) + dtypes_for(dfs.push(e), keys, added)
            &&& frame_cells(more).len() == n + added.len()
            &&& forall|p: int| 0 <= p < n ==> #[trigger] frame_cells(more)[p] == frame_cells(
                joined,
            )[p]
            &&& forall|p: int, r: int|
                n <= p < n + added.len() && 0 <= r < frame_cells(more)[p].len()
                    ==> #[trigger] frame_cells(more)[p][r] is None
        }),
{
    let all = dfs.push(e);
    let n = dfs.len() as int;
    let wide = all_widened(groups, n);
    assert(all =~= inserted(dfs, n, e));
    let sources = output_sources(dfs, keys);
    let added = added_sources(dfs, e, keys);
    lemma_sources_with(dfs, e, keys);
    assert forall|f: int| 0 <= f < dfs.len() implies #[trigger] frame_names(dfs[f]).len()
        <= usize::MAX by {
        assert(all[f] == dfs[f]);
    }
    sources_are_valid(dfs, keys);
    lemma_payload_valid(all, keys, n, frame_names(e).len() as int);
    assert forall|p: int| 0 <= p < sources.len() implies source_name(all, keys, #[trigger] sources[p])
        == source_name(dfs, keys, sources[p]) && source_dtype(all, keys, sources[p])
        == source_dtype(dfs, keys, sources[p]) by {
        assert(source_valid(dfs, keys, sources[p]));
        assert(all[0] == dfs[0]);
        if let Source::Payload { input, .. } = sources[p] {
            assert(all[input as int] == dfs[input as int]);
        }
    }
    assert(frame_cells(joined).len() == sources.len());
    assert(frame_cells(more).len() == (sources + added).len());
    assert(frame_names(more) =~= frame_names(joined) + names_of(all, keys, added));
    assert(frame_dtypes(more) =~= frame_dtypes(joined) + dtypes_for(all, keys, added));
    assert forall|p: int| 0 <= p < sources.len() implies #[trigger] frame_cells(more)[p]
        == frame_cells(joined)[p] by {
        assert((sources + added)[p] == sources[p]);
        assert(source_valid(dfs, keys, sources[p]));
        assert(shifted_source(sources[p], n) == sources[p]);
        lemma_filled_widened(dfs, n, e, keys, lists, groups, sources[p], groups.len() as int);
    }
    assert forall|p: int, r: int|
        sources.len() <= p < sources.len() + added.len() && 0 <= r < frame_cells(
            more,
        )[p].len() implies #[trigger] frame_cells(more)[p][r] is None by {
        let source = added[p - sources.len()];
        assert((sources + added)[p] == source);
        lemma_filled_empty(dfs, n, e, keys, lists, groups, source, groups.len() as int);
        assert(frame_cells(more)[p] == filled(all, keys, source, wide, groups.len() as int));
    }
}

/// A frame without rows that is joined with others adds its columns, all null, behind theirs, and
/// leaves the rest of the result as it is.
pub proof fn a_frame_without_rows_adds_only_nulls(
    dfs: Seq<DataFrame>,
    e: DataFrame,
    keys: Seq<Seq<char>>,
    joined: DataFrame,
    with_it: Result<DataFrame, JoinManyError>,
)
    requires
        is_countable(dfs.push(e), keys),
        is_frame(e),
        forall|c: int| 0 <= c < frame_cells(e).len() ==> #[trigger] frame_cells(e)[c].len() == 0,
        accepted(dfs.push(e), keys),
        joins_to(dfs, keys, Ok::<DataFrame, JoinManyError>(joined)),
        joins_to(dfs.push(e), keys, with_it),
    ensures
        with_it is Ok,
        ({
            let more = with_it->Ok_0;
            let added = added_sources(dfs, e, keys);
            let n = frame_cells(joined).len();
            &&& frame_names(more) == frame_names(joined) + names_of(dfs.push(e), keys, added)
            &&& frame_dtypes(more) == frame_dtypes(joined) + dtypes_for(dfs.push(e), keys, added)
            &&& frame_cells(more).len() == n + added.len()
            &&& forall|p: int| 0 <= p < n ==> #[trigger] frame_cells(more)[p] == frame_cells(
                joined,
            )[p]
            &&& forall|p: int, r: int|
                n <= p < n + added.len() && 0 <= r < frame_cells(more)[p].len()
                    ==> #[trigger] frame_cells(more)[p][r] is None
        }),
{
    let all = dfs.push(e);
    let n = dfs.len() as int;
    assert(accepted(dfs, keys));
    let (lists, groups) = choose|lists: Seq<Seq<Key>>, groups: Seq<GroupModel>|
        are_encodings(dfs, keys, lists) && #[trigger] is_merge(lists, groups) && is_outcome(
            dfs,
            keys,
            groups,
            Ok::<DataFrame, JoinManyError>(joined),
        );
    let (others, pieces) = choose|lists: Seq<Seq<Key>>, groups: Seq<GroupModel>|
        are_encodings(all, keys, lists) && #[trigger] is_merge(lists, groups) && is_outcome(
            all,
            keys,
            groups,
            with_it,
        );
    let wide = all_widened(groups, n);
    assert(all =~= inserted(dfs, n, e));
    lemma_encoding_with(dfs, n, e, keys, lists, others);
    lemma_merge_widened(lists, groups, n);
    merge_is_unique(others, pieces, wide);
    lemma_rows_widened(lists, groups, n, groups.len() as int);
    assert(with_it is Ok);
    assert(all[0] == dfs[0]);
    lemma_result_with(dfs, e, keys, lists, groups, joined, with_it->Ok_0);
}

/// A column of the join without the empty frame, and the column of that name in the join with it.
proof fn lemma_column_with(
    dfs: Seq<DataFrame>,
    at: int,
    e: DataFrame,
    keys: Seq<Seq<char>>,
    name: Seq<char>,
)
    requires
        is_countable(dfs, keys),
        is_countable(inserted(dfs, at, e), keys),
        0 <= at <= dfs.len(),
        accepted(inserted(dfs, at, e), keys),
        names_of(dfs, keys, output_sources(dfs, keys)).contains(name),
    ensures
        ({
            let all = inserted(dfs, at, e);
            let names = names_of(dfs, keys, output_sources(dfs, keys));
            let too = names_of(all, keys, output_sources(all, keys));
            let p = position_of(names, name);
            let q = position_of(too, name);
            &&& too.contains(name)
            &&& 0 <= p < output_sources(dfs, keys).len()
            &&& 0 <= q < output_sources(all, keys).len()
            &&& source_valid(dfs, keys, output_sources(dfs, keys)[p])
            &&& output_sources(all, keys)[q] == shifted_source(output_sources(dfs, keys)[p], at)
        }),
{
    let all = inserted(dfs, at, e);
    let sources = output_sources(dfs, keys);
    let ones = output_sources(all, keys);
    let names = names_of(dfs, keys, sources);
    let too = names_of(all, keys, ones);
    sources_are_valid(dfs, keys);
    sources_are_valid(all, keys);
    lemma_position(names, name);
    let p = position_of(names, name);
    assert(first_at(names, name, p));
    assert(names[p] == source_name(dfs, keys, sources[p]));
    let there = shifted_source(sources[p], at);
    if let Source::Payload { input, .. } = sources[p] {
        assert(all[shifted(input as int, at)] == dfs[input as int]);
    }
    every_source_is_listed(all, keys, there);
    let i = ones.index_of(there);
    assert(too[i] == name);
    lemma_position(too, name);
    let q = position_of(too, name);
    assert(first_at(too, name, q));
    assert(too[q] == source_name(all, keys, ones[q]));
    lemma_one_source(all, keys, ones[q], there);
}

/// A column that only the join with the empty frame has comes from that frame.
proof fn lemma_column_added(
    dfs: Seq<DataFrame>,
    at: int,
    e: DataFrame,
    keys: Seq<Seq<char>>,
    name: Seq<char>,
)
    requires
        is_countable(dfs, keys),
        is_countable(inserted(dfs, at, e), keys),
        0 <= at <= dfs.len(),
        !names_of(dfs, keys, output_sources(dfs, keys)).contains(name),
        names_of(
            inserted(dfs, at, e),
            keys,
            output_sources(inserted(dfs, at, e), keys),
        ).contains(name),
    ensures
        ({
            let all = inserted(dfs, at, e);
            let q = position_of(names_of(all, keys, output_sources(all, keys)), name);
            &&& 0 <= q < output_sources(all, keys).len()
            &&& output_sources(all, keys)[q] is Payload
            &&& output_sources(all, keys)[q]->input == at
        }),
{
    let all = inserted(dfs, at, e);
    let sources = output_sources(dfs, keys);
    let ones = output_sources(all, keys);
    let names = names_of(dfs, keys, sources);
    let too = names_of(all, keys, ones);
    sources_are_valid(all, keys);
    lemma_position(too, name);
    let q = position_of(too, name);
    assert(first_at(too, name, q));
    assert(too[q] == source_name(all, keys, ones[q]));
    assert(source_valid(all, keys, ones[q]));
    if ones[q] is Key || ones[q]->input != at {
        let here = match ones[q] {
            Source::Key { .. } => ones[q],
            Source::Payload { input, column } => Source::Payload {
                input: unshifted(input as int, at) as usize,
                column,
            },
        };
        if let Source::Payload { input, .. } = ones[q] {
            assert(all[input as int] == dfs[unshifted(input as int, at)]);
        }
        every_source_is_listed(dfs, keys, here);
        let i = sources.index_of(here);
        assert(names[i] == name);
    }
}

/// The frame joined with the empty one, wherever that stands, given the groups of the one without
/// it.
proof fn lemma_result_anywhere(
    dfs: Seq<DataFrame>,
    at: int,
    e: DataFrame,
    keys: Seq<Seq<char>>,
    lists: Seq<Seq<Key>>,
    groups: Seq<GroupModel>,
    joined: DataFrame,
    more: DataFrame,
)
    requires
        is_countable(dfs, keys),
        is_countable(inserted(dfs, at, e), keys),
        0 <= at <= dfs.len(),
        dfs.len() > 0,
        accepted(inserted(dfs, at, e), keys),
        lists.len() == dfs.len(),
        is_merge(lists, groups),
        is_joined(dfs, keys, groups, joined),
        is_joined(inserted(dfs, at, e), keys, all_widened(groups, at), more),
    ensures
        forall|name: Seq<char>| #[trigger]
            frame_names(joined).contains(name) ==> {
                &&& frame_names(more).contains(name)
                &&& key_dtype(more, name) == key_dtype(joined, name)
                &&& key_cells(more, name) == key_cells(joined, name)
            },
        forall|name: Seq<char>| #[trigger]
            frame_names(more).contains(name) && !frame_names(joined).contains(name) ==> {
                &&& key_cells(more, name).len() == total_rows(groups, groups.len() as int)
                &&& forall|r: int|
                    0 <= r < key_cells(more, name).len() ==> #[trigger] key_cells(
                        more,
                        name,
                    )[r] is None
            },
{
    let all = inserted(dfs, at, e);
    let n = groups.len() as int;
    let wide = all_widened(groups, at);
    assert forall|name: Seq<char>| #[trigger] frame_names(joined).contains(name) implies {
        &&& frame_names(more).contains(name)
        &&& key_dtype(more, name) == key_dtype(joined, name)
        &&& key_cells(more, name) == key_cells(joined, name)
    } by {
        lemma_column_with(dfs, at, e, keys, name);
        let p = position_of(frame_names(joined), name);
        let q = position_of(frame_names(more), name);
        let source = output_sources(dfs, keys)[p];
        lemma_filled_widened(dfs, at, e, keys, lists, groups, source, n);
        assert(frame_cells(more)[q] == filled(all, keys, shifted_source(source, at), wide, n));
        match source {
            Source::Key { key } => {
                assert(all[shifted(0, at)] == dfs[0]);
                assert(!bad_key(all, keys, shifted(0, at), key as int));
            },
            Source::Payload { input, .. } => {
                assert(all[shifted(input as int, at)] == dfs[input as int]);
            },
        }
    }
    assert forall|name: Seq<char>| #[trigger]
        frame_names(more).contains(name) && !frame_names(joined).contains(name) implies {
        &&& key_cells(more, name).len() == total_rows(groups, n)
        &&& forall|r: int|
            0 <= r < key_cells(more, name).len() ==> #[trigger] key_cells(more, name)[r] is None
    } by {
        lemma_column_added(dfs, at, e, keys, name);
        let q = position_of(frame_names(more), name);
        let source = output_sources(all, keys)[q];
        lemma_filled_empty(dfs, at, e, keys, lists, groups, source, n);
        assert(key_cells(more, name) == filled(all, keys, source, wide, n));
    }
}

/// A frame without rows adds only its columns, all null, wherever it stands among the frames: the
/// other columns are as they are without it, read by name, row for row.
pub proof fn a_frame_without_rows_may_stand_anywhere(
    dfs: Seq<DataFrame>,
    at: int,
    e: DataFrame,
    keys: Seq<Seq<char>>,
    joined: DataFrame,
    with_it: Result<DataFrame, JoinManyError>,
)
    requires
        is_countable(inserted(dfs, at, e), keys),
        0 <= at <= dfs.len(),
        is_frame(e),
        forall|c: int| 0 <= c < frame_cells(e).len() ==> #[trigger] frame_cells(e)[c].len() == 0,
        accepted(inserted(dfs, at, e), keys),
        joins_to(dfs, keys, Ok::<DataFrame, JoinManyError>(joined)),
        joins_to(inserted(dfs, at, e), keys, with_it),
    ensures
        with_it is Ok,
        forall|name: Seq<char>| #[trigger]
            frame_names(joined).contains(name) ==> {
                &&& frame_names(with_it->Ok_0).contains(name)
                &&& key_dtype(with_it->Ok_0, name) == key_dtype(joined, name)
                &&& key_cells(with_it->Ok_0, name) == key_cells(joined, name)
            },
        forall|name: Seq<char>| #[trigger]
            frame_names(with_it->Ok_0).contains(name) && !frame_names(joined).contains(name) ==> {
                &&& key_cells(with_it->Ok_0, name).len() == frame_cells(joined)[0].len()
                &&& forall|r: int|
                    0 <= r < key_cells(with_it->Ok_0, name).len() ==> #[trigger] key_cells(
                        with_it->Ok_0,
                        name,
                    )[r] is None
            },
{
    let all = inserted(dfs, at, e);
    assert(accepted(dfs, keys));
    let (lists, groups) = choose|lists: Seq<Seq<Key>>, groups: Seq<GroupModel>|
        are_encodings(dfs, keys, lists) && #[trigger] is_merge(lists, groups) && is_outcome(
            dfs,
            keys,
            groups,
            Ok::<DataFrame, JoinManyError>(joined),
        );
    let (others, pieces) = choose|lists: Seq<Seq<Key>>, groups: Seq<GroupModel>|
        are_encodings(all, keys, lists) && #[trigger] is_merge(lists, groups) && is_outcome(
            all,
            keys,
            groups,
            with_it,
        );
    assert forall|f: int| 0 <= f < dfs.len() implies #[trigger] frame_names(dfs[f]).len()
        <= usize::MAX by {
        assert(frame_names(all[shifted(f, at)]).len() <= usize::MAX);
    }
    lemma_encoding_with(dfs, at, e, keys, lists, others);
    lemma_merge_widened(lists, groups, at);
    merge_is_unique(others, pieces, all_widened(groups, at));
    lemma_rows_widened(lists, groups, at, groups.len() as int);
    assert(with_it is Ok);
    lemma_result_anywhere(dfs, at, e, keys, lists, groups, joined, with_it->Ok_0);
    result_has_one_row_for_each_combination(dfs, keys, lists, groups, joined, 0);
}

} // verus!
