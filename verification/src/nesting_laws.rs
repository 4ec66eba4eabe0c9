//! The merge of several lists at once, and the merge of the last of them with what the others give.
use vstd::prelude::*;

use crate::join_laws::{
    a_row_without_a_key_stands_alone, group_key, lemma_next_is_unique, lemma_lead, lemma_share,
    merge_is_unique, rows_of_a_group_have_its_key, takes,
};
use crate::join_many::total_rows;
use crate::layout::{combinations_from, factor, lemma_rows_positive, rows_of};
use crate::merge::{
    consumed, cursors_after, head, is_merge, is_next, is_run, is_share, joins, leads, live,
    GroupModel,
};
use crate::result_laws::{lemma_one_place, lemma_place, lemma_totals, stands_at};
use crate::row_keys::{key_less, key_order_is_total, key_same, Key};

verus! {

/// How many of the first `t` groups are led by one of the first `n` lists.
pub open spec fn led_in_front(groups: Seq<GroupModel>, n: int, t: int) -> int
    decreases t,
{
    if t <= 0 {
        0
    } else if groups[t - 1].lead < n {
        led_in_front(groups, n, t - 1) + 1
    } else {
        led_in_front(groups, n, t - 1)
    }
}

/// What a group takes of the first `n` lists.
pub open spec fn front_of(group: GroupModel, n: int) -> GroupModel {
    GroupModel { lead: group.lead, starts: group.starts.take(n), lens: group.lens.take(n) }
}

/// The merge without the last list stands where the merge with it does.
spec fn is_in_step(
    lists: Seq<Seq<Key>>,
    some: Seq<GroupModel>,
    all: Seq<GroupModel>,
    t: int,
) -> bool {
    let u = led_in_front(all, lists.len() as int, t);
    &&& 0 <= u <= some.len()
    &&& forall|f: int|
        0 <= f < lists.len() ==> #[trigger] consumed(all, f, t) == consumed(some, f, u)
}

/// A group that the last list leads takes nothing of the others.
proof fn lemma_last_alone(
    lists: Seq<Seq<Key>>,
    last: Seq<Key>,
    all: Seq<GroupModel>,
    t: int,
    f: int,
)
    requires
        is_merge(lists.push(last), all),
        0 <= t < all.len(),
        all[t].lead >= lists.len(),
        0 <= f < lists.len(),
    ensures
        all[t].lead == lists.len(),
        all[t].lens[f] == 0,
{
    let more = lists.push(last);
    let cursors = cursors_after(all, more.len(), t);
    lemma_share(more, all, t, f);
    if all[t].lens[f] > 0 {
        assert(live(more, cursors, f));
        assert(key_less(head(more, cursors, all[t].lead), head(more, cursors, f)));
        key_order_is_total(head(more, cursors, all[t].lead), head(more, cursors, f));
    }
}

/// A group that one of the first lists leads is the next group of their merge, as far as these
/// lists go.
proof fn lemma_front_next(
    lists: Seq<Seq<Key>>,
    last: Seq<Key>,
    some: Seq<GroupModel>,
    all: Seq<GroupModel>,
    t: int,
)
    requires
        is_merge(lists, some),
        is_merge(lists.push(last), all),
        0 <= t < all.len(),
        is_in_step(lists, some, all, t),
        all[t].lead < lists.len(),
    ensures
        led_in_front(all, lists.len() as int, t) < some.len(),
        some[led_in_front(all, lists.len() as int, t)] == front_of(all[t], lists.len() as int),
{
    let n = lists.len() as int;
    let u = led_in_front(all, n, t);
    let more = lists.push(last);
    let wide = cursors_after(all, more.len(), t);
    let cursors = cursors_after(some, lists.len(), u);
    let group = front_of(all[t], n);
    let lead = all[t].lead;
    lemma_share(more, all, t, lead);
    assert forall|f: int| 0 <= f < n implies #[trigger] cursors[f] == wide[f] && lists[f]
        == more[f] by {
        assert(consumed(all, f, t) == consumed(some, f, u));
    }
    assert(is_next(more, wide, all[t]));
    assert(live(more, wide, lead));
    assert(live(lists, cursors, lead));
    assert(cursors[lead] == wide[lead]);
    assert(leads(lists, cursors, lead)) by {
        assert forall|g: int| #[trigger] live(lists, cursors, g) implies {
            &&& !key_less(head(lists, cursors, g), head(lists, cursors, lead))
            &&& g < lead ==> key_less(head(lists, cursors, lead), head(lists, cursors, g))
        } by {
            assert(cursors[g] == wide[g]);
            assert(live(more, wide, g));
        }
    }
    assert forall|f: int| 0 <= f < n implies is_share(
        lists,
        cursors,
        lead,
        f,
        group.starts[f],
        #[trigger] group.lens[f],
    ) by {
        assert(cursors[f] == wide[f]);
        assert(group.lens[f] == all[t].lens[f]);
        assert(is_share(more, wide, lead, f, all[t].starts[f], all[t].lens[f]));
        assert(live(more, wide, f) == live(lists, cursors, f));
        assert(joins(more, wide, lead, f) == joins(lists, cursors, lead, f));
    }
    assert(is_next(lists, cursors, group));
    if u == some.len() {
        assert(consumed(some, lead, some.len() as int) == lists[lead].len());
    } else {
        assert(is_next(lists, cursors, some[u]));
        lemma_next_is_unique(lists, cursors, some[u], group);
    }
}

/// The groups that the first lists lead are the groups of their merge, in its order.
proof fn lemma_in_step(
    lists: Seq<Seq<Key>>,
    last: Seq<Key>,
    some: Seq<GroupModel>,
    all: Seq<GroupModel>,
    t: int,
)
    requires
        is_merge(lists, some),
        is_merge(lists.push(last), all),
        0 <= t <= all.len(),
    ensures
        is_in_step(lists, some, all, t),
    decreases t,
{
    let n = lists.len() as int;
    if t > 0 {
        lemma_in_step(lists, last, some, all, t - 1);
        let u = led_in_front(all, n, t - 1);
        if all[t - 1].lead < n {
            lemma_front_next(lists, last, some, all, t - 1);
            lemma_share(lists.push(last), all, t - 1, 0);
            assert forall|f: int| 0 <= f < n implies #[trigger] consumed(all, f, t) == consumed(
                some,
                f,
                u + 1,
            ) by {
                assert(consumed(all, f, t - 1) == consumed(some, f, u));
                assert(front_of(all[t - 1], n).lens[f] == all[t - 1].lens[f]);
            }
        } else {
            assert forall|f: int| 0 <= f < n implies #[trigger] consumed(all, f, t) == consumed(
                some,
                f,
                u,
            ) by {
                assert(consumed(all, f, t - 1) == consumed(some, f, u));
                lemma_last_alone(lists, last, all, t - 1, f);
            }
        }
    }
}

/// All groups of the merge of the first lists are among them.
proof fn lemma_in_step_to_the_end(
    lists: Seq<Seq<Key>>,
    last: Seq<Key>,
    some: Seq<GroupModel>,
    all: Seq<GroupModel>,
)
    requires
        is_merge(lists, some),
        is_merge(lists.push(last), all),
    ensures
        led_in_front(all, lists.len() as int, all.len() as int) == some.len(),
{
    let n = lists.len() as int;
    lemma_in_step(lists, last, some, all, all.len() as int);
    let u = led_in_front(all, n, all.len() as int);
    if u < some.len() {
        let lead = some[u].lead;
        lemma_lead(lists, some, u);
        lemma_share(lists, some, u, lead);
        assert(live(lists, cursors_after(some, lists.len(), u), lead));
        assert(consumed(all, lead, all.len() as int) == lists.push(last)[lead].len());
    }
}

/// The key in each row of the result, in which the rows fall into the given groups.
pub open spec fn result_keys(lists: Seq<Seq<Key>>, groups: Seq<GroupModel>) -> Seq<Key> {
    Seq::new(
        total_rows(groups, groups.len() as int) as nat,
        |row: int| group_key(lists, groups[group_of(groups, row)]),
    )
}

/// The group that a row of the result is part of.
pub open spec fn group_of(groups: Seq<GroupModel>, row: int) -> int {
    choose|t: int| #[trigger] stands_at(groups, t, row - total_rows(groups, t), row)
}

/// The key of a row of the result is that of its group.
pub proof fn lemma_result_key(
    lists: Seq<Seq<Key>>,
    groups: Seq<GroupModel>,
    t: int,
    r: int,
    row: int,
)
    requires
        stands_at(groups, t, r, row),
    ensures
        0 <= row < result_keys(lists, groups).len(),
        result_keys(lists, groups)[row] == group_key(lists, groups[t]),
{
    lemma_place(groups, t, r);
    let u = group_of(groups, row);
    assert(stands_at(groups, t, row - total_rows(groups, t), row));
    assert(stands_at(groups, u, row - total_rows(groups, u), row));
    lemma_one_place(groups, t, r, u, row - total_rows(groups, u), row);
}

/// Groups that follow each other have different keys, or none.
pub proof fn the_next_group_has_another_key(
    lists: Seq<Seq<Key>>,
    groups: Seq<GroupModel>,
    u: int,
)
    requires
        is_merge(lists, groups),
        0 <= u,
        u + 1 < groups.len(),
    ensures
        !key_same(group_key(lists, groups[u + 1]), group_key(lists, groups[u])),
{
    let f = groups[u + 1].lead;
    lemma_share(lists, groups, u + 1, f);
    lemma_share(lists, groups, u, f);
    assert(consumed(groups, f, u + 1) == consumed(groups, f, u) + groups[u].lens[f]);
    let cursors = cursors_after(groups, lists.len(), u);
    assert(live(lists, cursors_after(groups, lists.len(), u + 1), f));
    if groups[u].lens[f] > 0 {
        rows_of_a_group_have_its_key(lists, groups, u, f, groups[u].starts[f]);
    } else {
        assert(live(lists, cursors, f));
    }
}

/// A group without a key has one row.
proof fn lemma_null_rows(lists: Seq<Seq<Key>>, groups: Seq<GroupModel>, t: int)
    requires
        is_merge(lists, groups),
        0 <= t < groups.len(),
        group_key(lists, groups[t]) is None,
    ensures
        rows_of(groups[t]) == 1,
{
    let lead = groups[t].lead;
    lemma_share(lists, groups, t, lead);
    assert(takes(groups[t], lead, groups[t].starts[lead]));
    a_row_without_a_key_stands_alone(lists, groups, t, lead, groups[t].starts[lead]);
    assert forall|f: int| 0 <= f < groups[t].lens.len() implies factor(
        #[trigger] groups[t].lens[f],
    ) == 1 by {}
    lemma_ones(groups[t].lens, 0);
}

/// Lists that each have one row, or none, give one combination.
pub proof fn lemma_ones(lens: Seq<int>, f: int)
    requires
        0 <= f <= lens.len(),
        forall|g: int| 0 <= g < lens.len() ==> factor(#[trigger] lens[g]) == 1,
    ensures
        combinations_from(lens, f) == 1,
    decreases lens.len() - f,
{
    if f < lens.len() {
        lemma_ones(lens, f + 1);
        assert(factor(lens[f]) == 1);
        assert(combinations_from(lens, f) == 1 * combinations_from(lens, f + 1));
    }
}

/// Group `t`, with the rows that the first lists give in place of these lists.
pub open spec fn folded(
    some: Seq<GroupModel>,
    all: Seq<GroupModel>,
    n: int,
    t: int,
) -> GroupModel {
    let u = led_in_front(all, n, t);
    if all[t].lead < n {
        GroupModel {
            lead: 0,
            starts: seq![total_rows(some, u), all[t].starts[n]],
            lens: seq![rows_of(some[u]), all[t].lens[n]],
        }
    } else {
        GroupModel {
            lead: 1,
            starts: seq![0int, all[t].starts[n]],
            lens: seq![0int, all[t].lens[n]],
        }
    }
}

/// All groups, with the rows that the first lists give in place of these lists.
pub open spec fn all_folded(some: Seq<GroupModel>, all: Seq<GroupModel>, n: int) -> Seq<GroupModel> {
    Seq::new(all.len(), |t: int| folded(some, all, n, t))
}

proof fn lemma_folded_consumed(
    lists: Seq<Seq<Key>>,
    last: Seq<Key>,
    some: Seq<GroupModel>,
    all: Seq<GroupModel>,
    t: int,
)
    requires
        is_merge(lists, some),
        is_merge(lists.push(last), all),
        0 <= t <= all.len(),
    ensures
        consumed(all_folded(some, all, lists.len() as int), 0, t) == total_rows(
            some,
            led_in_front(all, lists.len() as int, t),
        ),
        consumed(all_folded(some, all, lists.len() as int), 1, t) == consumed(
            all,
            lists.len() as int,
            t,
        ),
    decreases t,
{
    let n = lists.len() as int;
    if t > 0 {
        lemma_folded_consumed(lists, last, some, all, t - 1);
        let u = led_in_front(all, n, t - 1);
        let h = all_folded(some, all, n);
        assert(0 <= u) by {
            lemma_in_step(lists, last, some, all, t - 1);
        }
        assert(h[t - 1] == folded(some, all, n, t - 1));
        assert(consumed(h, 0, t) == consumed(h, 0, t - 1) + h[t - 1].lens[0]);
        assert(consumed(h, 1, t) == consumed(h, 1, t - 1) + h[t - 1].lens[1]);
        assert(consumed(all, n, t) == consumed(all, n, t - 1) + all[t - 1].lens[n]);
        assert(total_rows(some, u + 1) == total_rows(some, u) + rows_of(some[u]));
    }
}

/// The key at which the first lists stand, where they lead.
proof fn lemma_front_key(
    lists: Seq<Seq<Key>>,
    last: Seq<Key>,
    some: Seq<GroupModel>,
    all: Seq<GroupModel>,
    t: int,
)
    requires
        is_merge(lists, some),
        is_merge(lists.push(last), all),
        0 <= t < all.len(),
        all[t].lead < lists.len(),
    ensures
        group_key(lists, some[led_in_front(all, lists.len() as int, t)]) == group_key(
            lists.push(last),
            all[t],
        ),
{
    lemma_in_step(lists, last, some, all, t);
    lemma_front_next(lists, last, some, all, t);
    lemma_lead(lists.push(last), all, t);
    lemma_share(lists.push(last), all, t, all[t].lead);
}

/// The rows of the first lists from the place on where the merge stands.
proof fn lemma_run_of_group(lists: Seq<Seq<Key>>, some: Seq<GroupModel>, u: int)
    requires
        is_merge(lists, some),
        0 <= u < some.len(),
    ensures
        total_rows(some, u) < result_keys(lists, some).len(),
        result_keys(lists, some)[total_rows(some, u)] == group_key(lists, some[u]),
        is_run(result_keys(lists, some), total_rows(some, u), rows_of(some[u])),
{
    let keys = result_keys(lists, some);
    let start = total_rows(some, u);
    let len = rows_of(some[u]);
    lemma_rows_positive(some[u]);
    lemma_totals(some, 0, u);
    lemma_totals(some, u + 1, some.len() as int);
    assert(stands_at(some, u, 0, start));
    lemma_result_key(lists, some, u, 0, start);
    if group_key(lists, some[u]) is None {
        lemma_null_rows(lists, some, u);
    }
    assert forall|i: int| start < i < start + len implies key_same(#[trigger] keys[i], keys[start]) by {
        assert(stands_at(some, u, i - start, i));
        lemma_result_key(lists, some, u, i - start, i);
    }
    if start + len < keys.len() {
        if u + 1 == some.len() {
            assert(total_rows(some, u + 1) == start + len);
        } else {
            lemma_rows_positive(some[u + 1]);
            assert(stands_at(some, u + 1, 0, start + len));
            lemma_result_key(lists, some, u + 1, 0, start + len);
            the_next_group_has_another_key(lists, some, u);
        }
    }
}

/// The folded group is the next in the merge of the last list with what the others give.
proof fn lemma_folded_next(
    lists: Seq<Seq<Key>>,
    last: Seq<Key>,
    some: Seq<GroupModel>,
    all: Seq<GroupModel>,
    t: int,
)
    requires
        is_merge(lists, some),
        is_merge(lists.push(last), all),
        0 <= t < all.len(),
    ensures
        is_next(
            seq![result_keys(lists, some), last],
            cursors_after(all_folded(some, all, lists.len() as int), 2, t),
            folded(some, all, lists.len() as int, t),
        ),
{
    let n = lists.len() as int;
    let u = led_in_front(all, n, t);
    let more = lists.push(last);
    let wide = cursors_after(all, more.len(), t);
    let two = seq![result_keys(lists, some), last];
    let h = all_folded(some, all, n);
    let cursors = cursors_after(h, 2, t);
    let group = folded(some, all, n, t);
    lemma_in_step(lists, last, some, all, t);
    lemma_folded_consumed(lists, last, some, all, t);
    lemma_share(more, all, t, n);
    assert(is_next(more, wide, all[t]));
    assert(is_share(more, wide, all[t].lead, n, all[t].starts[n], all[t].lens[n]));
    assert(more[n] == last);
    assert(cursors[1] == wide[n]);
    assert(live(two, cursors, 1) == live(more, wide, n));
    key_order_is_total(head(two, cursors, 0), head(two, cursors, 0));
    key_order_is_total(head(two, cursors, 1), head(two, cursors, 1));
    if all[t].lead < n {
        lemma_front_next(lists, last, some, all, t);
        lemma_front_key(lists, last, some, all, t);
        lemma_run_of_group(lists, some, u);
        assert(head(two, cursors, 0) == head(more, wide, all[t].lead));
        assert(leads(two, cursors, 0)) by {
            assert forall|g: int| #[trigger] live(two, cursors, g) implies !key_less(
                head(two, cursors, g),
                head(two, cursors, 0),
            ) by {
                if g == 1 {
                    assert(live(more, wide, n));
                }
            }
        }
        assert(joins(two, cursors, 0, 1) == joins(more, wide, all[t].lead, n));
        assert(is_share(two, cursors, 0, 0, group.starts[0], group.lens[0]));
        assert(is_share(two, cursors, 0, 1, group.starts[1], group.lens[1]));
    } else {
        assert(live(more, wide, n));
        if live(two, cursors, 0) {
            lemma_front_stands(lists, last, some, all, t);
        }
        assert(leads(two, cursors, 1)) by {
            assert forall|g: int| #[trigger] live(two, cursors, g) implies {
                &&& !key_less(head(two, cursors, g), head(two, cursors, 1))
                &&& g < 1 ==> key_less(head(two, cursors, 1), head(two, cursors, g))
            } by {
                if g == 0 {
                    key_order_is_total(head(two, cursors, 0), head(two, cursors, 1));
                }
            }
        }
        assert(joins(two, cursors, 1, 1) == joins(more, wide, n, n));
        assert(!joins(two, cursors, 1, 0)) by {
            if live(two, cursors, 0) {
                key_order_is_total(head(two, cursors, 0), head(two, cursors, 1));
            }
        }
        assert(is_share(two, cursors, 1, 0, group.starts[0], group.lens[0]));
        assert(is_share(two, cursors, 1, 1, group.starts[1], group.lens[1]));
    }
    assert forall|f: int| 0 <= f < two.len() implies is_share(
        two,
        cursors,
        group.lead,
        f,
        group.starts[f],
        #[trigger] group.lens[f],
    ) by {
        if f != 0 {
            assert(f == 1);
        }
    }
}

/// The list that leads the next group of the first lists, in the merge with the last.
proof fn lemma_front_head(
    lists: Seq<Seq<Key>>,
    last: Seq<Key>,
    some: Seq<GroupModel>,
    all: Seq<GroupModel>,
    t: int,
)
    requires
        is_merge(lists, some),
        is_merge(lists.push(last), all),
        0 <= t < all.len(),
        0 <= led_in_front(all, lists.len() as int, t) < some.len(),
    ensures
        ({
            let u = led_in_front(all, lists.len() as int, t);
            let more = lists.push(last);
            let wide = cursors_after(all, more.len(), t);
            &&& 0 <= some[u].lead < lists.len()
            &&& live(more, wide, some[u].lead)
            &&& head(more, wide, some[u].lead) == group_key(lists, some[u])
        }),
{
    let u = led_in_front(all, lists.len() as int, t);
    let lead = some[u].lead;
    lemma_in_step(lists, last, some, all, t);
    lemma_lead(lists, some, u);
    lemma_share(lists, some, u, lead);
    assert(live(lists, cursors_after(some, lists.len(), u), lead));
    assert(consumed(all, lead, t) == consumed(some, lead, u));
    assert(lists.push(last)[lead] == lists[lead]);
}

/// Where the last list leads, its key is smaller than the one at which the others stand.
proof fn lemma_front_stands(
    lists: Seq<Seq<Key>>,
    last: Seq<Key>,
    some: Seq<GroupModel>,
    all: Seq<GroupModel>,
    t: int,
)
    requires
        is_merge(lists, some),
        is_merge(lists.push(last), all),
        0 <= t < all.len(),
        all[t].lead >= lists.len(),
        total_rows(some, led_in_front(all, lists.len() as int, t)) < result_keys(
            lists,
            some,
        ).len(),
    ensures
        key_less(
            group_key(lists.push(last), all[t]),
            result_keys(lists, some)[total_rows(some, led_in_front(all, lists.len() as int, t))],
        ),
{
    let n = lists.len() as int;
    let u = led_in_front(all, n, t);
    let more = lists.push(last);
    let wide = cursors_after(all, more.len(), t);
    assert(0 <= u < some.len()) by {
        lemma_in_step(lists, last, some, all, t);
        lemma_totals(some, 0, some.len() as int);
    }
    let lead = some[u].lead;
    assert(result_keys(lists, some)[total_rows(some, u)] == group_key(lists, some[u])) by {
        lemma_run_of_group(lists, some, u);
    }
    lemma_front_head(lists, last, some, all, t);
    lemma_share(more, all, t, n);
    assert(key_less(head(more, wide, all[t].lead), head(more, wide, lead)));
}

/// The merge of the last list with what the others give is the merge of all lists, folded. It does
/// not matter whether the lists are sorted.
pub proof fn merging_the_last_list_folds_the_merge(
    lists: Seq<Seq<Key>>,
    last: Seq<Key>,
    some: Seq<GroupModel>,
    all: Seq<GroupModel>,
    two: Seq<GroupModel>,
)
    requires
        is_merge(lists, some),
        is_merge(lists.push(last), all),
        is_merge(seq![result_keys(lists, some), last], two),
    ensures
        two == all_folded(some, all, lists.len() as int),
        forall|t: int|
            0 <= t < all.len() && (#[trigger] all[t]).lead < lists.len() ==> {
                let u = led_in_front(all, lists.len() as int, t);
                0 <= u < some.len() && some[u] == front_of(all[t], lists.len() as int)
            },
        forall|t: int, f: int|
            0 <= t < all.len() && all[t].lead >= lists.len() && 0 <= f < lists.len()
                ==> #[trigger] all[t].lens[f] == 0,
{
    let n = lists.len() as int;
    let h = all_folded(some, all, n);
    let keys = seq![result_keys(lists, some), last];
    assert forall|t: int| 0 <= t < h.len() implies is_next(
        keys,
        #[trigger] cursors_after(h, keys.len(), t),
        h[t],
    ) by {
        lemma_folded_next(lists, last, some, all, t);
    }
    lemma_folded_consumed(lists, last, some, all, all.len() as int);
    lemma_in_step_to_the_end(lists, last, some, all);
    lemma_totals(some, 0, some.len() as int);
    assert forall|f: int| 0 <= f < keys.len() implies #[trigger] consumed(h, f, h.len() as int)
        == keys[f].len() by {
        if f != 0 {
            assert(f == 1);
            assert(consumed(all, n, all.len() as int) == lists.push(last)[n].len());
        }
    }
    assert(is_merge(keys, h));
    merge_is_unique(keys, two, h);
    assert forall|t: int| 0 <= t < all.len() && (#[trigger] all[t]).lead < lists.len() implies {
        let u = led_in_front(all, lists.len() as int, t);
        0 <= u < some.len() && some[u] == front_of(all[t], lists.len() as int)
    } by {
        lemma_in_step(lists, last, some, all, t);
        lemma_front_next(lists, last, some, all, t);
    }
    assert forall|t: int, f: int|
        0 <= t < all.len() && all[t].lead >= lists.len() && 0 <= f < lists.len() implies #[trigger] all[t].lens[f]
        == 0 by {
        lemma_last_alone(lists, last, all, t, f);
    }
}

} // verus!
