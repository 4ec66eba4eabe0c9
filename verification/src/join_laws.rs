//! What holds of every join: how the merge groups rows, how a group is laid out, and what the
//! result therefore holds.
use vstd::prelude::*;

use vstd::arithmetic::div_mod::{
    lemma_fundamental_div_mod, lemma_hoist_over_denominator, lemma_mod_multiples_vanish,
    lemma_multiply_divide_lt, lemma_small_mod,
};

use crate::layout::{combinations_from, digit, factor, lemma_from_positive, picked, rows_of};
use crate::merge::{
    consumed, cursors_after, head, is_merge, is_next, is_run, is_share, joins, leads, live,
    GroupModel,
};
use crate::row_keys::{key_less, key_order_is_total, key_order_is_transitive, key_same, Key};

verus! {

/// The list is sorted: no key comes before one above it.
pub open spec fn sorted(list: Seq<Key>) -> bool {
    forall|i: int, j: int|
        0 <= i < j < list.len() ==> !key_less(#[trigger] list[j], #[trigger] list[i])
}

/// Every list is sorted.
pub open spec fn all_sorted(lists: Seq<Seq<Key>>) -> bool {
    forall|f: int| 0 <= f < lists.len() ==> sorted(#[trigger] lists[f])
}

/// The keys that are there are sorted: none comes before one above it. Rows without a key may
/// stand anywhere.
pub open spec fn keys_sorted(list: Seq<Key>) -> bool {
    forall|i: int, j: int|
        0 <= i < j < list.len() && list[i] is Some && list[j] is Some ==> !key_less(
            #[trigger] list[j],
            #[trigger] list[i],
        )
}

/// The keys of every list are sorted.
pub open spec fn all_keys_sorted(lists: Seq<Seq<Key>>) -> bool {
    forall|f: int| 0 <= f < lists.len() ==> keys_sorted(#[trigger] lists[f])
}

/// No row without a key stands between rows with one key.
pub open spec fn unbroken(list: Seq<Key>) -> bool {
    forall|i: int, k: int, j: int|
        0 <= i < k < j < list.len() && key_same(#[trigger] list[i], #[trigger] list[j])
            ==> #[trigger] list[k] is Some
}

/// No list has a row without a key between rows with one key.
pub open spec fn all_unbroken(lists: Seq<Seq<Key>>) -> bool {
    forall|f: int| 0 <= f < lists.len() ==> unbroken(#[trigger] lists[f])
}

/// In a sorted list the keys that are there are sorted, and rows without a key come first.
pub proof fn sorted_lists_have_sorted_keys(lists: Seq<Seq<Key>>)
    requires
        all_sorted(lists),
    ensures
        all_keys_sorted(lists),
        all_unbroken(lists),
{
    assert forall|f: int| 0 <= f < lists.len() implies keys_sorted(#[trigger] lists[f])
        && unbroken(lists[f]) by {
        let list = lists[f];
        assert(sorted(list));
        assert forall|i: int, k: int, j: int|
            0 <= i < k < j < list.len() && key_same(
                #[trigger] list[i],
                #[trigger] list[j],
            ) implies #[trigger] list[k] is Some by {
            assert(!key_less(list[k], list[i]));
        }
    }
}

/// The key of a group: that of the row which leads it.
pub open spec fn group_key(lists: Seq<Seq<Key>>, group: GroupModel) -> Key {
    lists[group.lead][group.starts[group.lead]]
}

/// Row `i` of list `f` is one of the rows of the group.
pub open spec fn takes(group: GroupModel, f: int, i: int) -> bool {
    &&& group.lens[f] > 0
    &&& group.starts[f] <= i < group.starts[f] + group.lens[f]
}

/// The list that leads group `t` of a merge.
pub proof fn lemma_lead(lists: Seq<Seq<Key>>, groups: Seq<GroupModel>, t: int)
    requires
        is_merge(lists, groups),
        0 <= t < groups.len(),
    ensures
        0 <= groups[t].lead < lists.len(),
        groups[t].starts.len() == lists.len(),
        groups[t].lens.len() == lists.len(),
{
    let cursors = cursors_after(groups, lists.len(), t);
    assert(is_next(lists, cursors, groups[t]));
    assert(live(lists, cursors, groups[t].lead));
}

/// What group `t` of a merge takes from list `f`.
pub proof fn lemma_share(lists: Seq<Seq<Key>>, groups: Seq<GroupModel>, t: int, f: int)
    requires
        is_merge(lists, groups),
        0 <= t < groups.len(),
        0 <= f < lists.len(),
    ensures
        groups[t].lens[f] >= 0,
        groups[t].lens[f] > 0 <==> joins(
            lists,
            cursors_after(groups, lists.len(), t),
            groups[t].lead,
            f,
        ),
        groups[t].lens[f] > 0 ==> {
            &&& groups[t].starts[f] == consumed(groups, f, t)
            &&& is_run(lists[f], groups[t].starts[f], groups[t].lens[f])
        },
        0 <= groups[t].lead < lists.len(),
        groups[t].starts.len() == lists.len(),
        groups[t].lens.len() == lists.len(),
        groups[t].lens[groups[t].lead] > 0,
        groups[t].starts[groups[t].lead] == consumed(groups, groups[t].lead, t),
        leads(lists, cursors_after(groups, lists.len(), t), groups[t].lead),
        group_key(lists, groups[t]) == head(
            lists,
            cursors_after(groups, lists.len(), t),
            groups[t].lead,
        ),
{
    let group = groups[t];
    let cursors = cursors_after(groups, lists.len(), t);
    assert(is_next(lists, cursors, group));
    assert(live(lists, cursors, group.lead));
    assert(is_share(lists, cursors, group.lead, f, group.starts[f], group.lens[f]));
    assert(is_share(
        lists,
        cursors,
        group.lead,
        group.lead,
        group.starts[group.lead],
        group.lens[group.lead],
    ));
    assert(joins(lists, cursors, group.lead, group.lead));
}

/// The number of rows taken from a list only grows.
pub proof fn lemma_consumed_grows(
    lists: Seq<Seq<Key>>,
    groups: Seq<GroupModel>,
    f: int,
    t: int,
    u: int,
)
    requires
        is_merge(lists, groups),
        0 <= f < lists.len(),
        0 <= t <= u <= groups.len(),
    ensures
        0 <= consumed(groups, f, t) <= consumed(groups, f, u) <= lists[f].len(),
    decreases groups.len() - t + u,
{
    if t < u {
        lemma_share(lists, groups, u - 1, f);
        lemma_consumed_grows(lists, groups, f, t, u - 1);
    }
    lemma_consumed_bounds(lists, groups, f, u);
    lemma_consumed_bounds(lists, groups, f, t);
}

proof fn lemma_consumed_bounds(lists: Seq<Seq<Key>>, groups: Seq<GroupModel>, f: int, t: int)
    requires
        is_merge(lists, groups),
        0 <= f < lists.len(),
        0 <= t <= groups.len(),
    ensures
        0 <= consumed(groups, f, t) <= lists[f].len(),
{
    lemma_consumed_nonnegative(lists, groups, f, t);
    lemma_consumed_rest(lists, groups, f, t);
}

proof fn lemma_consumed_nonnegative(lists: Seq<Seq<Key>>, groups: Seq<GroupModel>, f: int, t: int)
    requires
        is_merge(lists, groups),
        0 <= f < lists.len(),
        0 <= t <= groups.len(),
    ensures
        0 <= consumed(groups, f, t),
    decreases t,
{
    if t > 0 {
        lemma_consumed_nonnegative(lists, groups, f, t - 1);
        lemma_share(lists, groups, t - 1, f);
    }
}

proof fn lemma_consumed_rest(lists: Seq<Seq<Key>>, groups: Seq<GroupModel>, f: int, t: int)
    requires
        is_merge(lists, groups),
        0 <= f < lists.len(),
        0 <= t <= groups.len(),
    ensures
        consumed(groups, f, t) <= lists[f].len(),
    decreases groups.len() - t,
{
    if t < groups.len() {
        lemma_consumed_rest(lists, groups, f, t + 1);
        lemma_share(lists, groups, t, f);
    } else {
        assert(consumed(groups, f, groups.len() as int) == lists[f].len());
    }
}

/// The lists have one merge: two sequences of groups that are a merge of them are the same.
pub proof fn merge_is_unique(
    lists: Seq<Seq<Key>>,
    a: Seq<GroupModel>,
    b: Seq<GroupModel>,
)
    requires
        is_merge(lists, a),
        is_merge(lists, b),
    ensures
        a == b,
{
    lemma_merges_agree(lists, a, b, if a.len() <= b.len() { a.len() as int } else { b.len() as int });
    lemma_merge_ends(lists, a, b);
    lemma_merge_ends(lists, b, a);
    assert(a =~= b);
}

/// A merge does not go on where another one has ended.
proof fn lemma_merge_ends(lists: Seq<Seq<Key>>, a: Seq<GroupModel>, b: Seq<GroupModel>)
    requires
        is_merge(lists, a),
        is_merge(lists, b),
    ensures
        a.len() >= b.len(),
{
    let t = a.len() as int;
    if t < b.len() {
        lemma_merges_agree(lists, a, b, t);
        assert(is_next(lists, cursors_after(b, lists.len(), t), b[t]));
        let lead = b[t].lead;
        assert(live(lists, cursors_after(b, lists.len(), t), lead));
        assert(consumed(a, lead, t) == lists[lead].len());
        assert(consumed(a, lead, t) == consumed(b, lead, t));
    }
}

proof fn lemma_merges_agree(
    lists: Seq<Seq<Key>>,
    a: Seq<GroupModel>,
    b: Seq<GroupModel>,
    t: int,
)
    requires
        is_merge(lists, a),
        is_merge(lists, b),
        0 <= t <= a.len(),
        t <= b.len(),
    ensures
        forall|i: int| 0 <= i < t ==> #[trigger] a[i] == b[i],
        forall|f: int| #[trigger] consumed(a, f, t) == consumed(b, f, t),
    decreases t,
{
    if t > 0 {
        lemma_merges_agree(lists, a, b, t - 1);
        let cursors = cursors_after(a, lists.len(), t - 1);
        assert(cursors =~= cursors_after(b, lists.len(), t - 1));
        assert(is_next(lists, cursors, a[t - 1]));
        assert(is_next(lists, cursors, b[t - 1]));
        lemma_next_is_unique(lists, cursors, a[t - 1], b[t - 1]);
        assert forall|f: int| #[trigger] consumed(a, f, t) == consumed(b, f, t) by {
            assert(consumed(a, f, t - 1) == consumed(b, f, t - 1));
        }
    }
}

/// One group follows when the cursors stand where they do.
pub proof fn lemma_next_is_unique(
    lists: Seq<Seq<Key>>,
    cursors: Seq<int>,
    x: GroupModel,
    y: GroupModel,
)
    requires
        is_next(lists, cursors, x),
        is_next(lists, cursors, y),
    ensures
        x == y,
{
    lemma_one_leads(lists, cursors, x.lead, y.lead);
    assert forall|f: int| 0 <= f < lists.len() implies x.starts[f] == y.starts[f] && x.lens[f]
        == y.lens[f] by {
        let _ = x.lens[f];
        let _ = y.lens[f];
        lemma_share_is_unique(
            lists,
            cursors,
            x.lead,
            f,
            x.starts[f],
            x.lens[f],
            y.starts[f],
            y.lens[f],
        );
    }
    assert(x.starts =~= y.starts);
    assert(x.lens =~= y.lens);
}

proof fn lemma_one_leads(lists: Seq<Seq<Key>>, cursors: Seq<int>, f: int, g: int)
    requires
        leads(lists, cursors, f),
        leads(lists, cursors, g),
    ensures
        f == g,
{
    assert(live(lists, cursors, f) && live(lists, cursors, g));
}

/// A list has one share of a group.
proof fn lemma_share_is_unique(
    lists: Seq<Seq<Key>>,
    cursors: Seq<int>,
    lead: int,
    f: int,
    start: int,
    len: int,
    other_start: int,
    other_len: int,
)
    requires
        is_share(lists, cursors, lead, f, start, len),
        is_share(lists, cursors, lead, f, other_start, other_len),
    ensures
        start == other_start,
        len == other_len,
{
    if joins(lists, cursors, lead, f) {
        lemma_run_is_unique(lists[f], start, len, other_len);
    }
}

/// A run has one length.
pub proof fn lemma_run_is_unique(list: Seq<Key>, start: int, a: int, b: int)
    requires
        is_run(list, start, a),
        is_run(list, start, b),
    ensures
        a == b,
{
    if a < b {
        assert(key_same(list[start + a], list[start]));
    } else if b < a {
        assert(key_same(list[start + b], list[start]));
    }
}

/// Every row of every list is in a group.
pub proof fn every_row_is_taken(
    lists: Seq<Seq<Key>>,
    groups: Seq<GroupModel>,
    f: int,
    i: int,
) -> (t: int)
    requires
        is_merge(lists, groups),
        0 <= f < lists.len(),
        0 <= i < lists[f].len(),
    ensures
        0 <= t < groups.len(),
        takes(groups[t], f, i),
{
    assert(consumed(groups, f, groups.len() as int) == lists[f].len());
    lemma_find_group(lists, groups, f, i, groups.len() as int)
}

proof fn lemma_find_group(
    lists: Seq<Seq<Key>>,
    groups: Seq<GroupModel>,
    f: int,
    i: int,
    n: int,
) -> (t: int)
    requires
        is_merge(lists, groups),
        0 <= f < lists.len(),
        0 <= n <= groups.len(),
        0 <= i < consumed(groups, f, n),
    ensures
        0 <= t < n,
        takes(groups[t], f, i),
    decreases n,
{
    lemma_share(lists, groups, n - 1, f);
    if i < consumed(groups, f, n - 1) {
        lemma_find_group(lists, groups, f, i, n - 1)
    } else {
        n - 1
    }
}

/// No row is in two groups.
pub proof fn no_row_is_taken_twice(
    lists: Seq<Seq<Key>>,
    groups: Seq<GroupModel>,
    f: int,
    i: int,
    t: int,
    u: int,
)
    requires
        is_merge(lists, groups),
        0 <= f < lists.len(),
        0 <= t < groups.len(),
        0 <= u < groups.len(),
        takes(groups[t], f, i),
        takes(groups[u], f, i),
    ensures
        t == u,
{
    lemma_share(lists, groups, t, f);
    lemma_share(lists, groups, u, f);
    if t < u {
        lemma_consumed_grows(lists, groups, f, t + 1, u);
    } else if u < t {
        lemma_consumed_grows(lists, groups, f, u + 1, t);
    }
}

/// Rows of one group have one key.
pub proof fn rows_of_a_group_have_its_key(
    lists: Seq<Seq<Key>>,
    groups: Seq<GroupModel>,
    t: int,
    f: int,
    i: int,
)
    requires
        is_merge(lists, groups),
        0 <= t < groups.len(),
        0 <= f < lists.len(),
        takes(groups[t], f, i),
    ensures
        lists[f][i] == group_key(lists, groups[t]),
{
    lemma_share(lists, groups, t, f);
    lemma_share(lists, groups, t, groups[t].lead);
}

/// A row without a key is in a group of its own.
pub proof fn a_row_without_a_key_stands_alone(
    lists: Seq<Seq<Key>>,
    groups: Seq<GroupModel>,
    t: int,
    f: int,
    i: int,
)
    requires
        is_merge(lists, groups),
        0 <= t < groups.len(),
        0 <= f < lists.len(),
        takes(groups[t], f, i),
        lists[f][i] is None,
    ensures
        groups[t].lead == f,
        groups[t].starts[f] == i,
        groups[t].lens[f] == 1,
        forall|g: int| 0 <= g < lists.len() && g != f ==> #[trigger] groups[t].lens[g] == 0,
{
    rows_of_a_group_have_its_key(lists, groups, t, f, i);
    lemma_share(lists, groups, t, f);
    if groups[t].lens[f] > 1 {
        assert(key_same(lists[f][groups[t].starts[f] + 1], lists[f][groups[t].starts[f]]));
        rows_of_a_group_have_its_key(lists, groups, t, f, groups[t].starts[f] + 1);
    }
    assert forall|g: int| 0 <= g < lists.len() && g != f implies #[trigger] groups[t].lens[g]
        == 0 by {
        lemma_share(lists, groups, t, g);
    }
}

/// Where keys are sorted and unbroken, a group takes every row with its key that is still there.
proof fn lemma_group_takes_all(
    lists: Seq<Seq<Key>>,
    groups: Seq<GroupModel>,
    t: int,
    f: int,
    i: int,
)
    requires
        is_merge(lists, groups),
        all_keys_sorted(lists),
        all_unbroken(lists),
        0 <= t < groups.len(),
        0 <= f < lists.len(),
        consumed(groups, f, t) <= i < lists[f].len(),
        key_same(lists[f][i], group_key(lists, groups[t])),
    ensures
        takes(groups[t], f, i),
{
    let key = group_key(lists, groups[t]);
    let cursors = cursors_after(groups, lists.len(), t);
    let list = lists[f];
    let start = consumed(groups, f, t);
    lemma_share(lists, groups, t, f);
    lemma_consumed_bounds(lists, groups, f, t);
    assert(keys_sorted(list));
    assert(unbroken(list));
    assert(live(lists, cursors, f));
    assert(!key_less(list[start], key));
    assert(!key_less(key, list[start]));
    key_order_is_total(list[start], key);
    assert(list[start] == key);
    assert(joins(lists, cursors, groups[t].lead, f));
    let end = start + groups[t].lens[f];
    if i >= end {
        if i > end {
            assert(key_same(list[start], list[i]));
            assert(list[end] is Some);
            assert(!key_less(list[i], list[end]));
        }
        assert(!key_less(list[end], list[start]));
        key_order_is_total(list[end], key);
        assert(list[end] == key);
    }
}

/// Where keys are sorted, rows with the same key are in the same group. Rows without a key may
/// stand anywhere but between rows with one key.
pub proof fn equal_keys_meet(
    lists: Seq<Seq<Key>>,
    groups: Seq<GroupModel>,
    f: int,
    i: int,
    g: int,
    j: int,
) -> (t: int)
    requires
        is_merge(lists, groups),
        all_keys_sorted(lists),
        all_unbroken(lists),
        0 <= f < lists.len(),
        0 <= i < lists[f].len(),
        0 <= g < lists.len(),
        0 <= j < lists[g].len(),
        key_same(lists[f][i], lists[g][j]),
    ensures
        0 <= t < groups.len(),
        takes(groups[t], f, i),
        takes(groups[t], g, j),
{
    let t = every_row_is_taken(lists, groups, f, i);
    let u = every_row_is_taken(lists, groups, g, j);
    rows_of_a_group_have_its_key(lists, groups, t, f, i);
    rows_of_a_group_have_its_key(lists, groups, u, g, j);
    lemma_share(lists, groups, t, f);
    lemma_share(lists, groups, u, g);
    if t <= u {
        lemma_consumed_grows(lists, groups, g, t, u);
        lemma_group_takes_all(lists, groups, t, g, j);
        t
    } else {
        lemma_consumed_grows(lists, groups, f, u, t);
        lemma_group_takes_all(lists, groups, u, f, i);
        u
    }
}

/// Where keys are sorted, the groups with a key come in the order of their keys, wherever rows
/// without one stand. No two have the same key unless a row without a key stands between rows
/// with that key.
pub proof fn groups_with_keys_are_in_order(
    lists: Seq<Seq<Key>>,
    groups: Seq<GroupModel>,
    t: int,
    u: int,
)
    requires
        is_merge(lists, groups),
        all_keys_sorted(lists),
        0 <= t < u < groups.len(),
        group_key(lists, groups[t]) is Some,
        group_key(lists, groups[u]) is Some,
    ensures
        !key_less(group_key(lists, groups[u]), group_key(lists, groups[t])),
        all_unbroken(lists) ==> key_less(group_key(lists, groups[t]), group_key(lists, groups[u])),
{
    let a = group_key(lists, groups[t]);
    let b = group_key(lists, groups[u]);
    let lead = groups[u].lead;
    lemma_share(lists, groups, t, 0);
    lemma_lead(lists, groups, u);
    lemma_share(lists, groups, u, lead);
    let cursors = cursors_after(groups, lists.len(), t);
    let row = groups[u].starts[lead];
    let start = consumed(groups, lead, t);
    lemma_consumed_grows(lists, groups, lead, t, u);
    assert(keys_sorted(lists[lead]));
    assert(live(lists, cursors, lead));
    let first = lists[lead][start];
    assert(!key_less(first, a));
    if start < row {
        assert(!key_less(lists[lead][row], lists[lead][start]));
    }
    key_order_is_total(first, a);
    key_order_is_total(b, first);
    key_order_is_total(a, b);
    if key_less(b, a) {
        if key_less(a, first) {
            key_order_is_transitive(b, a, first);
        }
    }
    if a == b && all_unbroken(lists) {
        lemma_group_takes_all(lists, groups, t, lead, row);
        no_row_is_taken_twice(lists, groups, lead, row, t, u);
    }
}

/// The groups of sorted lists come in the order of their keys, those without a key first, and no
/// two groups have the same key.
pub proof fn groups_are_in_order(lists: Seq<Seq<Key>>, groups: Seq<GroupModel>, t: int, u: int)
    requires
        is_merge(lists, groups),
        all_sorted(lists),
        0 <= t < u < groups.len(),
    ensures
        key_less(group_key(lists, groups[t]), group_key(lists, groups[u])) || (group_key(
            lists,
            groups[t],
        ) is None && group_key(lists, groups[u]) is None),
{
    sorted_lists_have_sorted_keys(lists);
    let a = group_key(lists, groups[t]);
    let b = group_key(lists, groups[u]);
    if a is Some && b is Some {
        groups_with_keys_are_in_order(lists, groups, t, u);
    } else if a is Some {
        let lead = groups[u].lead;
        lemma_lead(lists, groups, t);
        lemma_share(lists, groups, t, 0);
        lemma_lead(lists, groups, u);
        lemma_share(lists, groups, u, lead);
        let cursors = cursors_after(groups, lists.len(), t);
        let row = groups[u].starts[lead];
        let start = consumed(groups, lead, t);
        lemma_consumed_grows(lists, groups, lead, t, u);
        assert(sorted(lists[lead]));
        assert(live(lists, cursors, lead));
        assert(!key_less(lists[lead][start], a));
        if start < row {
            assert(!key_less(lists[lead][row], lists[lead][start]));
        }
    }
}

/// A choice of one row from each list that is part of a group.
pub open spec fn is_choice(lens: Seq<int>, choice: Seq<int>) -> bool {
    &&& choice.len() == lens.len()
    &&& forall|f: int| 0 <= f < lens.len() && lens[f] > 0 ==> 0 <= #[trigger] choice[f] < lens[f]
}

/// The place of a choice among all choices from the lists from `f` on.
spec fn rank(lens: Seq<int>, choice: Seq<int>, f: int) -> int
    decreases lens.len() - f,
{
    if f < 0 || f >= lens.len() {
        0
    } else if lens[f] > 0 {
        choice[f] * combinations_from(lens, f + 1) + rank(lens, choice, f + 1)
    } else {
        rank(lens, choice, f + 1)
    }
}

/// The combinations from `f` on are a multiple of those from `i` on.
proof fn lemma_multiple(lens: Seq<int>, f: int, i: int) -> (m: int)
    requires
        0 <= f <= i <= lens.len(),
    ensures
        m >= 1,
        combinations_from(lens, f) == m * combinations_from(lens, i),
    decreases i - f,
{
    if f == i {
        1
    } else {
        let m = lemma_multiple(lens, f + 1, i);
        let a = factor(lens[f]);
        let b = combinations_from(lens, i);
        assert(a * (m * b) == (a * m) * b) by (nonlinear_arith);
        assert(a * m >= 1) by (nonlinear_arith)
            requires
                a >= 1,
                m >= 1,
        ;
        a * m
    }
}

/// Whole rounds of the lists from `f` on do not change the row that a later list shows.
pub proof fn lemma_digit_round(lens: Seq<int>, f: int, i: int, q: int, r: int)
    requires
        0 <= f <= i < lens.len(),
        lens[i] > 0,
        0 <= r,
        0 <= q,
    ensures
        digit(lens, i, q * combinations_from(lens, f) + r) == digit(lens, i, r),
{
    let m = lemma_multiple(lens, f, i);
    let len = lens[i];
    let post = combinations_from(lens, i + 1);
    lemma_from_positive(lens, i + 1);
    let k = q * m;
    assert(q * (m * (len * post)) == (k * len) * post) by (nonlinear_arith)
        requires
            k == q * m,
    ;
    lemma_hoist_over_denominator(r, k * len, post as nat);
    assert(k * len == len * k) by (nonlinear_arith);
    lemma_mod_multiples_vanish(k, r / post, len);
}

proof fn lemma_rank(lens: Seq<int>, choice: Seq<int>, f: int)
    requires
        is_choice(lens, choice),
        0 <= f <= lens.len(),
    ensures
        0 <= rank(lens, choice, f) < combinations_from(lens, f),
        forall|i: int|
            f <= i < lens.len() && lens[i] > 0 ==> #[trigger] digit(
                lens,
                i,
                rank(lens, choice, f),
            ) == choice[i],
    decreases lens.len() - f,
{
    if f < lens.len() {
        lemma_rank(lens, choice, f + 1);
        lemma_from_positive(lens, f + 1);
        let rest = rank(lens, choice, f + 1);
        let all = rank(lens, choice, f);
        let post = combinations_from(lens, f + 1);
        if lens[f] > 0 {
            let c = choice[f];
            let len = lens[f];
            assert(0 <= c * post + rest < len * post) by (nonlinear_arith)
                requires
                    0 <= c < len,
                    0 <= rest < post,
            ;
            assert forall|i: int| f <= i < lens.len() && lens[i] > 0 implies #[trigger] digit(
                lens,
                i,
                all,
            ) == choice[i] by {
                if i == f {
                    lemma_hoist_over_denominator(rest, c, post as nat);
                    assert(rest / post == 0) by (nonlinear_arith)
                        requires
                            0 <= rest < post,
                    ;
                    lemma_small_mod(c as nat, len as nat);
                } else {
                    lemma_digit_round(lens, f + 1, i, c, rest);
                    assert(digit(lens, i, rest) == choice[i]);
                }
            }
        } else {
            assert(factor(lens[f]) == 1);
            assert(combinations_from(lens, f) == 1 * post);
            assert forall|i: int| f <= i < lens.len() && lens[i] > 0 implies #[trigger] digit(
                lens,
                i,
                all,
            ) == choice[i] by {
                assert(digit(lens, i, rest) == choice[i]);
            }
        }
    }
}

/// Every combination of rows, one from each list that is part of a group, is a row of the group.
pub proof fn every_combination_is_there(group: GroupModel, choice: Seq<int>) -> (r: int)
    requires
        is_choice(group.lens, choice),
        group.starts.len() == group.lens.len(),
    ensures
        0 <= r < rows_of(group),
        forall|f: int|
            0 <= f < group.lens.len() && group.lens[f] > 0 ==> #[trigger] picked(group, f, r)
                == Some(group.starts[f] + choice[f]),
{
    let r = rank(group.lens, choice, 0);
    lemma_rank(group.lens, choice, 0);
    assert forall|f: int| 0 <= f < group.lens.len() && group.lens[f] > 0 implies #[trigger] picked(
        group,
        f,
        r,
    ) == Some(group.starts[f] + choice[f]) by {
        assert(digit(group.lens, f, r) == choice[f]);
    }
    r
}

/// No combination of rows is there twice: two rows of a group that pick the same row from every
/// list are the same row.
pub proof fn no_combination_is_there_twice(group: GroupModel, a: int, b: int)
    requires
        0 <= a < rows_of(group),
        0 <= b < rows_of(group),
        forall|f: int|
            0 <= f < group.lens.len() ==> #[trigger] picked(group, f, a) == picked(group, f, b),
    ensures
        a == b,
{
    assert forall|f: int| 0 <= f < group.lens.len() && group.lens[f] > 0 implies #[trigger] digit(
        group.lens,
        f,
        a,
    ) == digit(group.lens, f, b) by {
        assert(picked(group, f, a) == picked(group, f, b));
    }
    lemma_same_digits(group.lens, 0, a, b);
}

proof fn lemma_same_digits(lens: Seq<int>, f: int, a: int, b: int)
    requires
        0 <= f <= lens.len(),
        0 <= a < combinations_from(lens, f),
        0 <= b < combinations_from(lens, f),
        forall|i: int|
            f <= i < lens.len() && lens[i] > 0 ==> #[trigger] digit(lens, i, a) == digit(
                lens,
                i,
                b,
            ),
    ensures
        a == b,
    decreases lens.len() - f,
{
    if f < lens.len() {
        let post = combinations_from(lens, f + 1);
        lemma_from_positive(lens, f + 1);
        if lens[f] > 0 {
            lemma_split(lens, f, a);
            lemma_split(lens, f, b);
            assert(digit(lens, f, a) == digit(lens, f, b));
            assert forall|i: int| f + 1 <= i < lens.len() && lens[i] > 0 implies #[trigger] digit(
                lens,
                i,
                a % post,
            ) == digit(lens, i, b % post) by {
                lemma_digit_round(lens, f + 1, i, a / post, a % post);
                lemma_digit_round(lens, f + 1, i, b / post, b % post);
                assert(digit(lens, i, a) == digit(lens, i, b));
            }
            lemma_same_digits(lens, f + 1, a % post, b % post);
        } else {
            assert(factor(lens[f]) == 1);
            assert(combinations_from(lens, f) == 1 * post);
            lemma_same_digits(lens, f + 1, a, b);
        }
    }
}

/// A place among the combinations from `f` on is a row of list `f` and a place among the rest.
pub proof fn lemma_split(lens: Seq<int>, f: int, a: int)
    requires
        0 <= f < lens.len(),
        lens[f] > 0,
        0 <= a < combinations_from(lens, f),
    ensures
        ({
            let post = combinations_from(lens, f + 1);
            &&& post >= 1
            &&& a == (a / post) * post + a % post
            &&& 0 <= a % post < post
            &&& 0 <= a / post
            &&& digit(lens, f, a) == a / post
        }),
{
    let post = combinations_from(lens, f + 1);
    let len = lens[f];
    lemma_from_positive(lens, f + 1);
    lemma_fundamental_div_mod(a, post);
    assert(post * (a / post) == (a / post) * post) by (nonlinear_arith);
    assert(len * post == post * len) by (nonlinear_arith);
    lemma_multiply_divide_lt(a, post, len);
    assert(0 <= a / post && 0 <= a % post < post) by (nonlinear_arith)
        requires
            a >= 0,
            post >= 1,
    ;
    lemma_small_mod((a / post) as nat, len as nat);
}

/// A row of a group shows, of each list that is part of it, a row that the group takes.
pub proof fn picked_rows_are_taken(group: GroupModel, f: int, r: int)
    requires
        0 <= f < group.lens.len(),
        group.lens[f] > 0,
        0 <= r,
    ensures
        picked(group, f, r) is Some,
        takes(group, f, picked(group, f, r)->0),
{
    let x = r / combinations_from(group.lens, f + 1);
    let len = group.lens[f];
    assert(0 <= x % len < len) by (nonlinear_arith)
        requires
            len > 0,
    ;
}

} // verus!
