//! The inputs of a merge in another order: the same groups come out.
use vstd::prelude::*;

use crate::join_laws::{
    a_row_without_a_key_stands_alone, every_combination_is_there, every_row_is_taken, group_key,
    lemma_run_is_unique, lemma_lead, lemma_share, no_combination_is_there_twice,
    no_row_is_taken_twice, picked_rows_are_taken, takes,
};
use crate::join_many::{oversized, total_rows};
use crate::layout::{digit, lemma_rows_positive, picked, rows_of};
use crate::merge::{consumed, cursors_after, head, is_merge, joins, live, GroupModel};
use crate::result_laws::{lemma_group_at, lemma_one_place, lemma_place, lemma_totals, stands_at};
use crate::row_keys::{key_less, key_order_is_total, Key};

verus! {

/// `order` says which of `n` things stands at each place, and `back` at which place each stands.
pub open spec fn is_order(order: Seq<int>, back: Seq<int>, n: nat) -> bool {
    &&& order.len() == n
    &&& back.len() == n
    &&& forall|i: int|
        0 <= i < n ==> 0 <= #[trigger] order[i] < n && back[order[i]] == i
    &&& forall|f: int| 0 <= f < n ==> 0 <= #[trigger] back[f] < n && order[back[f]] == f
}

/// Things in the given order.
pub open spec fn reordered<A>(things: Seq<A>, order: Seq<int>) -> Seq<A> {
    Seq::new(order.len(), |i: int| things[order[i]])
}

/// Two groups take the same rows and have the same key, where the lists of the second are in
/// another order.
pub open spec fn is_match(
    lists: Seq<Seq<Key>>,
    a: GroupModel,
    others: Seq<Seq<Key>>,
    b: GroupModel,
    back: Seq<int>,
) -> bool {
    &&& group_key(lists, a) == group_key(others, b)
    &&& forall|f: int|
        0 <= f < lists.len() ==> {
            &&& b.lens[back[f]] == #[trigger] a.lens[f]
            &&& a.lens[f] > 0 ==> b.starts[back[f]] == a.starts[f]
        }
}

/// The first row from `c` on that has a key.
spec fn next_key(list: Seq<Key>, c: int) -> int
    decreases list.len() - c,
{
    if 0 <= c < list.len() && list[c] is None {
        next_key(list, c + 1)
    } else {
        c
    }
}

/// Two merges stand at the same rows, but for rows without a key.
spec fn is_abreast(
    lists: Seq<Seq<Key>>,
    a: Seq<GroupModel>,
    t: int,
    b: Seq<GroupModel>,
    u: int,
    back: Seq<int>,
) -> bool {
    forall|f: int|
        0 <= f < lists.len() ==> next_key(lists[f], #[trigger] consumed(a, f, t)) == next_key(
            lists[f],
            consumed(b, back[f], u),
        )
}

/// Where a group with a key comes next, no list stands at a row without one.
proof fn lemma_all_have_keys(lists: Seq<Seq<Key>>, groups: Seq<GroupModel>, t: int, f: int)
    requires
        is_merge(lists, groups),
        0 <= t < groups.len(),
        group_key(lists, groups[t]) is Some,
        0 <= f < lists.len(),
    ensures
        next_key(lists[f], consumed(groups, f, t)) == consumed(groups, f, t),
{
    lemma_share(lists, groups, t, f);
    let cursors = cursors_after(groups, lists.len(), t);
    if consumed(groups, f, t) < lists[f].len() {
        assert(live(lists, cursors, f));
        assert(!key_less(head(lists, cursors, f), head(lists, cursors, groups[t].lead)));
    }
}

/// A group without a key moves no list to another key.
proof fn lemma_null_moves_nothing(lists: Seq<Seq<Key>>, groups: Seq<GroupModel>, t: int, f: int)
    requires
        is_merge(lists, groups),
        0 <= t < groups.len(),
        group_key(lists, groups[t]) is None,
        0 <= f < lists.len(),
    ensures
        next_key(lists[f], consumed(groups, f, t + 1)) == next_key(
            lists[f],
            consumed(groups, f, t),
        ),
{
    let lead = groups[t].lead;
    let list = lists[f];
    let c = consumed(groups, f, t);
    assert(groups[t].lens[f] == if f == lead {
        1int
    } else {
        0
    } && (f == lead ==> 0 <= c < list.len() && list[c] is None)) by {
        lemma_lead(lists, groups, t);
        lemma_share(lists, groups, t, lead);
        let i = groups[t].starts[lead];
        assert(takes(groups[t], lead, i));
        a_row_without_a_key_stands_alone(lists, groups, t, lead, i);
    }
    assert(consumed(groups, f, t + 1) == c + groups[t].lens[f]);
}

/// The second merge goes on to the group that comes next in the first.
proof fn lemma_catch_up(
    lists: Seq<Seq<Key>>,
    a: Seq<GroupModel>,
    t: int,
    b: Seq<GroupModel>,
    u: int,
    order: Seq<int>,
    back: Seq<int>,
) -> (v: int)
    requires
        is_order(order, back, lists.len()),
        is_merge(lists, a),
        is_merge(reordered(lists, order), b),
        0 <= t < a.len(),
        group_key(lists, a[t]) is Some,
        0 <= u <= b.len(),
        is_abreast(lists, a, t, b, u, back),
    ensures
        u <= v < b.len(),
        is_abreast(lists, a, t, b, v, back),
        group_key(reordered(lists, order), b[v]) is Some,
    decreases b.len() - u,
{
    let others = reordered(lists, order);
    let lead = a[t].lead;
    lemma_share(lists, a, t, lead);
    lemma_all_have_keys(lists, a, t, lead);
    if u == b.len() {
        assert(0 <= back[lead] < others.len());
        assert(others[back[lead]] == lists[lead]);
        assert(consumed(b, back[lead], b.len() as int) == others[back[lead]].len());
        assert(live(lists, cursors_after(a, lists.len(), t), lead));
        assert(consumed(a, lead, t) < lists[lead].len());
        assert(next_key(lists[lead], consumed(a, lead, t)) == next_key(
            lists[lead],
            consumed(b, back[lead], u),
        ));
        u
    } else if group_key(others, b[u]) is None {
        assert forall|f: int| 0 <= f < lists.len() implies next_key(
            lists[f],
            #[trigger] consumed(a, f, t),
        ) == next_key(lists[f], consumed(b, back[f], u + 1)) by {
            assert(0 <= back[f] < others.len());
            assert(others[back[f]] == lists[f]);
            lemma_null_moves_nothing(others, b, u, back[f]);
        }
        lemma_catch_up(lists, a, t, b, u + 1, order, back)
    } else {
        u
    }
}

/// Groups with a key that come next when both merges stand at the same rows take the same rows.
proof fn lemma_same_step(
    lists: Seq<Seq<Key>>,
    a: Seq<GroupModel>,
    t: int,
    b: Seq<GroupModel>,
    u: int,
    order: Seq<int>,
    back: Seq<int>,
)
    requires
        is_order(order, back, lists.len()),
        is_merge(lists, a),
        is_merge(reordered(lists, order), b),
        0 <= t < a.len(),
        0 <= u < b.len(),
        group_key(lists, a[t]) is Some,
        group_key(reordered(lists, order), b[u]) is Some,
        is_abreast(lists, a, t, b, u, back),
    ensures
        is_match(lists, a[t], reordered(lists, order), b[u], back),
        forall|f: int|
            0 <= f < lists.len() ==> #[trigger] consumed(a, f, t) == consumed(b, back[f], u),
{
    let others = reordered(lists, order);
    let ca = cursors_after(a, lists.len(), t);
    let cb = cursors_after(b, others.len(), u);
    assert forall|f: int| 0 <= f < lists.len() implies #[trigger] consumed(a, f, t) == consumed(
        b,
        back[f],
        u,
    ) by {
        assert(0 <= back[f] < others.len());
        assert(others[back[f]] == lists[f]);
        lemma_all_have_keys(lists, a, t, f);
        lemma_all_have_keys(others, b, u, back[f]);
    }
    let la = a[t].lead;
    let lb = b[u].lead;
    lemma_share(lists, a, t, la);
    lemma_share(others, b, u, lb);
    let here = order[lb];
    assert(0 <= here < lists.len() && back[here] == lb);
    assert(others[lb] == lists[here]);
    assert(consumed(a, here, t) == consumed(b, lb, u));
    let there = back[la];
    assert(0 <= there < others.len());
    assert(others[there] == lists[la]);
    assert(consumed(a, la, t) == consumed(b, there, u));
    assert(live(others, cb, lb));
    assert(live(lists, ca, la));
    assert(live(lists, ca, here));
    assert(live(others, cb, there));
    assert(head(lists, ca, here) == head(others, cb, lb));
    assert(head(others, cb, there) == head(lists, ca, la));
    assert(!key_less(head(lists, ca, here), head(lists, ca, la)));
    assert(!key_less(head(others, cb, there), head(others, cb, lb)));
    key_order_is_total(head(lists, ca, la), head(others, cb, lb));
    assert(group_key(lists, a[t]) == group_key(others, b[u]));
    assert forall|f: int| 0 <= f < lists.len() implies {
        &&& b[u].lens[back[f]] == #[trigger] a[t].lens[f]
        &&& a[t].lens[f] > 0 ==> b[u].starts[back[f]] == a[t].starts[f]
    } by {
        let g = back[f];
        assert(0 <= g < others.len());
        assert(others[g] == lists[f]);
        assert(consumed(a, f, t) == consumed(b, g, u));
        lemma_share(lists, a, t, f);
        lemma_share(others, b, u, g);
        assert(live(lists, ca, f) == live(others, cb, g));
        assert(joins(lists, ca, la, f) == joins(others, cb, lb, g));
        if a[t].lens[f] > 0 {
            lemma_run_is_unique(
                lists[f],
                a[t].starts[f],
                a[t].lens[f],
                b[u].lens[g],
            );
        }
    }
}

/// Where the second merge stands when the first has come to group `t`.
proof fn lemma_abreast(
    lists: Seq<Seq<Key>>,
    a: Seq<GroupModel>,
    t: int,
    b: Seq<GroupModel>,
    order: Seq<int>,
    back: Seq<int>,
) -> (u: int)
    requires
        is_order(order, back, lists.len()),
        is_merge(lists, a),
        is_merge(reordered(lists, order), b),
        0 <= t <= a.len(),
    ensures
        0 <= u <= b.len(),
        is_abreast(lists, a, t, b, u, back),
    decreases t,
{
    if t == 0 {
        0
    } else {
        let others = reordered(lists, order);
        let before = lemma_abreast(lists, a, t - 1, b, order, back);
        if group_key(lists, a[t - 1]) is None {
            assert forall|f: int| 0 <= f < lists.len() implies next_key(
                lists[f],
                #[trigger] consumed(a, f, t),
            ) == next_key(lists[f], consumed(b, back[f], before)) by {
                lemma_null_moves_nothing(lists, a, t - 1, f);
                assert(next_key(lists[f], consumed(a, f, t - 1)) == next_key(
                    lists[f],
                    consumed(b, back[f], before),
                ));
            }
            before
        } else {
            let v = lemma_catch_up(lists, a, t - 1, b, before, order, back);
            lemma_same_step(lists, a, t - 1, b, v, order, back);
            assert forall|f: int| 0 <= f < lists.len() implies next_key(
                lists[f],
                #[trigger] consumed(a, f, t),
            ) == next_key(lists[f], consumed(b, back[f], v + 1)) by {
                assert(consumed(a, f, t - 1) == consumed(b, back[f], v));
                assert(b[v].lens[back[f]] == a[t - 1].lens[f]);
            }
            v + 1
        }
    }
}

/// In whatever order the lists are merged, the same groups come out: for each group of one merge
/// the other has one that takes the same rows. It does not matter whether the lists are sorted.
pub proof fn the_order_of_lists_does_not_matter(
    lists: Seq<Seq<Key>>,
    a: Seq<GroupModel>,
    t: int,
    b: Seq<GroupModel>,
    order: Seq<int>,
    back: Seq<int>,
) -> (u: int)
    requires
        is_order(order, back, lists.len()),
        is_merge(lists, a),
        is_merge(reordered(lists, order), b),
        0 <= t < a.len(),
    ensures
        0 <= u < b.len(),
        is_match(lists, a[t], reordered(lists, order), b[u], back),
{
    let others = reordered(lists, order);
    if group_key(lists, a[t]) is None {
        let lead = a[t].lead;
        lemma_lead(lists, a, t);
        lemma_share(lists, a, t, lead);
        let i = a[t].starts[lead];
        let g = back[lead];
        assert(0 <= g < others.len());
        assert(others[g] == lists[lead]);
        assert(takes(a[t], lead, i));
        a_row_without_a_key_stands_alone(lists, a, t, lead, i);
        let u = every_row_is_taken(others, b, g, i);
        a_row_without_a_key_stands_alone(others, b, u, g, i);
        assert forall|f: int| 0 <= f < lists.len() implies {
            &&& b[u].lens[back[f]] == #[trigger] a[t].lens[f]
            &&& a[t].lens[f] > 0 ==> b[u].starts[back[f]] == a[t].starts[f]
        } by {
            assert(0 <= back[f] < others.len() && order[back[f]] == f);
            if f != lead {
                assert(back[f] != g);
                assert(b[u].lens[back[f]] == 0);
            }
        }
        u
    } else {
        let before = lemma_abreast(lists, a, t, b, order, back);
        let v = lemma_catch_up(lists, a, t, b, before, order, back);
        lemma_same_step(lists, a, t, b, v, order, back);
        v
    }
}

/// Numbers below `m` that are all different are `m` at most.
proof fn lemma_no_more(places: Seq<int>, m: int)
    requires
        0 <= m,
        places.no_duplicates(),
        forall|i: int| 0 <= i < places.len() ==> 0 <= #[trigger] places[i] < m,
    ensures
        places.len() <= m,
{
    places.unique_seq_to_set();
    vstd::set_lib::lemma_int_range(0, m);
    let all = vstd::set_lib::set_int_range(0, m);
    assert(places.to_set().subset_of(all)) by {
        assert forall|x: int| places.to_set().contains(x) implies all.contains(x) by {
            let i = choose|i: int| 0 <= i < places.len() && places[i] == x;
            assert(0 <= places[i] < m);
        }
    }
    vstd::set_lib::lemma_len_subset(places.to_set(), all);
}

/// Two sequences of one length, where each thing of one stands at a place of its own in the other,
/// hold the same things.
pub proof fn lemma_same_things<A>(a: Seq<A>, b: Seq<A>, places: Seq<int>)
    requires
        a.len() == b.len(),
        places.len() == a.len(),
        places.no_duplicates(),
        forall|i: int| 0 <= i < a.len() ==> 0 <= #[trigger] places[i] < b.len() && b[places[i]] == a[i],
    ensures
        a.to_multiset() == b.to_multiset(),
    decreases a.len(),
{
    broadcast use vstd::multiset::group_multiset_axioms;

    if a.len() == 0 {
        assert(a =~= b);
    } else {
        let n = a.len() - 1;
        let p = places[n];
        let rest = Seq::new(
            n as nat,
            |i: int|
                if places[i] > p {
                    places[i] - 1
                } else {
                    places[i]
                },
        );
        let fewer = a.drop_last();
        let others = b.remove(p);
        assert forall|i: int| 0 <= i < n implies 0 <= #[trigger] rest[i] < others.len()
            && others[rest[i]] == fewer[i] by {
            assert(places[i] != places[n]);
        }
        assert(rest.no_duplicates()) by {
            assert forall|i: int, j: int| 0 <= i < n && 0 <= j < n && i != j implies rest[i]
                != rest[j] by {
                assert(places[i] != places[j]);
                assert(places[i] != places[n]);
                assert(places[j] != places[n]);
            }
        }
        lemma_same_things(fewer, others, rest);
        vstd::seq_lib::to_multiset_build(fewer, a[n]);
        vstd::seq_lib::to_multiset_remove(b, p);
        assert(a =~= fewer.push(a[n]));
        b.to_multiset_ensures();
        assert(b.contains(b[p]));
        assert(b.to_multiset().remove(b[p]).insert(b[p]) =~= b.to_multiset());
    }
}

/// A row of one group picks the rows that a row of another group picks, where the lists of the
/// second are in another order.
pub open spec fn same_picks(
    a: GroupModel,
    r: int,
    b: GroupModel,
    q: int,
    back: Seq<int>,
) -> bool {
    forall|f: int|
        0 <= f < back.len() ==> picked(b, back[f], q) == #[trigger] picked(a, f, r)
}

/// Each row of a group has its match in a group that takes the same rows.
proof fn lemma_same_row(
    lists: Seq<Seq<Key>>,
    a: GroupModel,
    b: GroupModel,
    order: Seq<int>,
    back: Seq<int>,
    r: int,
) -> (q: int)
    requires
        is_order(order, back, lists.len()),
        is_match(lists, a, reordered(lists, order), b, back),
        a.lens.len() == lists.len(),
        a.starts.len() == lists.len(),
        b.lens.len() == lists.len(),
        b.starts.len() == lists.len(),
        0 <= r < rows_of(a),
    ensures
        0 <= q < rows_of(b),
        same_picks(a, r, b, q, back),
{
    let choice = Seq::new(
        order.len(),
        |i: int|
            if a.lens[order[i]] > 0 {
                digit(a.lens, order[i], r)
            } else {
                0
            },
    );
    assert forall|i: int| 0 <= i < b.lens.len() && b.lens[i] > 0 implies 0 <= #[trigger] choice[i]
        < b.lens[i] by {
        let f = order[i];
        assert(back[f] == i);
        assert(b.lens[back[f]] == a.lens[f]);
        picked_rows_are_taken(a, f, r);
    }
    let q = every_combination_is_there(b, choice);
    assert forall|f: int| 0 <= f < back.len() implies picked(b, back[f], q) == #[trigger] picked(
        a,
        f,
        r,
    ) by {
        let i = back[f];
        assert(order[i] == f);
        assert(b.lens[i] == a.lens[f]);
        if b.lens[i] > 0 {
            assert(picked(b, i, q) == Some(b.starts[i] + choice[i]));
        }
    }
    q
}

/// Groups that take the same rows have as many rows.
proof fn lemma_group_fits(
    lists: Seq<Seq<Key>>,
    a: GroupModel,
    b: GroupModel,
    order: Seq<int>,
    back: Seq<int>,
)
    requires
        is_order(order, back, lists.len()),
        is_match(lists, a, reordered(lists, order), b, back),
        a.lens.len() == lists.len(),
        a.starts.len() == lists.len(),
        b.lens.len() == lists.len(),
        b.starts.len() == lists.len(),
    ensures
        rows_of(a) <= rows_of(b),
{
    lemma_rows_positive(a);
    lemma_rows_positive(b);
    let places = Seq::new(
        rows_of(a) as nat,
        |r: int| choose|q: int| 0 <= q < rows_of(b) && #[trigger] same_picks(a, r, b, q, back),
    );
    assert forall|r: int| 0 <= r < places.len() implies 0 <= #[trigger] places[r] < rows_of(b)
        && same_picks(a, r, b, places[r], back) by {
        let q = lemma_same_row(lists, a, b, order, back, r);
        assert(same_picks(a, r, b, q, back));
    }
    assert forall|r: int, s: int| 0 <= r < places.len() && 0 <= s < places.len() && r != s implies places[r]
        != places[s] by {
        if places[r] == places[s] {
            assert(same_picks(a, r, b, places[r], back));
            assert(same_picks(a, s, b, places[s], back));
            assert forall|f: int| 0 <= f < a.lens.len() implies #[trigger] picked(a, f, r)
                == picked(a, f, s) by {}
            no_combination_is_there_twice(a, r, s);
        }
    }
    lemma_no_more(places, rows_of(b));
}

/// A row of the result, and the row that shows the same where the lists are in another order.
pub open spec fn are_twins(
    lists: Seq<Seq<Key>>,
    a: Seq<GroupModel>,
    row: int,
    others: Seq<Seq<Key>>,
    b: Seq<GroupModel>,
    other: int,
    back: Seq<int>,
) -> bool {
    exists|t: int, r: int, u: int, q: int|
        #![trigger stands_at(a, t, r, row), stands_at(b, u, q, other)]
        stands_at(a, t, r, row) && stands_at(b, u, q, other) && is_match(
            lists,
            a[t],
            others,
            b[u],
            back,
        ) && same_picks(a[t], r, b[u], q, back)
}

proof fn lemma_has_twin(
    lists: Seq<Seq<Key>>,
    a: Seq<GroupModel>,
    row: int,
    b: Seq<GroupModel>,
    order: Seq<int>,
    back: Seq<int>,
) -> (other: int)
    requires
        is_order(order, back, lists.len()),
        is_merge(lists, a),
        is_merge(reordered(lists, order), b),
        0 <= row < total_rows(a, a.len() as int),
    ensures
        0 <= other < total_rows(b, b.len() as int),
        are_twins(lists, a, row, reordered(lists, order), b, other, back),
{
    let t = lemma_group_at(a, row, a.len() as int);
    let r = row - total_rows(a, t);
    let u = the_order_of_lists_does_not_matter(lists, a, t, b, order, back);
    lemma_lead(lists, a, t);
    lemma_share(lists, a, t, a[t].lead);
    lemma_lead(reordered(lists, order), b, u);
    lemma_share(reordered(lists, order), b, u, b[u].lead);
    let q = lemma_same_row(lists, a[t], b[u], order, back, r);
    let other = total_rows(b, u) + q;
    lemma_place(b, u, q);
    assert(stands_at(a, t, r, row));
    assert(stands_at(b, u, q, other));
    other
}

proof fn lemma_one_twin(
    lists: Seq<Seq<Key>>,
    a: Seq<GroupModel>,
    row: int,
    row_too: int,
    others: Seq<Seq<Key>>,
    b: Seq<GroupModel>,
    other: int,
    back: Seq<int>,
)
    requires
        is_merge(lists, a),
        back.len() == lists.len(),
        are_twins(lists, a, row, others, b, other, back),
        are_twins(lists, a, row_too, others, b, other, back),
    ensures
        row == row_too,
{
    let (t, r, u, q) = choose|t: int, r: int, u: int, q: int|
        #![trigger stands_at(a, t, r, row), stands_at(b, u, q, other)]
        stands_at(a, t, r, row) && stands_at(b, u, q, other) && is_match(
            lists,
            a[t],
            others,
            b[u],
            back,
        ) && same_picks(a[t], r, b[u], q, back);
    let (t2, r2, u2, q2) = choose|t: int, r: int, u: int, q: int|
        #![trigger stands_at(a, t, r, row_too), stands_at(b, u, q, other)]
        stands_at(a, t, r, row_too) && stands_at(b, u, q, other) && is_match(
            lists,
            a[t],
            others,
            b[u],
            back,
        ) && same_picks(a[t], r, b[u], q, back);
    lemma_one_place(b, u, q, u2, q2, other);
    let f = a[t].lead;
    lemma_lead(lists, a, t);
    lemma_share(lists, a, t, f);
    lemma_share(lists, a, t2, f);
    picked_rows_are_taken(a[t], f, r);
    assert(picked(a[t], f, r) == picked(a[t2], f, r2));
    picked_rows_are_taken(a[t2], f, r2);
    no_row_is_taken_twice(lists, a, f, picked(a[t], f, r)->0, t, t2);
    assert forall|g: int| 0 <= g < a[t].lens.len() implies #[trigger] picked(a[t], g, r) == picked(
        a[t],
        g,
        r2,
    ) by {}
    no_combination_is_there_twice(a[t], r, r2);
}

/// Where each row of the result stands when the lists are in another order.
proof fn lemma_twins(
    lists: Seq<Seq<Key>>,
    a: Seq<GroupModel>,
    b: Seq<GroupModel>,
    order: Seq<int>,
    back: Seq<int>,
) -> (places: Seq<int>)
    requires
        is_order(order, back, lists.len()),
        is_merge(lists, a),
        is_merge(reordered(lists, order), b),
    ensures
        places.len() == total_rows(a, a.len() as int),
        places.no_duplicates(),
        forall|row: int|
            0 <= row < places.len() ==> 0 <= #[trigger] places[row] < total_rows(b, b.len() as int)
                && are_twins(lists, a, row, reordered(lists, order), b, places[row], back),
        total_rows(a, a.len() as int) <= total_rows(b, b.len() as int),
{
    let others = reordered(lists, order);
    let n = total_rows(a, a.len() as int);
    let m = total_rows(b, b.len() as int);
    lemma_totals(a, 0, a.len() as int);
    lemma_totals(b, 0, b.len() as int);
    let places = Seq::new(
        n as nat,
        |row: int|
            choose|other: int|
                0 <= other < m && #[trigger] are_twins(lists, a, row, others, b, other, back),
    );
    assert forall|row: int| 0 <= row < places.len() implies 0 <= #[trigger] places[row] < m
        && are_twins(lists, a, row, others, b, places[row], back) by {
        let other = lemma_has_twin(lists, a, row, b, order, back);
        assert(are_twins(lists, a, row, others, b, other, back));
    }
    assert forall|i: int, j: int| 0 <= i < places.len() && 0 <= j < places.len() && i != j implies places[i]
        != places[j] by {
        if places[i] == places[j] {
            assert(are_twins(lists, a, i, others, b, places[i], back));
            assert(are_twins(lists, a, j, others, b, places[j], back));
            lemma_one_twin(lists, a, i, j, others, b, places[i], back);
        }
    }
    lemma_no_more(places, m);
    places
}

proof fn lemma_order_back(lists: Seq<Seq<Key>>, order: Seq<int>, back: Seq<int>)
    requires
        is_order(order, back, lists.len()),
    ensures
        is_order(back, order, lists.len()),
        reordered(reordered(lists, order), back) == lists,
{
    assert(reordered(reordered(lists, order), back) =~= lists);
}

/// In whatever order the lists are merged, each row of the result has a place of its own in the
/// other result where the same rows of the lists stand side by side, and both results are of one
/// size.
pub proof fn the_order_of_lists_moves_rows(
    lists: Seq<Seq<Key>>,
    a: Seq<GroupModel>,
    b: Seq<GroupModel>,
    order: Seq<int>,
    back: Seq<int>,
) -> (places: Seq<int>)
    requires
        is_order(order, back, lists.len()),
        is_merge(lists, a),
        is_merge(reordered(lists, order), b),
    ensures
        total_rows(a, a.len() as int) == total_rows(b, b.len() as int),
        oversized(a) <==> oversized(b),
        places.len() == total_rows(a, a.len() as int),
        places.no_duplicates(),
        forall|row: int|
            0 <= row < places.len() ==> 0 <= #[trigger] places[row] < places.len() && are_twins(
                lists,
                a,
                row,
                reordered(lists, order),
                b,
                places[row],
                back,
            ),
{
    let others = reordered(lists, order);
    lemma_order_back(lists, order, back);
    let places = lemma_twins(lists, a, b, order, back);
    let _ = lemma_twins(others, b, a, back, order);
    lemma_sizes(lists, a, b, order, back);
    lemma_sizes(others, b, a, back, order);
    places
}

proof fn lemma_sizes(
    lists: Seq<Seq<Key>>,
    a: Seq<GroupModel>,
    b: Seq<GroupModel>,
    order: Seq<int>,
    back: Seq<int>,
)
    requires
        is_order(order, back, lists.len()),
        is_merge(lists, a),
        is_merge(reordered(lists, order), b),
    ensures
        oversized(a) ==> oversized(b),
{
    if oversized(a) {
        let t = choose|t: int| 0 <= t < a.len() && rows_of(#[trigger] a[t]) > usize::MAX;
        let u = the_order_of_lists_does_not_matter(lists, a, t, b, order, back);
        lemma_lead(lists, a, t);
        lemma_share(lists, a, t, a[t].lead);
        lemma_lead(reordered(lists, order), b, u);
        lemma_share(reordered(lists, order), b, u, b[u].lead);
        lemma_group_fits(lists, a[t], b[u], order, back);
        assert(rows_of(b[u]) > usize::MAX);
    }
}

} // verus!
