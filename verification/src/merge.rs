//! The merge of several lists of row keys into groups of matching rows.
//!
//! Every list has a cursor. The next group is led by the list whose key at the cursor is the
//! smallest, the first such list where several hold it. It takes, from each list whose key at
//! the cursor matches the leader's, the run of rows with that key; a row without a key forms a
//! group of its own. The cursors move past what the group took.
use vstd::prelude::*;

use crate::row_keys::{
    compare_keys, encoded_rows, key_at, key_is_null, key_less, key_order_is_total,
    key_order_is_transitive, key_same, keys_equal, EncodedKeys, Key,
};

verus! {

/// A group of matching rows: for each list, where its rows start and how many they are. A list
/// that is not part of the group has no rows and starts at zero.
pub struct Group {
    /// The list that leads the group.
    pub lead: usize,
    /// The first row of each list.
    pub starts: Vec<usize>,
    /// The number of rows of each list.
    pub lens: Vec<usize>,
}

/// What a group means.
pub struct GroupModel {
    /// The list that leads the group.
    pub lead: int,
    /// The first row of each list.
    pub starts: Seq<int>,
    /// The number of rows of each list.
    pub lens: Seq<int>,
}

/// The numbers in a sequence of machine integers.
pub open spec fn ints(s: Seq<usize>) -> Seq<int> {
    s.map_values(|v: usize| v as int)
}

impl View for Group {
    type V = GroupModel;

    open spec fn view(&self) -> GroupModel {
        GroupModel { lead: self.lead as int, starts: ints(self.starts@), lens: ints(self.lens@) }
    }
}

/// The models of a sequence of groups.
pub open spec fn group_models(groups: Seq<Group>) -> Seq<GroupModel> {
    groups.map_values(|g: Group| g@)
}

/// The keys in a sequence of encodings.
pub open spec fn key_lists(keys: Seq<EncodedKeys>) -> Seq<Seq<Key>> {
    keys.map_values(|k: EncodedKeys| encoded_rows(k))
}

/// List `f` has rows left.
pub open spec fn live(keys: Seq<Seq<Key>>, cursors: Seq<int>, f: int) -> bool {
    &&& 0 <= f < keys.len()
    &&& cursors[f] < keys[f].len()
}

/// The key of list `f` at its cursor.
pub open spec fn head(keys: Seq<Seq<Key>>, cursors: Seq<int>, f: int) -> Key {
    keys[f][cursors[f]]
}

/// List `f` leads: no list has a smaller key at its cursor, and the lists before it have larger
/// ones.
pub open spec fn leads(keys: Seq<Seq<Key>>, cursors: Seq<int>, f: int) -> bool {
    &&& live(keys, cursors, f)
    &&& forall|g: int| #[trigger]
        live(keys, cursors, g) ==> {
            &&& !key_less(head(keys, cursors, g), head(keys, cursors, f))
            &&& g < f ==> key_less(head(keys, cursors, f), head(keys, cursors, g))
        }
}

/// List `f` is part of the group that list `lead` leads.
pub open spec fn joins(keys: Seq<Seq<Key>>, cursors: Seq<int>, lead: int, f: int) -> bool {
    if head(keys, cursors, lead) is None {
        f == lead
    } else {
        live(keys, cursors, f) && key_same(head(keys, cursors, f), head(keys, cursors, lead))
    }
}

/// The rows from `start` on that match the row at `start`: the row itself and those that follow
/// it without a break, `len` in all.
pub open spec fn is_run(list: Seq<Key>, start: int, len: int) -> bool {
    &&& 1 <= len
    &&& 0 <= start
    &&& start + len <= list.len()
    &&& forall|i: int| start < i < start + len ==> key_same(#[trigger] list[i], list[start])
    &&& start + len < list.len() ==> !key_same(list[start + len], list[start])
}

/// What list `f` puts into the group that list `lead` leads: its run of rows where it is part of
/// the group, else nothing.
pub open spec fn is_share(
    keys: Seq<Seq<Key>>,
    cursors: Seq<int>,
    lead: int,
    f: int,
    start: int,
    len: int,
) -> bool {
    if joins(keys, cursors, lead, f) {
        start == cursors[f] && is_run(keys[f], start, len)
    } else {
        start == 0 && len == 0
    }
}

/// The group that follows when the cursors stand where they do.
pub open spec fn is_next(keys: Seq<Seq<Key>>, cursors: Seq<int>, group: GroupModel) -> bool {
    &&& leads(keys, cursors, group.lead)
    &&& group.starts.len() == keys.len()
    &&& group.lens.len() == keys.len()
    &&& forall|f: int|
        0 <= f < keys.len() ==> is_share(
            keys,
            cursors,
            group.lead,
            f,
            group.starts[f],
            #[trigger] group.lens[f],
        )
}

/// The number of rows of list `f` in the first `t` groups.
pub open spec fn consumed(groups: Seq<GroupModel>, f: int, t: int) -> int
    decreases t,
{
    if t <= 0 {
        0
    } else {
        consumed(groups, f, t - 1) + groups[t - 1].lens[f]
    }
}

/// The cursors of `n` lists behind the first `t` groups.
pub open spec fn cursors_after(groups: Seq<GroupModel>, n: nat, t: int) -> Seq<int> {
    Seq::new(n, |f: int| consumed(groups, f, t))
}

/// Each group is the one that follows those before it.
pub open spec fn is_merge_so_far(keys: Seq<Seq<Key>>, groups: Seq<GroupModel>) -> bool {
    forall|t: int|
        0 <= t < groups.len() ==> is_next(
            keys,
            #[trigger] cursors_after(groups, keys.len(), t),
            groups[t],
        )
}

/// The groups are the merge of the lists: each follows those before it, and together they take
/// every row.
pub open spec fn is_merge(keys: Seq<Seq<Key>>, groups: Seq<GroupModel>) -> bool {
    &&& is_merge_so_far(keys, groups)
    &&& forall|f: int|
        0 <= f < keys.len() ==> #[trigger] consumed(groups, f, groups.len() as int)
            == keys[f].len()
}

/// Tells whether the key of a row comes before the key of another.
fn key_precedes(a: &EncodedKeys, a_row: usize, b: &EncodedKeys, b_row: usize) -> (less: bool)
    requires
        a_row < encoded_rows(*a).len(),
        b_row < encoded_rows(*b).len(),
    ensures
        less == key_less(key_at(*a, a_row), key_at(*b, b_row)),
{
    match compare_keys(a, a_row, b, b_row) {
        std::cmp::Ordering::Less => true,
        _ => false,
    }
}

/// The lists and their cursors fit together: one height and one cursor for each list, and no
/// cursor past the end.
pub open spec fn cursors_fit(
    keys: Seq<EncodedKeys>,
    heights: Seq<usize>,
    cursors: Seq<usize>,
) -> bool {
    &&& heights.len() == keys.len()
    &&& cursors.len() == keys.len()
    &&& forall|f: int|
        0 <= f < keys.len() ==> #[trigger] heights[f] == encoded_rows(keys[f]).len()
    &&& forall|f: int| 0 <= f < keys.len() ==> #[trigger] cursors[f] <= heights[f]
}

/// List `f` leads among the first `n` lists.
spec fn leads_among(keys: Seq<Seq<Key>>, cursors: Seq<int>, f: int, n: int) -> bool {
    &&& live(keys, cursors, f)
    &&& f < n
    &&& forall|g: int|
        g < n && #[trigger] live(keys, cursors, g) ==> {
            &&& !key_less(head(keys, cursors, g), head(keys, cursors, f))
            &&& g < f ==> key_less(head(keys, cursors, f), head(keys, cursors, g))
        }
}

proof fn lemma_new_lead(keys: Seq<Seq<Key>>, cursors: Seq<int>, old_lead: int, f: int)
    requires
        leads_among(keys, cursors, old_lead, f),
        live(keys, cursors, f),
    ensures
        key_less(head(keys, cursors, f), head(keys, cursors, old_lead)) ==> leads_among(
            keys,
            cursors,
            f,
            f + 1,
        ),
        !key_less(head(keys, cursors, f), head(keys, cursors, old_lead)) ==> leads_among(
            keys,
            cursors,
            old_lead,
            f + 1,
        ),
{
    let new = head(keys, cursors, f);
    let old = head(keys, cursors, old_lead);
    if key_less(new, old) {
        assert forall|g: int| g < f + 1 && #[trigger] live(keys, cursors, g) implies {
            &&& !key_less(head(keys, cursors, g), new)
            &&& g < f ==> key_less(new, head(keys, cursors, g))
        } by {
            let other = head(keys, cursors, g);
            key_order_is_total(other, old);
            key_order_is_total(other, new);
            if g < f && key_less(old, other) {
                key_order_is_transitive(new, old, other);
            }
        }
    } else {
        key_order_is_total(new, old);
    }
}

/// Finds the list that leads the next group, or none where no list has rows left.
fn find_lead(keys: &Vec<EncodedKeys>, heights: &Vec<usize>, cursors: &Vec<usize>) -> (lead: Option<
    usize,
>)
    requires
        cursors_fit(keys@, heights@, cursors@),
    ensures
        match lead {
            Some(f) => leads(key_lists(keys@), ints(cursors@), f as int),
            None => forall|f: int| !#[trigger] live(key_lists(keys@), ints(cursors@), f),
        },
{
    let mut lead: Option<usize> = None;
    let mut f: usize = 0;
    while f < keys.len()
        invariant
            cursors_fit(keys@, heights@, cursors@),
            f <= keys@.len(),
            match lead {
                Some(current) => leads_among(
                    key_lists(keys@),
                    ints(cursors@),
                    current as int,
                    f as int,
                ),
                None => forall|g: int|
                    g < f ==> !#[trigger] live(key_lists(keys@), ints(cursors@), g),
            },
        decreases keys@.len() - f,
    {
        assert(heights@[f as int] == encoded_rows(keys@[f as int]).len());
        if cursors[f] < heights[f] {
            assert(live(key_lists(keys@), ints(cursors@), f as int));
            match lead {
                None => {
                    proof {
                        key_order_is_total(
                            head(key_lists(keys@), ints(cursors@), f as int),
                            head(key_lists(keys@), ints(cursors@), f as int),
                        );
                    }
                    lead = Some(f);
                },
                Some(current) => {
                    assert(live(key_lists(keys@), ints(cursors@), current as int));
                    assert(heights@[current as int] == encoded_rows(keys@[current as int]).len());
                    proof {
                        lemma_new_lead(
                            key_lists(keys@),
                            ints(cursors@),
                            current as int,
                            f as int,
                        );
                    }
                    if key_precedes(&keys[f], cursors[f], &keys[current], cursors[current]) {
                        lead = Some(f);
                    }
                },
            }
        }
        f += 1;
    }
    lead
}

/// Measures the run of rows that match the row at `start`.
fn run_len(keys: &EncodedKeys, height: usize, start: usize) -> (len: usize)
    requires
        height == encoded_rows(*keys).len(),
        start < height,
    ensures
        is_run(encoded_rows(*keys), start as int, len as int),
{
    let mut end: usize = start + 1;
    while end < height && keys_equal(keys, end, keys, start)
        invariant
            height == encoded_rows(*keys).len(),
            start < end <= height,
            forall|i: int|
                start < i < end ==> key_same(
                    #[trigger] encoded_rows(*keys)[i],
                    encoded_rows(*keys)[start as int],
                ),
        decreases height - end,
    {
        end += 1;
    }
    end - start
}

/// Forms the group that list `lead` leads.
fn next_group(
    keys: &Vec<EncodedKeys>,
    heights: &Vec<usize>,
    cursors: &Vec<usize>,
    lead: usize,
) -> (group: Group)
    requires
        cursors_fit(keys@, heights@, cursors@),
        leads(key_lists(keys@), ints(cursors@), lead as int),
    ensures
        group.lead == lead,
        is_next(key_lists(keys@), ints(cursors@), group@),
{
    let ghost lists = key_lists(keys@);
    let ghost places = ints(cursors@);
    assert(live(lists, places, lead as int));
    assert(heights@[lead as int] == encoded_rows(keys@[lead as int]).len());
    let lead_row: usize = cursors[lead];
    let lead_null = key_is_null(&keys[lead], lead_row);
    let mut starts: Vec<usize> = Vec::new();
    let mut lens: Vec<usize> = Vec::new();
    let mut f: usize = 0;
    while f < keys.len()
        invariant
            cursors_fit(keys@, heights@, cursors@),
            lists == key_lists(keys@),
            places == ints(cursors@),
            leads(lists, places, lead as int),
            lead < keys@.len(),
            lead_row == cursors@[lead as int],
            lead_row < encoded_rows(keys@[lead as int]).len(),
            lead_null == (head(lists, places, lead as int) is None),
            f <= keys@.len(),
            starts@.len() == f,
            lens@.len() == f,
            forall|g: int|
                0 <= g < f ==> is_share(
                    lists,
                    places,
                    lead as int,
                    g,
                    starts@[g] as int,
                    #[trigger] lens@[g] as int,
                ),
        decreases keys@.len() - f,
    {
        assert(heights@[f as int] == encoded_rows(keys@[f as int]).len());
        let part = if lead_null {
            f == lead
        } else {
            cursors[f] < heights[f] && keys_equal(&keys[f], cursors[f], &keys[lead], lead_row)
        };
        assert(part == joins(lists, places, lead as int, f as int));
        if part {
            assert(live(lists, places, f as int));
            starts.push(cursors[f]);
            lens.push(run_len(&keys[f], heights[f], cursors[f]));
        } else {
            starts.push(0);
            lens.push(0);
        }
        f += 1;
    }
    let group = Group { lead, starts, lens };
    assert forall|g: int| 0 <= g < keys@.len() implies is_share(
        lists,
        places,
        lead as int,
        g,
        group@.starts[g],
        #[trigger] group@.lens[g],
    ) by {
        assert(group@.lens[g] == group.lens@[g]);
    }
    group
}

/// The number of rows that the first `n` lists have left.
spec fn rows_left(heights: Seq<usize>, cursors: Seq<usize>, n: int) -> int
    decreases n,
{
    if n <= 0 {
        0
    } else {
        rows_left(heights, cursors, n - 1) + heights[n - 1] - cursors[n - 1]
    }
}

proof fn lemma_rows_left(heights: Seq<usize>, cursors: Seq<usize>, n: int)
    requires
        0 <= n <= heights.len(),
        n <= cursors.len(),
        forall|f: int| 0 <= f < n ==> #[trigger] cursors[f] <= heights[f],
    ensures
        0 <= rows_left(heights, cursors, n),
    decreases n,
{
    if n > 0 {
        lemma_rows_left(heights, cursors, n - 1);
        assert(cursors[n - 1] <= heights[n - 1]);
    }
}

proof fn lemma_rows_left_shrink(heights: Seq<usize>, before: Seq<usize>, after: Seq<usize>, n: int, f: int)
    requires
        0 <= n <= heights.len(),
        n <= before.len(),
        n <= after.len(),
        forall|g: int| 0 <= g < n ==> before[g] <= #[trigger] after[g],
        0 <= f < n ==> before[f] < after[f],
    ensures
        rows_left(heights, after, n) <= rows_left(heights, before, n),
        0 <= f < n ==> rows_left(heights, after, n) < rows_left(heights, before, n),
    decreases n,
{
    if n > 0 {
        lemma_rows_left_shrink(heights, before, after, n - 1, f);
        assert(before[n - 1] <= after[n - 1]);
    }
}

/// The rows that the first groups take do not depend on the groups behind them.
proof fn lemma_consumed_prefix(a: Seq<GroupModel>, b: Seq<GroupModel>, f: int, t: int)
    requires
        0 <= t <= a.len(),
        t <= b.len(),
        forall|i: int| 0 <= i < t ==> #[trigger] a[i] == b[i],
    ensures
        consumed(a, f, t) == consumed(b, f, t),
    decreases t,
{
    if t > 0 {
        assert(a[t - 1] == b[t - 1]);
        lemma_consumed_prefix(a, b, f, t - 1);
    }
}

proof fn lemma_merge_extends(keys: Seq<Seq<Key>>, groups: Seq<GroupModel>, group: GroupModel)
    requires
        is_merge_so_far(keys, groups),
        is_next(keys, cursors_after(groups, keys.len(), groups.len() as int), group),
    ensures
        is_merge_so_far(keys, groups.push(group)),
        forall|f: int|
            0 <= f < keys.len() ==> #[trigger] consumed(
                groups.push(group),
                f,
                groups.len() as int + 1,
            ) == consumed(groups, f, groups.len() as int) + group.lens[f],
{
    let more = groups.push(group);
    assert forall|t: int| 0 <= t < more.len() implies is_next(
        keys,
        #[trigger] cursors_after(more, keys.len(), t),
        more[t],
    ) by {
        assert forall|f: int| 0 <= f < keys.len() implies consumed(more, f, t) == consumed(
            groups,
            f,
            t,
        ) by {
            lemma_consumed_prefix(more, groups, f, t);
        }
        assert(cursors_after(more, keys.len(), t) =~= cursors_after(groups, keys.len(), t));
        if t < groups.len() {
            assert(more[t] == groups[t]);
        }
    }
    assert forall|f: int| 0 <= f < keys.len() implies #[trigger] consumed(
        more,
        f,
        groups.len() as int + 1,
    ) == consumed(groups, f, groups.len() as int) + group.lens[f] by {
        lemma_consumed_prefix(more, groups, f, groups.len() as int);
    }
}

/// Merges the lists of keys into groups.
pub fn merge_groups(keys: &Vec<EncodedKeys>, heights: &Vec<usize>) -> (groups: Vec<Group>)
    requires
        heights@.len() == keys@.len(),
        forall|f: int|
            0 <= f < keys@.len() ==> #[trigger] heights@[f] == encoded_rows(keys@[f]).len(),
    ensures
        is_merge(key_lists(keys@), group_models(groups@)),
{
    let ghost lists = key_lists(keys@);
    let mut cursors: Vec<usize> = Vec::new();
    let mut f: usize = 0;
    while f < keys.len()
        invariant
            f <= keys@.len(),
            cursors@.len() == f,
            forall|g: int| 0 <= g < f ==> #[trigger] cursors@[g] == 0,
        decreases keys@.len() - f,
    {
        cursors.push(0);
        f += 1;
    }
    let mut groups: Vec<Group> = Vec::new();
    assert(ints(cursors@) =~= cursors_after(group_models(groups@), keys@.len(), 0));
    let mut lead = find_lead(keys, heights, &cursors);
    proof {
        lemma_rows_left(heights@, cursors@, keys@.len() as int);
    }
    while lead.is_some()
        invariant
            lists == key_lists(keys@),
            cursors_fit(keys@, heights@, cursors@),
            ints(cursors@) == cursors_after(
                group_models(groups@),
                keys@.len(),
                groups@.len() as int,
            ),
            is_merge_so_far(lists, group_models(groups@)),
            0 <= rows_left(heights@, cursors@, keys@.len() as int),
            match lead {
                Some(first) => leads(lists, ints(cursors@), first as int),
                None => forall|g: int| !#[trigger] live(lists, ints(cursors@), g),
            },
        decreases rows_left(heights@, cursors@, keys@.len() as int),
    {
        if let Some(first) = lead {
            let ghost before = cursors@;
            let ghost models = group_models(groups@);
            let group = next_group(keys, heights, &cursors, first);
            let ghost model = group@;
            let mut f: usize = 0;
            while f < keys.len()
                invariant
                    lists == key_lists(keys@),
                    cursors_fit(keys@, heights@, before),
                    cursors_fit(keys@, heights@, cursors@),
                    model == group@,
                    is_next(lists, ints(before), model),
                    f <= keys@.len(),
                    forall|g: int|
                        0 <= g < keys@.len() ==> #[trigger] cursors@[g] == before[g] + if g < f {
                            model.lens[g]
                        } else {
                            0
                        },
                decreases keys@.len() - f,
            {
                assert(model.lens[f as int] == group.lens@[f as int]);
                assert(cursors@[f as int] == before[f as int]);
                assert(heights@[f as int] == encoded_rows(keys@[f as int]).len());
                let end: usize = cursors[f] + group.lens[f];
                cursors.set(f, end);
                f += 1;
            }
            proof {
                lemma_merge_extends(lists, models, model);
                assert(joins(lists, ints(before), model.lead, model.lead));
                assert(model.lens[model.lead] >= 1);
                assert forall|g: int| 0 <= g < keys@.len() implies before[g]
                    <= #[trigger] cursors@[g] by {
                    assert(model.lens[g] >= 0);
                }
                lemma_rows_left_shrink(
                    heights@,
                    before,
                    cursors@,
                    keys@.len() as int,
                    model.lead,
                );
                lemma_rows_left(heights@, cursors@, keys@.len() as int);
            }
            groups.push(group);
            proof {
                assert(group_models(groups@) =~= models.push(model));
                assert forall|g: int| 0 <= g < keys@.len() implies ints(cursors@)[g]
                    == #[trigger] consumed(models.push(model), g, models.len() as int + 1) by {
                    assert(ints(before)[g] == consumed(models, g, models.len() as int));
                }
                assert(ints(cursors@) =~= cursors_after(
                    group_models(groups@),
                    keys@.len(),
                    groups@.len() as int,
                ));
            }
            lead = find_lead(keys, heights, &cursors);
        }
    }
    assert forall|g: int| 0 <= g < lists.len() implies #[trigger] consumed(
        group_models(groups@),
        g,
        groups@.len() as int,
    ) == lists[g].len() by {
        assert(!live(lists, ints(cursors@), g));
        assert(ints(cursors@)[g] == consumed(group_models(groups@), g, groups@.len() as int));
        assert(cursors@[g] <= heights@[g]);
        assert(heights@[g] == encoded_rows(keys@[g]).len());
    }
    groups
}

} // verus!
