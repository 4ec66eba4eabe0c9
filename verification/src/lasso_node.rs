//! The regression as a step of a pipeline: rows arrive in morsels, and the state is kept from one
//! morsel to the next.
use vstd::prelude::*;

use crate::columns::{valid_at, ListColumn, ScalarColumn};
use crate::join_node::PortState;
use crate::lasso::{blank, EwmLassoOptions, EwmLassoState, LassoModel};
use crate::lasso_columns::{
    after, ewm_lasso_with_state, first_list, is_batch, is_null_column, is_outcome, misfit,
    null_column, samples, EwmLassoError, Sample,
};
use crate::lasso_laws::{pieces_give_the_whole, states_go_on};
use crate::scalar::{Arithmetic, Scalar};

verus! {

/// A regression in a pipeline.
pub struct EwmLassoNode<T> {
    name: &'static str,
    output_name: String,
    options: EwmLassoOptions<T>,
    state: Option<EwmLassoState<T>>,
}

/// What a node holds.
pub ghost struct NodeModel<T> {
    pub name: Seq<char>,
    pub output_name: Seq<char>,
    pub options: EwmLassoOptions<T>,
    pub state: Option<LassoModel<T>>,
}

impl<T> NodeModel<T> {
    pub open spec fn wf(self) -> bool {
        self.state matches Some(st) ==> st.wf() && st.options == self.options
    }
}

impl<T> View for EwmLassoNode<T> {
    type V = NodeModel<T>;

    closed spec fn view(&self) -> NodeModel<T> {
        NodeModel {
            name: self.name@,
            output_name: self.output_name@,
            options: self.options,
            state: match self.state {
                Some(state) => Some(state@),
                None => None,
            },
        }
    }
}

/// The first row that is there.
pub open spec fn first_sample<T>(x: ListColumn<T>, y: ScalarColumn<T>, i: int) -> bool {
    &&& 0 <= i < x.rows()
    &&& samples(x, y)[i] is Some
    &&& forall|k: int| 0 <= k < i ==> samples(x, y)[k] is None
}

/// The state in which a morsel finds a node: the one that was there, or a blank one for the number
/// of features of the first row, or none while no row has come.
pub open spec fn is_start<T: Arithmetic>(
    state: Option<LassoModel<T>>,
    options: EwmLassoOptions<T>,
    x: ListColumn<T>,
    y: ScalarColumn<T>,
    start: Option<LassoModel<T>>,
) -> bool {
    match (state, start) {
        (Some(_), _) => start == state,
        (None, Some(st)) => exists|i: int| #[trigger]
            first_sample(x, y, i) && st == blank(x.width(i), options),
        (None, None) => forall|i: int| 0 <= i < x.rows() ==> samples(x, y)[i] is None,
    }
}

/// What a morsel comes to from the given start: the outcome of the regression, or nulls where it
/// has not begun.
pub open spec fn is_processed<T: Arithmetic>(
    start: Option<LassoModel<T>>,
    x: ListColumn<T>,
    y: ScalarColumn<T>,
    result: Result<ListColumn<T>, EwmLassoError>,
    end: Option<LassoModel<T>>,
) -> bool {
    match start {
        Some(st) => end is Some && is_outcome(st, x, y, result, end->0),
        None => end is None && (result matches Ok(out) && is_null_column(x.rows(), out)),
    }
}

/// Finds the first row that is there.
fn find_sample<T>(x: &ListColumn<T>, y: &ScalarColumn<T>) -> (r: Option<usize>)
    requires
        x.wf(),
        y.wf(),
        x.rows() == y.values@.len(),
    ensures
        match r {
            Some(i) => first_sample(*x, *y, i as int),
            None => forall|i: int| 0 <= i < x.rows() ==> samples(*x, *y)[i] is None,
        },
{
    let mut i: usize = 0;
    while i < x.len()
        invariant
            x.wf(),
            y.wf(),
            x.rows() == y.values@.len(),
            i <= x.rows(),
            forall|k: int| 0 <= k < i ==> samples(*x, *y)[k] is None,
        decreases x.rows() - i,
    {
        if x.is_valid(i) && y.is_valid(i) {
            return Some(i);
        }
        i += 1;
    }
    None
}

impl<T: Scalar> EwmLassoNode<T> {
    pub fn new(
        name: &'static str,
        output_name: String,
        options: EwmLassoOptions<T>,
    ) -> (r: Self)
        ensures
            r@ == (NodeModel { name: name@, output_name: output_name@, options, state: None }),
            r@.wf(),
    {
        EwmLassoNode { name, output_name, options, state: None }
    }

    pub fn name(&self) -> (r: &'static str)
        ensures
            r@ == self@.name,
    {
        self.name
    }

    /// The name of the column of coefficients.
    pub fn output_name(&self) -> (r: &String)
        ensures
            r@ == self@.output_name,
    {
        &self.output_name
    }

    /// Whether a row has come already.
    pub fn has_started(&self) -> (r: bool)
        ensures
            r == (self@.state is Some),
    {
        self.state.is_some()
    }

    /// Passes on what the other side of the node is up to, in both directions.
    pub fn update_state(&mut self, recv: &mut [PortState], send: &mut [PortState])
        requires
            old(recv)@.len() == 1,
            old(send)@.len() == 1,
        ensures
            final(recv)@ == old(send)@,
            final(send)@ == old(recv)@,
            *final(self) == *old(self),
    {
        let received = recv[0];
        recv[0] = send[0];
        send[0] = received;
    }

    /// Runs the regression on over the rows of a morsel, whose columns are of one length.
    pub fn process(&mut self, x: &ListColumn<T>, y: &ScalarColumn<T>) -> (r: Result<
        ListColumn<T>,
        EwmLassoError,
    >)
        requires
            old(self)@.wf(),
            x.wf(),
            y.wf(),
            x.rows() == y.values@.len(),
            forall|i: int| #[trigger]
                first_sample(*x, *y, i) && old(self)@.state is None ==> x.width(i) * x.width(i)
                    <= usize::MAX,
        ensures
            exists|start: Option<LassoModel<T>>| #[trigger]
                is_start(old(self)@.state, old(self)@.options, *x, *y, start) && is_processed(
                    start,
                    *x,
                    *y,
                    r,
                    final(self)@.state,
                ),
            final(self)@.name == old(self)@.name,
            final(self)@.output_name == old(self)@.output_name,
            final(self)@.options == old(self)@.options,
            final(self)@.wf(),
    {
        if self.state.is_none() {
            if let Some(i) = find_sample(x, y) {
                let (start, end) = x.bounds(i);
                self.state = Some(EwmLassoState::new(end - start, self.options));
            }
        }
        let ghost start = self@.state;
        assert(is_start(old(self)@.state, old(self)@.options, *x, *y, start));
        match self.state.take() {
            Some(mut state) => {
                let result = ewm_lasso_with_state(&mut state, x, y);
                self.state = Some(state);
                assert(is_processed(start, *x, *y, result, self@.state));
                result
            },
            None => {
                let out = null_column(x.len());
                assert(is_processed(
                    start,
                    *x,
                    *y,
                    Ok::<ListColumn<T>, EwmLassoError>(out),
                    self@.state,
                ));
                Ok(out)
            },
        }
    }
}

/// Rows that are not there leave the state as it is.
proof fn lemma_no_samples<T: Arithmetic>(
    st: LassoModel<T>,
    rows: Seq<Option<Sample<T>>>,
    k: int,
)
    requires
        0 <= k <= rows.len(),
        forall|i: int| 0 <= i < k ==> rows[i] is None,
    ensures
        after(st, rows, k) == st,
    decreases k,
{
    if k > 0 {
        lemma_no_samples(st, rows, k - 1);
    }
}

/// The features of a row that is there are as many as the list is long.
proof fn lemma_width<T>(x: ListColumn<T>, y: ScalarColumn<T>, i: int)
    requires
        x.wf(),
        x.values is Scalars,
        0 <= i < x.rows(),
        samples(x, y)[i] is Some,
    ensures
        samples(x, y)[i]->0.x.len() == x.width(i),
{
    assert(0 <= x.offsets@[0] <= x.offsets@[i] <= x.offsets@[i + 1] <= x.offsets@[x.rows() as int]);
}

/// A pipeline may cut the rows anywhere: two morsels in a row give the rows that one morsel of all
/// their rows gives, and leave the node in the same state.
pub proof fn morsels_give_the_whole<T: Arithmetic>(
    state: Option<LassoModel<T>>,
    options: EwmLassoOptions<T>,
    start1: Option<LassoModel<T>>,
    x1: ListColumn<T>,
    y1: ScalarColumn<T>,
    out1: ListColumn<T>,
    middle: Option<LassoModel<T>>,
    start2: Option<LassoModel<T>>,
    x2: ListColumn<T>,
    y2: ScalarColumn<T>,
    out2: ListColumn<T>,
    end: Option<LassoModel<T>>,
    start: Option<LassoModel<T>>,
    x: ListColumn<T>,
    y: ScalarColumn<T>,
    out: ListColumn<T>,
    whole_end: Option<LassoModel<T>>,
)
    requires
        x1.wf(),
        x2.wf(),
        x.wf(),
        samples(x, y) == samples(x1, y1) + samples(x2, y2),
        is_start(state, options, x1, y1, start1),
        is_processed(start1, x1, y1, Ok::<ListColumn<T>, EwmLassoError>(out1), middle),
        is_start(middle, options, x2, y2, start2),
        is_processed(start2, x2, y2, Ok::<ListColumn<T>, EwmLassoError>(out2), end),
        is_start(state, options, x, y, start),
        is_processed(start, x, y, Ok::<ListColumn<T>, EwmLassoError>(out), whole_end),
    ensures
        whole_end == end,
        out.rows() == out1.rows() + out2.rows(),
        forall|i: int| 0 <= i < out1.rows() ==> #[trigger] out.row(i) == out1.row(i),
        forall|i: int|
            0 <= i < out2.rows() ==> out.row(out1.rows() + i) == #[trigger] out2.row(i),
{
    let first = samples(x1, y1);
    let second = samples(x2, y2);
    let rows = samples(x, y);
    assert(rows.len() == first.len() + second.len());
    assert(forall|i: int| 0 <= i < first.len() ==> rows[i] == first[i]);
    assert(forall|i: int| 0 <= i < second.len() ==> rows[first.len() + i] == second[i]);
    if start1 is Some {
        if state is None {
            let i = choose|i: int| #[trigger]
                first_sample(x1, y1, i) && start1->0 == blank(x1.width(i), options);
            assert(rows[i] is Some);
            let k = choose|k: int| #[trigger]
                first_sample(x, y, k) && start->0 == blank(x.width(k), options);
            assert(k == i);
            lemma_width(x1, y1, i);
            lemma_width(x, y, i);
        }
        assert(start == start1);
        pieces_give_the_whole(
            start->0,
            x1,
            y1,
            out1,
            middle->0,
            x2,
            y2,
            out2,
            end->0,
            x,
            y,
            out,
            whole_end->0,
        );
    } else if start2 is Some {
        let i = choose|i: int| #[trigger]
            first_sample(x2, y2, i) && start2->0 == blank(x2.width(i), options);
        assert(rows[first.len() + i] is Some);
        let k = choose|k: int| #[trigger]
            first_sample(x, y, k) && start->0 == blank(x.width(k), options);
        assert(k == first.len() + i) by {
            if k > first.len() + i {
                assert(rows[first.len() + i] is None);
            }
            if first.len() <= k < first.len() + i {
                assert(second[k - first.len()] is None);
            }
        }
        lemma_width(x2, y2, i);
        lemma_width(x, y, k);
        assert(start == start2);
        let st = start->0;
        lemma_no_samples(st, first, first.len() as int);
        states_go_on(st, first, second, second.len() as int);
        assert forall|j: int| 0 <= j < out2.rows() implies out.row(out1.rows() + j)
            == #[trigger] out2.row(j) by {
            states_go_on(st, first, second, j + 1);
            let _ = out.row(first.len() + j);
        }
    } else {
        assert(start is None) by {
            if start is Some {
                let k = choose|k: int| #[trigger]
                    first_sample(x, y, k) && start->0 == blank(x.width(k), options);
                if k >= first.len() {
                    assert(second[k - first.len()] is None);
                }
            }
        }
    }
}

/// A node that gets all rows in one morsel gives what the regression over the whole columns gives,
/// where the lists are of one length.
pub proof fn a_morsel_gives_what_whole_columns_give<T: Arithmetic>(
    options: EwmLassoOptions<T>,
    start: Option<LassoModel<T>>,
    x: ListColumn<T>,
    y: ScalarColumn<T>,
    out: ListColumn<T>,
    end: Option<LassoModel<T>>,
    batch: ListColumn<T>,
)
    requires
        x.wf(),
        forall|i: int, k: int|
            0 <= i < x.rows() && 0 <= k < x.rows() && valid_at(x.validity, i) && valid_at(
                x.validity,
                k,
            ) ==> #[trigger] x.width(i) == #[trigger] x.width(k),
        is_start(None, options, x, y, start),
        is_processed(start, x, y, Ok::<ListColumn<T>, EwmLassoError>(out), end),
        is_batch(x, y, options, Ok::<ListColumn<T>, EwmLassoError>(batch)),
    ensures
        out.rows() == batch.rows(),
        forall|i: int| 0 <= i < out.rows() ==> #[trigger] out.row(i) == batch.row(i),
{
    let rows = samples(x, y);
    if start is Some {
        let i = choose|i: int| #[trigger]
            first_sample(x, y, i) && start->0 == blank(x.width(i), options);
        assert(rows[i] is Some);
        assert(valid_at(x.validity, i));
        let (k, last) = choose|k: int, last: LassoModel<T>| #[trigger]
            first_list(x, k) && #[trigger] is_outcome(
                blank(x.width(k), options),
                x,
                y,
                Ok::<ListColumn<T>, EwmLassoError>(batch),
                last,
            );
        assert(x.width(i) == x.width(k));
        assert forall|j: int| 0 <= j < out.rows() implies #[trigger] out.row(j) == batch.row(j) by {
            let _ = rows[j];
        }
    } else {
        assert forall|j: int| 0 <= j < out.rows() implies #[trigger] out.row(j) == batch.row(j) by {
            assert(rows[j] is None);
        }
    }
}

/// The rows of the first `m` morsels, one after the other.
pub open spec fn all_rows<T>(morsels: Seq<Seq<Option<Sample<T>>>>, m: int) -> Seq<Option<Sample<T>>>
    decreases m,
{
    if m <= 0 {
        Seq::empty()
    } else {
        all_rows(morsels, m - 1) + morsels[m - 1]
    }
}

/// What a node goes through with a number of morsels: the state before and after each, the state
/// in which each finds it, and what each comes to.
pub ghost struct Passage<T> {
    pub xs: Seq<ListColumn<T>>,
    pub ys: Seq<ScalarColumn<T>>,
    pub states: Seq<Option<LassoModel<T>>>,
    pub starts: Seq<Option<LassoModel<T>>>,
    pub outs: Seq<ListColumn<T>>,
}

impl<T> Passage<T> {
    /// The rows of each morsel.
    pub open spec fn morsels(self) -> Seq<Seq<Option<Sample<T>>>> {
        Seq::new(self.xs.len(), |i: int| samples(self.xs[i], self.ys[i]))
    }
}

/// A fresh node goes through the morsels one after the other, and none of them fails.
pub open spec fn is_passage<T: Arithmetic>(p: Passage<T>, options: EwmLassoOptions<T>) -> bool {
    &&& p.ys.len() == p.xs.len()
    &&& p.starts.len() == p.xs.len()
    &&& p.outs.len() == p.xs.len()
    &&& p.states.len() == p.xs.len() + 1
    &&& p.states[0] is None
    &&& forall|i: int|
        0 <= i < p.xs.len() ==> {
            &&& (#[trigger] p.xs[i]).wf()
            &&& is_start(p.states[i], options, p.xs[i], p.ys[i], p.starts[i])
            &&& is_processed(
                p.starts[i],
                p.xs[i],
                p.ys[i],
                Ok::<ListColumn<T>, EwmLassoError>(p.outs[i]),
                p.states[i + 1],
            )
        }
}

/// The state after rows that start at place `from` of others is the state after these.
proof fn lemma_segment<T: Arithmetic>(
    st: LassoModel<T>,
    all: Seq<Option<Sample<T>>>,
    from: int,
    rows: Seq<Option<Sample<T>>>,
    k: int,
)
    requires
        0 <= from,
        0 <= k <= rows.len(),
        from + rows.len() <= all.len(),
        forall|l: int| 0 <= l < rows.len() ==> #[trigger] rows[l] == all[from + l],
    ensures
        after(after(st, all, from), rows, k) == after(st, all, from + k),
    decreases k,
{
    if k > 0 {
        lemma_segment(st, all, from, rows, k - 1);
        assert(rows[k - 1] == all[from + k - 1]);
    }
}

proof fn lemma_all_rows<T>(morsels: Seq<Seq<Option<Sample<T>>>>, i: int, m: int)
    requires
        0 <= i < m <= morsels.len(),
    ensures
        all_rows(morsels, i).len() + morsels[i].len() <= all_rows(morsels, m).len(),
        forall|l: int|
            0 <= l < morsels[i].len() ==> #[trigger] morsels[i][l] == all_rows(morsels, m)[all_rows(
                morsels,
                i,
            ).len() + l],
    decreases m,
{
    if i < m - 1 {
        lemma_all_rows(morsels, i, m - 1);
    }
}

/// The state of a node after `i` morsels is that of one run over all their rows.
proof fn lemma_passage_state<T: Arithmetic>(
    p: Passage<T>,
    options: EwmLassoOptions<T>,
    n: nat,
    i: int,
)
    requires
        is_passage(p, options),
        forall|r: int|
            0 <= r < all_rows(p.morsels(), p.xs.len() as int).len() ==> !misfit(
                all_rows(p.morsels(), p.xs.len() as int),
                n,
                r,
            ),
        0 <= i <= p.xs.len(),
    ensures
        ({
            let all = all_rows(p.morsels(), p.xs.len() as int);
            let from = all_rows(p.morsels(), i).len() as int;
            &&& from <= all.len()
            &&& p.states[i] is Some ==> p.states[i]->0 == after(blank(n, options), all, from)
            &&& p.states[i] is None ==> forall|r: int| 0 <= r < from ==> #[trigger] all[r] is None
        }),
    decreases i,
{
    let m = p.xs.len() as int;
    if i > 0 {
        lemma_passage_state(p, options, n, i - 1);
        lemma_passage_start(p, options, n, i - 1);
        lemma_all_rows(p.morsels(), i - 1, m);
        let all = all_rows(p.morsels(), m);
        let rows = p.morsels()[i - 1];
        let from = all_rows(p.morsels(), i - 1).len() as int;
        let _ = p.xs[i - 1];
        if p.starts[i - 1] is Some {
            lemma_segment(blank(n, options), all, from, rows, rows.len() as int);
        } else {
            assert forall|r: int| 0 <= r < from + rows.len() implies #[trigger] all[r] is None by {
                if r >= from {
                    assert(rows[r - from] is None);
                }
            }
        }
    }
}

/// A morsel finds a node in the state of one run over all rows before it.
proof fn lemma_passage_start<T: Arithmetic>(
    p: Passage<T>,
    options: EwmLassoOptions<T>,
    n: nat,
    i: int,
)
    requires
        is_passage(p, options),
        forall|r: int|
            0 <= r < all_rows(p.morsels(), p.xs.len() as int).len() ==> !misfit(
                all_rows(p.morsels(), p.xs.len() as int),
                n,
                r,
            ),
        0 <= i < p.xs.len(),
        ({
            let all = all_rows(p.morsels(), p.xs.len() as int);
            let from = all_rows(p.morsels(), i).len() as int;
            &&& from <= all.len()
            &&& p.states[i] is Some ==> p.states[i]->0 == after(blank(n, options), all, from)
            &&& p.states[i] is None ==> forall|r: int| 0 <= r < from ==> #[trigger] all[r] is None
        }),
    ensures
        p.starts[i] is Some ==> p.starts[i]->0 == after(
            blank(n, options),
            all_rows(p.morsels(), p.xs.len() as int),
            all_rows(p.morsels(), i).len() as int,
        ),
        p.starts[i] is None ==> forall|l: int|
            0 <= l < p.morsels()[i].len() ==> #[trigger] p.morsels()[i][l] is None,
{
    let m = p.xs.len() as int;
    let all = all_rows(p.morsels(), m);
    let rows = p.morsels()[i];
    let from = all_rows(p.morsels(), i).len() as int;
    let x = p.xs[i];
    let y = p.ys[i];
    lemma_all_rows(p.morsels(), i, m);
    if p.states[i] is None && p.starts[i] is Some {
        let s = choose|s: int| #[trigger]
            first_sample(x, y, s) && p.starts[i]->0 == blank(x.width(s), options);
        assert(rows[s] is Some);
        lemma_width(x, y, s);
        assert(rows[s] == all[from + s]);
        assert(!misfit(all, n, from + s));
        lemma_no_samples(blank(n, options), all, from);
    }
}

/// However a pipeline cuts the rows into morsels, a fresh node gives the rows that one run of the
/// regression over all of them gives, with as many features as each row has.
pub proof fn all_morsels_give_the_whole<T: Arithmetic>(
    p: Passage<T>,
    options: EwmLassoOptions<T>,
    n: nat,
    x: ListColumn<T>,
    y: ScalarColumn<T>,
    out: ListColumn<T>,
    end: LassoModel<T>,
    i: int,
    r: int,
)
    requires
        is_passage(p, options),
        samples(x, y) == all_rows(p.morsels(), p.xs.len() as int),
        is_outcome(blank(n, options), x, y, Ok::<ListColumn<T>, EwmLassoError>(out), end),
        0 <= i < p.xs.len(),
        0 <= r < p.outs[i].rows(),
    ensures
        p.outs[i].rows() == p.morsels()[i].len(),
        all_rows(p.morsels(), i).len() + r < out.rows(),
        p.outs[i].row(r) == out.row(all_rows(p.morsels(), i).len() + r),
{
    let m = p.xs.len() as int;
    let all = all_rows(p.morsels(), m);
    let rows = p.morsels()[i];
    let from = all_rows(p.morsels(), i).len() as int;
    let st = blank(n, options);
    assert(st.n_features == n);
    assert forall|q: int| 0 <= q < all.len() implies !misfit(all, n, q) by {
        assert(!misfit(samples(x, y), st.n_features, q));
    }
    lemma_passage_state(p, options, n, i);
    lemma_passage_start(p, options, n, i);
    lemma_all_rows(p.morsels(), i, m);
    let _ = p.xs[i];
    assert(rows[r] == all[from + r]);
    let _ = out.row(from + r);
    if p.starts[i] is Some {
        lemma_segment(blank(n, options), all, from, rows, r + 1);
    }
}

} // verus!
