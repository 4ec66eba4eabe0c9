//! The join as a step of a pipeline, and as a step of a plan.
use vstd::prelude::*;

use polars_core::frame::DataFrame;

use crate::join_inputs::{accepted, all_sound, frame_sound, JoinManyError};
use crate::join_many::{join_many_sorted, joins_to};
use crate::names::text;

verus! {

/// What one end of a pipe is up to.
#[derive(Debug, Clone, Copy, PartialEq, Eq, Structural)]
pub enum PortState {
    Blocked,
    Ready,
    Done,
}

/// Where a join stands: it gathers its inputs, hands out the result, or has nothing left to do.
#[derive(Debug, Clone, Copy, PartialEq, Eq, Structural)]
pub enum JoinManyState {
    Sink { inputs: usize },
    Source,
    Done,
}

/// A join of several inputs in a pipeline. The rows pass through sinks and a source beside it; the
/// node says what they have to do.
pub struct JoinManyNode {
    pub state: JoinManyState,
    pub on: Vec<String>,
}

/// What an update has to do before the ports are settled.
#[derive(Debug, Clone, Copy, PartialEq, Eq, Structural)]
pub enum Update {
    /// Take the frames out of the sinks and join them.
    Join,
    /// Nothing.
    Settle,
}

/// Who has to update the remaining ports.
#[derive(Debug, Clone, Copy, PartialEq, Eq, Structural)]
pub enum Delegate {
    /// Each sink, the receiving port of its own number.
    Sinks,
    /// The source, the sending port.
    Source,
    /// Nobody.
    Nobody,
}

/// Who has to be started.
#[derive(Debug, PartialEq, Eq)]
pub enum Spawn {
    /// The sinks of these numbers.
    Sinks(Vec<usize>),
    /// The source.
    Source,
}

/// All ports are done.
pub open spec fn all_done(ports: Seq<PortState>) -> bool {
    forall|i: int| 0 <= i < ports.len() ==> ports[i] == PortState::Done
}

/// Where a join stands after an update has begun: at the end, where the receiver of the result is
/// done.
pub open spec fn begun(state: JoinManyState, send: Seq<PortState>) -> JoinManyState {
    if send[0] == PortState::Done {
        JoinManyState::Done
    } else {
        state
    }
}

/// What an update has to do for a join that stands there: to join, where it still gathers and all
/// inputs are done.
pub open spec fn due(state: JoinManyState, recv: Seq<PortState>) -> Update {
    if state is Sink && all_done(recv) {
        Update::Join
    } else {
        Update::Settle
    }
}

/// How a join that stands there settles its ports, and to whom it leaves the rest.
pub open spec fn ports_settled(
    state: JoinManyState,
    recv: Seq<PortState>,
    send: Seq<PortState>,
    recv_after: Seq<PortState>,
    send_after: Seq<PortState>,
    rest: Delegate,
) -> bool {
    &&& recv_after.len() == recv.len()
    &&& match state {
        JoinManyState::Sink { .. } => {
            &&& rest == Delegate::Sinks
            &&& recv_after == recv
            &&& send_after == send
        },
        JoinManyState::Source => {
            &&& rest == Delegate::Source
            &&& all_done(recv_after)
            &&& send_after == send
        },
        JoinManyState::Done => {
            &&& rest == Delegate::Nobody
            &&& all_done(recv_after)
            &&& send_after == seq![PortState::Done]
        },
    }
}

/// A join may stay where it is, start to hand out once it has gathered, or end.
pub open spec fn may_follow(state: JoinManyState, next: JoinManyState) -> bool {
    ||| next == state
    ||| state is Sink && next == JoinManyState::Source
    ||| next == JoinManyState::Done
}

/// How far a join has come.
pub open spec fn progress(state: JoinManyState) -> int {
    match state {
        JoinManyState::Sink { .. } => 0,
        JoinManyState::Source => 1,
        JoinManyState::Done => 2,
    }
}

/// The sinks that are connected, in the order of their numbers.
pub open spec fn connected_sinks(connected: Seq<bool>, k: int) -> Seq<usize>
    decreases k,
{
    if k <= 0 {
        Seq::empty()
    } else if connected[k - 1] {
        connected_sinks(connected, k - 1).push((k - 1) as usize)
    } else {
        connected_sinks(connected, k - 1)
    }
}

fn every_port_done(ports: &[PortState]) -> (r: bool)
    ensures
        r == all_done(ports@),
{
    let mut i: usize = 0;
    while i < ports.len()
        invariant
            i <= ports@.len(),
            forall|k: int| 0 <= k < i ==> ports@[k] == PortState::Done,
        decreases ports@.len() - i,
    {
        if ports[i] != PortState::Done {
            return false;
        }
        i += 1;
    }
    true
}

fn close_ports(ports: &mut [PortState])
    ensures
        final(ports)@.len() == old(ports)@.len(),
        all_done(final(ports)@),
{
    let mut i: usize = 0;
    while i < ports.len()
        invariant
            i <= ports@.len(),
            ports@.len() == old(ports)@.len(),
            forall|k: int| 0 <= k < i ==> ports@[k] == PortState::Done,
        decreases ports@.len() - i,
    {
        ports[i] = PortState::Done;
        i += 1;
    }
}

impl JoinManyNode {
    /// A node with so many inputs, joined on the given columns.
    pub fn new(inputs: usize, on: Vec<String>) -> (r: Self)
        ensures
            r == (JoinManyNode { state: JoinManyState::Sink { inputs }, on }),
    {
        JoinManyNode { state: JoinManyState::Sink { inputs }, on }
    }

    pub fn name(&self) -> (r: &'static str)
        ensures
            r@ == "join-many"@,
    {
        "join-many"
    }

    /// Whether the node holds back rows: it does while it gathers them.
    pub fn is_memory_intensive_pipeline_blocker(&self) -> (r: bool)
        ensures
            r == (self.state is Sink),
    {
        matches!(self.state, JoinManyState::Sink { .. })
    }

    /// Begins an update. Where the receiver of the result is done, so is the node. Where it still
    /// gathers and all inputs are done, the frames have to be joined.
    pub fn begin_update(&mut self, recv: &[PortState], send: &[PortState]) -> (r: Update)
        requires
            send@.len() == 1,
        ensures
            final(self).on == old(self).on,
            final(self).state == begun(old(self).state, send@),
            r == due(final(self).state, recv@),
            may_follow(old(self).state, final(self).state),
            r == Update::Join <==> old(self).state is Sink && send@[0] != PortState::Done && (
            forall|i: int| 0 <= i < recv@.len() ==> recv@[i] == PortState::Done),
            send@[0] == PortState::Done ==> final(self).state == JoinManyState::Done,
            send@[0] != PortState::Done ==> final(self).state == old(self).state,
    {
        if send[0] == PortState::Done {
            self.state = JoinManyState::Done;
        }
        if matches!(self.state, JoinManyState::Sink { .. }) && every_port_done(recv) {
            Update::Join
        } else {
            Update::Settle
        }
    }

    /// Joins the frames out of the sinks. From then on the node hands out the result; where the
    /// frames cannot be joined, it stays as it is. Frames that pass the checks must hold data types
    /// that are known in full, and values of these types.
    pub fn join_inputs(&mut self, dfs: &[DataFrame]) -> (joined: Result<DataFrame, JoinManyError>)
        requires
            old(self).state matches JoinManyState::Sink { inputs } && inputs == dfs@.len(),
            accepted(dfs@, text(old(self).on@)) ==> all_sound(dfs@),
        ensures
            joins_to(dfs@, text(old(self).on@), joined),
            joined is Ok ==> frame_sound(joined->Ok_0),
            final(self).on == old(self).on,
            final(self).state == if joined is Ok {
                JoinManyState::Source
            } else {
                old(self).state
            },
            may_follow(old(self).state, final(self).state),
    {
        let joined = join_many_sorted(dfs, self.on.as_slice());
        if joined.is_ok() {
            self.state = JoinManyState::Source;
        }
        joined
    }

    /// Settles the ports: no input is taken any more once the node has gathered. While it gathers,
    /// the sinks settle theirs, and `block_result` follows when all have.
    pub fn settle_ports(&self, recv: &mut [PortState], send: &mut [PortState]) -> (r: Delegate)
        requires
            old(send)@.len() == 1,
            match self.state {
                JoinManyState::Sink { inputs } => inputs <= old(recv)@.len(),
                _ => true,
            },
        ensures
            ports_settled(self.state, old(recv)@, old(send)@, final(recv)@, final(send)@, r),
            final(recv)@.len() == old(recv)@.len(),
            r == Delegate::Sinks <==> self.state is Sink,
            r == Delegate::Source <==> self.state == JoinManyState::Source,
            self.state is Sink ==> final(recv)@ == old(recv)@,
            self.state !is Sink ==> forall|i: int|
                0 <= i < final(recv)@.len() ==> final(recv)@[i] == PortState::Done,
            self.state != JoinManyState::Done ==> final(send)@ == old(send)@,
            self.state == JoinManyState::Done ==> final(send)@ == seq![PortState::Done],
    {
        match self.state {
            JoinManyState::Sink { .. } => Delegate::Sinks,
            JoinManyState::Source => {
                close_ports(recv);
                Delegate::Source
            },
            JoinManyState::Done => {
                close_ports(recv);
                send[0] = PortState::Done;
                assert(send@ =~= seq![PortState::Done]);
                Delegate::Nobody
            },
        }
    }

    /// Holds the result back, after every sink has settled its port.
    pub fn block_result(&self, send: &mut [PortState])
        requires
            self.state is Sink,
            old(send)@.len() == 1,
        ensures
            final(send)@ == seq![PortState::Blocked],
    {
        send[0] = PortState::Blocked;
    }

    /// Who has to be started: the sinks whose input is connected, or the source. A node that is
    /// done must not be started.
    pub fn spawn(&self, connected: &[bool]) -> (r: Spawn)
        requires
            match self.state {
                JoinManyState::Sink { inputs } => inputs <= connected@.len(),
                JoinManyState::Source => true,
                JoinManyState::Done => false,
            },
        ensures
            match self.state {
                JoinManyState::Sink { inputs } => r matches Spawn::Sinks(sinks) && sinks@
                    == connected_sinks(connected@, inputs as int),
                _ => r == Spawn::Source,
            },
            self.state matches JoinManyState::Sink { inputs } ==> (r matches Spawn::Sinks(sinks) && (
            forall|i: usize| #[trigger] sinks@.contains(i) <==> i < inputs && connected@[i as int])),
    {
        match self.state {
            JoinManyState::Sink { inputs } => {
                let mut sinks: Vec<usize> = Vec::new();
                let mut i: usize = 0;
                while i < inputs
                    invariant
                        i <= inputs <= connected@.len(),
                        sinks@ == connected_sinks(connected@, i as int),
                    decreases inputs - i,
                {
                    if connected[i] {
                        sinks.push(i);
                    }
                    i += 1;
                }
                proof {
                    exactly_the_connected_sinks_start(connected@, inputs as int);
                }
                Spawn::Sinks(sinks)
            },
            _ => Spawn::Source,
        }
    }
}

/// The sinks that are started are those that are connected: each of them, no other, and each once,
/// in the order of their numbers.
pub proof fn exactly_the_connected_sinks_start(connected: Seq<bool>, k: int)
    requires
        0 <= k <= connected.len(),
        k <= usize::MAX,
    ensures
        forall|i: usize|
            #[trigger] connected_sinks(connected, k).contains(i) <==> i < k && connected[i as int],
        forall|p: int, q: int|
            0 <= p < q < connected_sinks(connected, k).len() ==> connected_sinks(connected, k)[p]
                < connected_sinks(connected, k)[q],
    decreases k,
{
    if k > 0 {
        exactly_the_connected_sinks_start(connected, k - 1);
        let before = connected_sinks(connected, k - 1);
        let now = connected_sinks(connected, k);
        assert forall|p: int| 0 <= p < before.len() implies #[trigger] before[p] < k - 1 by {
            assert(before.contains(before[p]));
        }
        if connected[k - 1] {
            assert(now.last() == k - 1);
            assert forall|i: usize| #[trigger] now.contains(i) <==> i < k && connected[i as int] by {
                if before.contains(i) {
                    let p = choose|p: int| 0 <= p < before.len() && before[p] == i;
                    assert(now[p] == i);
                }
                if i == k - 1 {
                    assert(now[now.len() - 1] == i);
                }
                if now.contains(i) {
                    let p = choose|p: int| 0 <= p < now.len() && now[p] == i;
                    if p < before.len() {
                        assert(before[p] == i);
                    }
                }
            }
        }
    }
}

/// However many updates it goes through, a join never goes back: it gathers before it hands out,
/// so it joins its inputs once at most, and once done it stays done.
pub proof fn a_join_never_goes_back(states: Seq<JoinManyState>, i: int, j: int)
    requires
        forall|k: int|
            0 < k < states.len() ==> may_follow(states[k - 1], #[trigger] states[k]),
        0 <= i <= j < states.len(),
    ensures
        progress(states[i]) <= progress(states[j]),
        states[i] == JoinManyState::Done ==> states[j] == JoinManyState::Done,
        states[j] is Sink ==> states[j] == states[i],
    decreases j,
{
    if i < j {
        a_join_never_goes_back(states, i, j - 1);
        assert(may_follow(states[j - 1], states[j]));
    }
}

/// One update of a join: where it stood before and after it, and the ports.
pub ghost struct Step {
    pub before: JoinManyState,
    pub after: JoinManyState,
    pub recv: Seq<PortState>,
    pub send: Seq<PortState>,
    pub recv_after: Seq<PortState>,
    pub send_after: Seq<PortState>,
    pub rest: Delegate,
}

/// An update goes as it should: it begins, joins where that is due, and settles the ports.
pub open spec fn is_step(step: Step) -> bool {
    let state = begun(step.before, step.send);
    &&& step.send.len() == 1
    &&& due(state, step.recv) == Update::Settle ==> step.after == state
    &&& may_follow(state, step.after)
    &&& ports_settled(
        step.after,
        step.recv,
        step.send,
        step.recv_after,
        step.send_after,
        step.rest,
    )
}

/// The update begins where the one before it has ended.
pub open spec fn goes_on(steps: Seq<Step>, k: int) -> bool {
    steps[k].before == steps[k - 1].after
}

/// Updates follow each other.
pub open spec fn are_steps(steps: Seq<Step>) -> bool {
    &&& forall|k: int| 0 <= k < steps.len() ==> is_step(#[trigger] steps[k])
    &&& forall|k: int| 0 < k < steps.len() ==> #[trigger] goes_on(steps, k)
}

/// Done is done: from the update on at which the receiver of the result is done, every update
/// closes all ports and leaves nothing to others, whatever the ports held, and nothing is joined.
pub proof fn a_join_whose_receiver_is_done_stays_done(steps: Seq<Step>, i: int, j: int)
    requires
        are_steps(steps),
        0 <= i <= j < steps.len(),
        steps[i].send[0] == PortState::Done,
    ensures
        due(begun(steps[j].before, steps[j].send), steps[j].recv) == Update::Settle,
        steps[j].after == JoinManyState::Done,
        steps[j].recv_after.len() == steps[j].recv.len(),
        all_done(steps[j].recv_after),
        steps[j].send_after == seq![PortState::Done],
        steps[j].rest == Delegate::Nobody,
    decreases j,
{
    assert(is_step(steps[j]));
    if i < j {
        a_join_whose_receiver_is_done_stays_done(steps, i, j - 1);
        assert(goes_on(steps, j));
    }
}

/// What an update does. A join starts to hand out its result only from the update on at which every
/// input is done, and only where its receiver is not. Until then the update leaves the ports to the
/// sinks. A join that hands out takes no input any more; one that is done, and one whose receiver
/// is done, closes all ports.
pub proof fn what_an_update_does(step: Step)
    requires
        is_step(step),
    ensures
        step.recv_after.len() == step.recv.len(),
        step.send[0] == PortState::Done ==> step.after == JoinManyState::Done,
        step.before == JoinManyState::Done ==> step.after == JoinManyState::Done,
        step.after == JoinManyState::Done ==> step.before == JoinManyState::Done || step.send[0]
            == PortState::Done || step.before is Sink && forall|i: int|
            0 <= i < step.recv.len() ==> step.recv[i] == PortState::Done,
        step.before == JoinManyState::Source && step.send[0] != PortState::Done ==> step.after
            == JoinManyState::Source,
        step.after is Sink ==> step.after == step.before,
        step.before is Sink && step.after == JoinManyState::Source ==> step.send[0]
            != PortState::Done && forall|i: int|
            0 <= i < step.recv.len() ==> step.recv[i] == PortState::Done,
        step.after is Sink ==> step.rest == Delegate::Sinks && step.recv_after == step.recv
            && step.send_after == step.send,
        step.after == JoinManyState::Source ==> step.rest == Delegate::Source && step.send_after
            == step.send,
        step.after == JoinManyState::Done ==> step.rest == Delegate::Nobody && step.send_after
            == seq![PortState::Done],
        step.after !is Sink ==> forall|i: int|
            0 <= i < step.recv_after.len() ==> step.recv_after[i] == PortState::Done,
{
}

/// When an update asks for the join: exactly where the join still gathers, its receiver is not done
/// and every receiving port is.
pub proof fn when_the_join_is_due(before: JoinManyState, recv: Seq<PortState>, send: Seq<PortState>)
    requires
        send.len() == 1,
    ensures
        due(begun(before, send), recv) == Update::Join <==> before is Sink && send[0]
            != PortState::Done && (forall|i: int|
            0 <= i < recv.len() ==> recv[i] == PortState::Done),
{
}

/// A join that hands out its result has had an update at which every input was done.
pub proof fn no_result_before_the_inputs_are_done(steps: Seq<Step>, j: int) -> (i: int)
    requires
        are_steps(steps),
        0 <= j < steps.len(),
        steps[0].before is Sink,
        steps[j].after == JoinManyState::Source,
    ensures
        0 <= i <= j,
        steps[i].before == steps[0].before,
        forall|p: int| 0 <= p < steps[i].recv.len() ==> steps[i].recv[p] == PortState::Done,
        forall|t: int| 0 <= t <= j ==> (#[trigger] steps[t]).send[0] != PortState::Done,
    decreases j,
{
    assert(is_step(steps[j]));
    what_an_update_does(steps[j]);
    if steps[j].before is Sink {
        lemma_still_gathering(steps, j);
        j
    } else {
        assert(goes_on(steps, j));
        no_result_before_the_inputs_are_done(steps, j - 1)
    }
}

/// A join that still gathers has gathered all along.
proof fn lemma_still_gathering(steps: Seq<Step>, j: int)
    requires
        are_steps(steps),
        0 <= j < steps.len(),
        steps[0].before is Sink,
        steps[j].before is Sink,
        steps[j].send[0] != PortState::Done,
    ensures
        steps[j].before == steps[0].before,
        forall|t: int| 0 <= t <= j ==> (#[trigger] steps[t]).send[0] != PortState::Done,
    decreases j,
{
    if j > 0 {
        assert(goes_on(steps, j));
        assert(is_step(steps[j - 1]));
        what_an_update_does(steps[j - 1]);
        lemma_still_gathering(steps, j - 1);
    }
}

/// A join of several inputs in a plan.
pub struct JoinManyExec<E> {
    pub inputs: Vec<E>,
    pub on: Vec<String>,
}

/// What a join in a plan has to do next.
#[derive(Debug, Clone, Copy, PartialEq, Eq, Structural)]
pub enum ExecStep {
    /// Run the input of this number and keep its frame.
    Run(usize),
    /// Join the frames.
    Join,
}

/// What a join of so many inputs has to do next, when the first `done` of them have run.
pub open spec fn step_after(inputs: nat, done: nat) -> ExecStep {
    if done < inputs {
        ExecStep::Run(done as usize)
    } else {
        ExecStep::Join
    }
}

/// Every input runs once, one after the other, and the frames are joined only when all have.
pub proof fn inputs_run_in_turn(inputs: nat, steps: Seq<ExecStep>)
    requires
        inputs <= usize::MAX,
        forall|i: int| 0 <= i < steps.len() ==> #[trigger] steps[i] == step_after(inputs, i as nat),
    ensures
        forall|i: int|
            0 <= i < steps.len() ==> (#[trigger] steps[i] == ExecStep::Join <==> inputs <= i),
        forall|i: int|
            0 <= i < steps.len() && i < inputs ==> #[trigger] steps[i] == ExecStep::Run(i as usize),
{
}

impl<E> JoinManyExec<E> {
    pub fn new(inputs: Vec<E>, on: Vec<String>) -> (r: Self)
        ensures
            r == (JoinManyExec { inputs, on }),
    {
        JoinManyExec { inputs, on }
    }

    /// What to do next, when the first `done` inputs have run: the inputs run one after the other,
    /// and the frames are joined when all have.
    pub fn next_step(&self, done: usize) -> (r: ExecStep)
        ensures
            r == if done < self.inputs@.len() {
                ExecStep::Run(done)
            } else {
                ExecStep::Join
            },
            r == step_after(self.inputs@.len(), done as nat),
    {
        if done < self.inputs.len() {
            ExecStep::Run(done)
        } else {
            ExecStep::Join
        }
    }

    /// Joins the frames of the inputs. Frames that pass the checks must hold data types that are
    /// known in full, and values of these types.
    pub fn join(&self, dfs: &[DataFrame]) -> (joined: Result<DataFrame, JoinManyError>)
        requires
            dfs@.len() == self.inputs@.len(),
            accepted(dfs@, text(self.on@)) ==> all_sound(dfs@),
        ensures
            joins_to(dfs@, text(self.on@), joined),
            joined is Ok ==> frame_sound(joined->Ok_0),
    {
        join_many_sorted(dfs, self.on.as_slice())
    }
}

} // verus!
