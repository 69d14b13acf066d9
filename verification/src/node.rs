//! The contract between the runtime and a workload, and what holds of every
//! run of a node that keeps it.
//!
//! A workload is a state machine: it is built from the init record and then
//! handed one event at a time. For each event it returns the messages to put
//! on the wire, in order. Reading and writing the wire is the caller's part.

use crate::message::{Event, Init, Message, FIRST_ID};
use vstd::prelude::*;

verus! {

/// Why a node could not go on. Each of these ends the run.
#[derive(Debug, Clone, Copy, PartialEq, Eq)]
pub enum StepError {
    /// The counter of outgoing ids cannot move past the messages to send.
    IdsExhausted,
    /// A topology message has no entry for this node.
    NoTopology,
    /// A counter or an offset would leave the range of `usize`.
    Overflow,
    /// A reply lacks the `in_reply_to` that tells what it answers.
    NoInReplyTo,
    /// The pattern for a store's error text could not be compiled.
    Pattern,
}

/// A request for an injected event: the node wants `event` handed to it
/// every `every_ms` milliseconds.
pub struct Timer<InjectedPayload> {
    pub every_ms: u64,
    pub event: InjectedPayload,
}

/// The outcome of a step with the list of messages taken as a sequence.
pub open spec fn sent<P>(r: Result<Vec<Message<P>>, StepError>) -> Result<
    Seq<Message<P>>,
    StepError,
> {
    match r {
        Ok(out) => Ok(out@),
        Err(e) => Err(e),
    }
}

/// The step changed nothing and sent nothing.
pub open spec fn idle<S, P>(pre: S, post: S, r: Result<Seq<Message<P>>, StepError>) -> bool {
    post == pre && r == Ok::<Seq<Message<P>>, StepError>(Seq::empty())
}

/// The messages `out` carry the ids `first`, `first + 1`, ... in this order.
pub open spec fn numbered_from<P>(out: Seq<Message<P>>, first: int) -> bool {
    forall|i: int| 0 <= i < out.len() ==> (#[trigger] out[i]).body.id == Some((first + i) as usize)
}

/// What the runtime's laws speak of in a node's state.
pub struct Standing {
    /// The name under which the node sends.
    pub name: Seq<char>,
    /// The id that the next outgoing message will carry.
    pub next_id: usize,
    /// The requests taken that will be answered in a later step, each as the
    /// requester's name and the request's id.
    pub owed: Set<(Seq<char>, usize)>,
}

/// `reply` answers the message that `input` delivers.
pub open spec fn answers_input<P, IP>(reply: Message<P>, input: Event<P, IP>) -> bool {
    input matches Event::Message(request) && reply.answers(&request)
}

/// `reply` goes back over the node that `input` was addressed to, to a
/// requester that was still owed an answer.
pub open spec fn answers_owed<P, IP>(
    reply: Message<P>,
    input: Event<P, IP>,
    owed: Set<(Seq<char>, usize)>,
) -> bool {
    &&& input matches Event::Message(trigger)
    &&& reply.src@ == trigger.dest@
    &&& reply.body.in_reply_to matches Some(x)
    &&& owed.contains((reply.dest@, x))
}

/// What every step of every workload keeps: the node's name stays; the
/// messages sent carry consecutive ids, starting with the one that was next,
/// and the counter moves past them; a message that answers something answers
/// the input or a request recorded earlier; and a request is recorded as owed
/// only when it is the input.
pub open spec fn keeps_order<P, IP>(
    pre: Standing,
    input: Event<P, IP>,
    post: Standing,
    out: Seq<Message<P>>,
) -> bool {
    &&& post.name == pre.name
    &&& post.next_id == pre.next_id + out.len()
    &&& numbered_from(out, pre.next_id as int)
    &&& forall|i: int|
        0 <= i < out.len() && (#[trigger] out[i]).body.in_reply_to is Some ==> answers_input(
            out[i],
            input,
        ) || answers_owed(out[i], input, pre.owed)
    &&& forall|s: Seq<char>, x: usize| #[trigger]
        post.owed.contains((s, x)) ==> pre.owed.contains((s, x)) || (input matches Event::Message(
            request,
        ) && request.src@ == s && request.body.id == Some(x))
}

/// A workload that the runtime can drive.
pub trait Node<Payload, InjectedPayload = ()>: Sized {
    /// The node's internal invariant.
    spec fn wf(&self) -> bool;

    /// The node's name, its counter of outgoing ids and the answers it owes.
    spec fn standing(&self) -> Standing;

    /// The error with which a node of this workload cannot be built from
    /// `init`, if it cannot.
    spec fn refusal(init: Init) -> Option<StepError>;

    /// The node is as this workload builds it from `init`.
    spec fn built_from(&self, init: Init) -> bool;

    /// Builds the node from the init record. Fails exactly where the workload
    /// refuses the record, with the error of [`Node::refusal`].
    fn from_init(init: Init) -> (r: Result<Self, StepError>)
        ensures
            match r {
                Ok(node) => {
                    &&& Self::refusal(init) is None
                    &&& node.built_from(init)
                    &&& node.wf()
                    &&& node.standing().name == init.node_id@
                    &&& node.standing().next_id == FIRST_ID
                    &&& node.standing().owed == Set::<(Seq<char>, usize)>::empty()
                },
                Err(e) => Self::refusal(init) == Some(e),
            },
    ;

    /// The injected events this workload asks for.
    fn timers() -> Vec<Timer<InjectedPayload>>;

    /// What a step of this workload does: handed `input` in the state `pre`,
    /// the node comes to the state `post` with the outcome `r`.
    spec fn stepped(
        pre: Self,
        input: Event<Payload, InjectedPayload>,
        post: Self,
        r: Result<Seq<Message<Payload>>, StepError>,
    ) -> bool;

    /// Takes one event and returns the messages to send, in order, as
    /// [`Node::stepped`] says.
    fn step(&mut self, input: Event<Payload, InjectedPayload>) -> (r: Result<
        Vec<Message<Payload>>,
        StepError,
    >)
        requires
            old(self).wf(),
        ensures
            final(self).wf(),
            Self::stepped(*old(self), input, *final(self), sent(r)),
            r matches Ok(out) ==> keeps_order(
                old(self).standing(),
                input,
                final(self).standing(),
                out@,
            ),
            r is Err ==> final(self).standing() == old(self).standing(),
    ;
}

/// A run of a node: the states it went through, the events it was handed and
/// what it sent for each, every step keeping [`keeps_order`].
pub open spec fn is_run<P, IP, N: Node<P, IP>>(
    states: Seq<N>,
    inputs: Seq<Event<P, IP>>,
    outputs: Seq<Seq<Message<P>>>,
) -> bool {
    &&& states.len() == inputs.len() + 1
    &&& outputs.len() == inputs.len()
    &&& forall|i: int|
        0 <= i < inputs.len() ==> keeps_order(
            (#[trigger] states[i]).standing(),
            inputs[i],
            states[i + 1].standing(),
            outputs[i],
        )
}

/// Along a run the counter of outgoing ids never goes back.
pub proof fn lemma_counter_grows<P, IP, N: Node<P, IP>>(
    states: Seq<N>,
    inputs: Seq<Event<P, IP>>,
    outputs: Seq<Seq<Message<P>>>,
    i: int,
    j: int,
)
    requires
        is_run(states, inputs, outputs),
        0 <= i <= j <= inputs.len(),
    ensures
        states[i].standing().next_id <= states[j].standing().next_id,
    decreases j - i,
{
    if i < j {
        lemma_counter_grows(states, inputs, outputs, i, j - 1);
        assert(keeps_order(
            states[j - 1].standing(),
            inputs[j - 1],
            states[j - 1 + 1].standing(),
            outputs[j - 1],
        ));
    }
}

/// Outgoing ids are strictly increasing over a whole run: of two messages
/// sent, the one sent first carries the smaller id. The first is the message
/// at position `a` of step `i`, the second the one at position `b` of step `j`.
pub proof fn outgoing_ids_increase<P, IP, N: Node<P, IP>>(
    states: Seq<N>,
    inputs: Seq<Event<P, IP>>,
    outputs: Seq<Seq<Message<P>>>,
    i: int,
    a: int,
    j: int,
    b: int,
)
    requires
        is_run(states, inputs, outputs),
        0 <= i <= j < inputs.len(),
        0 <= a < outputs[i].len(),
        0 <= b < outputs[j].len(),
        i < j || a < b,
    ensures
        outputs[i][a].body.id is Some,
        outputs[j][b].body.id is Some,
        outputs[i][a].body.id->Some_0 < outputs[j][b].body.id->Some_0,
{
    assert(keeps_order(states[i].standing(), inputs[i], states[i + 1].standing(), outputs[i]));
    assert(keeps_order(states[j].standing(), inputs[j], states[j + 1].standing(), outputs[j]));
    assert(outputs[i][a].body.id == Some((states[i].standing().next_id + a) as usize));
    assert(outputs[j][b].body.id == Some((states[j].standing().next_id + b) as usize));
    if i < j {
        lemma_counter_grows(states, inputs, outputs, i + 1, j);
    }
}

/// Every request that a node of a run still owes an answer came in earlier
/// in that run.
pub proof fn lemma_owed_came_in<P, IP, N: Node<P, IP>>(
    states: Seq<N>,
    inputs: Seq<Event<P, IP>>,
    outputs: Seq<Seq<Message<P>>>,
    i: int,
    s: Seq<char>,
    x: usize,
) -> (k: int)
    requires
        is_run(states, inputs, outputs),
        states[0].standing().owed == Set::<(Seq<char>, usize)>::empty(),
        0 <= i <= inputs.len(),
        states[i].standing().owed.contains((s, x)),
    ensures
        0 <= k < i,
        inputs[k] matches Event::Message(request) && request.src@ == s && request.body.id == Some(
            x,
        ),
    decreases i,
{
    if i == 0 {
        0
    } else {
        assert(keeps_order(
            states[i - 1].standing(),
            inputs[i - 1],
            states[i - 1 + 1].standing(),
            outputs[i - 1],
        ));
        if states[i - 1].standing().owed.contains((s, x)) {
            lemma_owed_came_in(states, inputs, outputs, i - 1, s, x)
        } else {
            i - 1
        }
    }
}

/// Replies are correlated: in a run that starts with nothing owed and in
/// which every message is addressed to one and the same name, each message
/// sent with an `in_reply_to` answers a message that came in at that step or
/// before it: it carries that message's id, and source and destination are
/// swapped. The reply is the message at position `a` of step `i`; the result
/// is the step at which the request came in.
pub proof fn replies_are_correlated<P, IP, N: Node<P, IP>>(
    states: Seq<N>,
    inputs: Seq<Event<P, IP>>,
    outputs: Seq<Seq<Message<P>>>,
    me: Seq<char>,
    i: int,
    a: int,
) -> (k: int)
    requires
        is_run(states, inputs, outputs),
        states[0].standing().owed == Set::<(Seq<char>, usize)>::empty(),
        forall|n: int|
            0 <= n < inputs.len() ==> ((#[trigger] inputs[n]) matches Event::Message(m) ==> m.dest@
                == me),
        0 <= i < inputs.len(),
        0 <= a < outputs[i].len(),
        outputs[i][a].body.in_reply_to is Some,
    ensures
        0 <= k <= i,
        inputs[k] matches Event::Message(request) && outputs[i][a].answers(&request),
{
    let reply = outputs[i][a];
    assert(keeps_order(states[i].standing(), inputs[i], states[i + 1].standing(), outputs[i]));
    if answers_input(reply, inputs[i]) {
        i
    } else {
        assert(answers_owed(reply, inputs[i], states[i].standing().owed));
        let x = reply.body.in_reply_to->Some_0;
        let k = lemma_owed_came_in(states, inputs, outputs, i, reply.dest@, x);
        assert(inputs[k] is Message);
        assert(inputs[i] is Message);
        k
    }
}

/// A node of this workload never owes an answer: whatever it answers, it
/// answers at once.
pub open spec fn owes_nothing<P, IP, N: Node<P, IP>>() -> bool {
    forall|node: N| (#[trigger] node.standing()).owed == Set::<(Seq<char>, usize)>::empty()
}

/// A node that owes nothing answers only what it is handed: each message it
/// sends with an `in_reply_to` answers the message of that very step, to
/// whomever that message was addressed. The reply is the message at position
/// `a` of step `i`.
pub proof fn replies_answer_their_event<P, IP, N: Node<P, IP>>(
    states: Seq<N>,
    inputs: Seq<Event<P, IP>>,
    outputs: Seq<Seq<Message<P>>>,
    i: int,
    a: int,
)
    requires
        is_run(states, inputs, outputs),
        states[i].standing().owed == Set::<(Seq<char>, usize)>::empty(),
        0 <= i < inputs.len(),
        0 <= a < outputs[i].len(),
        outputs[i][a].body.in_reply_to is Some,
    ensures
        inputs[i] matches Event::Message(request) && outputs[i][a].answers(&request),
{
    assert(keeps_order(states[i].standing(), inputs[i], states[i + 1].standing(), outputs[i]));
}

} // verus!
