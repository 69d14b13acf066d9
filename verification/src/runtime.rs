//! Driving a node: the handshake that opens a run, then one event after the
//! other until the input ends or the node cannot go on.
//!
//! Reading the input, keeping the timers and writing the output is the
//! caller's part; what happens to each event, and when the run is over, is
//! decided here.

use crate::message::{handshake, Event, Init, InitPayload, Message, FIRST_ID, INIT_REPLY_ID};
use crate::node::{
    is_run, keeps_order, outgoing_ids_increase, owes_nothing, replies_answer_their_event,
    replies_are_correlated, sent, Node, StepError,
};
use vstd::prelude::*;

verus! {

/// Why a run could not be opened.
#[derive(Debug, Clone, Copy, PartialEq, Eq)]
pub enum OpenError {
    /// The first message was not an init message.
    NotInit,
    /// The node could not be built from the init record.
    Node(StepError),
}

/// A run in progress after the handshake: the node, and whether the run is
/// over.
pub struct Session<N> {
    node: N,
    over: bool,
}

impl<N> Session<N> {
    /// The node as it stands.
    pub closed spec fn node(&self) -> N {
        self.node
    }

    /// The run is over: the input has ended or the node has failed.
    pub closed spec fn is_over(&self) -> bool {
        self.over
    }

    /// Opens a run after the handshake: builds the node from the init
    /// record. Fails exactly where the workload refuses the record, with the
    /// workload's error; otherwise the run is open, and its node is as the
    /// workload builds it from the record.
    pub fn open<P, IP>(init: Init) -> (r: Result<Self, StepError>) where N: Node<P, IP>
        ensures
            match r {
                Ok(session) => {
                    &&& N::refusal(init) is None
                    &&& !session.is_over()
                    &&& session.node().built_from(init)
                    &&& session.node().wf()
                    &&& session.node().standing().name == init.node_id@
                    &&& session.node().standing().next_id == FIRST_ID
                    &&& session.node().standing().owed == Set::<(Seq<char>, usize)>::empty()
                },
                Err(e) => N::refusal(init) == Some(e),
            },
    {
        match N::from_init(init) {
            Ok(node) => Ok(Session { node, over: false }),
            Err(e) => Err(e),
        }
    }

    /// Whether the run is over.
    pub fn over(&self) -> (b: bool)
        ensures
            b == self.is_over(),
    {
        self.over
    }

    /// Hands the node the next event and returns what the node's step
    /// returns for it. The end of the input is handed to the node like any
    /// other event, and the run is over after it; a failure of the node ends
    /// the run too.
    pub fn feed<P, IP>(&mut self, input: Event<P, IP>) -> (r: Result<
        Vec<Message<P>>,
        StepError,
    >) where N: Node<P, IP>
        requires
            old(self).node().wf(),
            !old(self).is_over(),
        ensures
            final(self).node().wf(),
            N::stepped(old(self).node(), input, final(self).node(), sent(r)),
            final(self).is_over() == (input is EOF || r is Err),
            r matches Ok(out) ==> keeps_order(
                old(self).node().standing(),
                input,
                final(self).node().standing(),
                out@,
            ),
            r is Err ==> final(self).node().standing() == old(self).node().standing(),
    {
        let last = matches!(input, Event::EOF);
        let r = self.node.step(input);
        self.over = last || r.is_err();
        r
    }
}

/// What a run has put on the wire.
pub struct Transcript<P> {
    /// The answer to the init message.
    pub init_ok: Message<InitPayload>,
    /// For each event that the node has handled, in order, the messages it
    /// sent for it.
    pub sent: Vec<Vec<Message<P>>>,
    /// Why the node could not handle the event after these, if it could not.
    pub failure: Option<StepError>,
}

/// The messages sent, step by step.
pub open spec fn sent_view<P>(sent: Seq<Vec<Message<P>>>) -> Seq<Seq<Message<P>>> {
    Seq::new(sent.len(), |i: int| sent[i]@)
}

/// How many of the events a run takes if no step fails: all up to and with
/// the first end of input, or all of them if there is none.
pub open spec fn reach<P, IP>(events: Seq<Event<P, IP>>) -> int
    decreases events.len(),
{
    if events.len() == 0 {
        0
    } else if events[0] is EOF {
        1
    } else {
        1 + reach(events.drop_first())
    }
}

/// Every message carries an id, none of them the id of the handshake, and
/// of two messages the one sent first carries the smaller id.
pub open spec fn ids_ascend<P>(outputs: Seq<Seq<Message<P>>>) -> bool {
    &&& forall|i: int, a: int|
        0 <= i < outputs.len() && 0 <= a < outputs[i].len() ==> ((
        #[trigger] outputs[i][a]).body.id matches Some(x) && x >= FIRST_ID)
    &&& forall|i: int, a: int, j: int, b: int|
        0 <= i <= j < outputs.len() && 0 <= a < outputs[i].len() && 0 <= b < outputs[j].len() && (i
            < j || a < b) ==> (#[trigger] outputs[i][a]).body.id->Some_0 < (
        #[trigger] outputs[j][b]).body.id->Some_0
}

/// Every message that answers something answers a message that came in at
/// its step or before: it carries that message's id, and source and
/// destination are swapped.
pub open spec fn correlated<P, IP>(
    inputs: Seq<Event<P, IP>>,
    outputs: Seq<Seq<Message<P>>>,
) -> bool {
    forall|i: int, a: int|
        0 <= i < outputs.len() && 0 <= a < outputs[i].len() && (
        #[trigger] outputs[i][a]).body.in_reply_to is Some ==> exists|k: int|
            0 <= k <= i && k < inputs.len() && ((#[trigger] inputs[k]) matches Event::Message(
                request,
            ) && outputs[i][a].answers(&request))
}

/// The node went through `states` as it was handed `events` one after the
/// other: step `i` took event `i` and sent `outputs[i]`, and where the run
/// ended in a failure, that is how the step for the event after these
/// failed. The last state is the one the run ended in.
pub open spec fn stepped_through<P, IP, N: Node<P, IP>>(
    states: Seq<N>,
    events: Seq<Event<P, IP>>,
    outputs: Seq<Seq<Message<P>>>,
    failure: Option<StepError>,
) -> bool {
    &&& outputs.len() <= events.len()
    &&& states.len() == outputs.len() + if failure is Some {
        2int
    } else {
        1int
    }
    &&& forall|i: int|
        0 <= i < outputs.len() ==> N::stepped(
            #[trigger] states[i],
            events[i],
            states[i + 1],
            Ok(outputs[i]),
        )
    &&& failure matches Some(e) ==> outputs.len() < events.len() && N::stepped(
        states[outputs.len() as int],
        events[outputs.len() as int],
        states[outputs.len() as int + 1],
        Err(e),
    )
}

/// Every message among the events is addressed to `name`.
pub open spec fn addressed_to<P, IP>(inputs: Seq<Event<P, IP>>, name: Seq<char>) -> bool {
    forall|n: int|
        0 <= n < inputs.len() ==> ((#[trigger] inputs[n]) matches Event::Message(m) ==> m.dest@
            == name)
}

/// A run takes at least one event, if there is one, and no more than all.
proof fn lemma_reach_bounds<P, IP>(events: Seq<Event<P, IP>>)
    ensures
        reach(events) <= events.len(),
        events.len() > 0 ==> reach(events) >= 1,
        events.len() == 0 ==> reach(events) == 0,
    decreases events.len(),
{
    if events.len() > 0 && !(events[0] is EOF) {
        lemma_reach_bounds(events.drop_first());
    }
}

/// Along a run the events not yet taken reach as far as all of them.
proof fn lemma_reach<P, IP>(events: Seq<Event<P, IP>>, i: int)
    requires
        0 <= i <= events.len(),
        forall|n: int| 0 <= n < i ==> !((#[trigger] events[n]) is EOF),
    ensures
        reach(events) == i + reach(events.skip(i)),
    decreases i,
{
    if i == 0 {
        assert(events.skip(0) =~= events);
    } else {
        lemma_reach(events, i - 1);
        let rest = events.skip(i - 1);
        assert(rest[0] == events[i - 1]);
        assert(rest.drop_first() =~= events.skip(i));
    }
}

/// A whole run on input that is all there: opens the run with `first` and
/// hands the node the events in order, each once, up to and with the first
/// end of input, or until a step fails. What was sent for event `i` is what
/// the node's step returned for it, in the state that the steps before it
/// left; the failure, if any, is the error of the step after these.
pub fn run<N, P, IP>(first: Message<InitPayload>, events: Vec<Event<P, IP>>) -> (r: Result<
    Transcript<P>,
    OpenError,
>) where N: Node<P, IP>
    ensures
        match r {
            Ok(t) => {
                &&& first.body.payload matches InitPayload::Init(init)
                &&& N::refusal(init) is None
                &&& t.init_ok.answers(&first)
                &&& t.init_ok.body.id == Some(INIT_REPLY_ID)
                &&& t.init_ok.body.payload == InitPayload::InitOk
                &&& t.sent@.len() <= reach(events@)
                &&& t.failure is None <==> t.sent@.len() == reach(events@)
                &&& exists|states: Seq<N>|
                    states.len() > 0 && states[0].built_from(init) && #[trigger] stepped_through(
                        states,
                        events@,
                        sent_view(t.sent@),
                        t.failure,
                    )
                &&& ids_ascend(sent_view(t.sent@))
                &&& addressed_to(events@, init.node_id@) || owes_nothing::<P, IP, N>()
                    ==> correlated(events@, sent_view(t.sent@))
            },
            Err(OpenError::NotInit) => first.body.payload is InitOk,
            Err(OpenError::Node(e)) => first.body.payload matches InitPayload::Init(init)
                && N::refusal(init) == Some(e),
        },
{
    let ghost name = first.body.payload->Init_0.node_id@;
    let (init, init_ok) = match handshake(first) {
        Ok(shaken) => shaken,
        Err(_) => { return Err(OpenError::NotInit); },
    };
    let ghost record = init;
    let mut session = match Session::<N>::open::<P, IP>(init) {
        Ok(session) => session,
        Err(e) => { return Err(OpenError::Node(e)); },
    };
    let ghost mut failed: N = session.node();
    let mut events = events;
    let ghost all = events@;
    let mut sent: Vec<Vec<Message<P>>> = Vec::new();
    let mut failure: Option<StepError> = None;
    let ghost mut states: Seq<N> = seq![session.node()];
    let n = events.len();
    let mut rest: Vec<Event<P, IP>> = Vec::new();
    // The events are taken out from the end, so turn the list around first.
    while events.len() > 0
        invariant
            events@.len() + rest@.len() == all.len(),
            forall|k: int| 0 <= k < events@.len() ==> events@[k] == all[k],
            forall|k: int| 0 <= k < rest@.len() ==> rest@[k] == all[all.len() - 1 - k],
        decreases events@.len(),
    {
        let e = events.pop().unwrap();
        rest.push(e);
    }
    let mut i: usize = 0;
    proof {
        assert(sent_view(sent@) =~= Seq::<Seq<Message<P>>>::empty());
        assert(all.take(0) =~= Seq::<Event<P, IP>>::empty());
        assert(all.skip(0) =~= all);
    }
    while !session.over() && rest.len() > 0
        invariant
            n == all.len(),
            i + rest@.len() == n,
            forall|k: int| 0 <= k < rest@.len() ==> rest@[k] == all[n - 1 - k],
            sent@.len() <= i,
            session.node().wf(),
            states.len() == sent@.len() + 1,
            failure is None ==> states.last() == session.node(),
            states[0].standing().name == name,
            states[0].standing().next_id == FIRST_ID,
            states[0].standing().owed == Set::<(Seq<char>, usize)>::empty(),
            is_run(states, all.take(sent@.len() as int), sent_view(sent@)),
            states[0].built_from(record),
            forall|k: int|
                0 <= k < sent@.len() ==> N::stepped(
                    #[trigger] states[k],
                    all[k],
                    states[k + 1],
                    Ok(sent_view(sent@)[k]),
                ),
            failure matches Some(e) ==> sent@.len() < all.len() && N::stepped(
                states.last(),
                all[sent@.len() as int],
                failed,
                Err(e),
            ),
            failure is None ==> sent@.len() == i,
            failure is Some ==> session.is_over() && sent@.len() < reach(all),
            forall|k: int| 0 <= k < i - 1 ==> !((#[trigger] all[k]) is EOF),
            failure is None && i > 0 ==> (session.is_over() <==> all[i - 1] is EOF),
            failure is None && i == 0 ==> !session.is_over(),
        decreases rest@.len(),
    {
        let input = rest.pop().unwrap();
        proof {
            assert(input == all[i as int]);
            lemma_reach(all, i as int);
            lemma_reach_bounds(all.skip(i as int));
        }
        let ghost inputs = all.take(sent@.len() as int);
        let ghost outputs = sent_view(sent@);
        let ghost before = states;
        match session.feed(input) {
            Ok(out) => {
                proof {
                    let more_inputs = all.take(sent@.len() as int + 1);
                    let more_outputs = outputs.push(out@);
                    let more_states = states.push(session.node());
                    assert(more_inputs =~= inputs.push(all[i as int]));
                    assert forall|k: int| 0 <= k < more_inputs.len() implies keeps_order(
                        (#[trigger] more_states[k]).standing(),
                        more_inputs[k],
                        more_states[k + 1].standing(),
                        more_outputs[k],
                    ) by {
                        if k < inputs.len() {
                            assert(keeps_order(
                                states[k].standing(),
                                inputs[k],
                                states[k + 1].standing(),
                                outputs[k],
                            ));
                        }
                    }
                    states = more_states;
                }
                sent.push(out);
                proof {
                    assert(sent_view(sent@) =~= outputs.push(out@));
                    assert forall|k: int| 0 <= k < sent@.len() implies N::stepped(
                        #[trigger] states[k],
                        all[k],
                        states[k + 1],
                        Ok(sent_view(sent@)[k]),
                    ) by {
                        if k < outputs.len() {
                            assert(states[k] == before[k] && states[k + 1] == before[k + 1]);
                            assert(sent_view(sent@)[k] == outputs[k]);
                        }
                    }
                }
            },
            Err(e) => {
                failure = Some(e);
                proof {
                    failed = session.node();
                }
            },
        }
        i = i + 1;
    }
    proof {
        let inputs = all.take(sent@.len() as int);
        let outputs = sent_view(sent@);
        if failure is None {
            if i > 0 && all[i - 1] is EOF {
                lemma_reach(all, i - 1);
                assert(all.skip(i - 1)[0] == all[i - 1]);
            } else {
                lemma_reach(all, i as int);
                lemma_reach_bounds(all.skip(i as int));
            }
        }
        assert forall|x: int, a: int| 0 <= x < outputs.len() && 0 <= a < outputs[x].len() implies ((
        #[trigger] outputs[x][a]).body.id matches Some(v) && v >= FIRST_ID) by {
            crate::node::lemma_counter_grows(states, inputs, outputs, 0, x);
            assert(keeps_order(
                states[x].standing(),
                inputs[x],
                states[x + 1].standing(),
                outputs[x],
            ));
        }
        assert forall|x: int, a: int, y: int, b: int|
            0 <= x <= y < outputs.len() && 0 <= a < outputs[x].len() && 0 <= b < outputs[y].len()
                && (x < y || a < b) implies (#[trigger] outputs[x][a]).body.id->Some_0 < (
        #[trigger] outputs[y][b]).body.id->Some_0 by {
            outgoing_ids_increase(states, inputs, outputs, x, a, y, b);
        }
        let whole = if failure is Some {
            states.push(failed)
        } else {
            states
        };
        assert forall|k: int| 0 <= k < outputs.len() implies N::stepped(
            #[trigger] whole[k],
            all[k],
            whole[k + 1],
            Ok(outputs[k]),
        ) by {
            assert(whole[k] == states[k] && whole[k + 1] == states[k + 1]);
        }
        assert(stepped_through(whole, all, outputs, failure));
        assert(whole[0] == states[0]);
        if owes_nothing::<P, IP, N>() {
            assert forall|x: int, a: int|
                0 <= x < outputs.len() && 0 <= a < outputs[x].len() && (
                #[trigger] outputs[x][a]).body.in_reply_to is Some implies exists|k: int|
                0 <= k <= x && k < all.len() && ((#[trigger] all[k]) matches Event::Message(
                    request,
                ) && outputs[x][a].answers(&request)) by {
                assert(states[x].standing().owed == Set::<(Seq<char>, usize)>::empty());
                replies_answer_their_event(states, inputs, outputs, x, a);
                assert(inputs[x] == all[x]);
            }
        } else if addressed_to(all, name) {
            assert forall|x: int, a: int|
                0 <= x < outputs.len() && 0 <= a < outputs[x].len() && (
                #[trigger] outputs[x][a]).body.in_reply_to is Some implies exists|k: int|
                0 <= k <= x && k < all.len() && ((#[trigger] all[k]) matches Event::Message(
                    request,
                ) && outputs[x][a].answers(&request)) by {
                assert forall|m: int| 0 <= m < inputs.len() implies ((
                #[trigger] inputs[m]) matches Event::Message(q) ==> q.dest@ == name) by {
                    assert(inputs[m] == all[m]);
                }
                let k = replies_are_correlated(states, inputs, outputs, name, x, a);
                assert(inputs[k] == all[k]);
            }
        }
    }
    Ok(Transcript { init_ok, sent, failure })
}

} // verus!
