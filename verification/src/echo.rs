//! The echo workload: every `echo` comes back as an `echo_ok` with the same text.

use crate::message::{Event, Init, Message, FIRST_ID};
use crate::node::{idle, sent, Node, Standing, StepError, Timer};
use vstd::prelude::*;

verus! {

/// What this workload's messages carry.
#[derive(Debug, Clone)]
pub enum Payload {
    Echo { echo: String },
    EchoOk { echo: String },
}

/// The model of a node's state.
pub struct EchoState {
    /// The node's own name.
    pub node: Seq<char>,
    /// The id of the next outgoing message.
    pub id: usize,
}

/// What a step does, event by event: an `echo` is answered with its own
/// text; nothing else has any effect.
pub open spec fn steps(
    pre: EchoState,
    input: Event<Payload>,
    post: EchoState,
    r: Result<Seq<Message<Payload>>, StepError>,
) -> bool {
    match input {
        Event::Message(m) => match m.body.payload {
            Payload::Echo { echo } => if pre.id == usize::MAX {
                r == Err::<Seq<Message<Payload>>, StepError>(StepError::IdsExhausted) && post
                    == pre
            } else {
                &&& r matches Ok(out)
                &&& out.len() == 1
                &&& out[0].answers(&m)
                &&& out[0].body.id == Some(pre.id)
                &&& out[0].body.payload matches Payload::EchoOk { echo: back }
                &&& back@ == echo@
                &&& post == EchoState { id: (pre.id + 1) as usize, ..pre }
            },
            Payload::EchoOk { .. } => idle(pre, post, r),
        },
        Event::InjectedPayload(_) => idle(pre, post, r),
        Event::EOF => idle(pre, post, r),
    }
}

/// A node of the echo workload.
pub struct EchoNode {
    node: String,
    id: usize,
}

impl View for EchoNode {
    type V = EchoState;

    closed spec fn view(&self) -> EchoState {
        EchoState { node: self.node@, id: self.id }
    }
}

/// What the runtime's laws see of a state.
pub open spec fn standing_of(s: EchoState) -> Standing {
    Standing { name: s.node, next_id: s.id, owed: Set::empty() }
}

impl Node<Payload> for EchoNode {
    open spec fn wf(&self) -> bool {
        true
    }

    open spec fn standing(&self) -> Standing {
        standing_of(self@)
    }

    open spec fn stepped(
        pre: Self,
        input: Event<Payload>,
        post: Self,
        r: Result<Seq<Message<Payload>>, StepError>,
    ) -> bool {
        steps(pre@, input, post@, r)
    }

    /// Every init record is taken.
    open spec fn refusal(init: Init) -> Option<StepError> {
        None
    }

    open spec fn built_from(&self, init: Init) -> bool {
        self@ == (EchoState { node: init.node_id@, id: FIRST_ID })
    }

    /// Never fails.
    fn from_init(init: Init) -> (r: Result<Self, StepError>)
        ensures
            r matches Ok(node) && node@ == (EchoState { node: init.node_id@, id: FIRST_ID }),
    {
        Ok(EchoNode { node: init.node_id, id: FIRST_ID })
    }

    /// No timers.
    fn timers() -> (t: Vec<Timer<()>>)
        ensures
            t@.len() == 0,
    {
        Vec::new()
    }

    /// Handles one event as [`steps`] says.
    fn step(&mut self, input: Event<Payload>) -> (r: Result<Vec<Message<Payload>>, StepError>)
        ensures
            steps(old(self)@, input, final(self)@, sent(r)),
    {
        match &input {
            Event::Message(m) => match &m.body.payload {
                Payload::Echo { echo } => {
                    if self.id == usize::MAX {
                        return Err(StepError::IdsExhausted);
                    }
                    let reply = m.construct_reply(
                        Payload::EchoOk { echo: echo.clone() },
                        Some(&mut self.id),
                    );
                    let mut out = Vec::new();
                    out.push(reply);
                    Ok(out)
                },
                Payload::EchoOk { .. } => Ok(Vec::new()),
            },
            Event::InjectedPayload(_) => Ok(Vec::new()),
            Event::EOF => Ok(Vec::new()),
        }
    }
}

/// A node of the echo workload never owes an answer: every reply it sends
/// answers the message of that very step, so its replies are correlated
/// whomever the messages it is handed are addressed to.
pub proof fn answers_at_once()
    ensures
        crate::node::owes_nothing::<Payload, (), EchoNode>(),
{
}

} // verus!
