//! The unique-id workload: every `generate` is answered with an id that no
//! other answer of any node carries: the node's name, a hyphen, and the id of
//! the answering message.

use crate::message::{Event, Init, Message, FIRST_ID};
use crate::node::{idle, sent, Node, Standing, StepError, Timer};
use vstd::prelude::*;

verus! {

/// What this workload's messages carry.
#[derive(Debug, Clone)]
pub enum Payload {
    Generate,
    GenerateOk { guid: String },
}

/// The character for the digit `d`.
pub open spec fn digit_char(d: nat) -> char {
    if d == 0 {
        '0'
    } else if d == 1 {
        '1'
    } else if d == 2 {
        '2'
    } else if d == 3 {
        '3'
    } else if d == 4 {
        '4'
    } else if d == 5 {
        '5'
    } else if d == 6 {
        '6'
    } else if d == 7 {
        '7'
    } else if d == 8 {
        '8'
    } else {
        '9'
    }
}

/// The digits that write `n` in base ten, without leading zeros.
pub open spec fn digits(n: nat) -> Seq<char>
    decreases n,
{
    if n < 10 {
        seq![digit_char(n)]
    } else {
        digits(n / 10).push(digit_char(n % 10))
    }
}

/// The id that the node named `node` generates in its message `id`.
pub open spec fn guid_of(node: Seq<char>, id: usize) -> Seq<char> {
    node + seq!['-'] + digits(id as nat)
}

/// The text of one digit.
fn digit_text(d: usize) -> (s: &'static str)
    requires
        d < 10,
    ensures
        s@ == seq![digit_char(d as nat)],
{
    proof {
        reveal_strlit("0");
        reveal_strlit("1");
        reveal_strlit("2");
        reveal_strlit("3");
        reveal_strlit("4");
        reveal_strlit("5");
        reveal_strlit("6");
        reveal_strlit("7");
        reveal_strlit("8");
        reveal_strlit("9");
    }
    let s = if d == 0 {
        "0"
    } else if d == 1 {
        "1"
    } else if d == 2 {
        "2"
    } else if d == 3 {
        "3"
    } else if d == 4 {
        "4"
    } else if d == 5 {
        "5"
    } else if d == 6 {
        "6"
    } else if d == 7 {
        "7"
    } else if d == 8 {
        "8"
    } else {
        "9"
    };
    assert(s@ =~= seq![digit_char(d as nat)]);
    s
}

/// Appends the decimal digits of `n` to `s`.
pub fn append_decimal(s: &mut String, n: usize)
    ensures
        final(s)@ == old(s)@ + digits(n as nat),
    decreases n,
{
    if n >= 10 {
        append_decimal(s, n / 10);
    }
    let ghost before = s@;
    s.append(digit_text(n % 10));
    proof {
        if n >= 10 {
            assert(s@ =~= old(s)@ + digits((n / 10) as nat).push(digit_char((n % 10) as nat)));
        } else {
            assert(s@ =~= old(s)@ + seq![digit_char(n as nat)]);
        }
    }
}

/// The model of a node's state.
pub struct UniqState {
    /// The node's own name.
    pub node: Seq<char>,
    /// The id of the next outgoing message.
    pub id: usize,
}

/// What a step does, event by event: a `generate` is answered with the id
/// made of the node's name and the number of the answer; nothing else has
/// any effect.
pub open spec fn steps(
    pre: UniqState,
    input: Event<Payload>,
    post: UniqState,
    r: Result<Seq<Message<Payload>>, StepError>,
) -> bool {
    match input {
        Event::Message(m) => match m.body.payload {
            Payload::Generate => if pre.id == usize::MAX {
                r == Err::<Seq<Message<Payload>>, StepError>(StepError::IdsExhausted) && post
                    == pre
            } else {
                &&& r matches Ok(out)
                &&& out.len() == 1
                &&& out[0].answers(&m)
                &&& out[0].body.id == Some(pre.id)
                &&& out[0].body.payload matches Payload::GenerateOk { guid }
                &&& guid@ == guid_of(pre.node, pre.id)
                &&& post == UniqState { id: (pre.id + 1) as usize, ..pre }
            },
            Payload::GenerateOk { .. } => idle(pre, post, r),
        },
        Event::InjectedPayload(_) => idle(pre, post, r),
        Event::EOF => idle(pre, post, r),
    }
}

/// A node of the unique-id workload.
pub struct UniqNode {
    id: usize,
    node: String,
}

impl View for UniqNode {
    type V = UniqState;

    closed spec fn view(&self) -> UniqState {
        UniqState { node: self.node@, id: self.id }
    }
}

/// What the runtime's laws see of a state.
pub open spec fn standing_of(s: UniqState) -> Standing {
    Standing { name: s.node, next_id: s.id, owed: Set::empty() }
}

impl Node<Payload> for UniqNode {
    open spec fn wf(&self) -> bool {
        true
    }

    open spec fn standing(&self) -> Standing {
        standing_of(self@)
    }

    open spec fn stepped(
        pre: Self,
        input: Event<Payload>,
        post: Self,
        r: Result<Seq<Message<Payload>>, StepError>,
    ) -> bool {
        steps(pre@, input, post@, r)
    }

    /// Every init record is taken.
    open spec fn refusal(init: Init) -> Option<StepError> {
        None
    }

    open spec fn built_from(&self, init: Init) -> bool {
        self@ == (UniqState { node: init.node_id@, id: FIRST_ID })
    }

    /// Never fails.
    fn from_init(init: Init) -> (r: Result<Self, StepError>)
        ensures
            r matches Ok(node) && node@ == (UniqState { node: init.node_id@, id: FIRST_ID }),
    {
        Ok(UniqNode { id: FIRST_ID, node: init.node_id })
    }

    /// No timers.
    fn timers() -> (t: Vec<Timer<()>>)
        ensures
            t@.len() == 0,
    {
        Vec::new()
    }

    /// Handles one event as [`steps`] says.
    fn step(&mut self, input: Event<Payload>) -> (r: Result<Vec<Message<Payload>>, StepError>)
        ensures
            steps(old(self)@, input, final(self)@, sent(r)),
    {
        match &input {
            Event::Message(m) => match &m.body.payload {
                Payload::Generate => {
                    if self.id == usize::MAX {
                        return Err(StepError::IdsExhausted);
                    }
                    proof {
                        reveal_strlit("-");
                    }
                    let mut guid = self.node.clone();
                    guid.append("-");
                    append_decimal(&mut guid, self.id);
                    assert(guid@ =~= guid_of(self@.node, self@.id));
                    let reply = m.construct_reply(
                        Payload::GenerateOk { guid },
                        Some(&mut self.id),
                    );
                    let mut out = Vec::new();
                    out.push(reply);
                    Ok(out)
                },
                Payload::GenerateOk { .. } => Ok(Vec::new()),
            },
            Event::InjectedPayload(_) => Ok(Vec::new()),
            Event::EOF => Ok(Vec::new()),
        }
    }
}

/// A node of the unique-id workload never owes an answer: every reply it sends
/// answers the message of that very step, so its replies are correlated
/// whomever the messages it is handed are addressed to.
pub proof fn answers_at_once()
    ensures
        crate::node::owes_nothing::<Payload, (), UniqNode>(),
{
}

} // verus!
