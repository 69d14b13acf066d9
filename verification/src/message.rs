//! The message envelope, the events a node is driven by, and the init handshake.

use vstd::prelude::*;

verus! {

/// An envelope: who sent it, whom it is for, and its body.
#[derive(Debug, Clone)]
pub struct Message<Payload> {
    pub src: String,
    pub dest: String,
    pub body: Body<Payload>,
}

/// The body of a message: the sender's id for it, the id of the message it
/// answers, and the payload.
#[derive(Debug, Clone)]
pub struct Body<Payload> {
    pub id: Option<usize>,
    pub in_reply_to: Option<usize>,
    pub payload: Payload,
}

/// What a node is handed, one at a time: a message from the network, an
/// event injected by one of its timers, or the end of the input.
#[derive(Debug, Clone)]
pub enum Event<Payload, InjectedPayload = ()> {
    Message(Message<Payload>),
    InjectedPayload(InjectedPayload),
    EOF,
}

/// The payloads of the handshake that opens every run.
#[derive(Debug, Clone)]
pub enum InitPayload {
    Init(Init),
    InitOk,
}

/// What the first message tells a node: its own name and the names of all nodes.
#[derive(Debug, Clone)]
pub struct Init {
    pub node_id: String,
    pub node_ids: Vec<String>,
}

/// The id under which the reply to the init message goes out.
pub const INIT_REPLY_ID: usize = 0;

/// The id that a node gives its first message after the handshake.
pub const FIRST_ID: usize = 1;

/// The names that a list of strings holds.
pub open spec fn names(v: Seq<String>) -> Seq<Seq<char>> {
    Seq::new(v.len(), |i: int| v[i]@)
}

impl<Payload> Message<Payload> {
    /// `self` travels the way back of `request` and answers it: source and
    /// destination are swapped, and `in_reply_to` is the request's id.
    pub open spec fn answers<Q>(&self, request: &Message<Q>) -> bool {
        &&& self.src@ == request.dest@
        &&& self.dest@ == request.src@
        &&& self.body.in_reply_to == request.body.id
    }

    /// `self` goes from `src` to `dest` on the sender's own account, under the
    /// id `id`, answering nothing.
    pub open spec fn is_unsolicited(&self, src: Seq<char>, dest: Seq<char>, id: usize) -> bool {
        &&& self.src@ == src
        &&& self.dest@ == dest
        &&& self.body.id == Some(id)
        &&& self.body.in_reply_to is None
    }

    /// The reply to `self` that carries `payload`. With a counter, the reply
    /// takes the counter's value as its id and the counter moves on by one;
    /// without one the reply has no id.
    pub fn construct_reply(&self, payload: Payload, id: Option<&mut usize>) -> (reply: Self)
        requires
            id matches Some(counter) ==> *counter < usize::MAX,
        ensures
            reply.answers(self),
            reply.body.payload == payload,
            match id {
                Some(counter) => reply.body.id == Some(*counter) && *final(counter) == *counter + 1,
                None => reply.body.id is None,
            },
    {
        let reply_id = match id {
            Some(val) => {
                let old: usize = *val;
                *val = old + 1;
                Some(old)
            },
            None => None,
        };
        Message {
            src: self.dest.clone(),
            dest: self.src.clone(),
            body: Body { id: reply_id, in_reply_to: self.body.id, payload },
        }
    }
}

/// A copy of a list of names.
pub fn clone_names(v: &Vec<String>) -> (r: Vec<String>)
    ensures
        r@ == v@,
{
    let mut r: Vec<String> = Vec::new();
    let mut i: usize = 0;
    while i < v.len()
        invariant
            i <= v@.len(),
            r@ == v@.take(i as int),
        decreases v@.len() - i,
    {
        r.push(v[i].clone());
        assert(r@ =~= v@.take(i + 1));
        i = i + 1;
    }
    assert(v@.take(v@.len() as int) =~= v@);
    r
}

/// The names in `all` other than `me`, in their order.
pub open spec fn without(all: Seq<Seq<char>>, me: Seq<char>) -> Seq<Seq<char>> {
    all.filter(|n: Seq<char>| n != me)
}

/// The names in `all` other than `me`, in their order.
pub fn others(all: &Vec<String>, me: &String) -> (r: Vec<String>)
    ensures
        names(r@) == without(names(all@), me@),
{
    let ghost keep = |n: Seq<char>| n != me@;
    let mut r: Vec<String> = Vec::new();
    let mut i: usize = 0;
    proof {
        reveal(Seq::filter);
        assert(names(all@).take(0) =~= Seq::<Seq<char>>::empty());
        assert(names(r@) =~= Seq::<Seq<char>>::empty());
    }
    while i < all.len()
        invariant
            i <= all@.len(),
            keep == |n: Seq<char>| n != me@,
            names(r@) == names(all@).take(i as int).filter(keep),
        decreases all@.len() - i,
    {
        let ghost before = names(r@);
        proof {
            reveal(Seq::filter);
            let next = names(all@).take(i + 1);
            assert(next.drop_last() =~= names(all@).take(i as int));
            assert(next.last() == all@[i as int]@);
        }
        if all[i] != *me {
            r.push(all[i].clone());
            assert(names(r@) =~= before.push(all@[i as int]@));
        }
        i = i + 1;
    }
    assert(names(all@).take(all@.len() as int) =~= names(all@));
    r
}

/// The first message of a run was not an init message.
#[derive(Debug, Clone, Copy, PartialEq, Eq)]
pub struct NotInit;

/// The handshake: takes the first message of a run and gives the init record
/// it carries together with the `init_ok` reply, which goes out under id 0.
/// Fails exactly when the message does not carry an init record.
pub fn handshake(first: Message<InitPayload>) -> (r: Result<(Init, Message<InitPayload>), NotInit>)
    ensures
        match r {
            Ok((init, reply)) => {
                &&& first.body.payload == InitPayload::Init(init)
                &&& reply.answers(&first)
                &&& reply.body.id == Some(INIT_REPLY_ID)
                &&& reply.body.payload == InitPayload::InitOk
            },
            Err(_) => first.body.payload == InitPayload::InitOk,
        },
{
    let Message { src, dest, body } = first;
    match body.payload {
        InitPayload::Init(init) => {
            let reply = Message {
                src: dest,
                dest: src,
                body: Body {
                    id: Some(INIT_REPLY_ID),
                    in_reply_to: body.id,
                    payload: InitPayload::InitOk,
                },
            };
            Ok((init, reply))
        },
        InitPayload::InitOk => Err(NotInit),
    }
}

} // verus!
