//! A replicated log in the style of Kafka. Offsets are handed out by a
//! linearizable store: the node reserves the next offset by a compare-and-swap
//! on a shared counter and publishes it to the client only once the store has
//! acknowledged the swap.

use crate::log::{is_tail, tail};
use crate::message::{others, without, Event, Init, Message, FIRST_ID};
use crate::node::{idle, keeps_order, sent, Node, Standing, StepError, Timer};
use crate::pattern::{capture, decimal_usize, named_capture, parse_decimal};
use crate::table::{as_map, distinct_keys, lemma_take_next, StrMap};
use std::collections::BTreeMap;
use std::collections::HashMap;
use vstd::prelude::*;
use vstd::std_specs::iter::IteratorSpec;

verus! {

/// The name of the store that hands out offsets.
pub const STORE: &'static str = "lin-kv";

/// The key of the shared counter in the store.
pub const COUNTER_KEY: &'static str = "offset";

/// The store's error code for a key that does not exist.
pub const KEY_MISSING: isize = 20;

/// The store's error code for a compare-and-swap whose `from` was not current.
pub const PRECONDITION_FAILED: isize = 22;

/// How the store words a failed precondition.
pub const CURRENT_VALUE: &'static str = r"current value (?<new>\d+) is not (?<old>\d+)";

/// The group of [`CURRENT_VALUE`] that holds the counter's current value.
pub const CURRENT_GROUP: &'static str = "new";

/// The retry timer's period in milliseconds.
pub const RETRY_EVERY_MS: u64 = 10;

/// What this workload's messages carry.
#[derive(Debug)]
pub enum Payload {
    Send { key: String, msg: usize },
    SendOk { offset: usize },
    Poll { offsets: StrMap<usize> },
    PollOk { msgs: StrMap<Vec<(usize, usize)>> },
    CommitOffsets { offsets: StrMap<usize> },
    CommitOffsetsOk,
    ListCommittedOffsets { keys: Vec<String> },
    ListCommittedOffsetsOk { offsets: StrMap<usize> },
    Cas { key: String, from: usize, to: usize, put: bool },
    CasOk,
    Error { code: isize, text: String },
}

/// The events this workload's timer injects.
#[derive(Debug, Clone, Copy, PartialEq, Eq)]
pub enum InjectedPayload {
    /// Time to retry one swap that the store turned down.
    Gossip,
}

/// A `send` request that waits for the store to acknowledge its offset.
#[derive(Debug, Clone)]
pub struct LogToProcess {
    pub key: String,
    pub msg: usize,
    pub request_src: String,
    pub offset: usize,
    pub request_msg_id: Option<usize>,
    pub cas_msg_id: usize,
    pub cas_failed: bool,
}

/// The model of a waiting `send` request.
pub struct Pending {
    /// The key to append under.
    pub key: Seq<char>,
    /// The value to append.
    pub msg: usize,
    /// Who asked.
    pub request_src: Seq<char>,
    /// The offset that the swap in flight reserves.
    pub offset: usize,
    /// The id of the request.
    pub request_msg_id: Option<usize>,
    /// The id of the swap in flight.
    pub cas_msg_id: usize,
    /// The store turned the swap down; it has not been sent again yet.
    pub cas_failed: bool,
}

impl View for LogToProcess {
    type V = Pending;

    open spec fn view(&self) -> Pending {
        Pending {
            key: self.key@,
            msg: self.msg,
            request_src: self.request_src@,
            offset: self.offset,
            request_msg_id: self.request_msg_id,
            cas_msg_id: self.cas_msg_id,
            cas_failed: self.cas_failed,
        }
    }
}

/// The model of a node's state.
pub struct KLogState {
    /// The node's own name.
    pub node: Seq<char>,
    /// The names of the other nodes.
    pub peers: Seq<Seq<char>>,
    /// The id of the next outgoing message.
    pub id: usize,
    /// Per key, the committed messages by offset.
    pub logs: Map<Seq<char>, Map<usize, usize>>,
    /// Per key, the offset up to which clients have processed.
    pub committed: Map<Seq<char>, usize>,
    /// The node's belief of the shared counter.
    pub curr_offset: usize,
    /// The waiting `send` requests by the id of their swap in flight.
    pub pending: Map<usize, Pending>,
}

/// The models of the logs in a table.
pub open spec fn logs_view(m: Map<Seq<char>, BTreeMap<usize, usize>>) -> Map<
    Seq<char>,
    Map<usize, usize>,
> {
    Map::new(|k: Seq<char>| m.contains_key(k), |k: Seq<char>| m[k]@)
}

/// The models of the waiting requests in a table.
pub open spec fn pending_view(m: Map<usize, LogToProcess>) -> Map<usize, Pending> {
    Map::new(|c: usize| m.contains_key(c), |c: usize| m[c]@)
}

/// The requests that the waiting entries will answer.
pub open spec fn owed_by(pending: Map<usize, Pending>) -> Set<(Seq<char>, usize)> {
    Set::new(
        |p: (Seq<char>, usize)|
            exists|c: usize| #[trigger]
                pending.contains_key(c) && pending[c].request_src == p.0
                    && pending[c].request_msg_id == Some(p.1),
    )
}

impl KLogState {
    /// The invariant of a node's state: every waiting request stands under the
    /// id of its swap, which is an id already used; and an offset is committed
    /// only for a key that has a log.
    pub open spec fn inv(self) -> bool {
        &&& self.id >= FIRST_ID
        &&& forall|c: usize| #[trigger]
            self.pending.contains_key(c) ==> self.pending[c].cas_msg_id == c && FIRST_ID <= c
                < self.id
        &&& forall|k: Seq<char>| #[trigger]
            self.committed.contains_key(k) ==> self.logs.contains_key(k)
    }

    /// The log under `key`, empty where there is none yet.
    pub open spec fn log(self, key: Seq<char>) -> Map<usize, usize> {
        if self.logs.contains_key(key) {
            self.logs[key]
        } else {
            Map::empty()
        }
    }
}

/// The waiting request whose swap `reply` answers, by the swap's id.
pub open spec fn answered_swap(pending: Map<usize, Pending>, reply: Message<Payload>) -> Option<
    usize,
> {
    match reply.body.in_reply_to {
        Some(c) => if pending.contains_key(c) {
            Some(c)
        } else {
            None
        },
        None => None,
    }
}

/// `m` is a compare-and-swap on the shared counter from `from` to `to`,
/// creating it where missing, sent from `src` to `dest` under `id`.
pub open spec fn is_cas(
    m: Message<Payload>,
    src: Seq<char>,
    dest: Seq<char>,
    id: usize,
    from: int,
    to: int,
) -> bool {
    &&& m.is_unsolicited(src, dest, id)
    &&& m.body.payload matches Payload::Cas { key, from: f, to: t, put }
    &&& key@ == COUNTER_KEY@
    &&& f == from
    &&& t == to
    &&& put
}

/// `send`: the node reserves the offset after the one it believes current,
/// records the request under the id of the swap it sends to the store, and
/// moves its belief on.
pub open spec fn sends(
    pre: KLogState,
    request: Message<Payload>,
    key: Seq<char>,
    msg: usize,
    post: KLogState,
    r: Result<Seq<Message<Payload>>, StepError>,
) -> bool {
    if pre.id == usize::MAX {
        r == Err::<Seq<Message<Payload>>, StepError>(StepError::IdsExhausted) && post == pre
    } else if pre.curr_offset == usize::MAX {
        r == Err::<Seq<Message<Payload>>, StepError>(StepError::Overflow) && post == pre
    } else {
        &&& r matches Ok(out)
        &&& out.len() == 1
        &&& is_cas(out[0], request.dest@, STORE@, pre.id, pre.curr_offset as int, pre.curr_offset + 1)
        &&& post == KLogState {
            id: (pre.id + 1) as usize,
            curr_offset: (pre.curr_offset + 1) as usize,
            pending: pre.pending.insert(
                pre.id,
                Pending {
                    key,
                    msg,
                    request_src: request.src@,
                    offset: (pre.curr_offset + 1) as usize,
                    request_msg_id: request.body.id,
                    cas_msg_id: pre.id,
                    cas_failed: false,
                },
            ),
            ..pre
        }
    }
}

/// `cas_ok`: where it answers the swap of a waiting request, the message is
/// committed at the reserved offset, the client is told, and the request
/// leaves the table. Any other `cas_ok` is ignored.
pub open spec fn acknowledged(
    pre: KLogState,
    reply: Message<Payload>,
    post: KLogState,
    r: Result<Seq<Message<Payload>>, StepError>,
) -> bool {
    match answered_swap(pre.pending, reply) {
        Some(c) => {
            let e = pre.pending[c];
            if pre.id == usize::MAX {
                r == Err::<Seq<Message<Payload>>, StepError>(StepError::IdsExhausted) && post
                    == pre
            } else {
                &&& r matches Ok(out)
                &&& out.len() == 1
                &&& out[0].src@ == reply.dest@
                &&& out[0].dest@ == e.request_src
                &&& out[0].body.id == Some(pre.id)
                &&& out[0].body.in_reply_to == e.request_msg_id
                &&& out[0].body.payload == (Payload::SendOk { offset: e.offset })
                &&& post == KLogState {
                    id: (pre.id + 1) as usize,
                    logs: pre.logs.insert(e.key, pre.log(e.key).insert(e.offset, e.msg)),
                    pending: pre.pending.remove(c),
                    ..pre
                }
            }
        },
        None => idle(pre, post, r),
    }
}

/// `error` with code 20: the counter does not exist yet, so the node asks the
/// sender of the error to create it with a swap from 0 to 0.
pub open spec fn counter_missing(
    pre: KLogState,
    reply: Message<Payload>,
    post: KLogState,
    r: Result<Seq<Message<Payload>>, StepError>,
) -> bool {
    if pre.id == usize::MAX {
        r == Err::<Seq<Message<Payload>>, StepError>(StepError::IdsExhausted) && post == pre
    } else {
        &&& r matches Ok(out)
        &&& out.len() == 1
        &&& is_cas(out[0], reply.dest@, reply.src@, pre.id, 0, 0)
        &&& post == KLogState { id: (pre.id + 1) as usize, ..pre }
    }
}

/// `error` with code 22, with `current` being what the error text gives as
/// the counter's current value: the node takes that value as its belief and
/// marks the waiting request whose swap was turned down. An error text that
/// gives no current value changes nothing; one whose value is no number that
/// fits ends the run.
pub open spec fn turned_down(
    pre: KLogState,
    reply: Message<Payload>,
    current: Option<Seq<char>>,
    post: KLogState,
    r: Result<Seq<Message<Payload>>, StepError>,
) -> bool {
    match current {
        None => idle(pre, post, r),
        Some(digits) => match decimal_usize(digits) {
            None => r == Err::<Seq<Message<Payload>>, StepError>(StepError::Overflow) && post
                == pre,
            Some(n) => {
                &&& r == Ok::<Seq<Message<Payload>>, StepError>(Seq::empty())
                &&& post == KLogState {
                    curr_offset: n,
                    pending: match answered_swap(pre.pending, reply) {
                        Some(c) => pre.pending.insert(
                            c,
                            Pending { cas_failed: true, ..pre.pending[c] },
                        ),
                        None => pre.pending,
                    },
                    ..pre
                }
            },
        },
    }
}

/// The retry timer: one of the waiting requests whose swap was turned down
/// gets a new swap, from the believed counter to the offset after it, under a
/// fresh id. The request moves under that id, reserves the new offset, and its
/// mark is cleared. With no such request nothing happens.
pub open spec fn retries(
    pre: KLogState,
    post: KLogState,
    r: Result<Seq<Message<Payload>>, StepError>,
) -> bool {
    if forall|c: usize| #[trigger] pre.pending.contains_key(c) ==> !pre.pending[c].cas_failed {
        idle(pre, post, r)
    } else if pre.id == usize::MAX {
        r == Err::<Seq<Message<Payload>>, StepError>(StepError::IdsExhausted) && post == pre
    } else if pre.curr_offset == usize::MAX {
        r == Err::<Seq<Message<Payload>>, StepError>(StepError::Overflow) && post == pre
    } else {
        &&& r matches Ok(out)
        &&& out.len() == 1
        &&& is_cas(out[0], pre.node, STORE@, pre.id, pre.curr_offset as int, pre.curr_offset + 1)
        &&& exists|c: usize| #[trigger]
            pre.pending.contains_key(c) && pre.pending[c].cas_failed && post == KLogState {
                id: (pre.id + 1) as usize,
                pending: pre.pending.remove(c).insert(
                    pre.id,
                    Pending {
                        offset: (pre.curr_offset + 1) as usize,
                        cas_msg_id: pre.id,
                        cas_failed: false,
                        ..pre.pending[c]
                    },
                ),
                ..pre
            }
    }
}

/// `poll`: for each key asked for that has a log, the reply lists the
/// entries at or after the offset asked for, by ascending offset.
pub open spec fn polled(
    pre: KLogState,
    request: Message<Payload>,
    offsets: Map<Seq<char>, usize>,
    post: KLogState,
    r: Result<Seq<Message<Payload>>, StepError>,
) -> bool {
    if pre.id == usize::MAX {
        r == Err::<Seq<Message<Payload>>, StepError>(StepError::IdsExhausted) && post == pre
    } else {
        &&& r matches Ok(out)
        &&& out.len() == 1
        &&& out[0].answers(&request)
        &&& out[0].body.id == Some(pre.id)
        &&& out[0].body.payload matches Payload::PollOk { msgs }
        &&& forall|k: Seq<char>| #[trigger]
            msgs@.contains_key(k) <==> offsets.contains_key(k) && pre.logs.contains_key(k)
        &&& forall|k: Seq<char>| #[trigger]
            msgs@.contains_key(k) ==> is_tail(msgs@[k]@, pre.logs[k], offsets[k])
        &&& post == KLogState { id: (pre.id + 1) as usize, ..pre }
    }
}

/// The committed offsets after a client committed `offsets`: they are taken
/// for the keys that have a log, and ignored for the others.
pub open spec fn commit(
    committed: Map<Seq<char>, usize>,
    logs: Map<Seq<char>, Map<usize, usize>>,
    offsets: Map<Seq<char>, usize>,
) -> Map<Seq<char>, usize> {
    Map::new(
        |k: Seq<char>| committed.contains_key(k) || (offsets.contains_key(k) && logs.contains_key(k)),
        |k: Seq<char>|
            if offsets.contains_key(k) && logs.contains_key(k) {
                offsets[k]
            } else {
                committed[k]
            },
    )
}

/// `commit_offsets`: the offsets are stored for the keys that have a log.
pub open spec fn commits(
    pre: KLogState,
    request: Message<Payload>,
    offsets: Map<Seq<char>, usize>,
    post: KLogState,
    r: Result<Seq<Message<Payload>>, StepError>,
) -> bool {
    if pre.id == usize::MAX {
        r == Err::<Seq<Message<Payload>>, StepError>(StepError::IdsExhausted) && post == pre
    } else {
        &&& r matches Ok(out)
        &&& out.len() == 1
        &&& out[0].answers(&request)
        &&& out[0].body.id == Some(pre.id)
        &&& out[0].body.payload == Payload::CommitOffsetsOk
        &&& post == KLogState {
            id: (pre.id + 1) as usize,
            committed: commit(pre.committed, pre.logs, offsets),
            ..pre
        }
    }
}

/// `list_committed_offsets`: the reply holds the committed offset of each
/// key asked for that has one.
pub open spec fn lists(
    pre: KLogState,
    request: Message<Payload>,
    keys: Seq<Seq<char>>,
    post: KLogState,
    r: Result<Seq<Message<Payload>>, StepError>,
) -> bool {
    if pre.id == usize::MAX {
        r == Err::<Seq<Message<Payload>>, StepError>(StepError::IdsExhausted) && post == pre
    } else {
        &&& r matches Ok(out)
        &&& out.len() == 1
        &&& out[0].answers(&request)
        &&& out[0].body.id == Some(pre.id)
        &&& out[0].body.payload matches Payload::ListCommittedOffsetsOk { offsets }
        &&& forall|k: Seq<char>| #[trigger]
            offsets@.contains_key(k) <==> keys.contains(k) && pre.committed.contains_key(k)
        &&& forall|k: Seq<char>| #[trigger]
            offsets@.contains_key(k) ==> offsets@[k] == pre.committed[k]
        &&& post == KLogState { id: (pre.id + 1) as usize, ..pre }
    }
}

/// What a step does, event by event.
pub open spec fn steps(
    pre: KLogState,
    input: Event<Payload, InjectedPayload>,
    post: KLogState,
    r: Result<Seq<Message<Payload>>, StepError>,
) -> bool {
    match input {
        Event::Message(m) => match m.body.payload {
            Payload::Send { key, msg } => sends(pre, m, key@, msg, post, r),
            Payload::Poll { offsets } => polled(pre, m, offsets@, post, r),
            Payload::CommitOffsets { offsets } => commits(pre, m, offsets@, post, r),
            Payload::ListCommittedOffsets { keys } => lists(
                pre,
                m,
                crate::message::names(keys@),
                post,
                r,
            ),
            Payload::CasOk => acknowledged(pre, m, post, r),
            Payload::Error { code, text } => if code == KEY_MISSING {
                counter_missing(pre, m, post, r)
            } else if code == PRECONDITION_FAILED {
                ||| r == Err::<Seq<Message<Payload>>, StepError>(StepError::Pattern) && post == pre
                ||| turned_down(
                    pre,
                    m,
                    named_capture(CURRENT_VALUE@, text@, CURRENT_GROUP@),
                    post,
                    r,
                )
            } else {
                idle(pre, post, r)
            },
            Payload::SendOk { .. }
            | Payload::PollOk { .. }
            | Payload::CommitOffsetsOk
            | Payload::ListCommittedOffsetsOk { .. }
            | Payload::Cas { .. } => idle(pre, post, r),
        },
        Event::InjectedPayload(_) => retries(pre, post, r),
        Event::EOF => idle(pre, post, r),
    }
}

/// The state of the node `name` right after the handshake of a system with
/// the nodes `all`: nothing logged, nothing committed, nothing waiting, and
/// the counter believed to be at 0.
pub open spec fn fresh(name: Seq<char>, all: Seq<Seq<char>>) -> KLogState {
    KLogState {
        node: name,
        peers: without(all, name),
        id: FIRST_ID,
        logs: Map::empty(),
        committed: Map::empty(),
        curr_offset: 0,
        pending: Map::empty(),
    }
}

/// A node of the log workload.
pub struct KLogNode {
    node: String,
    nodes: Vec<String>,
    id: usize,
    logs: StrMap<BTreeMap<usize, usize>>,
    processed_till: StrMap<usize>,
    curr_offset: usize,
    logs_to_process: HashMap<usize, LogToProcess>,
}

impl View for KLogNode {
    type V = KLogState;

    closed spec fn view(&self) -> KLogState {
        KLogState {
            node: self.node@,
            peers: crate::message::names(self.nodes@),
            id: self.id,
            logs: logs_view(self.logs@),
            committed: self.processed_till@,
            curr_offset: self.curr_offset,
            pending: pending_view(self.logs_to_process@),
        }
    }
}

/// An owned copy of a literal.
fn text(s: &str) -> (r: String)
    ensures
        r@ == s@,
{
    s.to_owned()
}

impl KLogNode {
    /// The node as it stands after the handshake: nothing logged, nothing
    /// committed, nothing waiting, and the counter believed to be at 0.
    pub fn new(init: Init) -> (node: Self)
        ensures
            node@ == fresh(init.node_id@, crate::message::names(init.node_ids@)),
            node@.inv(),
    {
        let nodes = others(&init.node_ids, &init.node_id);
        let node = KLogNode {
            id: FIRST_ID,
            logs: StrMap::new(),
            processed_till: StrMap::new(),
            nodes,
            node: init.node_id,
            logs_to_process: HashMap::new(),
            curr_offset: 0,
        };
        assert(node@.logs =~= Map::empty());
        assert(node@.pending =~= Map::empty());
        node
    }

    /// The node's belief of the shared counter.
    pub fn curr_offset(&self) -> (n: usize)
        ensures
            n == self@.curr_offset,
    {
        self.curr_offset
    }

    /// The number of `send` requests that wait for the store.
    pub fn waiting(&self) -> (n: usize)
        ensures
            n == self@.pending.dom().len(),
    {
        assert(self@.pending.dom() =~= self.logs_to_process@.dom());
        self.logs_to_process.len()
    }

    /// Handles a `send` request.
    pub fn on_send(&mut self, request: &Message<Payload>, key: &String, msg: usize) -> (r: Result<
        Vec<Message<Payload>>,
        StepError,
    >)
        requires
            old(self)@.inv(),
        ensures
            final(self)@.inv(),
            sends(old(self)@, *request, key@, msg, final(self)@, sent(r)),
    {
        if self.id == usize::MAX {
            return Err(StepError::IdsExhausted);
        }
        if self.curr_offset == usize::MAX {
            return Err(StepError::Overflow);
        }
        let ghost pre = self@;
        let target = self.curr_offset + 1;
        let entry = LogToProcess {
            key: key.clone(),
            msg,
            request_src: request.src.clone(),
            offset: target,
            request_msg_id: request.body.id,
            cas_msg_id: self.id,
            cas_failed: false,
        };
        self.logs_to_process.insert(self.id, entry);
        let payload = Payload::Cas {
            key: text(COUNTER_KEY),
            from: self.curr_offset,
            to: target,
            put: true,
        };
        let mut cas = request.construct_reply(payload, Some(&mut self.id));
        cas.body.in_reply_to = None;
        cas.dest = text(STORE);
        self.curr_offset = target;
        let mut out = Vec::new();
        out.push(cas);
        proof {
            assert(self@.pending =~= pre.pending.insert(pre.id, entry@));
            assert(self@.logs =~= pre.logs);
            assert(self@.committed == pre.committed);
        }
        Ok(out)
    }

    /// Handles a `poll` request.
    pub fn on_poll(&mut self, request: &Message<Payload>, offsets: &StrMap<usize>) -> (r: Result<
        Vec<Message<Payload>>,
        StepError,
    >)
        requires
            old(self)@.inv(),
        ensures
            final(self)@.inv(),
            polled(old(self)@, *request, offsets@, final(self)@, sent(r)),
    {
        if self.id == usize::MAX {
            return Err(StepError::IdsExhausted);
        }
        let ghost pre = self@;
        let ghost asked = offsets.entries();
        let mut msgs: StrMap<Vec<(usize, usize)>> = StrMap::new();
        let n = offsets.len();
        let mut i: usize = 0;
        proof {
            if n > 0 {
                lemma_take_next(asked, 0);
            } else {
                assert(asked.take(0) =~= asked);
            }
        }
        while i < n
            invariant
                n == asked.len(),
                asked == offsets.entries(),
                distinct_keys(asked),
                i <= n,
                self@ == pre,
                forall|k: Seq<char>| #[trigger]
                    msgs@.contains_key(k) <==> as_map(asked.take(i as int)).contains_key(k)
                        && pre.logs.contains_key(k),
                forall|k: Seq<char>| #[trigger]
                    msgs@.contains_key(k) ==> is_tail(
                        msgs@[k]@,
                        pre.logs[k],
                        as_map(asked.take(i as int))[k],
                    ),
            decreases n - i,
        {
            let key = offsets.key_at(i);
            let from = *offsets.value_at(i);
            proof {
                lemma_take_next(asked, i as int);
            }
            match self.logs.get(key) {
                Some(log) => {
                    let found = tail(log, from);
                    msgs.insert(key.clone(), found);
                },
                None => {},
            }
            i = i + 1;
        }
        proof {
            if n > 0 {
                lemma_take_next(asked, n - 1);
            }
        }
        let reply = request.construct_reply(Payload::PollOk { msgs }, Some(&mut self.id));
        let mut out = Vec::new();
        out.push(reply);
        proof {
            assert(self@.committed == pre.committed);
            assert(self@.logs == pre.logs);
            assert(self@.pending == pre.pending);
        }
        Ok(out)
    }

    /// Handles a `commit_offsets` request.
    pub fn on_commit_offsets(&mut self, request: &Message<Payload>, offsets: &StrMap<usize>) -> (r:
        Result<Vec<Message<Payload>>, StepError>)
        requires
            old(self)@.inv(),
        ensures
            final(self)@.inv(),
            commits(old(self)@, *request, offsets@, final(self)@, sent(r)),
    {
        if self.id == usize::MAX {
            return Err(StepError::IdsExhausted);
        }
        let ghost pre = self@;
        let ghost asked = offsets.entries();
        let n = offsets.len();
        let mut i: usize = 0;
        proof {
            if n > 0 {
                lemma_take_next(asked, 0);
            } else {
                assert(asked.take(0) =~= asked);
            }
            assert(as_map(asked.take(0)) =~= Map::<Seq<char>, usize>::empty());
            assert(commit(pre.committed, pre.logs, Map::empty()) =~= pre.committed);
        }
        while i < n
            invariant
                n == asked.len(),
                asked == offsets.entries(),
                distinct_keys(asked),
                i <= n,
                self@ == (KLogState {
                    committed: commit(pre.committed, pre.logs, as_map(asked.take(i as int))),
                    ..pre
                }),
            decreases n - i,
        {
            let key = offsets.key_at(i);
            let offset = *offsets.value_at(i);
            let ghost before = self@.committed;
            proof {
                lemma_take_next(asked, i as int);
            }
            if self.logs.contains_key(key) {
                self.processed_till.insert(key.clone(), offset);
            }
            proof {
                assert(self@.logs == pre.logs);
                assert(self@.pending == pre.pending);
                assert(self@.committed =~= commit(
                    pre.committed,
                    pre.logs,
                    as_map(asked.take(i + 1)),
                ));
            }
            i = i + 1;
        }
        proof {
            if n > 0 {
                lemma_take_next(asked, n - 1);
            }
        }
        let ghost mid = self@;
        let reply = request.construct_reply(Payload::CommitOffsetsOk, Some(&mut self.id));
        let mut out = Vec::new();
        out.push(reply);
        proof {
            assert(self@.committed == mid.committed);
            assert(self@.logs == pre.logs);
            assert(self@.pending == pre.pending);
        }
        Ok(out)
    }

    /// Handles a `list_committed_offsets` request.
    pub fn on_list_committed_offsets(
        &mut self,
        request: &Message<Payload>,
        keys: &Vec<String>,
    ) -> (r: Result<Vec<Message<Payload>>, StepError>)
        requires
            old(self)@.inv(),
        ensures
            final(self)@.inv(),
            lists(old(self)@, *request, crate::message::names(keys@), final(self)@, sent(r)),
    {
        if self.id == usize::MAX {
            return Err(StepError::IdsExhausted);
        }
        let ghost pre = self@;
        let ghost asked = crate::message::names(keys@);
        let mut offsets: StrMap<usize> = StrMap::new();
        let mut i: usize = 0;
        while i < keys.len()
            invariant
                i <= keys@.len(),
                asked == crate::message::names(keys@),
                self@ == pre,
                forall|k: Seq<char>| #[trigger]
                    offsets@.contains_key(k) <==> asked.take(i as int).contains(k)
                        && pre.committed.contains_key(k),
                forall|k: Seq<char>| #[trigger]
                    offsets@.contains_key(k) ==> offsets@[k] == pre.committed[k],
            decreases keys@.len() - i,
        {
            let ghost seen = asked.take(i as int);
            proof {
                assert(asked.take(i + 1) =~= seen.push(asked[i as int]));
                assert forall|k: Seq<char>|
                    asked.take(i + 1).contains(k) <==> seen.contains(k) || k == asked[i as int] by {
                    if seen.contains(k) {
                        let j = choose|j: int| 0 <= j < seen.len() && seen[j] == k;
                        assert(asked.take(i + 1)[j] == k);
                    }
                    if k == asked[i as int] {
                        assert(asked.take(i + 1)[i as int] == k);
                    }
                }
            }
            match self.processed_till.get(&keys[i]) {
                Some(offset) => {
                    offsets.insert(keys[i].clone(), *offset);
                },
                None => {},
            }
            i = i + 1;
        }
        proof {
            assert(asked.take(keys@.len() as int) =~= asked);
        }
        let reply = request.construct_reply(
            Payload::ListCommittedOffsetsOk { offsets },
            Some(&mut self.id),
        );
        let mut out = Vec::new();
        out.push(reply);
        proof {
            assert(self@.committed == pre.committed);
            assert(self@.logs == pre.logs);
            assert(self@.pending == pre.pending);
        }
        Ok(out)
    }

    /// Handles a `cas_ok`.
    pub fn on_cas_ok(&mut self, reply: &Message<Payload>) -> (r: Result<
        Vec<Message<Payload>>,
        StepError,
    >)
        requires
            old(self)@.inv(),
        ensures
            final(self)@.inv(),
            acknowledged(old(self)@, *reply, final(self)@, sent(r)),
    {
        let c = match reply.body.in_reply_to {
            Some(c) => c,
            None => {
                return Ok(Vec::new());
            },
        };
        if !self.logs_to_process.contains_key(&c) {
            return Ok(Vec::new());
        }
        if self.id == usize::MAX {
            return Err(StepError::IdsExhausted);
        }
        let ghost pre = self@;
        let entry = match self.logs_to_process.remove(&c) {
            Some(e) => e,
            None => {
                return Ok(Vec::new());
            },
        };
        let mut log = match self.logs.remove(&entry.key) {
            Some(l) => l,
            None => BTreeMap::new(),
        };
        assert(log@ =~= pre.log(entry.key@));
        log.insert(entry.offset, entry.msg);
        self.logs.insert(entry.key.clone(), log);
        let mut send_ok = reply.construct_reply(
            Payload::SendOk { offset: entry.offset },
            Some(&mut self.id),
        );
        send_ok.body.in_reply_to = entry.request_msg_id;
        send_ok.dest = entry.request_src;
        let mut out = Vec::new();
        out.push(send_ok);
        proof {
            assert(self@.pending =~= pre.pending.remove(c));
            assert(self@.logs =~= pre.logs.insert(
                entry.key@,
                pre.log(entry.key@).insert(entry.offset, entry.msg),
            ));
            assert(self@.committed == pre.committed);
        }
        Ok(out)
    }

    /// Handles an `error` with the code for a missing key.
    pub fn on_counter_missing(&mut self, reply: &Message<Payload>) -> (r: Result<
        Vec<Message<Payload>>,
        StepError,
    >)
        requires
            old(self)@.inv(),
        ensures
            final(self)@.inv(),
            counter_missing(old(self)@, *reply, final(self)@, sent(r)),
    {
        if self.id == usize::MAX {
            return Err(StepError::IdsExhausted);
        }
        let payload = Payload::Cas { key: text(COUNTER_KEY), from: 0, to: 0, put: true };
        let mut cas = reply.construct_reply(payload, Some(&mut self.id));
        cas.body.in_reply_to = None;
        let mut out = Vec::new();
        out.push(cas);
        assert(self@.committed == old(self)@.committed);
        Ok(out)
    }

    /// Handles an `error` with the code for a failed precondition, given what
    /// its text holds as the counter's current value.
    pub fn on_turned_down(&mut self, reply: &Message<Payload>, current: Option<String>) -> (r:
        Result<Vec<Message<Payload>>, StepError>)
        requires
            old(self)@.inv(),
        ensures
            final(self)@.inv(),
            turned_down(
                old(self)@,
                *reply,
                match current {
                    Some(s) => Some(s@),
                    None => None,
                },
                final(self)@,
                sent(r),
            ),
    {
        let digits = match current {
            Some(d) => d,
            None => {
                return Ok(Vec::new());
            },
        };
        let value = match parse_decimal(digits.as_str()) {
            Some(n) => n,
            None => {
                return Err(StepError::Overflow);
            },
        };
        let ghost pre = self@;
        self.curr_offset = value;
        match reply.body.in_reply_to {
            Some(c) => {
                match self.logs_to_process.remove(&c) {
                    Some(entry) => {
                        let marked = LogToProcess { cas_failed: true, ..entry };
                        self.logs_to_process.insert(c, marked);
                        proof {
                            assert(self@.pending =~= pre.pending.insert(
                                c,
                                Pending { cas_failed: true, ..pre.pending[c] },
                            ));
                        }
                    },
                    None => {
                        proof {
                            assert(self@.pending =~= pre.pending);
                        }
                    },
                }
            },
            None => {},
        }
        proof {
            assert(self@.logs =~= pre.logs);
            assert(self@.committed == pre.committed);
        }
        Ok(Vec::new())
    }

    /// The id of the swap of some waiting request that the store turned down.
    fn turned_down_swap(&self) -> (r: Option<usize>)
        ensures
            match r {
                Some(c) => self@.pending.contains_key(c) && self@.pending[c].cas_failed,
                None => forall|c: usize| #[trigger]
                    self@.pending.contains_key(c) ==> !self@.pending[c].cas_failed,
            },
    {
        for kv in it: self.logs_to_process.iter()
            invariant
                it.seq() == self.logs_to_process.iter().remaining(),
                forall|i: int| 0 <= i < it.index() ==> !(#[trigger] it.seq()[i]).1.cas_failed,
        {
            if kv.1.cas_failed {
                return Some(*kv.0);
            }
        }
        None
    }

    /// Handles a tick of the retry timer.
    pub fn on_retry(&mut self) -> (r: Result<Vec<Message<Payload>>, StepError>)
        requires
            old(self)@.inv(),
        ensures
            final(self)@.inv(),
            retries(old(self)@, final(self)@, sent(r)),
    {
        let c = match self.turned_down_swap() {
            Some(c) => c,
            None => {
                return Ok(Vec::new());
            },
        };
        if self.id == usize::MAX {
            return Err(StepError::IdsExhausted);
        }
        if self.curr_offset == usize::MAX {
            return Err(StepError::Overflow);
        }
        let ghost pre = self@;
        let entry = match self.logs_to_process.remove(&c) {
            Some(e) => e,
            None => {
                return Ok(Vec::new());
            },
        };
        let target = self.curr_offset + 1;
        let again = LogToProcess {
            offset: target,
            cas_msg_id: self.id,
            cas_failed: false,
            ..entry
        };
        self.logs_to_process.insert(self.id, again);
        let cas = Message {
            src: self.node.clone(),
            dest: text(STORE),
            body: crate::message::Body {
                payload: Payload::Cas {
                    key: text(COUNTER_KEY),
                    from: self.curr_offset,
                    to: target,
                    put: true,
                },
                id: Some(self.id),
                in_reply_to: None,
            },
        };
        self.id = self.id + 1;
        let mut out = Vec::new();
        out.push(cas);
        proof {
            assert(self@.pending =~= pre.pending.remove(c).insert(
                pre.id,
                Pending {
                    offset: (pre.curr_offset + 1) as usize,
                    cas_msg_id: pre.id,
                    cas_failed: false,
                    ..pre.pending[c]
                },
            ));
            assert(self@.logs =~= pre.logs);
            assert(self@.committed == pre.committed);
        }
        Ok(out)
    }
}

/// What the runtime's laws see of a state.
pub open spec fn standing_of(s: KLogState) -> Standing {
    Standing { name: s.node, next_id: s.id, owed: owed_by(s.pending) }
}

/// Every step that succeeds keeps the runtime's order: consecutive ids, and
/// answers only to the input or to a request that waits.
pub proof fn lemma_steps_keep_order(
    pre: KLogState,
    input: Event<Payload, InjectedPayload>,
    post: KLogState,
    out: Seq<Message<Payload>>,
)
    requires
        pre.inv(),
        steps(pre, input, post, Ok(out)),
    ensures
        keeps_order(standing_of(pre), input, standing_of(post), out),
{
    let before = standing_of(pre);
    let after = standing_of(post);
    match input {
        Event::Message(m) => match m.body.payload {
            Payload::Send { key, msg } => {
                assert forall|s: Seq<char>, x: usize| #[trigger]
                    after.owed.contains((s, x)) implies before.owed.contains((s, x)) || (m.src@ == s
                    && m.body.id == Some(x)) by {
                    let c = choose|c: usize| #[trigger]
                        post.pending.contains_key(c) && post.pending[c].request_src == s
                            && post.pending[c].request_msg_id == Some(x);
                    if c != pre.id {
                        assert(pre.pending.contains_key(c));
                    }
                }
            },
            Payload::CasOk => {
                match answered_swap(pre.pending, m) {
                    Some(c) => {
                        assert(pre.pending.contains_key(c));
                        assert forall|s: Seq<char>, x: usize| #[trigger]
                            after.owed.contains((s, x)) implies before.owed.contains((s, x)) by {
                            let d = choose|d: usize| #[trigger]
                                post.pending.contains_key(d) && post.pending[d].request_src == s
                                    && post.pending[d].request_msg_id == Some(x);
                            assert(pre.pending.contains_key(d));
                        }
                        if out[0].body.in_reply_to is Some {
                            assert(before.owed.contains(
                                (out[0].dest@, out[0].body.in_reply_to->Some_0),
                            ));
                        }
                    },
                    None => {},
                }
            },
            Payload::Error { code, text } => {
                if code != KEY_MISSING && code == PRECONDITION_FAILED {
                    assert forall|s: Seq<char>, x: usize| #[trigger]
                        after.owed.contains((s, x)) implies before.owed.contains((s, x)) by {
                        let d = choose|d: usize| #[trigger]
                            post.pending.contains_key(d) && post.pending[d].request_src == s
                                && post.pending[d].request_msg_id == Some(x);
                        assert(pre.pending.contains_key(d));
                    }
                }
            },
            _ => {},
        },
        Event::InjectedPayload(_) => {
            if !(forall|c: usize| #[trigger]
                pre.pending.contains_key(c) ==> !pre.pending[c].cas_failed) {
                let c = choose|c: usize| #[trigger]
                    pre.pending.contains_key(c) && pre.pending[c].cas_failed && post == (KLogState {
                        id: (pre.id + 1) as usize,
                        pending: pre.pending.remove(c).insert(
                            pre.id,
                            Pending {
                                offset: (pre.curr_offset + 1) as usize,
                                cas_msg_id: pre.id,
                                cas_failed: false,
                                ..pre.pending[c]
                            },
                        ),
                        ..pre
                    });
                assert forall|s: Seq<char>, x: usize| #[trigger]
                    after.owed.contains((s, x)) implies before.owed.contains((s, x)) by {
                    let d = choose|d: usize| #[trigger]
                        post.pending.contains_key(d) && post.pending[d].request_src == s
                            && post.pending[d].request_msg_id == Some(x);
                    if d == pre.id {
                        assert(pre.pending.contains_key(c));
                    } else {
                        assert(pre.pending.contains_key(d));
                    }
                }
            }
        },
        Event::EOF => {},
    }
}

/// A step that fails leaves the state as it was.
pub proof fn lemma_failure_changes_nothing(
    pre: KLogState,
    input: Event<Payload, InjectedPayload>,
    post: KLogState,
    e: StepError,
)
    requires
        steps(pre, input, post, Err(e)),
    ensures
        post == pre,
{
}

impl Node<Payload, InjectedPayload> for KLogNode {
    open spec fn wf(&self) -> bool {
        self@.inv()
    }

    open spec fn standing(&self) -> Standing {
        standing_of(self@)
    }

    open spec fn stepped(
        pre: Self,
        input: Event<Payload, InjectedPayload>,
        post: Self,
        r: Result<Seq<Message<Payload>>, StepError>,
    ) -> bool {
        steps(pre@, input, post@, r)
    }

    /// Every init record is taken.
    open spec fn refusal(init: Init) -> Option<StepError> {
        None
    }

    open spec fn built_from(&self, init: Init) -> bool {
        self@ == fresh(init.node_id@, crate::message::names(init.node_ids@))
    }

    /// Never fails: see [`KLogNode::new`].
    fn from_init(init: Init) -> (r: Result<Self, StepError>)
        ensures
            r matches Ok(node) && node@ == fresh(init.node_id@, crate::message::names(init.node_ids@)),
    {
        let node = KLogNode::new(init);
        assert(owed_by(node@.pending) =~= Set::<(Seq<char>, usize)>::empty());
        Ok(node)
    }

    /// One timer: the retry tick.
    fn timers() -> (t: Vec<Timer<InjectedPayload>>)
        ensures
            t@.len() == 1,
            t@[0].every_ms == RETRY_EVERY_MS,
            t@[0].event == InjectedPayload::Gossip,
    {
        let mut t = Vec::new();
        t.push(Timer { every_ms: RETRY_EVERY_MS, event: InjectedPayload::Gossip });
        t
    }

    /// Handles one event as [`steps`] says. For an `error` with the code for
    /// a failed precondition the current value is searched in the error text
    /// with the pattern [`CURRENT_VALUE`]; the step fails with
    /// [`StepError::Pattern`] only if that pattern does not compile.
    fn step(&mut self, input: Event<Payload, InjectedPayload>) -> (r: Result<
        Vec<Message<Payload>>,
        StepError,
    >)
        ensures
            steps(old(self)@, input, final(self)@, sent(r)),
    {
        let r = match &input {
            Event::Message(m) => match &m.body.payload {
                Payload::Send { key, msg } => self.on_send(m, key, *msg),
                Payload::Poll { offsets } => self.on_poll(m, offsets),
                Payload::CommitOffsets { offsets } => self.on_commit_offsets(m, offsets),
                Payload::ListCommittedOffsets { keys } => self.on_list_committed_offsets(m, keys),
                Payload::CasOk => self.on_cas_ok(m),
                Payload::Error { code, text } => {
                    if *code == KEY_MISSING {
                        self.on_counter_missing(m)
                    } else if *code == PRECONDITION_FAILED {
                        match capture(CURRENT_VALUE, text.as_str(), CURRENT_GROUP) {
                            Ok(current) => self.on_turned_down(m, current),
                            Err(_) => Err(StepError::Pattern),
                        }
                    } else {
                        Ok(Vec::new())
                    }
                },
                Payload::SendOk { .. }
                | Payload::PollOk { .. }
                | Payload::CommitOffsetsOk
                | Payload::ListCommittedOffsetsOk { .. }
                | Payload::Cas { .. } => Ok(Vec::new()),
            },
            Event::InjectedPayload(_) => self.on_retry(),
            Event::EOF => Ok(Vec::new()),
        };
        proof {
            if r is Ok {
                lemma_steps_keep_order(old(self)@, input, self@, r->Ok_0@);
            } else {
                lemma_failure_changes_nothing(old(self)@, input, self@, r->Err_0);
            }
        }
        r
    }
}

/// A run of a log node: the states it went through, the events it was
/// handed and what it sent for each.
pub open spec fn is_run(
    states: Seq<KLogState>,
    inputs: Seq<Event<Payload, InjectedPayload>>,
    outputs: Seq<Seq<Message<Payload>>>,
) -> bool {
    &&& states.len() == inputs.len() + 1
    &&& outputs.len() == inputs.len()
    &&& forall|i: int|
        0 <= i < inputs.len() ==> steps(
            #[trigger] states[i],
            inputs[i],
            states[i + 1],
            Ok(outputs[i]),
        )
}

/// `m` is a swap sent under the id `c` that reserves the offset `to`.
pub open spec fn swaps_to(m: Message<Payload>, c: usize, to: usize) -> bool {
    &&& m.body.id == Some(c)
    &&& m.body.payload matches Payload::Cas { to: t, .. }
    &&& t == to
}

/// Before step `upto` the node sent a swap under the id `c` that reserves
/// the offset `to`.
pub open spec fn swap_sent(outputs: Seq<Seq<Message<Payload>>>, upto: int, c: usize, to: usize) -> bool {
    exists|j: int, a: int|
        0 <= j < upto && j < outputs.len() && 0 <= a < outputs[j].len() && swaps_to(
            #[trigger] outputs[j][a],
            c,
            to,
        )
}

/// `out` tells a client that its message was logged at `offset`.
pub open spec fn publishes(out: Seq<Message<Payload>>, offset: usize) -> bool {
    out.len() == 1 && out[0].body.payload == (Payload::SendOk { offset })
}

/// Every waiting request reserves the offset of the swap sent under its id.
pub proof fn lemma_waiting_matches_swap(
    states: Seq<KLogState>,
    inputs: Seq<Event<Payload, InjectedPayload>>,
    outputs: Seq<Seq<Message<Payload>>>,
    i: int,
    c: usize,
)
    requires
        is_run(states, inputs, outputs),
        states[0].pending == Map::<usize, Pending>::empty(),
        0 <= i <= inputs.len(),
        states[i].pending.contains_key(c),
    ensures
        swap_sent(outputs, i, c, states[i].pending[c].offset),
    decreases i,
{
    if i > 0 {
        let pre = states[i - 1];
        let post = states[i];
        let input = inputs[i - 1];
        let out = outputs[i - 1];
        assert(steps(states[i - 1], inputs[i - 1], states[i - 1 + 1], Ok(outputs[i - 1])));
        let fresh = post.pending.contains_key(c) && (!pre.pending.contains_key(c)
            || pre.pending[c].offset != post.pending[c].offset);
        if fresh {
            match input {
                Event::Message(m) => match m.body.payload {
                    Payload::Send { key, msg } => {
                        assert(c == pre.id);
                        assert(swaps_to(out[0], c, post.pending[c].offset));
                    },
                    Payload::CasOk => {},
                    Payload::Error { code, text } => {},
                    _ => {},
                },
                Event::InjectedPayload(_) => {
                    assert(c == pre.id);
                    assert(swaps_to(out[0], c, post.pending[c].offset));
                },
                Event::EOF => {},
            }
            assert(swaps_to(outputs[i - 1][0], c, post.pending[c].offset));
        } else {
            lemma_waiting_matches_swap(states, inputs, outputs, i - 1, c);
            let (j, a) = choose|j: int, a: int|
                0 <= j < i - 1 && j < outputs.len() && 0 <= a < outputs[j].len() && swaps_to(
                    #[trigger] outputs[j][a],
                    c,
                    pre.pending[c].offset,
                );
            assert(swaps_to(outputs[j][a], c, post.pending[c].offset));
        }
    }
}

/// An offset is published only once the store has acknowledged the swap that
/// reserves it: when a step of a run tells a client the offset of its
/// message, the event of that step is a `cas_ok`, and it answers a swap that
/// the node sent earlier in the run for exactly that offset.
pub proof fn published_offset_was_swapped(
    states: Seq<KLogState>,
    inputs: Seq<Event<Payload, InjectedPayload>>,
    outputs: Seq<Seq<Message<Payload>>>,
    i: int,
    offset: usize,
) -> (c: usize)
    requires
        is_run(states, inputs, outputs),
        states[0].pending == Map::<usize, Pending>::empty(),
        0 <= i < inputs.len(),
        publishes(outputs[i], offset),
    ensures
        inputs[i] matches Event::Message(m) && m.body.payload == Payload::CasOk
            && m.body.in_reply_to == Some(c),
        swap_sent(outputs, i, c, offset),
        states[i + 1].log(states[i].pending[c].key).contains_key(offset),
{
    assert(steps(states[i], inputs[i], states[i + 1], Ok(outputs[i])));
    let pre = states[i];
    match inputs[i] {
        Event::Message(m) => match m.body.payload {
            Payload::CasOk => {
                let c = answered_swap(pre.pending, m)->Some_0;
                lemma_waiting_matches_swap(states, inputs, outputs, i, c);
                c
            },
            _ => 0,
        },
        _ => 0,
    }
}

/// The store acknowledges no offset twice: no two `cas_ok` of the run answer
/// swaps that reserve the same offset.
pub open spec fn acknowledged_once(
    inputs: Seq<Event<Payload, InjectedPayload>>,
    outputs: Seq<Seq<Message<Payload>>>,
) -> bool {
    forall|i: int, j: int, ci: usize, cj: usize, offset: usize|
        #![trigger swap_sent(outputs, i, ci, offset), swap_sent(outputs, j, cj, offset)]
        0 <= i < j < inputs.len() && acknowledges(inputs[i], ci) && acknowledges(inputs[j], cj)
            ==> !(swap_sent(outputs, i, ci, offset) && swap_sent(outputs, j, cj, offset))
}

/// The event is a `cas_ok` for the swap sent under the id `c`.
pub open spec fn acknowledges(input: Event<Payload, InjectedPayload>, c: usize) -> bool {
    input matches Event::Message(m) && m.body.payload == Payload::CasOk && m.body.in_reply_to
        == Some(c)
}

/// Published offsets are distinct: as long as the store acknowledges no
/// offset twice, no two steps of a run publish the same offset.
pub proof fn published_offsets_differ(
    states: Seq<KLogState>,
    inputs: Seq<Event<Payload, InjectedPayload>>,
    outputs: Seq<Seq<Message<Payload>>>,
    i: int,
    j: int,
    first: usize,
    second: usize,
)
    requires
        is_run(states, inputs, outputs),
        states[0].pending == Map::<usize, Pending>::empty(),
        acknowledged_once(inputs, outputs),
        0 <= i < j < inputs.len(),
        publishes(outputs[i], first),
        publishes(outputs[j], second),
    ensures
        first != second,
{
    let ci = published_offset_was_swapped(states, inputs, outputs, i, first);
    let cj = published_offset_was_swapped(states, inputs, outputs, j, second);
    if first == second {
        assert(swap_sent(outputs, i, ci, first) && swap_sent(outputs, j, cj, first));
    }
}

/// What `poll` lists for a key is pinned down: two lists that both hold, by
/// strictly ascending offset, exactly the entries of a log from an offset on
/// are the same list.
pub proof fn tail_is_unique(
    v: Seq<(usize, usize)>,
    w: Seq<(usize, usize)>,
    log: Map<usize, usize>,
    from: usize,
)
    requires
        is_tail(v, log, from),
        is_tail(w, log, from),
    ensures
        v == w,
    decreases v.len(),
{
    if v.len() == 0 {
        if w.len() > 0 {
            let k = w[0].0;
            assert(log.contains_key(k) && k >= from);
            let i = choose|i: int| 0 <= i < v.len() && (#[trigger] v[i]).0 == k;
        }
        assert(v =~= w);
    } else {
        let last = v.len() - 1;
        let top = v[last].0;
        assert(log.contains_key(top) && top >= from);
        let j = choose|j: int| 0 <= j < w.len() && (#[trigger] w[j]).0 == top;
        if j < w.len() - 1 {
            let above = w[w.len() - 1].0;
            assert(w[j].0 < w[w.len() - 1].0);
            assert(log.contains_key(above) && above >= from);
            let i = choose|i: int| 0 <= i < v.len() && (#[trigger] v[i]).0 == above;
            if i < last {
                assert(v[i].0 < v[last].0);
            }
        }
        let rest = log.remove(top);
        let v2 = v.drop_last();
        let w2 = w.drop_last();
        assert forall|k: usize| rest.contains_key(k) && k >= from implies exists|i: int|
            0 <= i < v2.len() && (#[trigger] v2[i]).0 == k by {
            let i = choose|i: int| 0 <= i < v.len() && (#[trigger] v[i]).0 == k;
            assert(v2[i] == v[i]);
        }
        assert forall|k: usize| rest.contains_key(k) && k >= from implies exists|i: int|
            0 <= i < w2.len() && (#[trigger] w2[i]).0 == k by {
            let i = choose|i: int| 0 <= i < w.len() && (#[trigger] w[i]).0 == k;
            assert(w2[i] == w[i]);
        }
        assert forall|i: int| 0 <= i < v2.len() implies rest.contains_key((#[trigger] v2[i]).0)
            && rest[v2[i].0] == v2[i].1 && v2[i].0 >= from by {
            assert(v2[i] == v[i]);
            assert(v[i].0 < v[last].0);
        }
        assert forall|i: int| 0 <= i < w2.len() implies rest.contains_key((#[trigger] w2[i]).0)
            && rest[w2[i].0] == w2[i].1 && w2[i].0 >= from by {
            assert(w2[i] == w[i]);
            assert(w[i].0 < w[w.len() - 1].0);
        }
        assert forall|a: int, b: int| 0 <= a < b < v2.len() implies (#[trigger] v2[a]).0 < (
        #[trigger] v2[b]).0 by {
            assert(v2[a] == v[a] && v2[b] == v[b]);
        }
        assert forall|a: int, b: int| 0 <= a < b < w2.len() implies (#[trigger] w2[a]).0 < (
        #[trigger] w2[b]).0 by {
            assert(w2[a] == w[a] && w2[b] == w[b]);
        }
        tail_is_unique(v2, w2, rest, from);
        assert(w[w.len() - 1].1 == log[top]);
        assert(v[last] == w[w.len() - 1]);
        assert(v =~= v2.push(v[last]));
        assert(w =~= w2.push(w[w.len() - 1]));
    }
}

} // verus!
