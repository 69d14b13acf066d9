//! A totally available transactional map. Every node answers transactions
//! from its own copy of the map and passes the transactions it took on to the
//! other nodes, which apply their writes.

use crate::message::{others, without, Body, Event, Init, Message, FIRST_ID};
use crate::node::{idle, keeps_order, sent, Node, Standing, StepError, Timer};
use crate::table::StrMap;
use std::collections::HashMap;
use vstd::prelude::*;

verus! {

/// The gossip timer's period in milliseconds.
pub const GOSSIP_EVERY_MS: u64 = 200;

/// What an operation does.
#[derive(Debug, Clone, Copy, PartialEq, Eq)]
pub enum OpType {
    Read,
    Write,
}

/// One operation of a transaction. On the wire it is the triple of `"r"` or
/// `"w"`, the key, and the value or null.
#[derive(Debug, Clone, Copy)]
pub struct Op {
    pub op_type: OpType,
    pub key: isize,
    pub val: Option<isize>,
}

/// A transaction as the nodes pass it on.
#[derive(Debug, Clone)]
pub struct Txn {
    pub ops: Vec<Op>,
}

/// What this workload's messages carry.
#[derive(Debug, Clone)]
pub enum Payload {
    Txn { txn: Vec<Op> },
    TxnOk { txn: Vec<Op> },
    Gossip { txn: Txn },
    GossipOk,
}

/// The events this workload's timer injects.
#[derive(Debug, Clone, Copy, PartialEq, Eq)]
pub enum InjectedPayload {
    /// Time to pass queued transactions on.
    Gossip,
}

/// A word that names no kind of operation.
#[derive(Debug, Clone, Copy, PartialEq, Eq)]
pub struct InvalidOpType;

impl OpType {
    /// The kind of operation that the word `s` names on the wire, if any.
    pub open spec fn named(s: Seq<char>) -> Option<OpType> {
        if s == seq!['r'] {
            Some(OpType::Read)
        } else if s == seq!['w'] {
            Some(OpType::Write)
        } else {
            None
        }
    }

    /// Reads a kind of operation: `"r"` is a read, `"w"` a write, and no
    /// other word is one.
    pub fn from_str(s: &str) -> (r: Result<OpType, InvalidOpType>)
        ensures
            match r {
                Ok(t) => OpType::named(s@) == Some(t),
                Err(_) => OpType::named(s@) is None,
            },
    {
        if s.unicode_len() != 1 {
            return Err(InvalidOpType);
        }
        let c = s.get_char(0);
        assert(s@ =~= seq![c]);
        if c == 'r' {
            Ok(OpType::Read)
        } else if c == 'w' {
            Ok(OpType::Write)
        } else {
            assert(seq![c][0] == c);
            Err(InvalidOpType)
        }
    }

    /// The word for this kind of operation on the wire.
    pub fn as_str(&self) -> (s: &'static str)
        ensures
            OpType::named(s@) == Some(*self),
    {
        proof {
            reveal_strlit("r");
            reveal_strlit("w");
        }
        match self {
            OpType::Read => {
                assert("r"@ =~= seq!['r']);
                "r"
            },
            OpType::Write => {
                assert("w"@ =~= seq!['w']);
                assert(seq!['w'][0] != 'r');
                "w"
            },
        }
    }
}

impl Op {
    /// The operation that the triple `(word, key, val)` spells on the wire.
    pub fn from_parts(word: &str, key: isize, val: Option<isize>) -> (r: Result<Op, InvalidOpType>)
        ensures
            match r {
                Ok(op) => OpType::named(word@) == Some(op.op_type) && op.key == key && op.val
                    == val,
                Err(_) => OpType::named(word@) is None,
            },
    {
        match OpType::from_str(word) {
            Ok(op_type) => Ok(Op { op_type, key, val }),
            Err(e) => Err(e),
        }
    }

    /// The triple that spells this operation on the wire.
    pub fn to_parts(&self) -> (r: (&'static str, isize, Option<isize>))
        ensures
            OpType::named(r.0@) == Some(self.op_type),
            r.1 == self.key,
            r.2 == self.val,
    {
        (self.op_type.as_str(), self.key, self.val)
    }
}

/// The map after one operation: a write with a value sets it, everything
/// else leaves the map as it is.
pub open spec fn apply_op(m: Map<isize, isize>, op: Op) -> Map<isize, isize> {
    match (op.op_type, op.val) {
        (OpType::Write, Some(v)) => m.insert(op.key, v),
        _ => m,
    }
}

/// What the answer to a transaction holds for one operation met at the map
/// `m`: a read with the value stored under its key, or null; a write as it
/// came, whatever its value.
pub open spec fn observe(m: Map<isize, isize>, op: Op) -> Op {
    match op.op_type {
        OpType::Read => Op {
            op_type: OpType::Read,
            key: op.key,
            val: if m.contains_key(op.key) {
                Some(m[op.key])
            } else {
                None
            },
        },
        OpType::Write => op,
    }
}

/// The map after the operations `ops`, applied in order.
pub open spec fn apply_all(m: Map<isize, isize>, ops: Seq<Op>) -> Map<isize, isize>
    decreases ops.len(),
{
    if ops.len() == 0 {
        m
    } else {
        apply_op(apply_all(m, ops.drop_last()), ops.last())
    }
}

/// The answer to the transaction `ops` taken at the map `m`: one operation
/// for each of the transaction, in order, each observed at the map that the
/// operations before it left.
pub open spec fn answer(m: Map<isize, isize>, ops: Seq<Op>) -> Seq<Op> {
    Seq::new(ops.len(), |j: int| observe(apply_all(m, ops.take(j)), ops[j]))
}

/// The queue of `peer`, empty where there is none yet.
pub open spec fn queue_of(q: Map<Seq<char>, Seq<Seq<Op>>>, peer: Seq<char>) -> Seq<Seq<Op>> {
    if q.contains_key(peer) {
        q[peer]
    } else {
        Seq::empty()
    }
}

/// The queues after the transaction `ops` was put at the end of the queue of
/// each of `peers`.
pub open spec fn enqueue(
    q: Map<Seq<char>, Seq<Seq<Op>>>,
    peers: Seq<Seq<char>>,
    ops: Seq<Op>,
) -> Map<Seq<char>, Seq<Seq<Op>>>
    decreases peers.len(),
{
    if peers.len() == 0 {
        q
    } else {
        let before = enqueue(q, peers.drop_last(), ops);
        before.insert(peers.last(), queue_of(before, peers.last()).push(ops))
    }
}

/// The transactions that a list holds.
pub open spec fn txns_view(v: Seq<Txn>) -> Seq<Seq<Op>> {
    Seq::new(v.len(), |i: int| v[i].ops@)
}

/// The model of the queues in a table.
pub open spec fn queues_view(m: Map<Seq<char>, Vec<Txn>>) -> Map<Seq<char>, Seq<Seq<Op>>> {
    Map::new(|k: Seq<char>| m.contains_key(k), |k: Seq<char>| txns_view(m[k]@))
}

/// The model of the table of gossip in flight.
pub open spec fn in_flight_view(m: Map<usize, (String, Vec<Txn>)>) -> Map<
    usize,
    (Seq<char>, Seq<Seq<Op>>),
> {
    Map::new(|k: usize| m.contains_key(k), |k: usize| (m[k].0@, txns_view(m[k].1@)))
}

/// The model of a node's state.
pub struct TAMapState {
    /// The node's own name.
    pub node: Seq<char>,
    /// The names of the other nodes.
    pub peers: Seq<Seq<char>>,
    /// The id of the next outgoing message.
    pub id: usize,
    /// The node's copy of the map.
    pub map: Map<isize, isize>,
    /// Per peer, the transactions still to pass on, oldest first.
    pub queued: Map<Seq<char>, Seq<Seq<Op>>>,
    /// The gossip sent and not yet acknowledged, by its id: the peer it went
    /// to and the batch it belonged to.
    pub in_flight: Map<usize, (Seq<char>, Seq<Seq<Op>>)>,
}

/// Gossip in flight after the batch `txns` went to `peer` under the ids from
/// `first` on.
pub open spec fn sent_batch(
    in_flight: Map<usize, (Seq<char>, Seq<Seq<Op>>)>,
    first: usize,
    peer: Seq<char>,
    txns: Seq<Seq<Op>>,
) -> Map<usize, (Seq<char>, Seq<Seq<Op>>)> {
    Map::new(
        |k: usize| in_flight.contains_key(k) || first <= k < first + txns.len(),
        |k: usize|
            if first <= k < first + txns.len() {
                (peer, txns)
            } else {
                in_flight[k]
            },
    )
}

/// `txn`: the operations are applied in order to the node's map, the answer
/// holds what they observed, and the transaction is queued for every peer.
pub open spec fn transacts(
    pre: TAMapState,
    request: Message<Payload>,
    ops: Seq<Op>,
    post: TAMapState,
    r: Result<Seq<Message<Payload>>, StepError>,
) -> bool {
    if pre.id == usize::MAX {
        r == Err::<Seq<Message<Payload>>, StepError>(StepError::IdsExhausted) && post == pre
    } else {
        &&& r matches Ok(out)
        &&& out.len() == 1
        &&& out[0].answers(&request)
        &&& out[0].body.id == Some(pre.id)
        &&& out[0].body.payload matches Payload::TxnOk { txn }
        &&& txn@ == answer(pre.map, ops)
        &&& post == TAMapState {
            id: (pre.id + 1) as usize,
            map: apply_all(pre.map, ops),
            queued: enqueue(pre.queued, pre.peers, ops),
            ..pre
        }
    }
}

/// `gossip`: the writes of the transaction are applied in order.
pub open spec fn hears(
    pre: TAMapState,
    request: Message<Payload>,
    ops: Seq<Op>,
    post: TAMapState,
    r: Result<Seq<Message<Payload>>, StepError>,
) -> bool {
    if pre.id == usize::MAX {
        r == Err::<Seq<Message<Payload>>, StepError>(StepError::IdsExhausted) && post == pre
    } else {
        &&& r matches Ok(out)
        &&& out.len() == 1
        &&& out[0].answers(&request)
        &&& out[0].body.id == Some(pre.id)
        &&& out[0].body.payload == Payload::GossipOk
        &&& post == TAMapState { id: (pre.id + 1) as usize, map: apply_all(pre.map, ops), ..pre }
    }
}

/// `gossip_ok`: the gossip it answers is in flight no more. One that does
/// not tell what it answers ends the run.
pub open spec fn acknowledged(
    pre: TAMapState,
    reply: Message<Payload>,
    post: TAMapState,
    r: Result<Seq<Message<Payload>>, StepError>,
) -> bool {
    match reply.body.in_reply_to {
        None => r == Err::<Seq<Message<Payload>>, StepError>(StepError::NoInReplyTo) && post == pre,
        Some(id) => {
            &&& r == Ok::<Seq<Message<Payload>>, StepError>(Seq::empty())
            &&& post == TAMapState { in_flight: pre.in_flight.remove(id), ..pre }
        },
    }
}

/// The gossip timer: the queue of one peer is flushed. Each transaction in
/// it goes to that peer as a message of its own, oldest first, and is
/// recorded as in flight; the peer's queue is dropped. With no queue nothing
/// happens.
pub open spec fn flushes(
    pre: TAMapState,
    post: TAMapState,
    r: Result<Seq<Message<Payload>>, StepError>,
) -> bool {
    if pre.queued.dom() == Set::<Seq<char>>::empty() {
        idle(pre, post, r)
    } else {
        exists|peer: Seq<char>| #[trigger]
            pre.queued.contains_key(peer) && flushes_to(pre, peer, post, r)
    }
}

/// The gossip timer's step where it picks the queue of `peer`.
pub open spec fn flushes_to(
    pre: TAMapState,
    peer: Seq<char>,
    post: TAMapState,
    r: Result<Seq<Message<Payload>>, StepError>,
) -> bool {
    let txns = pre.queued[peer];
    if pre.id + txns.len() > usize::MAX {
        r == Err::<Seq<Message<Payload>>, StepError>(StepError::IdsExhausted) && post == pre
    } else {
        &&& r matches Ok(out)
        &&& out.len() == txns.len()
        &&& forall|i: int|
            0 <= i < out.len() ==> {
                &&& (#[trigger] out[i]).is_unsolicited(pre.node, peer, (pre.id + i) as usize)
                &&& out[i].body.payload matches Payload::Gossip { txn }
                &&& txn.ops@ == txns[i]
            }
        &&& post == TAMapState {
            id: (pre.id + txns.len()) as usize,
            queued: pre.queued.remove(peer),
            in_flight: sent_batch(pre.in_flight, pre.id, peer, txns),
            ..pre
        }
    }
}

/// What a step does, event by event.
pub open spec fn steps(
    pre: TAMapState,
    input: Event<Payload, InjectedPayload>,
    post: TAMapState,
    r: Result<Seq<Message<Payload>>, StepError>,
) -> bool {
    match input {
        Event::Message(m) => match m.body.payload {
            Payload::Txn { txn } => transacts(pre, m, txn@, post, r),
            Payload::TxnOk { .. } => idle(pre, post, r),
            Payload::Gossip { txn } => hears(pre, m, txn.ops@, post, r),
            Payload::GossipOk => acknowledged(pre, m, post, r),
        },
        Event::InjectedPayload(_) => flushes(pre, post, r),
        Event::EOF => idle(pre, post, r),
    }
}

/// A copy of a list of operations.
pub fn copy_ops(v: &Vec<Op>) -> (r: Vec<Op>)
    ensures
        r@ == v@,
{
    let mut r: Vec<Op> = Vec::new();
    let mut i: usize = 0;
    while i < v.len()
        invariant
            i <= v@.len(),
            r@ == v@.take(i as int),
        decreases v@.len() - i,
    {
        r.push(v[i]);
        assert(r@ =~= v@.take(i + 1));
        i = i + 1;
    }
    assert(v@.take(v@.len() as int) =~= v@);
    r
}

/// A copy of a list of transactions.
pub fn copy_txns(v: &Vec<Txn>) -> (r: Vec<Txn>)
    ensures
        txns_view(r@) == txns_view(v@),
{
    let mut r: Vec<Txn> = Vec::new();
    let mut i: usize = 0;
    while i < v.len()
        invariant
            i <= v@.len(),
            r@.len() == i,
            txns_view(r@) == txns_view(v@).take(i as int),
        decreases v@.len() - i,
    {
        let ghost prev = r@;
        r.push(Txn { ops: copy_ops(&v[i].ops) });
        proof {
            assert forall|j: int| 0 <= j < i + 1 implies txns_view(r@)[j] == txns_view(v@).take(
                i + 1,
            )[j] by {
                if j < i {
                    assert(r@[j] == prev[j]);
                    assert(txns_view(prev)[j] == txns_view(v@).take(i as int)[j]);
                }
            }
            assert(txns_view(r@) =~= txns_view(v@).take(i + 1));
        }
        i = i + 1;
    }
    assert(txns_view(v@).take(v@.len() as int) =~= txns_view(v@));
    r
}

/// The state of the node `name` right after the handshake of a system with
/// the nodes `all`: an empty map, nothing queued and nothing in flight.
pub open spec fn fresh(name: Seq<char>, all: Seq<Seq<char>>) -> TAMapState {
    TAMapState {
        node: name,
        peers: without(all, name),
        id: FIRST_ID,
        map: Map::empty(),
        queued: Map::empty(),
        in_flight: Map::empty(),
    }
}

/// A node of the map workload.
pub struct TAMap {
    id: usize,
    node: String,
    nodes: Vec<String>,
    map: HashMap<isize, isize>,
    txns_to_gossip: StrMap<Vec<Txn>>,
    gossiped_txn: HashMap<usize, (String, Vec<Txn>)>,
}

impl View for TAMap {
    type V = TAMapState;

    closed spec fn view(&self) -> TAMapState {
        TAMapState {
            node: self.node@,
            peers: crate::message::names(self.nodes@),
            id: self.id,
            map: self.map@,
            queued: queues_view(self.txns_to_gossip@),
            in_flight: in_flight_view(self.gossiped_txn@),
        }
    }
}

impl TAMap {
    /// The node as it stands after the handshake, with an empty map.
    pub fn new(init: Init) -> (node: Self)
        ensures
            node@ == fresh(init.node_id@, crate::message::names(init.node_ids@)),
    {
        let nodes = others(&init.node_ids, &init.node_id);
        let node = TAMap {
            id: FIRST_ID,
            nodes,
            node: init.node_id,
            map: HashMap::new(),
            txns_to_gossip: StrMap::new(),
            gossiped_txn: HashMap::new(),
        };
        assert(node@.queued =~= Map::empty());
        assert(node@.in_flight =~= Map::empty());
        node
    }

    /// The value stored under `key`, if any.
    pub fn get(&self, key: isize) -> (r: Option<isize>)
        ensures
            r == (if self@.map.contains_key(key) {
                Some(self@.map[key])
            } else {
                None
            }),
    {
        match self.map.get(&key) {
            Some(v) => Some(*v),
            None => None,
        }
    }

    /// The number of gossip messages sent and not yet acknowledged.
    pub fn in_flight(&self) -> (n: usize)
        ensures
            n == self@.in_flight.dom().len(),
    {
        assert(self@.in_flight.dom() =~= self.gossiped_txn@.dom());
        self.gossiped_txn.len()
    }

    /// Applies the operations in order to the node's map and returns the answer.
    fn apply(&mut self, ops: &Vec<Op>) -> (response: Vec<Op>)
        ensures
            response@ == answer(old(self)@.map, ops@),
            final(self)@ == (TAMapState { map: apply_all(old(self)@.map, ops@), ..old(self)@ }),
    {
        let ghost pre = self@;
        let mut response: Vec<Op> = Vec::new();
        let mut i: usize = 0;
        assert(ops@.take(0) =~= Seq::<Op>::empty());
        while i < ops.len()
            invariant
                i <= ops@.len(),
                response@.len() == i,
                forall|j: int|
                    0 <= j < i ==> #[trigger] response@[j] == observe(
                        apply_all(pre.map, ops@.take(j)),
                        ops@[j],
                    ),
                self@ == (TAMapState { map: apply_all(pre.map, ops@.take(i as int)), ..pre }),
            decreases ops@.len() - i,
        {
            let op = ops[i];
            proof {
                assert(ops@.take(i + 1).drop_last() =~= ops@.take(i as int));
                assert(ops@.take(i + 1).last() == op);
            }
            match op.op_type {
                OpType::Read => {
                    let val = match self.map.get(&op.key) {
                        Some(v) => Some(*v),
                        None => None,
                    };
                    response.push(Op { op_type: OpType::Read, key: op.key, val });
                },
                OpType::Write => {
                    if let Some(val) = op.val {
                        self.map.insert(op.key, val);
                    }
                    response.push(op);
                },
            }
            proof {
                assert(self@.queued == pre.queued);
                assert(self@.in_flight == pre.in_flight);
            }
            i = i + 1;
        }
        assert(ops@.take(ops@.len() as int) =~= ops@);
        assert(response@ =~= answer(pre.map, ops@));
        response
    }

    /// Puts the transaction at the end of the queue of every peer.
    fn queue(&mut self, ops: &Vec<Op>)
        ensures
            final(self)@ == (TAMapState {
                queued: enqueue(old(self)@.queued, old(self)@.peers, ops@),
                ..old(self)@
            }),
    {
        let ghost pre = self@;
        let mut i: usize = 0;
        assert(pre.peers.take(0) =~= Seq::<Seq<char>>::empty());
        while i < self.nodes.len()
            invariant
                i <= pre.peers.len(),
                self@ == (TAMapState {
                    queued: enqueue(pre.queued, pre.peers.take(i as int), ops@),
                    ..pre
                }),
            decreases pre.peers.len() - i,
        {
            let ghost before = self@.queued;
            proof {
                assert(pre.peers.take(i + 1).drop_last() =~= pre.peers.take(i as int));
                assert(pre.peers.take(i + 1).last() == self.nodes@[i as int]@);
            }
            let peer = self.nodes[i].clone();
            let mut q = match self.txns_to_gossip.remove(&peer) {
                Some(q) => q,
                None => Vec::new(),
            };
            assert(txns_view(q@) =~= queue_of(before, peer@));
            q.push(Txn { ops: copy_ops(ops) });
            assert(txns_view(q@) =~= queue_of(before, peer@).push(ops@));
            self.txns_to_gossip.insert(peer, q);
            proof {
                assert(self@.queued =~= before.insert(
                    pre.peers[i as int],
                    queue_of(before, pre.peers[i as int]).push(ops@),
                ));
                assert(self@.in_flight == pre.in_flight);
            }
            i = i + 1;
        }
        assert(pre.peers.take(pre.peers.len() as int) =~= pre.peers);
    }

    /// Handles a `txn` request.
    pub fn on_txn(&mut self, request: &Message<Payload>, ops: &Vec<Op>) -> (r: Result<
        Vec<Message<Payload>>,
        StepError,
    >)
        ensures
            transacts(old(self)@, *request, ops@, final(self)@, sent(r)),
    {
        if self.id == usize::MAX {
            return Err(StepError::IdsExhausted);
        }
        let response = self.apply(ops);
        self.queue(ops);
        let ghost mid = self@;
        let reply = request.construct_reply(Payload::TxnOk { txn: response }, Some(&mut self.id));
        let mut out = Vec::new();
        out.push(reply);
        proof {
            assert(self@.queued == mid.queued);
            assert(self@.in_flight == mid.in_flight);
        }
        Ok(out)
    }

    /// Handles a `gossip` message.
    pub fn on_gossip(&mut self, request: &Message<Payload>, txn: &Txn) -> (r: Result<
        Vec<Message<Payload>>,
        StepError,
    >)
        ensures
            hears(old(self)@, *request, txn.ops@, final(self)@, sent(r)),
    {
        if self.id == usize::MAX {
            return Err(StepError::IdsExhausted);
        }
        let ghost pre = self@;
        let mut i: usize = 0;
        assert(txn.ops@.take(0) =~= Seq::<Op>::empty());
        while i < txn.ops.len()
            invariant
                i <= txn.ops@.len(),
                self@ == (TAMapState { map: apply_all(pre.map, txn.ops@.take(i as int)), ..pre }),
            decreases txn.ops@.len() - i,
        {
            let op = txn.ops[i];
            proof {
                assert(txn.ops@.take(i + 1).drop_last() =~= txn.ops@.take(i as int));
                assert(txn.ops@.take(i + 1).last() == op);
            }
            match op.op_type {
                OpType::Read => {},
                OpType::Write => {
                    if let Some(val) = op.val {
                        self.map.insert(op.key, val);
                    }
                },
            }
            proof {
                assert(self@.queued == pre.queued);
                assert(self@.in_flight == pre.in_flight);
            }
            i = i + 1;
        }
        assert(txn.ops@.take(txn.ops@.len() as int) =~= txn.ops@);
        let ghost mid = self@;
        let reply = request.construct_reply(Payload::GossipOk, Some(&mut self.id));
        let mut out = Vec::new();
        out.push(reply);
        proof {
            assert(self@.queued == mid.queued);
            assert(self@.in_flight == mid.in_flight);
        }
        Ok(out)
    }

    /// Handles a `gossip_ok`.
    pub fn on_gossip_ok(&mut self, reply: &Message<Payload>) -> (r: Result<
        Vec<Message<Payload>>,
        StepError,
    >)
        ensures
            acknowledged(old(self)@, *reply, final(self)@, sent(r)),
    {
        let id = match reply.body.in_reply_to {
            Some(id) => id,
            None => {
                return Err(StepError::NoInReplyTo);
            },
        };
        let ghost pre = self@;
        self.gossiped_txn.remove(&id);
        proof {
            assert(self@.in_flight =~= pre.in_flight.remove(id));
            assert(self@.queued == pre.queued);
        }
        Ok(Vec::new())
    }

    /// Handles a tick of the gossip timer.
    pub fn on_flush(&mut self) -> (r: Result<Vec<Message<Payload>>, StepError>)
        ensures
            flushes(old(self)@, final(self)@, sent(r)),
    {
        let ghost pre = self@;
        if self.txns_to_gossip.len() == 0 {
            assert(self.txns_to_gossip@.dom() =~= Set::<Seq<char>>::empty());
            assert(pre.queued.dom() =~= Set::<Seq<char>>::empty());
            return Ok(Vec::new());
        }
        let peer = self.txns_to_gossip.key_at(0).clone();
        proof {
            assert(pre.queued.contains_key(peer@));
            assert(pre.queued.dom().contains(peer@));
        }
        let count = match self.txns_to_gossip.get(&peer) {
            Some(q) => q.len(),
            None => 0,
        };
        if count > usize::MAX - self.id {
            return Err(StepError::IdsExhausted);
        }
        let txns = match self.txns_to_gossip.remove(&peer) {
            Some(q) => q,
            None => Vec::new(),
        };
        let ghost batch = txns_view(txns@);
        assert(batch == pre.queued[peer@]);
        let mut out: Vec<Message<Payload>> = Vec::new();
        let mut i: usize = 0;
        proof {
            assert(self@.queued =~= pre.queued.remove(peer@));
            assert(self@.in_flight =~= sent_batch_upto(pre.in_flight, pre.id, peer@, batch, 0));
        }
        while i < txns.len()
            invariant
                i <= txns@.len(),
                batch == txns_view(txns@),
                pre.id + txns@.len() <= usize::MAX,
                out@.len() == i,
                forall|j: int|
                    0 <= j < i ==> {
                        &&& (#[trigger] out@[j]).is_unsolicited(
                            pre.node,
                            peer@,
                            (pre.id + j) as usize,
                        )
                        &&& out@[j].body.payload matches Payload::Gossip { txn }
                        &&& txn.ops@ == batch[j]
                    },
                self@ == (TAMapState {
                    id: (pre.id + i) as usize,
                    queued: pre.queued.remove(peer@),
                    in_flight: sent_batch_upto(pre.in_flight, pre.id, peer@, batch, i as int),
                    ..pre
                }),
            decreases txns@.len() - i,
        {
            let ghost before = out@;
            let ghost flying = self@.in_flight;
            let msg = Message {
                src: self.node.clone(),
                dest: peer.clone(),
                body: Body {
                    payload: Payload::Gossip { txn: Txn { ops: copy_ops(&txns[i].ops) } },
                    id: Some(self.id),
                    in_reply_to: None,
                },
            };
            out.push(msg);
            let entry = (peer.clone(), copy_txns(&txns));
            assert(entry.0@ == peer@ && txns_view(entry.1@) == batch);
            self.gossiped_txn.insert(self.id, entry);
            assert(self@.in_flight =~= flying.insert(self.id, (peer@, batch)));
            self.id = self.id + 1;
            proof {
                assert forall|j: int| 0 <= j < i + 1 implies {
                    &&& (#[trigger] out@[j]).is_unsolicited(pre.node, peer@, (pre.id + j) as usize)
                    &&& out@[j].body.payload matches Payload::Gossip { txn }
                    &&& txn.ops@ == batch[j]
                } by {
                    if j < i {
                        assert(out@[j] == before[j]);
                    }
                }
                assert(self@.in_flight =~= sent_batch_upto(
                    pre.in_flight,
                    pre.id,
                    peer@,
                    batch,
                    i + 1,
                ));
                assert(self@.queued == pre.queued.remove(peer@));
            }
            i = i + 1;
        }
        proof {
            assert(sent_batch_upto(pre.in_flight, pre.id, peer@, batch, batch.len() as int)
                =~= sent_batch(pre.in_flight, pre.id, peer@, batch));
            assert(flushes_to(pre, peer@, self@, Ok(out@)));
        }
        Ok(out)
    }
}

/// Gossip in flight after the first `n` messages of the batch `txns` went to
/// `peer` under the ids from `first` on.
pub open spec fn sent_batch_upto(
    in_flight: Map<usize, (Seq<char>, Seq<Seq<Op>>)>,
    first: usize,
    peer: Seq<char>,
    txns: Seq<Seq<Op>>,
    n: int,
) -> Map<usize, (Seq<char>, Seq<Seq<Op>>)> {
    Map::new(
        |k: usize| in_flight.contains_key(k) || first <= k < first + n,
        |k: usize|
            if first <= k < first + n {
                (peer, txns)
            } else {
                in_flight[k]
            },
    )
}

/// What the runtime's laws see of a state: this workload answers every
/// request at once and owes nothing.
pub open spec fn standing_of(s: TAMapState) -> Standing {
    Standing { name: s.node, next_id: s.id, owed: Set::empty() }
}

/// Every step that succeeds keeps the runtime's order.
pub proof fn lemma_steps_keep_order(
    pre: TAMapState,
    input: Event<Payload, InjectedPayload>,
    post: TAMapState,
    out: Seq<Message<Payload>>,
)
    requires
        steps(pre, input, post, Ok(out)),
    ensures
        keeps_order(standing_of(pre), input, standing_of(post), out),
{
}

/// A step that fails leaves the state as it was.
pub proof fn lemma_failure_changes_nothing(
    pre: TAMapState,
    input: Event<Payload, InjectedPayload>,
    post: TAMapState,
    e: StepError,
)
    requires
        steps(pre, input, post, Err(e)),
    ensures
        post == pre,
{
}

impl Node<Payload, InjectedPayload> for TAMap {
    open spec fn wf(&self) -> bool {
        true
    }

    open spec fn standing(&self) -> Standing {
        standing_of(self@)
    }

    open spec fn stepped(
        pre: Self,
        input: Event<Payload, InjectedPayload>,
        post: Self,
        r: Result<Seq<Message<Payload>>, StepError>,
    ) -> bool {
        steps(pre@, input, post@, r)
    }

    /// Every init record is taken.
    open spec fn refusal(init: Init) -> Option<StepError> {
        None
    }

    open spec fn built_from(&self, init: Init) -> bool {
        self@ == fresh(init.node_id@, crate::message::names(init.node_ids@))
    }

    /// Never fails: see [`TAMap::new`].
    fn from_init(init: Init) -> (r: Result<Self, StepError>)
        ensures
            r matches Ok(node) && node@ == fresh(init.node_id@, crate::message::names(init.node_ids@)),
    {
        Ok(TAMap::new(init))
    }

    /// One timer: the gossip tick.
    fn timers() -> (t: Vec<Timer<InjectedPayload>>)
        ensures
            t@.len() == 1,
            t@[0].every_ms == GOSSIP_EVERY_MS,
            t@[0].event == InjectedPayload::Gossip,
    {
        let mut t = Vec::new();
        t.push(Timer { every_ms: GOSSIP_EVERY_MS, event: InjectedPayload::Gossip });
        t
    }

    /// Handles one event as [`steps`] says.
    fn step(&mut self, input: Event<Payload, InjectedPayload>) -> (r: Result<
        Vec<Message<Payload>>,
        StepError,
    >)
        ensures
            steps(old(self)@, input, final(self)@, sent(r)),
    {
        let r = match &input {
            Event::Message(m) => match &m.body.payload {
                Payload::Txn { txn } => self.on_txn(m, txn),
                Payload::TxnOk { .. } => Ok(Vec::new()),
                Payload::Gossip { txn } => self.on_gossip(m, txn),
                Payload::GossipOk => self.on_gossip_ok(m),
            },
            Event::InjectedPayload(_) => self.on_flush(),
            Event::EOF => Ok(Vec::new()),
        };
        proof {
            if r is Ok {
                lemma_steps_keep_order(old(self)@, input, self@, r->Ok_0@);
            } else {
                lemma_failure_changes_nothing(old(self)@, input, self@, r->Err_0);
            }
        }
        r
    }
}

/// The value of the last write to `key` among `ops`, if any of them writes
/// a value to it.
pub open spec fn last_write(ops: Seq<Op>, key: isize) -> Option<isize>
    decreases ops.len(),
{
    if ops.len() == 0 {
        None
    } else {
        let op = ops.last();
        if op.op_type == OpType::Write && op.key == key && op.val is Some {
            op.val
        } else {
            last_write(ops.drop_last(), key)
        }
    }
}

/// The last write wins: after a run of operations a key holds the value of
/// the last write to it, and a key that none of them wrote to is as it was.
pub proof fn last_write_wins(m: Map<isize, isize>, ops: Seq<Op>, key: isize)
    ensures
        match last_write(ops, key) {
            Some(v) => apply_all(m, ops).contains_key(key) && apply_all(m, ops)[key] == v,
            None => apply_all(m, ops).contains_key(key) == m.contains_key(key) && (m.contains_key(
                key,
            ) ==> apply_all(m, ops)[key] == m[key]),
        },
    decreases ops.len(),
{
    if ops.len() > 0 {
        last_write_wins(m, ops.drop_last(), key);
    }
}

/// A transaction reads its own writes: a read that comes last in a
/// transaction, after a write of a value to the same key, is answered with
/// the value of the last such write.
pub proof fn reads_see_own_writes(m: Map<isize, isize>, ops: Seq<Op>)
    requires
        ops.len() > 0,
        ops.last().op_type == OpType::Read,
        last_write(ops.drop_last(), ops.last().key) is Some,
    ensures
        answer(m, ops).len() > 0,
        answer(m, ops).last() == (Op {
            op_type: OpType::Read,
            key: ops.last().key,
            val: last_write(ops.drop_last(), ops.last().key),
        }),
{
    assert(ops.take(ops.len() - 1) =~= ops.drop_last());
    last_write_wins(m, ops.drop_last(), ops.last().key);
}

/// The answer follows the transaction operation by operation: it is as long
/// as the transaction, each of its operations has the kind and the key of
/// the one it answers, every write comes back as it came, and every read
/// comes back with what its key held after the operations before it.
pub proof fn answer_follows_the_transaction(m: Map<isize, isize>, ops: Seq<Op>, j: int)
    requires
        0 <= j < ops.len(),
    ensures
        answer(m, ops).len() == ops.len(),
        answer(m, ops)[j].op_type == ops[j].op_type,
        answer(m, ops)[j].key == ops[j].key,
        ops[j].op_type == OpType::Write ==> answer(m, ops)[j] == ops[j],
        ops[j].op_type == OpType::Read ==> answer(m, ops)[j].val == (if apply_all(
            m,
            ops.take(j),
        ).contains_key(ops[j].key) {
            Some(apply_all(m, ops.take(j))[ops[j].key])
        } else {
            None
        }),
{
}

/// Every value in a node's map was written: whatever a key holds after a
/// step, it held before, or an operation of the step's transaction wrote it.
pub proof fn values_come_from_writes(
    pre: TAMapState,
    input: Event<Payload, InjectedPayload>,
    post: TAMapState,
    r: Result<Seq<Message<Payload>>, StepError>,
    key: isize,
)
    requires
        steps(pre, input, post, r),
        post.map.contains_key(key),
    ensures
        (pre.map.contains_key(key) && pre.map[key] == post.map[key]) || exists|i: int|
            0 <= i < written(input).len() && (#[trigger] written(input)[i]) == (Op {
                op_type: OpType::Write,
                key,
                val: Some(post.map[key]),
            }),
{
    let ops = written(input);
    last_write_wins(pre.map, ops, key);
    if last_write(ops, key) is Some {
        lemma_last_write_is_written(ops, key);
    }
}

/// The operations that the event brings: those of a `txn` or of a `gossip`.
pub open spec fn written(input: Event<Payload, InjectedPayload>) -> Seq<Op> {
    match input {
        Event::Message(m) => match m.body.payload {
            Payload::Txn { txn } => txn@,
            Payload::Gossip { txn } => txn.ops@,
            _ => Seq::empty(),
        },
        _ => Seq::empty(),
    }
}

/// The last write to a key is one of the operations.
pub proof fn lemma_last_write_is_written(ops: Seq<Op>, key: isize)
    requires
        last_write(ops, key) is Some,
    ensures
        exists|i: int|
            0 <= i < ops.len() && (#[trigger] ops[i]) == (Op {
                op_type: OpType::Write,
                key,
                val: last_write(ops, key),
            }),
    decreases ops.len(),
{
    let op = ops.last();
    if op.op_type == OpType::Write && op.key == key && op.val is Some {
        assert(ops[ops.len() - 1] == op);
    } else {
        lemma_last_write_is_written(ops.drop_last(), key);
        let i = choose|i: int|
            0 <= i < ops.drop_last().len() && (#[trigger] ops.drop_last()[i]) == (Op {
                op_type: OpType::Write,
                key,
                val: last_write(ops.drop_last(), key),
            });
        assert(ops[i] == ops.drop_last()[i]);
    }
}

/// A transaction is queued for every peer: after it was put on the queues,
/// the queue of each peer ends with it.
pub proof fn txn_is_queued_for_every_peer(
    q: Map<Seq<char>, Seq<Seq<Op>>>,
    peers: Seq<Seq<char>>,
    ops: Seq<Op>,
    peer: Seq<char>,
)
    requires
        peers.contains(peer),
    ensures
        enqueue(q, peers, ops).contains_key(peer),
        enqueue(q, peers, ops)[peer].len() > 0,
        enqueue(q, peers, ops)[peer].last() == ops,
    decreases peers.len(),
{
    let front = peers.drop_last();
    if peers.last() != peer {
        let j = choose|j: int| 0 <= j < peers.len() && peers[j] == peer;
        assert(front[j] == peer);
        txn_is_queued_for_every_peer(q, front, ops, peer);
    }
}

/// Writes become visible: when a peer hears the gossip that a flushing node
/// sent it, every key that the gossiped transaction wrote a value to holds,
/// at the peer, the last value the transaction wrote to it.
pub proof fn gossiped_writes_are_visible(
    sender: TAMapState,
    after_flush: TAMapState,
    sent_out: Seq<Message<Payload>>,
    i: int,
    receiver: TAMapState,
    after_gossip: TAMapState,
    reply: Seq<Message<Payload>>,
    key: isize,
)
    requires
        flushes(sender, after_flush, Ok(sent_out)),
        0 <= i < sent_out.len(),
        steps(receiver, Event::Message(sent_out[i]), after_gossip, Ok(reply)),
        last_write(written(Event::Message(sent_out[i])), key) is Some,
    ensures
        sent_out[i].body.payload is Gossip,
        exists|peer: Seq<char>| #[trigger]
            sender.queued.contains_key(peer) && i < sender.queued[peer].len()
                && sender.queued[peer][i] == written(Event::Message(sent_out[i])),
        after_gossip.map.contains_key(key),
        Some(after_gossip.map[key]) == last_write(written(Event::Message(sent_out[i])), key),
{
    assert(sender.queued.dom() != Set::<Seq<char>>::empty()) by {
        if sender.queued.dom() == Set::<Seq<char>>::empty() {
            assert(sent_out.len() == 0);
        }
    }
    let peer = choose|peer: Seq<char>| #[trigger]
        sender.queued.contains_key(peer) && flushes_to(sender, peer, after_flush, Ok(sent_out));
    let g = sent_out[i];
    assert(g.is_unsolicited(sender.node, peer, (sender.id + i) as usize));
    last_write_wins(receiver.map, written(Event::Message(g)), key);
}

/// A node of the map workload never owes an answer: every reply it sends
/// answers the message of that very step, so its replies are correlated
/// whomever the messages it is handed are addressed to.
pub proof fn answers_at_once()
    ensures
        crate::node::owes_nothing::<Payload, InjectedPayload, TAMap>(),
{
}

} // verus!
