//! Broadcast by gossip. Every node keeps the set of values it has seen and,
//! on each tick of its timer, sends each neighbour the values it does not
//! yet know that neighbour to hold.

use crate::message::{clone_names, names, Body, Event, Init, Message, FIRST_ID};
use crate::node::{idle, keeps_order, sent, Node, Standing, StepError, Timer};
use crate::sets::{collect, difference, elements, insert_all};
use crate::table::StrMap;
use std::collections::HashMap;
use std::collections::HashSet;
use vstd::prelude::*;

verus! {

/// The gossip timer's period in milliseconds.
pub const GOSSIP_EVERY_MS: u64 = 500;

/// What this workload's messages carry.
#[derive(Debug)]
pub enum Payload {
    Read,
    Broadcast { message: usize },
    Topology { topology: StrMap<Vec<String>> },
    ReadOk { messages: Vec<usize> },
    BroadcastOk,
    TopologyOk,
    Gossip { new_messages: Vec<usize> },
    GossipOk,
}

/// The events this workload's timer injects.
#[derive(Debug, Clone, Copy, PartialEq, Eq)]
pub enum InjectedPayload {
    /// Time to tell the neighbours what is new.
    Gossip,
}

/// The model of a node's state.
pub struct BroadcastState {
    /// The node's own name.
    pub node: Seq<char>,
    /// The id of the next outgoing message.
    pub id: usize,
    /// The values seen.
    pub messages: Set<usize>,
    /// Per peer, the values that the peer is known to hold.
    pub known: Map<Seq<char>, Set<usize>>,
    /// The neighbours to gossip with.
    pub neighbours: Seq<Seq<char>>,
    /// The values sent and not yet confirmed, by the id of the gossip that
    /// carried them.
    pub pending: Map<usize, Set<usize>>,
}

/// The values that `peer` is known to hold; none where nothing is known.
pub open spec fn known_of(known: Map<Seq<char>, Set<usize>>, peer: Seq<char>) -> Set<usize> {
    if known.contains_key(peer) {
        known[peer]
    } else {
        Set::empty()
    }
}

impl BroadcastState {
    /// The values seen that `peer` is not known to hold.
    pub open spec fn news(self, peer: Seq<char>) -> Set<usize> {
        self.messages.difference(known_of(self.known, peer))
    }

    /// There is a value seen that `peer` is not known to hold.
    pub open spec fn has_news(self, peer: Seq<char>) -> bool {
        exists|m: usize| #[trigger] self.news(peer).contains(m)
    }

    /// Of the first `upto` neighbours, those for which there is news, in order.
    pub open spec fn targets(self, upto: int) -> Seq<Seq<char>> {
        self.neighbours.take(upto).filter(|n: Seq<char>| self.has_news(n))
    }

    /// The values sent and not yet confirmed after gossip went to the
    /// neighbours `to`, under the ids from `self.id` on.
    pub open spec fn pending_after(self, to: Seq<Seq<char>>) -> Map<usize, Set<usize>> {
        Map::new(
            |k: usize| self.pending.contains_key(k) || self.id <= k < self.id + to.len(),
            |k: usize|
                if self.id <= k < self.id + to.len() {
                    self.news(to[k - self.id])
                } else {
                    self.pending[k]
                },
        )
    }
}

/// Walking the neighbours: the next one joins the targets exactly when there
/// is news for it.
pub proof fn lemma_targets_step(s: BroadcastState, i: int)
    requires
        0 <= i < s.neighbours.len(),
    ensures
        s.targets(0) == Seq::<Seq<char>>::empty(),
        s.targets(i + 1) == if s.has_news(s.neighbours[i]) {
            s.targets(i).push(s.neighbours[i])
        } else {
            s.targets(i)
        },
        s.targets(i).len() <= i,
{
    reveal(Seq::filter);
    assert(s.neighbours.take(0) =~= Seq::<Seq<char>>::empty());
    assert(s.neighbours.take(i + 1).drop_last() =~= s.neighbours.take(i));
    assert(s.neighbours.take(i + 1).last() == s.neighbours[i]);
    s.neighbours.take(i).lemma_filter_len(|n: Seq<char>| s.has_news(n));
}

/// The targets among the first `upto` neighbours are exactly the neighbours
/// among them for which there is news.
pub proof fn lemma_targets(s: BroadcastState, upto: int)
    requires
        0 <= upto <= s.neighbours.len(),
    ensures
        forall|j: int|
            0 <= j < s.targets(upto).len() ==> s.has_news(#[trigger] s.targets(upto)[j])
                && s.neighbours.contains(s.targets(upto)[j]),
        forall|i: int|
            0 <= i < upto && s.has_news(#[trigger] s.neighbours[i]) ==> s.targets(upto).contains(
                s.neighbours[i],
            ),
    decreases upto,
{
    if upto == 0 {
        reveal(Seq::filter);
        assert(s.neighbours.take(0) =~= Seq::<Seq<char>>::empty());
    } else {
        lemma_targets(s, upto - 1);
        lemma_targets_step(s, upto - 1);
        let before = s.targets(upto - 1);
        let now = s.targets(upto);
        let n = s.neighbours[upto - 1];
        assert forall|j: int| 0 <= j < now.len() implies s.has_news(#[trigger] now[j])
            && s.neighbours.contains(now[j]) by {
            if j < before.len() {
                assert(now[j] == before[j]);
            }
        }
        assert forall|i: int| 0 <= i < upto && s.has_news(#[trigger] s.neighbours[i]) implies now.contains(
            s.neighbours[i],
        ) by {
            if i < upto - 1 {
                let j = choose|j: int| 0 <= j < before.len() && before[j] == s.neighbours[i];
                assert(now[j] == s.neighbours[i]);
            } else {
                assert(now[now.len() - 1] == n);
            }
        }
    }
}

/// `m` answers `request` under the id `id` with the payload-free
/// acknowledgement `ack`.
pub open spec fn acks(
    out: Seq<Message<Payload>>,
    request: Message<Payload>,
    id: usize,
    ack: Payload,
) -> bool {
    &&& out.len() == 1
    &&& out[0].answers(&request)
    &&& out[0].body.id == Some(id)
    &&& out[0].body.payload == ack
}

/// `read`: the reply lists the values seen, each once.
pub open spec fn reads(
    pre: BroadcastState,
    request: Message<Payload>,
    post: BroadcastState,
    r: Result<Seq<Message<Payload>>, StepError>,
) -> bool {
    if pre.id == usize::MAX {
        r == Err::<Seq<Message<Payload>>, StepError>(StepError::IdsExhausted) && post == pre
    } else {
        &&& r matches Ok(out)
        &&& out.len() == 1
        &&& out[0].answers(&request)
        &&& out[0].body.id == Some(pre.id)
        &&& out[0].body.payload matches Payload::ReadOk { messages }
        &&& messages@.to_set() == pre.messages
        &&& messages@.no_duplicates()
        &&& post == BroadcastState { id: (pre.id + 1) as usize, ..pre }
    }
}

/// `broadcast`: the value is seen from now on.
pub open spec fn broadcasts(
    pre: BroadcastState,
    request: Message<Payload>,
    message: usize,
    post: BroadcastState,
    r: Result<Seq<Message<Payload>>, StepError>,
) -> bool {
    if pre.id == usize::MAX {
        r == Err::<Seq<Message<Payload>>, StepError>(StepError::IdsExhausted) && post == pre
    } else {
        &&& r matches Ok(out)
        &&& acks(out, request, pre.id, Payload::BroadcastOk)
        &&& post == BroadcastState {
            id: (pre.id + 1) as usize,
            messages: pre.messages.insert(message),
            ..pre
        }
    }
}

/// `topology`: the node's entry becomes its list of neighbours. A topology
/// without an entry for the node ends the run.
pub open spec fn rewires(
    pre: BroadcastState,
    request: Message<Payload>,
    topology: Map<Seq<char>, Vec<String>>,
    post: BroadcastState,
    r: Result<Seq<Message<Payload>>, StepError>,
) -> bool {
    if !topology.contains_key(pre.node) {
        r == Err::<Seq<Message<Payload>>, StepError>(StepError::NoTopology) && post == pre
    } else if pre.id == usize::MAX {
        r == Err::<Seq<Message<Payload>>, StepError>(StepError::IdsExhausted) && post == pre
    } else {
        &&& r matches Ok(out)
        &&& acks(out, request, pre.id, Payload::TopologyOk)
        &&& post == BroadcastState {
            id: (pre.id + 1) as usize,
            neighbours: names(topology[pre.node]@),
            ..pre
        }
    }
}

/// `gossip`: the values it carries are seen from now on.
pub open spec fn hears(
    pre: BroadcastState,
    request: Message<Payload>,
    new_messages: Seq<usize>,
    post: BroadcastState,
    r: Result<Seq<Message<Payload>>, StepError>,
) -> bool {
    if pre.id == usize::MAX {
        r == Err::<Seq<Message<Payload>>, StepError>(StepError::IdsExhausted) && post == pre
    } else {
        &&& r matches Ok(out)
        &&& acks(out, request, pre.id, Payload::GossipOk)
        &&& post == BroadcastState {
            id: (pre.id + 1) as usize,
            messages: pre.messages.union(new_messages.to_set()),
            ..pre
        }
    }
}

/// The gossip that `reply` confirms, by its id.
pub open spec fn confirmed_gossip(pending: Map<usize, Set<usize>>, reply: Message<Payload>) -> Option<
    usize,
> {
    match reply.body.in_reply_to {
        Some(id) => if pending.contains_key(id) {
            Some(id)
        } else {
            None
        },
        None => None,
    }
}

/// `gossip_ok`: where it confirms a gossip still pending, the values that
/// gossip carried are from now on known to be held by the sender of the
/// confirmation, and the gossip is pending no more. Any other `gossip_ok` is
/// ignored.
pub open spec fn confirms(
    pre: BroadcastState,
    reply: Message<Payload>,
    post: BroadcastState,
    r: Result<Seq<Message<Payload>>, StepError>,
) -> bool {
    match confirmed_gossip(pre.pending, reply) {
        Some(id) => {
            &&& r == Ok::<Seq<Message<Payload>>, StepError>(Seq::empty())
            &&& post == BroadcastState {
                known: pre.known.insert(
                    reply.src@,
                    known_of(pre.known, reply.src@).union(pre.pending[id]),
                ),
                pending: pre.pending.remove(id),
                ..pre
            }
        },
        None => idle(pre, post, r),
    }
}

/// The gossip timer: every neighbour for which there is news is sent that
/// news, in the order of the neighbour list, and what was sent is recorded
/// under the id of the message. Neighbours without news are skipped.
pub open spec fn spreads(
    pre: BroadcastState,
    post: BroadcastState,
    r: Result<Seq<Message<Payload>>, StepError>,
) -> bool {
    let to = pre.targets(pre.neighbours.len() as int);
    if pre.id + pre.neighbours.len() > usize::MAX {
        r == Err::<Seq<Message<Payload>>, StepError>(StepError::IdsExhausted) && post == pre
    } else {
        &&& r matches Ok(out)
        &&& carries(pre, out, to)
        &&& post == BroadcastState {
            id: (pre.id + to.len()) as usize,
            pending: pre.pending_after(to),
            ..pre
        }
    }
}

/// `out` is the gossip of the state `pre` to the neighbours `to`: one
/// message each, in order, under consecutive ids, carrying the news for that
/// neighbour with every value once.
pub open spec fn carries(pre: BroadcastState, out: Seq<Message<Payload>>, to: Seq<Seq<char>>) -> bool {
    &&& out.len() == to.len()
    &&& forall|i: int|
        0 <= i < out.len() ==> {
            &&& (#[trigger] out[i]).is_unsolicited(pre.node, to[i], (pre.id + i) as usize)
            &&& out[i].body.payload matches Payload::Gossip { new_messages }
            &&& new_messages@.to_set() == pre.news(to[i])
            &&& new_messages@.no_duplicates()
        }
}

/// What a step does, event by event.
pub open spec fn steps(
    pre: BroadcastState,
    input: Event<Payload, InjectedPayload>,
    post: BroadcastState,
    r: Result<Seq<Message<Payload>>, StepError>,
) -> bool {
    match input {
        Event::Message(m) => match m.body.payload {
            Payload::Read => reads(pre, m, post, r),
            Payload::Broadcast { message } => broadcasts(pre, m, message, post, r),
            Payload::Topology { topology } => rewires(pre, m, topology@, post, r),
            Payload::Gossip { new_messages } => hears(pre, m, new_messages@, post, r),
            Payload::GossipOk => confirms(pre, m, post, r),
            Payload::ReadOk { .. } | Payload::BroadcastOk | Payload::TopologyOk => idle(
                pre,
                post,
                r,
            ),
        },
        Event::InjectedPayload(_) => spreads(pre, post, r),
        Event::EOF => idle(pre, post, r),
    }
}

/// The model of the table of what the peers are known to hold.
pub open spec fn known_view(m: Map<Seq<char>, HashSet<usize>>) -> Map<Seq<char>, Set<usize>> {
    Map::new(|k: Seq<char>| m.contains_key(k), |k: Seq<char>| m[k]@)
}

/// The model of the table of gossip pending.
pub open spec fn pending_view(m: Map<usize, HashSet<usize>>) -> Map<usize, Set<usize>> {
    Map::new(|k: usize| m.contains_key(k), |k: usize| m[k]@)
}

/// The state of the node `name` right after the handshake of a system with
/// the nodes `all`: nothing seen, no neighbours, and every node known to hold
/// nothing.
pub open spec fn fresh(name: Seq<char>, all: Seq<Seq<char>>) -> BroadcastState {
    BroadcastState {
        node: name,
        id: FIRST_ID,
        messages: Set::empty(),
        known: Map::new(|k: Seq<char>| all.contains(k), |k: Seq<char>| Set::empty()),
        neighbours: Seq::empty(),
        pending: Map::empty(),
    }
}

/// A node of the broadcast workload.
pub struct BroadcastNode {
    node: String,
    id: usize,
    messages: HashSet<usize>,
    known: StrMap<HashSet<usize>>,
    neighbours: Vec<String>,
    msg_communicated: HashMap<usize, HashSet<usize>>,
}

impl View for BroadcastNode {
    type V = BroadcastState;

    closed spec fn view(&self) -> BroadcastState {
        BroadcastState {
            node: self.node@,
            id: self.id,
            messages: self.messages@,
            known: known_view(self.known@),
            neighbours: names(self.neighbours@),
            pending: pending_view(self.msg_communicated@),
        }
    }
}

impl BroadcastNode {
    /// The node as it stands after the handshake: nothing seen, no
    /// neighbours, and every node known to hold nothing.
    pub fn new(init: Init) -> (node: Self)
        ensures
            node@ == fresh(init.node_id@, names(init.node_ids@)),
    {
        let mut known: StrMap<HashSet<usize>> = StrMap::new();
        let ghost all = names(init.node_ids@);
        let mut i: usize = 0;
        while i < init.node_ids.len()
            invariant
                i <= init.node_ids@.len(),
                all == names(init.node_ids@),
                forall|k: Seq<char>| #[trigger]
                    known@.contains_key(k) <==> all.take(i as int).contains(k),
                forall|k: Seq<char>| #[trigger]
                    known@.contains_key(k) ==> known@[k]@ == Set::<usize>::empty(),
            decreases init.node_ids@.len() - i,
        {
            let ghost seen = all.take(i as int);
            let ghost next = all.take(i + 1);
            proof {
                assert forall|k: Seq<char>|
                    next.contains(k) <==> seen.contains(k) || k == all[i as int] by {
                    if seen.contains(k) {
                        let j = choose|j: int| 0 <= j < seen.len() && seen[j] == k;
                        assert(next[j] == k);
                    }
                    if k == all[i as int] {
                        assert(next[i as int] == k);
                    }
                    if next.contains(k) {
                        let j = choose|j: int| 0 <= j < next.len() && next[j] == k;
                        if j < i {
                            assert(seen[j] == k);
                        }
                    }
                }
            }
            known.insert(init.node_ids[i].clone(), HashSet::new());
            i = i + 1;
        }
        proof {
            assert(all.take(init.node_ids@.len() as int) =~= all);
        }
        let node = BroadcastNode {
            node: init.node_id,
            id: FIRST_ID,
            messages: HashSet::new(),
            known,
            msg_communicated: HashMap::new(),
            neighbours: Vec::new(),
        };
        proof {
            assert(node@.known =~= Map::new(
                |k: Seq<char>| all.contains(k),
                |k: Seq<char>| Set::<usize>::empty(),
            ));
            assert(node@.pending =~= Map::empty());
            assert(node@.neighbours =~= Seq::empty());
        }
        node
    }

    /// Whether the value `m` has been seen.
    pub fn has_seen(&self, m: usize) -> (b: bool)
        ensures
            b == self@.messages.contains(m),
    {
        self.messages.contains(&m)
    }

    /// The number of gossip messages sent and not yet confirmed.
    pub fn pending(&self) -> (n: usize)
        ensures
            n == self@.pending.dom().len(),
    {
        assert(self@.pending.dom() =~= self.msg_communicated@.dom());
        self.msg_communicated.len()
    }

    /// Handles a `read` request.
    pub fn on_read(&mut self, request: &Message<Payload>) -> (r: Result<
        Vec<Message<Payload>>,
        StepError,
    >)
        ensures
            reads(old(self)@, *request, final(self)@, sent(r)),
    {
        if self.id == usize::MAX {
            return Err(StepError::IdsExhausted);
        }
        let ghost pre = self@;
        let messages = elements(&self.messages);
        let reply = request.construct_reply(Payload::ReadOk { messages }, Some(&mut self.id));
        let mut out = Vec::new();
        out.push(reply);
        proof {
            assert(self@.known == pre.known);
            assert(self@.pending == pre.pending);
        }
        Ok(out)
    }

    /// Handles a `broadcast` request.
    pub fn on_broadcast(&mut self, request: &Message<Payload>, message: usize) -> (r: Result<
        Vec<Message<Payload>>,
        StepError,
    >)
        ensures
            broadcasts(old(self)@, *request, message, final(self)@, sent(r)),
    {
        if self.id == usize::MAX {
            return Err(StepError::IdsExhausted);
        }
        let ghost pre = self@;
        self.messages.insert(message);
        let reply = request.construct_reply(Payload::BroadcastOk, Some(&mut self.id));
        let mut out = Vec::new();
        out.push(reply);
        proof {
            assert(self@.known == pre.known);
            assert(self@.pending == pre.pending);
        }
        Ok(out)
    }

    /// Handles a `topology` message.
    pub fn on_topology(&mut self, request: &Message<Payload>, topology: &StrMap<Vec<String>>) -> (r:
        Result<Vec<Message<Payload>>, StepError>)
        ensures
            rewires(old(self)@, *request, topology@, final(self)@, sent(r)),
    {
        let ghost pre = self@;
        let mine = match topology.get(&self.node) {
            Some(list) => list,
            None => {
                return Err(StepError::NoTopology);
            },
        };
        if self.id == usize::MAX {
            return Err(StepError::IdsExhausted);
        }
        self.neighbours = clone_names(mine);
        let reply = request.construct_reply(Payload::TopologyOk, Some(&mut self.id));
        let mut out = Vec::new();
        out.push(reply);
        proof {
            assert(self@.known == pre.known);
            assert(self@.pending == pre.pending);
        }
        Ok(out)
    }

    /// Handles a `gossip` message.
    pub fn on_gossip(&mut self, request: &Message<Payload>, new_messages: &Vec<usize>) -> (r:
        Result<Vec<Message<Payload>>, StepError>)
        ensures
            hears(old(self)@, *request, new_messages@, final(self)@, sent(r)),
    {
        if self.id == usize::MAX {
            return Err(StepError::IdsExhausted);
        }
        let ghost pre = self@;
        insert_all(&mut self.messages, new_messages);
        let reply = request.construct_reply(Payload::GossipOk, Some(&mut self.id));
        let mut out = Vec::new();
        out.push(reply);
        proof {
            assert(self@.known == pre.known);
            assert(self@.pending == pre.pending);
        }
        Ok(out)
    }

    /// Handles a `gossip_ok`.
    pub fn on_gossip_ok(&mut self, reply: &Message<Payload>) -> (r: Result<
        Vec<Message<Payload>>,
        StepError,
    >)
        ensures
            confirms(old(self)@, *reply, final(self)@, sent(r)),
    {
        let ghost pre = self@;
        let id = match reply.body.in_reply_to {
            Some(id) => id,
            None => {
                return Ok(Vec::new());
            },
        };
        let carried = match self.msg_communicated.remove(&id) {
            Some(set) => set,
            None => {
                assert(self@.pending =~= pre.pending);
                return Ok(Vec::new());
            },
        };
        let mut held = match self.known.remove(&reply.src) {
            Some(set) => set,
            None => HashSet::new(),
        };
        assert(held@ =~= known_of(pre.known, reply.src@));
        let values = elements(&carried);
        insert_all(&mut held, &values);
        self.known.insert(reply.src.clone(), held);
        proof {
            assert(self@.pending =~= pre.pending.remove(id));
            assert(self@.known =~= pre.known.insert(
                reply.src@,
                known_of(pre.known, reply.src@).union(pre.pending[id]),
            ));
        }
        Ok(Vec::new())
    }

    /// Handles a tick of the gossip timer.
    pub fn on_tick(&mut self) -> (r: Result<Vec<Message<Payload>>, StepError>)
        ensures
            spreads(old(self)@, final(self)@, sent(r)),
    {
        if self.neighbours.len() > usize::MAX - self.id {
            return Err(StepError::IdsExhausted);
        }
        let ghost pre = self@;
        let nothing: HashSet<usize> = HashSet::new();
        let mut out: Vec<Message<Payload>> = Vec::new();
        let mut i: usize = 0;
        proof {
            if pre.neighbours.len() > 0 {
                lemma_targets_step(pre, 0);
            } else {
                reveal(Seq::filter);
                assert(pre.neighbours.take(0) =~= Seq::<Seq<char>>::empty());
            }
            assert(pre.pending_after(pre.targets(0)) =~= pre.pending);
        }
        while i < self.neighbours.len()
            invariant
                i <= pre.neighbours.len(),
                pre.id + pre.neighbours.len() <= usize::MAX,
                nothing@ == Set::<usize>::empty(),
                pre.targets(i as int).len() <= i,
                carries(pre, out@, pre.targets(i as int)),
                self@ == (BroadcastState {
                    id: (pre.id + pre.targets(i as int).len()) as usize,
                    pending: pre.pending_after(pre.targets(i as int)),
                    ..pre
                }),
            decreases pre.neighbours.len() - i,
        {
            let ghost before = out@;
            let ghost to = pre.targets(i as int);
            let ghost peer = pre.neighbours[i as int];
            proof {
                lemma_targets_step(pre, i as int);
            }
            let news = match self.known.get(&self.neighbours[i]) {
                Some(held) => difference(&self.messages, held),
                None => difference(&self.messages, &nothing),
            };
            assert(news@.to_set() =~= pre.news(peer));
            if news.len() > 0 {
                proof {
                    assert(news@.to_set().contains(news@[0]));
                    assert(pre.news(peer).contains(news@[0]));
                }
                let sent_values = collect(&news);
                let msg = Message {
                    dest: self.neighbours[i].clone(),
                    src: self.node.clone(),
                    body: Body {
                        payload: Payload::Gossip { new_messages: news },
                        id: Some(self.id),
                        in_reply_to: None,
                    },
                };
                let ghost mid = self@;
                self.msg_communicated.insert(self.id, sent_values);
                assert(self@.pending =~= mid.pending.insert(mid.id, pre.news(peer)));
                self.id = self.id + 1;
                out.push(msg);
                proof {
                    let next = to.push(peer);
                    assert forall|j: int| 0 <= j < out@.len() implies {
                        &&& (#[trigger] out@[j]).is_unsolicited(
                            pre.node,
                            next[j],
                            (pre.id + j) as usize,
                        )
                        &&& out@[j].body.payload matches Payload::Gossip { new_messages }
                        &&& new_messages@.to_set() == pre.news(next[j])
                        &&& new_messages@.no_duplicates()
                    } by {
                        if j < before.len() {
                            assert(out@[j] == before[j]);
                            assert(next[j] == to[j]);
                        }
                    }
                    let grown = pre.pending_after(next);
                    let was = pre.pending_after(to);
                    let here = was.insert(mid.id, pre.news(peer));
                    assert(mid.pending == was);
                    assert(mid.id == pre.id + to.len());
                    assert(next.len() == to.len() + 1);
                    assert forall|k: usize| here.contains_key(k) <==> grown.contains_key(k) by {}
                    assert forall|k: usize| grown.contains_key(k) implies #[trigger] here[k]
                        == grown[k] by {
                        if pre.id <= k < pre.id + to.len() {
                            assert(next[k - pre.id] == to[k - pre.id]);
                        } else if k == pre.id + to.len() {
                            assert(next[k - pre.id] == peer);
                        }
                    }
                    assert(here =~= grown);
                    assert(self@.pending == grown);
                    assert(self@.known == pre.known);
                }
            } else {
                proof {
                    if pre.has_news(peer) {
                        let m = choose|m: usize| #[trigger] pre.news(peer).contains(m);
                        assert(news@.to_set().contains(m));
                    }
                }
            }
            i = i + 1;
        }
        Ok(out)
    }
}

/// What the runtime's laws see of a state: this workload answers every
/// request at once and owes nothing.
pub open spec fn standing_of(s: BroadcastState) -> Standing {
    Standing { name: s.node, next_id: s.id, owed: Set::empty() }
}

/// Every step that succeeds keeps the runtime's order.
pub proof fn lemma_steps_keep_order(
    pre: BroadcastState,
    input: Event<Payload, InjectedPayload>,
    post: BroadcastState,
    out: Seq<Message<Payload>>,
)
    requires
        steps(pre, input, post, Ok(out)),
    ensures
        keeps_order(standing_of(pre), input, standing_of(post), out),
{
    if input is InjectedPayload {
        pre.neighbours.lemma_filter_len(|n: Seq<char>| pre.has_news(n));
        assert(pre.neighbours.take(pre.neighbours.len() as int) =~= pre.neighbours);
    }
}

/// A step that fails leaves the state as it was.
pub proof fn lemma_failure_changes_nothing(
    pre: BroadcastState,
    input: Event<Payload, InjectedPayload>,
    post: BroadcastState,
    e: StepError,
)
    requires
        steps(pre, input, post, Err(e)),
    ensures
        post == pre,
{
}

impl Node<Payload, InjectedPayload> for BroadcastNode {
    open spec fn wf(&self) -> bool {
        true
    }

    open spec fn standing(&self) -> Standing {
        standing_of(self@)
    }

    open spec fn stepped(
        pre: Self,
        input: Event<Payload, InjectedPayload>,
        post: Self,
        r: Result<Seq<Message<Payload>>, StepError>,
    ) -> bool {
        steps(pre@, input, post@, r)
    }

    /// Every init record is taken.
    open spec fn refusal(init: Init) -> Option<StepError> {
        None
    }

    open spec fn built_from(&self, init: Init) -> bool {
        self@ == fresh(init.node_id@, names(init.node_ids@))
    }

    /// Never fails: see [`BroadcastNode::new`].
    fn from_init(init: Init) -> (r: Result<Self, StepError>)
        ensures
            r matches Ok(node) && node@ == fresh(init.node_id@, names(init.node_ids@)),
    {
        Ok(BroadcastNode::new(init))
    }

    /// One timer: the gossip tick.
    fn timers() -> (t: Vec<Timer<InjectedPayload>>)
        ensures
            t@.len() == 1,
            t@[0].every_ms == GOSSIP_EVERY_MS,
            t@[0].event == InjectedPayload::Gossip,
    {
        let mut t = Vec::new();
        t.push(Timer { every_ms: GOSSIP_EVERY_MS, event: InjectedPayload::Gossip });
        t
    }

    /// Handles one event as [`steps`] says.
    fn step(&mut self, input: Event<Payload, InjectedPayload>) -> (r: Result<
        Vec<Message<Payload>>,
        StepError,
    >)
        ensures
            steps(old(self)@, input, final(self)@, sent(r)),
    {
        let r = match &input {
            Event::Message(m) => match &m.body.payload {
                Payload::Read => self.on_read(m),
                Payload::Broadcast { message } => self.on_broadcast(m, *message),
                Payload::Topology { topology } => self.on_topology(m, topology),
                Payload::Gossip { new_messages } => self.on_gossip(m, new_messages),
                Payload::GossipOk => self.on_gossip_ok(m),
                Payload::ReadOk { .. } | Payload::BroadcastOk | Payload::TopologyOk => Ok(
                    Vec::new(),
                ),
            },
            Event::InjectedPayload(_) => self.on_tick(),
            Event::EOF => Ok(Vec::new()),
        };
        proof {
            if r is Ok {
                lemma_steps_keep_order(old(self)@, input, self@, r->Ok_0@);
            } else {
                lemma_failure_changes_nothing(old(self)@, input, self@, r->Err_0);
            }
        }
        r
    }
}

/// The timer of a node in this state would send nothing: there is no news
/// for any neighbour.
pub open spec fn quiet(s: BroadcastState) -> bool {
    forall|n: Seq<char>| s.neighbours.contains(n) ==> !s.has_news(n)
}

/// What the nodes believe of each other is true: whatever a node knows a
/// peer to hold, that peer has seen.
pub open spec fn sound(system: Map<Seq<char>, BroadcastState>) -> bool {
    forall|a: Seq<char>, b: Seq<char>|
        system.contains_key(a) && system.contains_key(b) ==> #[trigger] known_of(
            system[a].known,
            b,
        ).subset_of(system[b].messages)
}

/// `path` leads through the system along neighbour links.
pub open spec fn is_path(system: Map<Seq<char>, BroadcastState>, path: Seq<Seq<char>>) -> bool {
    &&& path.len() >= 1
    &&& forall|i: int| 0 <= i < path.len() ==> system.contains_key(#[trigger] path[i])
    &&& forall|i: int|
        0 <= i < path.len() - 1 ==> system[path[i]].neighbours.contains(#[trigger] path[i + 1])
}

/// Every node can be reached from every other along neighbour links.
pub open spec fn connected(system: Map<Seq<char>, BroadcastState>) -> bool {
    forall|a: Seq<char>, b: Seq<char>|
        system.contains_key(a) && system.contains_key(b) ==> exists|path: Seq<Seq<char>>|
            #[trigger] is_path(system, path) && path.first() == a && path.last() == b
}

/// All values seen by any node of the system.
pub open spec fn seen_anywhere(system: Map<Seq<char>, BroadcastState>) -> Set<usize> {
    Set::new(
        |m: usize|
            exists|a: Seq<char>| system.contains_key(a) && (#[trigger] system[a]).messages.contains(m),
    )
}

/// A quiet node's timer sends nothing and changes nothing, and only a quiet
/// node's timer sends nothing.
pub proof fn quiet_means_silent(
    pre: BroadcastState,
    post: BroadcastState,
    out: Seq<Message<Payload>>,
)
    requires
        spreads(pre, post, Ok(out)),
    ensures
        quiet(pre) <==> out.len() == 0,
        quiet(pre) ==> post == pre,
{
    let all = pre.neighbours;
    let to = pre.targets(all.len() as int);
    lemma_targets(pre, all.len() as int);
    if quiet(pre) {
        if to.len() > 0 {
            assert(pre.has_news(to[0]));
        }
        assert(pre.pending_after(to) =~= pre.pending);
    } else {
        let n = choose|n: Seq<char>| all.contains(n) && pre.has_news(n);
        let i = choose|i: int| 0 <= i < all.len() && all[i] == n;
        assert(pre.has_news(all[i]));
        assert(to.contains(all[i]));
    }
}

/// The event is a `broadcast` of the value `m` or a `gossip` that carries it.
pub open spec fn brings(input: Event<Payload, InjectedPayload>, m: usize) -> bool {
    match input {
        Event::Message(msg) => match msg.body.payload {
            Payload::Broadcast { message } => message == m,
            Payload::Gossip { new_messages } => new_messages@.contains(m),
            _ => false,
        },
        _ => false,
    }
}

/// No step makes a node forget a value, and what a step adds is the value
/// of a `broadcast` or comes out of a `gossip`.
pub proof fn seen_values_stay(
    pre: BroadcastState,
    input: Event<Payload, InjectedPayload>,
    post: BroadcastState,
    r: Result<Seq<Message<Payload>>, StepError>,
)
    requires
        steps(pre, input, post, r),
    ensures
        pre.messages.subset_of(post.messages),
        forall|m: usize| #[trigger]
            post.messages.contains(m) && !pre.messages.contains(m) ==> brings(input, m),
        forall|peer: Seq<char>| #[trigger]
            known_of(pre.known, peer).subset_of(known_of(post.known, peer)),
{
}

/// Gossip delivers: when a node hears the gossip that a ticking node sent
/// it, it has seen from then on everything the sender had seen, provided it
/// held what the sender knew it to hold.
pub proof fn gossip_delivers(
    sender: BroadcastState,
    after_tick: BroadcastState,
    sent_out: Seq<Message<Payload>>,
    i: int,
    receiver: BroadcastState,
    after_gossip: BroadcastState,
    reply: Seq<Message<Payload>>,
)
    requires
        spreads(sender, after_tick, Ok(sent_out)),
        0 <= i < sent_out.len(),
        steps(receiver, Event::Message(sent_out[i]), after_gossip, Ok(reply)),
        known_of(sender.known, sent_out[i].dest@).subset_of(receiver.messages),
    ensures
        sender.messages.subset_of(after_gossip.messages),
{
    let g = sent_out[i];
    let to = sender.targets(sender.neighbours.len() as int);
    assert(g.is_unsolicited(sender.node, to[i], (sender.id + i) as usize));
    let values = g.body.payload->Gossip_new_messages;
    assert(values@.to_set() == sender.news(to[i]));
    assert forall|m: usize| sender.messages.contains(m) implies after_gossip.messages.contains(
        m,
    ) by {
        if !known_of(sender.known, to[i]).contains(m) {
            assert(sender.news(to[i]).contains(m));
            assert(values@.to_set().contains(m));
        }
    }
}

/// A confirmation teaches only what is true: when the receiver of a gossip
/// has heard it and the sender takes the receiver's `gossip_ok` for it while
/// that gossip is still pending, then what the sender newly knows the
/// receiver to hold, the receiver has seen.
pub proof fn confirmation_is_sound(
    sender: BroadcastState,
    after_tick: BroadcastState,
    sent_out: Seq<Message<Payload>>,
    i: int,
    receiver: BroadcastState,
    after_gossip: BroadcastState,
    reply: Seq<Message<Payload>>,
    later: BroadcastState,
    after_ok: BroadcastState,
)
    requires
        spreads(sender, after_tick, Ok(sent_out)),
        0 <= i < sent_out.len(),
        steps(receiver, Event::Message(sent_out[i]), after_gossip, Ok(reply)),
        later.pending.contains_key((sender.id + i) as usize),
        later.pending[(sender.id + i) as usize] == after_tick.pending[(sender.id + i) as usize],
        known_of(later.known, reply[0].src@).subset_of(after_gossip.messages),
        steps(later, Event::Message(reply[0]), after_ok, Ok(Seq::empty())),
    ensures
        reply.len() == 1,
        reply[0].body.payload == Payload::GossipOk,
        reply[0].body.in_reply_to == Some((sender.id + i) as usize),
        known_of(after_ok.known, reply[0].src@).subset_of(after_gossip.messages),
{
    let g = sent_out[i];
    let id = (sender.id + i) as usize;
    let all = sender.neighbours;
    assert(all.take(all.len() as int) =~= all);
    let to = sender.targets(all.len() as int);
    all.lemma_filter_len(|n: Seq<char>| sender.has_news(n));
    assert(g.is_unsolicited(sender.node, to[i], id));
    let values = g.body.payload->Gossip_new_messages;
    assert(values@.to_set() == sender.news(to[i]));
    assert(after_tick.pending[id] == sender.news(to[i]));
    let ok = reply[0];
    assert(confirmed_gossip(later.pending, ok) == Some(id));
    let held = known_of(later.known, ok.src@).union(later.pending[id]);
    assert(after_ok.known == later.known.insert(ok.src@, held));
    assert forall|m: usize| known_of(after_ok.known, ok.src@).contains(
        m,
    ) implies after_gossip.messages.contains(m) by {
        if later.pending[id].contains(m) {
            assert(values@.to_set().contains(m));
        }
    }
}

/// At rest a value has travelled along every path: in a sound system of
/// quiet nodes, what the first node of a path has seen, the last has seen.
pub proof fn values_reach_along_paths(
    system: Map<Seq<char>, BroadcastState>,
    path: Seq<Seq<char>>,
)
    requires
        sound(system),
        forall|a: Seq<char>| system.contains_key(a) ==> quiet(#[trigger] system[a]),
        is_path(system, path),
    ensures
        system[path.first()].messages.subset_of(system[path.last()].messages),
    decreases path.len(),
{
    if path.len() > 1 {
        let front = path.drop_last();
        assert forall|i: int| 0 <= i < front.len() implies system.contains_key(
            #[trigger] front[i],
        ) by {
            assert(front[i] == path[i]);
        }
        assert forall|i: int| 0 <= i < front.len() - 1 implies system[front[i]].neighbours.contains(
            #[trigger] front[i + 1],
        ) by {
            assert(front[i] == path[i]);
            assert(front[i + 1] == path[i + 1]);
        }
        values_reach_along_paths(system, front);
        let a = path[path.len() - 2];
        let b = path.last();
        assert(front.last() == a);
        assert(front.first() == path.first());
        assert(system.contains_key(a));
        assert(system.contains_key(b));
        assert(system[a].neighbours.contains(path[path.len() - 2 + 1]));
        assert(quiet(system[a]));
        assert(known_of(system[a].known, b).subset_of(system[b].messages));
        assert forall|m: usize| system[a].messages.contains(m) implies system[b].messages.contains(
            m,
        ) by {
            if !known_of(system[a].known, b).contains(m) {
                assert(system[a].news(b).contains(m));
                assert(system[a].has_news(b));
            }
        }
    }
}

/// Convergence at rest: in a sound and connected system in which no timer
/// has anything left to send, every node has seen the same values, namely
/// all values that any node has seen; so every `read` lists the same set.
pub proof fn quiet_nodes_agree(system: Map<Seq<char>, BroadcastState>, a: Seq<char>)
    requires
        sound(system),
        connected(system),
        forall|n: Seq<char>| system.contains_key(n) ==> quiet(#[trigger] system[n]),
        system.contains_key(a),
    ensures
        system[a].messages == seen_anywhere(system),
{
    assert forall|m: usize| seen_anywhere(system).contains(m) implies system[a].messages.contains(
        m,
    ) by {
        let b = choose|b: Seq<char>|
            system.contains_key(b) && (#[trigger] system[b]).messages.contains(m);
        let path = choose|path: Seq<Seq<char>>|
            #[trigger] is_path(system, path) && path.first() == b && path.last() == a;
        values_reach_along_paths(system, path);
    }
    assert(system[a].messages =~= seen_anywhere(system));
}

/// A node of the broadcast workload never owes an answer: every reply it sends
/// answers the message of that very step, so its replies are correlated
/// whomever the messages it is handed are addressed to.
pub proof fn answers_at_once()
    ensures
        crate::node::owes_nothing::<Payload, InjectedPayload, BroadcastNode>(),
{
}

} // verus!
