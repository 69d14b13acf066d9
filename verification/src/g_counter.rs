//! A grow-only counter. Every node counts what was added at it and keeps a
//! view of the counters of the other nodes, which gossip brings up to date.

use crate::message::{names, others, without, Body, Event, Init, Message, FIRST_ID};
use crate::node::{idle, keeps_order, sent, Node, Standing, StepError, Timer};
use crate::table::StrMap;
use crate::tally::{copy_counts, count_of, sum_values, total};
use vstd::prelude::*;

verus! {

/// The gossip timer's period in milliseconds.
pub const GOSSIP_EVERY_MS: u64 = 200;

/// What this workload's messages carry.
#[derive(Debug)]
pub enum Payload {
    Add { delta: usize },
    AddOk,
    Read,
    ReadOk { value: usize },
    Gossip { values: StrMap<usize> },
    GossipOk { value: usize },
}

/// The events this workload's timer injects.
#[derive(Debug, Clone, Copy, PartialEq, Eq)]
pub enum InjectedPayload {
    /// Time to tell the peers the counters.
    Gossip,
}

/// The model of a node's state.
pub struct GCounterState {
    /// The node's own name.
    pub node: Seq<char>,
    /// The names of the other nodes.
    pub peers: Seq<Seq<char>>,
    /// The id of the next outgoing message.
    pub id: usize,
    /// Per node, the counter as far as this node knows it; the entry under
    /// the node's own name is the counter it owns.
    pub values: Map<Seq<char>, usize>,
    /// Per peer, the value of this node's own counter that the peer last
    /// acknowledged.
    pub acked: Map<Seq<char>, usize>,
}

impl GCounterState {
    /// The counter this node owns.
    pub open spec fn own(self) -> usize {
        count_of(self.values, self.node)
    }

    /// The peer has not acknowledged the current value of the own counter.
    pub open spec fn behind(self, peer: Seq<char>) -> bool {
        count_of(self.acked, peer) != self.own()
    }

    /// Of the first `upto` peers, those that are behind, in order.
    pub open spec fn targets(self, upto: int) -> Seq<Seq<char>> {
        self.peers.take(upto).filter(|p: Seq<char>| self.behind(p))
    }
}

/// Walking the peers: the next one joins the targets exactly when it is behind.
pub proof fn lemma_targets_step(s: GCounterState, i: int)
    requires
        0 <= i < s.peers.len(),
    ensures
        s.targets(0) == Seq::<Seq<char>>::empty(),
        s.targets(i + 1) == if s.behind(s.peers[i]) {
            s.targets(i).push(s.peers[i])
        } else {
            s.targets(i)
        },
        s.targets(i).len() <= i,
{
    reveal(Seq::filter);
    assert(s.peers.take(0) =~= Seq::<Seq<char>>::empty());
    assert(s.peers.take(i + 1).drop_last() =~= s.peers.take(i));
    assert(s.peers.take(i + 1).last() == s.peers[i]);
    s.peers.take(i).lemma_filter_len(|p: Seq<char>| s.behind(p));
}

/// The views after a gossip with the counters `incoming` was merged in: for
/// each of `peers`, in order, the incoming counter is adopted where it is
/// strictly greater than the view held.
pub open spec fn merge(
    local: Map<Seq<char>, usize>,
    incoming: Map<Seq<char>, usize>,
    peers: Seq<Seq<char>>,
) -> Map<Seq<char>, usize>
    decreases peers.len(),
{
    if peers.len() == 0 {
        local
    } else {
        let before = merge(local, incoming, peers.drop_last());
        let k = peers.last();
        if incoming.contains_key(k) && incoming[k] > count_of(before, k) {
            before.insert(k, incoming[k])
        } else {
            before
        }
    }
}

/// `add`: the own counter grows by `delta`. A counter that would leave the
/// range of `usize` ends the run.
pub open spec fn adds(
    pre: GCounterState,
    request: Message<Payload>,
    delta: usize,
    post: GCounterState,
    r: Result<Seq<Message<Payload>>, StepError>,
) -> bool {
    if pre.id == usize::MAX {
        r == Err::<Seq<Message<Payload>>, StepError>(StepError::IdsExhausted) && post == pre
    } else if pre.own() + delta > usize::MAX {
        r == Err::<Seq<Message<Payload>>, StepError>(StepError::Overflow) && post == pre
    } else {
        &&& r matches Ok(out)
        &&& out.len() == 1
        &&& out[0].answers(&request)
        &&& out[0].body.id == Some(pre.id)
        &&& out[0].body.payload == Payload::AddOk
        &&& post == GCounterState {
            id: (pre.id + 1) as usize,
            values: pre.values.insert(pre.node, (pre.own() + delta) as usize),
            ..pre
        }
    }
}

/// `read`: the reply carries the sum of all counters as this node knows
/// them. A sum that does not fit in `usize` ends the run.
pub open spec fn reads(
    pre: GCounterState,
    request: Message<Payload>,
    post: GCounterState,
    r: Result<Seq<Message<Payload>>, StepError>,
) -> bool {
    if pre.id == usize::MAX {
        r == Err::<Seq<Message<Payload>>, StepError>(StepError::IdsExhausted) && post == pre
    } else if total(pre.values) > usize::MAX {
        r == Err::<Seq<Message<Payload>>, StepError>(StepError::Overflow) && post == pre
    } else {
        &&& r matches Ok(out)
        &&& out.len() == 1
        &&& out[0].answers(&request)
        &&& out[0].body.id == Some(pre.id)
        &&& out[0].body.payload == (Payload::ReadOk { value: total(pre.values) as usize })
        &&& post == GCounterState { id: (pre.id + 1) as usize, ..pre }
    }
}

/// `gossip`: the incoming counters of the peers are merged in, and the
/// reply carries this node's view of the sender's counter.
pub open spec fn hears(
    pre: GCounterState,
    request: Message<Payload>,
    incoming: Map<Seq<char>, usize>,
    post: GCounterState,
    r: Result<Seq<Message<Payload>>, StepError>,
) -> bool {
    if pre.id == usize::MAX {
        r == Err::<Seq<Message<Payload>>, StepError>(StepError::IdsExhausted) && post == pre
    } else {
        let merged = merge(pre.values, incoming, pre.peers);
        &&& r matches Ok(out)
        &&& out.len() == 1
        &&& out[0].answers(&request)
        &&& out[0].body.id == Some(pre.id)
        &&& out[0].body.payload == (Payload::GossipOk { value: count_of(merged, request.src@) })
        &&& post == GCounterState { id: (pre.id + 1) as usize, values: merged, ..pre }
    }
}

/// `gossip_ok`: the sender has acknowledged `value` of the own counter.
pub open spec fn acknowledged(
    pre: GCounterState,
    reply: Message<Payload>,
    value: usize,
    post: GCounterState,
    r: Result<Seq<Message<Payload>>, StepError>,
) -> bool {
    &&& r == Ok::<Seq<Message<Payload>>, StepError>(Seq::empty())
    &&& post == GCounterState { acked: pre.acked.insert(reply.src@, value), ..pre }
}

/// `out` is the gossip of the state `pre` to the peers `to`: one message
/// each, in order, under consecutive ids, carrying all counters.
pub open spec fn carries(pre: GCounterState, out: Seq<Message<Payload>>, to: Seq<Seq<char>>) -> bool {
    &&& out.len() == to.len()
    &&& forall|i: int|
        0 <= i < out.len() ==> {
            &&& (#[trigger] out[i]).is_unsolicited(pre.node, to[i], (pre.id + i) as usize)
            &&& out[i].body.payload matches Payload::Gossip { values }
            &&& values@ == pre.values
        }
}

/// The gossip timer: every peer that is behind is sent all counters, in the
/// order of the peer list. Peers that have acknowledged the current value of
/// the own counter are skipped.
pub open spec fn spreads(
    pre: GCounterState,
    post: GCounterState,
    r: Result<Seq<Message<Payload>>, StepError>,
) -> bool {
    let to = pre.targets(pre.peers.len() as int);
    if pre.id + pre.peers.len() > usize::MAX {
        r == Err::<Seq<Message<Payload>>, StepError>(StepError::IdsExhausted) && post == pre
    } else {
        &&& r matches Ok(out)
        &&& carries(pre, out, to)
        &&& post == GCounterState { id: (pre.id + to.len()) as usize, ..pre }
    }
}

/// What a step does, event by event.
pub open spec fn steps(
    pre: GCounterState,
    input: Event<Payload, InjectedPayload>,
    post: GCounterState,
    r: Result<Seq<Message<Payload>>, StepError>,
) -> bool {
    match input {
        Event::Message(m) => match m.body.payload {
            Payload::Read => reads(pre, m, post, r),
            Payload::Add { delta } => adds(pre, m, delta, post, r),
            Payload::Gossip { values } => hears(pre, m, values@, post, r),
            Payload::GossipOk { value } => acknowledged(pre, m, value, post, r),
            Payload::AddOk | Payload::ReadOk { .. } => idle(pre, post, r),
        },
        Event::InjectedPayload(_) => spreads(pre, post, r),
        Event::EOF => idle(pre, post, r),
    }
}

/// The state of the node `name` right after the handshake of a system with
/// the nodes `all`: every other node is a peer, and there is no counter yet.
pub open spec fn fresh(name: Seq<char>, all: Seq<Seq<char>>) -> GCounterState {
    GCounterState {
        node: name,
        peers: without(all, name),
        id: FIRST_ID,
        values: Map::empty(),
        acked: Map::empty(),
    }
}

/// A node of the counter workload.
pub struct GCounterNode {
    node: String,
    nodes: Vec<String>,
    id: usize,
    values: StrMap<usize>,
    ack: StrMap<usize>,
}

impl View for GCounterNode {
    type V = GCounterState;

    closed spec fn view(&self) -> GCounterState {
        GCounterState {
            node: self.node@,
            peers: names(self.nodes@),
            id: self.id,
            values: self.values@,
            acked: self.ack@,
        }
    }
}

/// The counter under `key`; 0 where there is none.
fn count(m: &StrMap<usize>, key: &String) -> (n: usize)
    ensures
        n == count_of(m@, key@),
{
    match m.get(key) {
        Some(v) => *v,
        None => 0,
    }
}

impl GCounterNode {
    /// The node as it stands after the handshake, with no counter yet.
    pub fn new(init: Init) -> (node: Self)
        ensures
            node@ == fresh(init.node_id@, names(init.node_ids@)),
    {
        let nodes = others(&init.node_ids, &init.node_id);
        GCounterNode {
            id: FIRST_ID,
            values: StrMap::new(),
            nodes,
            node: init.node_id,
            ack: StrMap::new(),
        }
    }

    /// Handles a `read` request.
    pub fn on_read(&mut self, request: &Message<Payload>) -> (r: Result<
        Vec<Message<Payload>>,
        StepError,
    >)
        ensures
            reads(old(self)@, *request, final(self)@, sent(r)),
    {
        if self.id == usize::MAX {
            return Err(StepError::IdsExhausted);
        }
        let value = match sum_values(&self.values) {
            Some(v) => v,
            None => {
                return Err(StepError::Overflow);
            },
        };
        let reply = request.construct_reply(Payload::ReadOk { value }, Some(&mut self.id));
        let mut out = Vec::new();
        out.push(reply);
        Ok(out)
    }

    /// Handles an `add` request.
    pub fn on_add(&mut self, request: &Message<Payload>, delta: usize) -> (r: Result<
        Vec<Message<Payload>>,
        StepError,
    >)
        ensures
            adds(old(self)@, *request, delta, final(self)@, sent(r)),
    {
        if self.id == usize::MAX {
            return Err(StepError::IdsExhausted);
        }
        let own = count(&self.values, &self.node);
        if delta > usize::MAX - own {
            return Err(StepError::Overflow);
        }
        self.values.insert(self.node.clone(), own + delta);
        let reply = request.construct_reply(Payload::AddOk, Some(&mut self.id));
        let mut out = Vec::new();
        out.push(reply);
        Ok(out)
    }

    /// Handles a `gossip` message.
    pub fn on_gossip(&mut self, request: &Message<Payload>, incoming: &StrMap<usize>) -> (r: Result<
        Vec<Message<Payload>>,
        StepError,
    >)
        ensures
            hears(old(self)@, *request, incoming@, final(self)@, sent(r)),
    {
        if self.id == usize::MAX {
            return Err(StepError::IdsExhausted);
        }
        let ghost pre = self@;
        let mut i: usize = 0;
        assert(pre.peers.take(0) =~= Seq::<Seq<char>>::empty());
        while i < self.nodes.len()
            invariant
                i <= pre.peers.len(),
                self@ == (GCounterState {
                    values: merge(pre.values, incoming@, pre.peers.take(i as int)),
                    ..pre
                }),
            decreases pre.peers.len() - i,
        {
            proof {
                assert(pre.peers.take(i + 1).drop_last() =~= pre.peers.take(i as int));
                assert(pre.peers.take(i + 1).last() == self.nodes@[i as int]@);
            }
            match incoming.get(&self.nodes[i]) {
                Some(v) => {
                    if *v > count(&self.values, &self.nodes[i]) {
                        self.values.insert(self.nodes[i].clone(), *v);
                    }
                },
                None => {},
            }
            i = i + 1;
        }
        assert(pre.peers.take(pre.peers.len() as int) =~= pre.peers);
        let value = count(&self.values, &request.src);
        let reply = request.construct_reply(Payload::GossipOk { value }, Some(&mut self.id));
        let mut out = Vec::new();
        out.push(reply);
        Ok(out)
    }

    /// Handles a `gossip_ok`.
    pub fn on_gossip_ok(&mut self, reply: &Message<Payload>, value: usize) -> (r: Result<
        Vec<Message<Payload>>,
        StepError,
    >)
        ensures
            acknowledged(old(self)@, *reply, value, final(self)@, sent(r)),
    {
        self.ack.insert(reply.src.clone(), value);
        Ok(Vec::new())
    }

    /// Handles a tick of the gossip timer.
    pub fn on_tick(&mut self) -> (r: Result<Vec<Message<Payload>>, StepError>)
        ensures
            spreads(old(self)@, final(self)@, sent(r)),
    {
        if self.nodes.len() > usize::MAX - self.id {
            return Err(StepError::IdsExhausted);
        }
        let ghost pre = self@;
        let own = count(&self.values, &self.node);
        let mut out: Vec<Message<Payload>> = Vec::new();
        let mut i: usize = 0;
        proof {
            if pre.peers.len() > 0 {
                lemma_targets_step(pre, 0);
            } else {
                reveal(Seq::filter);
                assert(pre.peers.take(0) =~= Seq::<Seq<char>>::empty());
            }
        }
        while i < self.nodes.len()
            invariant
                i <= pre.peers.len(),
                pre.id + pre.peers.len() <= usize::MAX,
                own == pre.own(),
                pre.targets(i as int).len() <= i,
                carries(pre, out@, pre.targets(i as int)),
                self@ == (GCounterState {
                    id: (pre.id + pre.targets(i as int).len()) as usize,
                    ..pre
                }),
            decreases pre.peers.len() - i,
        {
            let ghost before = out@;
            let ghost to = pre.targets(i as int);
            let ghost peer = pre.peers[i as int];
            proof {
                lemma_targets_step(pre, i as int);
            }
            if count(&self.ack, &self.nodes[i]) != own {
                let msg = Message {
                    src: self.node.clone(),
                    dest: self.nodes[i].clone(),
                    body: Body {
                        payload: Payload::Gossip { values: copy_counts(&self.values) },
                        id: Some(self.id),
                        in_reply_to: None,
                    },
                };
                out.push(msg);
                self.id = self.id + 1;
                proof {
                    let next = to.push(peer);
                    assert forall|j: int| 0 <= j < out@.len() implies {
                        &&& (#[trigger] out@[j]).is_unsolicited(
                            pre.node,
                            next[j],
                            (pre.id + j) as usize,
                        )
                        &&& out@[j].body.payload matches Payload::Gossip { values }
                        &&& values@ == pre.values
                    } by {
                        if j < before.len() {
                            assert(out@[j] == before[j]);
                            assert(next[j] == to[j]);
                        }
                    }
                }
            }
            i = i + 1;
        }
        Ok(out)
    }
}

/// What the runtime's laws see of a state: this workload answers every
/// request at once and owes nothing.
pub open spec fn standing_of(s: GCounterState) -> Standing {
    Standing { name: s.node, next_id: s.id, owed: Set::empty() }
}

/// Every step that succeeds keeps the runtime's order.
pub proof fn lemma_steps_keep_order(
    pre: GCounterState,
    input: Event<Payload, InjectedPayload>,
    post: GCounterState,
    out: Seq<Message<Payload>>,
)
    requires
        steps(pre, input, post, Ok(out)),
    ensures
        keeps_order(standing_of(pre), input, standing_of(post), out),
{
    if input is InjectedPayload {
        pre.peers.lemma_filter_len(|p: Seq<char>| pre.behind(p));
        assert(pre.peers.take(pre.peers.len() as int) =~= pre.peers);
    }
}

/// A step that fails leaves the state as it was.
pub proof fn lemma_failure_changes_nothing(
    pre: GCounterState,
    input: Event<Payload, InjectedPayload>,
    post: GCounterState,
    e: StepError,
)
    requires
        steps(pre, input, post, Err(e)),
    ensures
        post == pre,
{
}

impl Node<Payload, InjectedPayload> for GCounterNode {
    open spec fn wf(&self) -> bool {
        true
    }

    open spec fn standing(&self) -> Standing {
        standing_of(self@)
    }

    open spec fn stepped(
        pre: Self,
        input: Event<Payload, InjectedPayload>,
        post: Self,
        r: Result<Seq<Message<Payload>>, StepError>,
    ) -> bool {
        steps(pre@, input, post@, r)
    }

    /// Every init record is taken.
    open spec fn refusal(init: Init) -> Option<StepError> {
        None
    }

    open spec fn built_from(&self, init: Init) -> bool {
        self@ == fresh(init.node_id@, names(init.node_ids@))
    }

    /// Never fails: see [`GCounterNode::new`].
    fn from_init(init: Init) -> (r: Result<Self, StepError>)
        ensures
            r matches Ok(node) && node@ == fresh(init.node_id@, names(init.node_ids@)),
    {
        Ok(GCounterNode::new(init))
    }

    /// One timer: the gossip tick.
    fn timers() -> (t: Vec<Timer<InjectedPayload>>)
        ensures
            t@.len() == 1,
            t@[0].every_ms == GOSSIP_EVERY_MS,
            t@[0].event == InjectedPayload::Gossip,
    {
        let mut t = Vec::new();
        t.push(Timer { every_ms: GOSSIP_EVERY_MS, event: InjectedPayload::Gossip });
        t
    }

    /// Handles one event as [`steps`] says.
    fn step(&mut self, input: Event<Payload, InjectedPayload>) -> (r: Result<
        Vec<Message<Payload>>,
        StepError,
    >)
        ensures
            steps(old(self)@, input, final(self)@, sent(r)),
    {
        let r = match &input {
            Event::Message(m) => match &m.body.payload {
                Payload::Read => self.on_read(m),
                Payload::Add { delta } => self.on_add(m, *delta),
                Payload::Gossip { values } => self.on_gossip(m, values),
                Payload::GossipOk { value } => self.on_gossip_ok(m, *value),
                Payload::AddOk | Payload::ReadOk { .. } => Ok(Vec::new()),
            },
            Event::InjectedPayload(_) => self.on_tick(),
            Event::EOF => Ok(Vec::new()),
        };
        proof {
            if r is Ok {
                lemma_steps_keep_order(old(self)@, input, self@, r->Ok_0@);
            } else {
                lemma_failure_changes_nothing(old(self)@, input, self@, r->Err_0);
            }
        }
        r
    }
}

/// The targets among the first `upto` peers are exactly the peers among
/// them that are behind.
pub proof fn lemma_targets(s: GCounterState, upto: int)
    requires
        0 <= upto <= s.peers.len(),
    ensures
        forall|j: int| 0 <= j < s.targets(upto).len() ==> s.behind(#[trigger] s.targets(upto)[j]),
        forall|i: int|
            0 <= i < upto && s.behind(#[trigger] s.peers[i]) ==> s.targets(upto).contains(
                s.peers[i],
            ),
    decreases upto,
{
    if upto == 0 {
        reveal(Seq::filter);
        assert(s.peers.take(0) =~= Seq::<Seq<char>>::empty());
    } else {
        lemma_targets(s, upto - 1);
        lemma_targets_step(s, upto - 1);
        let before = s.targets(upto - 1);
        let now = s.targets(upto);
        assert forall|j: int| 0 <= j < now.len() implies s.behind(#[trigger] now[j]) by {
            if j < before.len() {
                assert(now[j] == before[j]);
            }
        }
        assert forall|i: int| 0 <= i < upto && s.behind(#[trigger] s.peers[i]) implies now.contains(
            s.peers[i],
        ) by {
            if i < upto - 1 {
                let j = choose|j: int| 0 <= j < before.len() && before[j] == s.peers[i];
                assert(now[j] == s.peers[i]);
            } else {
                assert(now[now.len() - 1] == s.peers[upto - 1]);
            }
        }
    }
}

/// What a merge leaves under a name: for a peer the greater of the view held
/// and the incoming counter, for any other name the view held. A merge adds
/// no names but names of peers that the gossip carries.
pub proof fn lemma_merge(
    local: Map<Seq<char>, usize>,
    incoming: Map<Seq<char>, usize>,
    peers: Seq<Seq<char>>,
    k: Seq<char>,
)
    ensures
        count_of(merge(local, incoming, peers), k) == if peers.contains(k) && count_of(incoming, k)
            > count_of(local, k) {
            count_of(incoming, k)
        } else {
            count_of(local, k)
        },
        merge(local, incoming, peers).contains_key(k) ==> local.contains_key(k) || (peers.contains(
            k,
        ) && incoming.contains_key(k)),
        local.dom().finite() ==> merge(local, incoming, peers).dom().finite(),
    decreases peers.len(),
{
    if peers.len() > 0 {
        let front = peers.drop_last();
        lemma_merge(local, incoming, front, k);
        lemma_merge(local, incoming, front, peers.last());
        if front.contains(k) {
            let j = choose|j: int| 0 <= j < front.len() && front[j] == k;
            assert(peers[j] == k);
        }
        if peers.contains(k) && k != peers.last() {
            let j = choose|j: int| 0 <= j < peers.len() && peers[j] == k;
            assert(front[j] == k);
        }
        assert(peers[peers.len() - 1] == peers.last());
    }
}

/// The counters only grow: no step lowers the view of any counter; the own
/// counter grows by what an `add` adds and by nothing else, as long as the
/// node is not its own peer.
pub proof fn counters_only_grow(
    pre: GCounterState,
    input: Event<Payload, InjectedPayload>,
    post: GCounterState,
    r: Result<Seq<Message<Payload>>, StepError>,
    k: Seq<char>,
)
    requires
        steps(pre, input, post, r),
    ensures
        count_of(pre.values, k) <= count_of(post.values, k),
        !pre.peers.contains(pre.node) ==> post.own() == pre.own() + added(input, r),
        post.node == pre.node,
        post.peers == pre.peers,
{
    match input {
        Event::Message(m) => match m.body.payload {
            Payload::Gossip { values } => {
                lemma_merge(pre.values, values@, pre.peers, k);
                lemma_merge(pre.values, values@, pre.peers, pre.node);
            },
            _ => {},
        },
        _ => {},
    }
}

/// What the step adds to the own counter: the delta of an `add` that was
/// taken, and nothing for any other step.
pub open spec fn added(
    input: Event<Payload, InjectedPayload>,
    r: Result<Seq<Message<Payload>>, StepError>,
) -> nat {
    match input {
        Event::Message(m) => match m.body.payload {
            Payload::Add { delta } => if r is Ok {
                delta as nat
            } else {
                0
            },
            _ => 0,
        },
        _ => 0,
    }
}

/// The timer of a node in this state would send nothing: every peer has
/// acknowledged the current value of the own counter.
pub open spec fn quiet(s: GCounterState) -> bool {
    forall|p: Seq<char>| s.peers.contains(p) ==> !s.behind(p)
}

/// A quiet node's timer sends nothing and changes nothing, and only a quiet
/// node's timer sends nothing.
pub proof fn quiet_means_silent(
    pre: GCounterState,
    post: GCounterState,
    out: Seq<Message<Payload>>,
)
    requires
        spreads(pre, post, Ok(out)),
    ensures
        quiet(pre) <==> out.len() == 0,
        quiet(pre) ==> post == pre,
{
    let all = pre.peers;
    let to = pre.targets(all.len() as int);
    lemma_targets(pre, all.len() as int);
    if quiet(pre) {
        if to.len() > 0 {
            assert(pre.behind(to[0]));
            let keep = |p: Seq<char>| pre.behind(p);
            assert(all.take(all.len() as int) =~= all);
            all.lemma_filter_contains_rev(keep, to[0]);
        }
    } else {
        let p = choose|p: Seq<char>| all.contains(p) && pre.behind(p);
        let i = choose|i: int| 0 <= i < all.len() && all[i] == p;
        assert(pre.behind(all[i]));
        assert(to.contains(all[i]));
    }
}

/// Every node goes by its own name, keeps finitely many counters, all of
/// them under names of the system, and has every other node as a peer.
pub open spec fn well_named(system: Map<Seq<char>, GCounterState>) -> bool {
    forall|a: Seq<char>| #[trigger]
        system.contains_key(a) ==> {
            &&& system[a].node == a
            &&& system[a].values.dom().finite()
            &&& forall|k: Seq<char>| #[trigger]
                system[a].values.contains_key(k) ==> system.contains_key(k)
            &&& forall|b: Seq<char>| #[trigger]
                system.contains_key(b) && b != a ==> system[a].peers.contains(b)
        }
}

/// What the nodes hold of each other is true: no view of a counter is ahead
/// of the counter, and no acknowledgement is ahead of the view it reports.
pub open spec fn sound(system: Map<Seq<char>, GCounterState>) -> bool {
    forall|a: Seq<char>, b: Seq<char>|
        #![trigger system[a], system[b]]
        system.contains_key(a) && system.contains_key(b) && a != b ==> {
            &&& count_of(system[a].acked, b) <= count_of(system[b].values, a)
            &&& count_of(system[b].values, a) <= system[a].own()
        }
}

/// The counters of the system as their owners hold them.
pub open spec fn owned(system: Map<Seq<char>, GCounterState>) -> Map<Seq<char>, usize> {
    Map::new(|a: Seq<char>| system.contains_key(a), |a: Seq<char>| system[a].own())
}

/// Convergence at rest: in a sound system of finitely many nodes in which no
/// timer has anything left to send, the counters of every node add up to the
/// total of the counters as their owners hold them; so every `read` returns
/// the same value, the sum of all that was ever added.
pub proof fn quiet_nodes_agree(system: Map<Seq<char>, GCounterState>, b: Seq<char>)
    requires
        system.dom().finite(),
        well_named(system),
        sound(system),
        forall|n: Seq<char>| system.contains_key(n) ==> quiet(#[trigger] system[n]),
        system.contains_key(b),
    ensures
        total(system[b].values) == total(owned(system)),
{
    let mine = system[b].values;
    let theirs = owned(system);
    assert(theirs.dom() =~= system.dom());
    assert forall|k: Seq<char>| count_of(mine, k) == count_of(theirs, k) by {
        if system.contains_key(k) {
            if k != b {
                assert(system[k].peers.contains(b));
                assert(quiet(system[k]));
                assert(!system[k].behind(b));
                assert(count_of(system[k].acked, b) <= count_of(system[b].values, k));
                assert(count_of(system[b].values, k) <= system[k].own());
            }
        } else {
            assert(!mine.contains_key(k));
        }
    }
    crate::tally::lemma_total_by_counts(mine, theirs);
}

/// Gossip delivers, and its acknowledgement is true: when a peer hears the
/// gossip of a ticking node, its view of that node's counter is from then on
/// no less than the counter was; and the value that its `gossip_ok` reports
/// is the view it then holds of the counter of the gossip's source.
pub proof fn gossip_delivers(
    sender: GCounterState,
    after_tick: GCounterState,
    sent_out: Seq<Message<Payload>>,
    i: int,
    receiver: GCounterState,
    after_gossip: GCounterState,
    reply: Seq<Message<Payload>>,
)
    requires
        spreads(sender, after_tick, Ok(sent_out)),
        0 <= i < sent_out.len(),
        steps(receiver, Event::Message(sent_out[i]), after_gossip, Ok(reply)),
        receiver.peers.contains(sender.node),
    ensures
        count_of(after_gossip.values, sender.node) >= sender.own(),
        reply.len() == 1,
        reply[0].body.payload == (Payload::GossipOk {
            value: count_of(after_gossip.values, sender.node),
        }),
{
    let g = sent_out[i];
    let to = sender.targets(sender.peers.len() as int);
    assert(g.is_unsolicited(sender.node, to[i], (sender.id + i) as usize));
    let values = g.body.payload->Gossip_values;
    assert(values@ == sender.values);
    lemma_merge(receiver.values, values@, receiver.peers, sender.node);
}

/// A node of the counter workload never owes an answer: every reply it sends
/// answers the message of that very step, so its replies are correlated
/// whomever the messages it is handed are addressed to.
pub proof fn answers_at_once()
    ensures
        crate::node::owes_nothing::<Payload, InjectedPayload, GCounterNode>(),
{
}

} // verus!
