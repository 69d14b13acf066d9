//! Log nodes with their store on a network: what a run of the whole system
//! is, what holds in every state that a run can reach, and that no offset is
//! told to clients twice, whichever nodes tell it.

use crate::k_log::{
    answered_swap, fresh, steps, InjectedPayload, KLogState, Payload, COUNTER_KEY, KEY_MISSING,
    PRECONDITION_FAILED, STORE,
};
use crate::message::{Event, Message};
use crate::node::StepError;
use vstd::prelude::*;

verus! {

/// A system of nodes, the store that hands out offsets, and the network
/// between them.
pub struct World {
    /// The nodes, by name.
    pub nodes: Map<Seq<char>, KLogState>,
    /// The messages that nodes and the store have sent and that may still
    /// arrive.
    pub flying: Set<Message<Payload>>,
    /// The shared counter as the store holds it, once it exists.
    pub counter: Option<usize>,
    /// The offsets whose swap the store has acknowledged, each with the node
    /// that sent the swap and the id it sent it under.
    pub granted: Map<usize, (Seq<char>, usize)>,
    /// The offsets that nodes have told to clients.
    pub published: Set<usize>,
}

/// What happens in one move of the system.
pub enum Move {
    /// The node `n` takes `input` with the outcome `r`.
    Node { n: Seq<char>, input: Event<Payload, InjectedPayload>, r: Result<
        Seq<Message<Payload>>,
        StepError,
    > },
    /// The store takes the swap `swap` and answers with `reply`.
    Store { swap: Message<Payload>, reply: Message<Payload> },
}

/// The system of the nodes `names` right after their handshakes, with a
/// store that holds no counter yet.
pub open spec fn starts(w: World, names: Seq<Seq<char>>) -> bool {
    &&& !names.contains(STORE@)
    &&& forall|n: Seq<char>| w.nodes.contains_key(n) <==> names.contains(n)
    &&& forall|n: Seq<char>| w.nodes.contains_key(n) ==> #[trigger] w.nodes[n] == fresh(n, names)
    &&& w.flying == Set::<Message<Payload>>::empty()
    &&& w.counter is None
    &&& w.granted == Map::<usize, (Seq<char>, usize)>::empty()
    &&& w.published == Set::<usize>::empty()
}

/// The network may hand `input` to the node `n`: a message is addressed to
/// `n`, and an acknowledgement of a swap is one that the store has sent.
/// Anything else may come from anywhere, and so may timer events.
pub open spec fn may_arrive(w: World, n: Seq<char>, input: Event<Payload, InjectedPayload>) -> bool {
    match input {
        Event::Message(m) => m.dest@ == n && (w.flying.contains(m) || !(m.body.payload is CasOk)),
        _ => true,
    }
}

/// The messages that a step hands to the network.
pub open spec fn handed_over(r: Result<Seq<Message<Payload>>, StepError>) -> Set<Message<Payload>> {
    match r {
        Ok(out) => out.to_set(),
        Err(_) => Set::empty(),
    }
}

/// The step tells a client that its message was logged at `offset`.
pub open spec fn tells(r: Result<Seq<Message<Payload>>, StepError>, offset: usize) -> bool {
    r matches Ok(out) && exists|i: int|
        0 <= i < out.len() && (#[trigger] out[i]).body.payload == (Payload::SendOk { offset })
}

/// A move of a node. What it sends is on the network from then on; the
/// network may lose messages and may deliver a message more than once, in
/// any order.
pub open spec fn node_moves(
    pre: World,
    n: Seq<char>,
    input: Event<Payload, InjectedPayload>,
    r: Result<Seq<Message<Payload>>, StepError>,
    post: World,
) -> bool {
    &&& pre.nodes.contains_key(n)
    &&& post.nodes.contains_key(n)
    &&& may_arrive(pre, n, input)
    &&& steps(pre.nodes[n], input, post.nodes[n], r)
    &&& post.nodes == pre.nodes.insert(n, post.nodes[n])
    &&& post.flying.subset_of(pre.flying.union(handed_over(r)))
    &&& post.counter == pre.counter
    &&& post.granted == pre.granted
    &&& post.published == pre.published.union(Set::new(|t: usize| tells(r, t)))
}

/// The swap of the counter from `from` to `to` goes through at a store
/// that holds `counter`: the counter is at `from`, or there is none yet and
/// the swap asks to create it.
pub open spec fn goes_through(counter: Option<usize>, from: usize, put: bool) -> bool {
    match counter {
        Some(v) => v == from,
        None => put,
    }
}

/// A move of the store: it takes a swap of the shared counter off the
/// network and answers it. A swap that goes through sets the counter and is
/// acknowledged; any other is turned down and changes nothing.
pub open spec fn store_moves(
    pre: World,
    swap: Message<Payload>,
    reply: Message<Payload>,
    post: World,
) -> bool {
    &&& pre.flying.contains(swap)
    &&& swap.dest@ == STORE@
    &&& swap.body.payload matches Payload::Cas { key, from, to, put }
    &&& key@ == COUNTER_KEY@
    &&& reply.answers(&swap)
    &&& post.nodes == pre.nodes
    &&& post.published == pre.published
    &&& post.flying.subset_of(pre.flying.insert(reply))
    &&& if goes_through(pre.counter, from, put) {
        &&& reply.body.payload == Payload::CasOk
        &&& post.counter == Some(to)
        &&& post.granted == match swap.body.id {
            Some(c) => if to == from + 1 {
                pre.granted.insert(to, (swap.src@, c))
            } else {
                pre.granted
            },
            None => pre.granted,
        }
    } else {
        &&& reply.body.payload matches Payload::Error { code, .. }
        &&& code == if pre.counter is None {
            KEY_MISSING
        } else {
            PRECONDITION_FAILED
        }
        &&& post.counter == pre.counter
        &&& post.granted == pre.granted
    }
}

/// `post` follows `pre` by the move `by`.
pub open spec fn follows(pre: World, by: Move, post: World) -> bool {
    match by {
        Move::Node { n, input, r } => node_moves(pre, n, input, r, post),
        Move::Store { swap, reply } => store_moves(pre, swap, reply, post),
    }
}

/// `trace` is a run of the system of the nodes `names`, state by state, and
/// `by` are its moves.
pub open spec fn is_run(trace: Seq<World>, by: Seq<Move>, names: Seq<Seq<char>>) -> bool {
    &&& trace.len() == by.len() + 1
    &&& starts(trace[0], names)
    &&& forall|i: int| 0 <= i < by.len() ==> follows(#[trigger] trace[i], by[i], trace[i + 1])
}

/// What holds of a node in every state of a run: it goes by its name, its
/// state is in order, and every offset it has reserved is at least 1.
pub open spec fn node_is_true(w: World, n: Seq<char>) -> bool {
    &&& w.nodes[n].node == n
    &&& w.nodes[n].inv()
    &&& forall|c: usize| #[trigger]
        w.nodes[n].pending.contains_key(c) ==> w.nodes[n].pending[c].offset >= 1
}

/// What holds of a swap on the network: it asks to create the counter where
/// missing and either moves it on by one or sets it from 0 to 0; a node sent
/// it under an id it has used; and as long as a request waits under that id,
/// the offset it reserves is the one the swap moves the counter to.
pub open spec fn swap_is_true(w: World, m: Message<Payload>) -> bool {
    m.body.payload matches Payload::Cas { from, to, put, .. } ==> {
        &&& put
        &&& to == from + 1 || (from == 0 && to == 0)
        &&& w.nodes.contains_key(m.src@)
        &&& m.body.id matches Some(c)
        &&& c < w.nodes[m.src@].id
        &&& w.nodes[m.src@].pending.contains_key(c) ==> w.nodes[m.src@].pending[c].offset == to
    }
}

/// What holds of an acknowledgement on the network: it answers an id that
/// its receiver has used, and as long as a request waits under that id, the
/// store has granted the offset it reserves to that very swap.
pub open spec fn acknowledgement_is_true(w: World, m: Message<Payload>) -> bool {
    (m.body.payload is CasOk && w.nodes.contains_key(m.dest@)) ==> (m.body.in_reply_to matches Some(
        c,
    ) ==> {
        &&& c < w.nodes[m.dest@].id
        &&& w.nodes[m.dest@].pending.contains_key(c) ==> {
            let t = w.nodes[m.dest@].pending[c].offset;
            w.granted.contains_key(t) && w.granted[t] == (m.dest@, c)
        }
    })
}

/// What holds of an offset that the store has granted: it is not ahead of
/// the counter; the swap it was granted to came from a node, under an id
/// that node has used; and as long as a request waits under that id, it
/// reserves this offset, which has not been told to any client.
pub open spec fn grant_is_true(w: World, t: usize) -> bool {
    let (a, c) = w.granted[t];
    &&& w.counter matches Some(v) && t <= v
    &&& w.nodes.contains_key(a)
    &&& c < w.nodes[a].id
    &&& w.nodes[a].pending.contains_key(c) ==> w.nodes[a].pending[c].offset == t
        && !w.published.contains(t)
}

/// What holds in every state of a run.
pub open spec fn inv(w: World) -> bool {
    &&& !w.nodes.contains_key(STORE@)
    &&& forall|n: Seq<char>| w.nodes.contains_key(n) ==> #[trigger] node_is_true(w, n)
    &&& forall|m: Message<Payload>| #[trigger]
        w.flying.contains(m) ==> swap_is_true(w, m) && acknowledgement_is_true(w, m)
    &&& forall|t: usize| #[trigger] w.granted.contains_key(t) ==> grant_is_true(w, t)
    &&& forall|t: usize| #[trigger] w.published.contains(t) ==> w.granted.contains_key(t)
}

/// A system that starts is in order.
pub proof fn lemma_start_is_in_order(w: World, names: Seq<Seq<char>>)
    requires
        starts(w, names),
    ensures
        inv(w),
{
    assert forall|n: Seq<char>| w.nodes.contains_key(n) implies #[trigger] node_is_true(w, n) by {
        assert(w.nodes[n] == fresh(n, names));
    }
}

/// What every step of a node keeps, seen from the network: the name stays,
/// the state stays in order, ids are not given back, and a request that
/// waits under an id used before the step waited there already, for the same
/// offset.
pub proof fn lemma_step_keeps(
    s: KLogState,
    input: Event<Payload, InjectedPayload>,
    t: KLogState,
    r: Result<Seq<Message<Payload>>, StepError>,
)
    requires
        s.inv(),
        steps(s, input, t, r),
    ensures
        t.inv(),
        t.node == s.node,
        s.id <= t.id,
        forall|c: usize| #[trigger]
            t.pending.contains_key(c) ==> if c < s.id {
                s.pending.contains_key(c) && t.pending[c].offset == s.pending[c].offset
            } else {
                c == s.id && t.pending[c].offset == s.curr_offset + 1
            },
{
    match input {
        Event::Message(m) => match m.body.payload {
            Payload::CommitOffsets { offsets } => {
                assert(t.pending == s.pending);
                assert(t.logs == s.logs);
            },
            Payload::Error { code, text } => {
                assert(t.logs == s.logs);
                assert(t.committed == s.committed);
            },
            _ => {},
        },
        _ => {},
    }
}

/// A step tells a client an offset only when it takes the acknowledgement
/// of the swap under which the request for that offset waits.
pub proof fn lemma_told_was_acknowledged(
    s: KLogState,
    input: Event<Payload, InjectedPayload>,
    t: KLogState,
    r: Result<Seq<Message<Payload>>, StepError>,
    offset: usize,
) -> (c: usize)
    requires
        steps(s, input, t, r),
        tells(r, offset),
    ensures
        input matches Event::Message(m) && m.body.payload is CasOk && answered_swap(s.pending, m)
            == Some(c),
        s.pending[c].offset == offset,
        !t.pending.contains_key(c),
        r matches Ok(out) && out.len() == 1,
{
    let out = r->Ok_0;
    let i = choose|i: int|
        0 <= i < out.len() && (#[trigger] out[i]).body.payload == (Payload::SendOk { offset });
    match input {
        Event::Message(m) => match m.body.payload {
            Payload::CasOk => answered_swap(s.pending, m)->Some_0,
            _ => 0,
        },
        _ => 0,
    }
}

/// A move of a node keeps the system in order, and an offset it tells a
/// client has not been told before.
pub proof fn lemma_node_move_keeps_order(
    pre: World,
    n: Seq<char>,
    input: Event<Payload, InjectedPayload>,
    r: Result<Seq<Message<Payload>>, StepError>,
    post: World,
)
    requires
        inv(pre),
        node_moves(pre, n, input, r, post),
    ensures
        inv(post),
        forall|t: usize| tells(r, t) ==> !pre.published.contains(t),
{
    let s = pre.nodes[n];
    let t = post.nodes[n];
    assert(node_is_true(pre, n));
    lemma_step_keeps(s, input, t, r);
    assert forall|x: Seq<char>| post.nodes.contains_key(x) implies pre.nodes.contains_key(x) && (x
        != n ==> post.nodes[x] == pre.nodes[x]) by {}
    assert forall|x: Seq<char>| post.nodes.contains_key(x) implies #[trigger] node_is_true(
        post,
        x,
    ) by {
        assert(node_is_true(pre, x));
    }
    // what is told now was granted and not told before
    assert forall|o: usize| tells(r, o) implies !pre.published.contains(o)
        && pre.granted.contains_key(o) && pre.granted[o] == (n, told_id(s, input, r))
        && !t.pending.contains_key(told_id(s, input, r)) by {
        let c = lemma_told_was_acknowledged(s, input, t, r, o);
        let ok = input->Message_0;
        assert(pre.flying.contains(ok));
        assert(acknowledgement_is_true(pre, ok));
        assert(grant_is_true(pre, o));
    }
    // the messages on the network
    assert forall|m: Message<Payload>| #[trigger] post.flying.contains(m) implies swap_is_true(
        post,
        m,
    ) && acknowledgement_is_true(post, m) by {
        if pre.flying.contains(m) {
            assert(swap_is_true(pre, m) && acknowledgement_is_true(pre, m));
        } else {
            lemma_new_message_is_true(pre, n, input, r, post, m);
        }
    }
    // the offsets granted
    assert forall|o: usize| #[trigger] post.granted.contains_key(o) implies grant_is_true(
        post,
        o,
    ) by {
        assert(grant_is_true(pre, o));
        let (a, c) = pre.granted[o];
        if post.nodes[a].pending.contains_key(c) && tells(r, o) {
            assert(a == n && c == told_id(s, input, r));
        }
    }
}

/// The id under which the request waits whose offset the step tells.
pub open spec fn told_id(
    s: KLogState,
    input: Event<Payload, InjectedPayload>,
    r: Result<Seq<Message<Payload>>, StepError>,
) -> usize {
    match input {
        Event::Message(m) => answered_swap(s.pending, m)->Some_0,
        _ => 0,
    }
}

/// A message that a node's move puts on the network is true of the system
/// after the move.
proof fn lemma_new_message_is_true(
    pre: World,
    n: Seq<char>,
    input: Event<Payload, InjectedPayload>,
    r: Result<Seq<Message<Payload>>, StepError>,
    post: World,
    m: Message<Payload>,
)
    requires
        inv(pre),
        node_moves(pre, n, input, r, post),
        post.flying.contains(m),
        !pre.flying.contains(m),
    ensures
        swap_is_true(post, m),
        acknowledgement_is_true(post, m),
{
    let s = pre.nodes[n];
    let t = post.nodes[n];
    assert(node_is_true(pre, n));
    lemma_step_keeps(s, input, t, r);
    assert(handed_over(r).contains(m));
    let out = r->Ok_0;
    let i = choose|i: int| 0 <= i < out.len() && out[i] == m;
}

/// A move of the store keeps the system in order.
pub proof fn lemma_store_move_keeps_order(
    pre: World,
    swap: Message<Payload>,
    reply: Message<Payload>,
    post: World,
)
    requires
        inv(pre),
        store_moves(pre, swap, reply, post),
    ensures
        inv(post),
{
    assert(swap_is_true(pre, swap));
    let a = swap.src@;
    let from = swap.body.payload->Cas_from;
    let to = swap.body.payload->Cas_to;
    let c = swap.body.id->Some_0;
    assert(node_is_true(pre, a));
    // what was granted before is granted still, to the same swap
    assert forall|o: usize| #[trigger] pre.granted.contains_key(o) implies post.granted.contains_key(
        o,
    ) && post.granted[o] == pre.granted[o] by {
        assert(grant_is_true(pre, o));
    }
    assert forall|n: Seq<char>| post.nodes.contains_key(n) implies #[trigger] node_is_true(
        post,
        n,
    ) by {
        assert(node_is_true(pre, n));
    }
    assert forall|m: Message<Payload>| #[trigger] post.flying.contains(m) implies swap_is_true(
        post,
        m,
    ) && acknowledgement_is_true(post, m) by {
        if pre.flying.contains(m) {
            assert(swap_is_true(pre, m) && acknowledgement_is_true(pre, m));
        } else {
            assert(m == reply);
        }
    }
    assert forall|o: usize| #[trigger] post.granted.contains_key(o) implies grant_is_true(
        post,
        o,
    ) by {
        if pre.granted.contains_key(o) {
            assert(grant_is_true(pre, o));
        } else {
            assert(o == to);
            if pre.published.contains(o) {
                assert(pre.granted.contains_key(o));
            }
        }
    }
}

/// Every state of a run is in order.
pub proof fn lemma_runs_stay_in_order(
    trace: Seq<World>,
    by: Seq<Move>,
    names: Seq<Seq<char>>,
    i: int,
)
    requires
        is_run(trace, by, names),
        0 <= i < trace.len(),
    ensures
        inv(trace[i]),
        i > 0 ==> trace[i - 1].published.subset_of(trace[i].published),
    decreases i,
{
    if i == 0 {
        lemma_start_is_in_order(trace[0], names);
    } else {
        lemma_runs_stay_in_order(trace, by, names, i - 1);
        assert(follows(trace[i - 1], by[i - 1], trace[i - 1 + 1]));
        match by[i - 1] {
            Move::Node { n, input, r } => {
                lemma_node_move_keeps_order(trace[i - 1], n, input, r, trace[i]);
            },
            Move::Store { swap, reply } => {
                lemma_store_move_keeps_order(trace[i - 1], swap, reply, trace[i]);
            },
        }
    }
}

/// What was told to a client by some move of a run stays on record.
proof fn lemma_told_stays(
    trace: Seq<World>,
    by: Seq<Move>,
    names: Seq<Seq<char>>,
    i: int,
    j: int,
    offset: usize,
)
    requires
        is_run(trace, by, names),
        0 <= i <= j < trace.len(),
        trace[i].published.contains(offset),
    ensures
        trace[j].published.contains(offset),
    decreases j - i,
{
    if i < j {
        lemma_told_stays(trace, by, names, i, j - 1, offset);
        lemma_runs_stay_in_order(trace, by, names, j);
    }
}

/// An offset is told to a client only after the store has acknowledged the
/// swap that reserves it: whatever a move of a run tells, the store has
/// granted.
pub proof fn told_offsets_were_granted(
    trace: Seq<World>,
    by: Seq<Move>,
    names: Seq<Seq<char>>,
    i: int,
    offset: usize,
)
    requires
        is_run(trace, by, names),
        0 <= i < by.len(),
        by[i] matches Move::Node { r, .. } && tells(r, offset),
    ensures
        trace[i].granted.contains_key(offset),
        trace[i].counter matches Some(v) && 1 <= offset <= v,
{
    lemma_runs_stay_in_order(trace, by, names, i);
    lemma_runs_stay_in_order(trace, by, names, i + 1);
    assert(follows(trace[i], by[i], trace[i + 1]));
    assert(trace[i + 1].published.contains(offset));
    assert(trace[i + 1].granted.contains_key(offset));
    assert(grant_is_true(trace[i], offset));
    let n = by[i]->Node_n;
    let input = by[i]->Node_input;
    let r = by[i]->Node_r;
    let c = lemma_told_was_acknowledged(trace[i].nodes[n], input, trace[i + 1].nodes[n], r, offset);
    assert(node_is_true(trace[i], n));
}

/// No offset is told twice: in a run of any number of nodes with their
/// store, two moves that each tell a client an offset tell different ones,
/// and one move tells at most one.
pub proof fn offsets_are_told_once(
    trace: Seq<World>,
    by: Seq<Move>,
    names: Seq<Seq<char>>,
    i: int,
    j: int,
    first: usize,
    second: usize,
)
    requires
        is_run(trace, by, names),
        0 <= i <= j < by.len(),
        by[i] matches Move::Node { r, .. } && tells(r, first),
        by[j] matches Move::Node { r, .. } && tells(r, second),
    ensures
        i < j ==> first != second,
        i == j ==> first == second,
{
    lemma_runs_stay_in_order(trace, by, names, i);
    lemma_runs_stay_in_order(trace, by, names, j);
    assert(follows(trace[i], by[i], trace[i + 1]));
    assert(follows(trace[j], by[j], trace[j + 1]));
    if i < j {
        assert(trace[i + 1].published.contains(first));
        lemma_told_stays(trace, by, names, i + 1, j, first);
        let n = by[j]->Node_n;
        let input = by[j]->Node_input;
        let r = by[j]->Node_r;
        lemma_node_move_keeps_order(trace[j], n, input, r, trace[j + 1]);
    } else {
        let n = by[i]->Node_n;
        let input = by[i]->Node_input;
        let r = by[i]->Node_r;
        let c1 = lemma_told_was_acknowledged(trace[i].nodes[n], input, trace[i + 1].nodes[n], r, first);
        let c2 = lemma_told_was_acknowledged(
            trace[i].nodes[n],
            input,
            trace[i + 1].nodes[n],
            r,
            second,
        );
    }
}

} // verus!
