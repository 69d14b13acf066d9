//! Broadcast nodes on a network: what a run of a whole system is, what holds
//! in every state that a run can reach, and that the nodes agree once the
//! gossip has come to rest.

use crate::bcast::{
    confirmed_gossip, connected, fresh, known_of, quiet, quiet_nodes_agree, reads, seen_anywhere,
    sound, steps, BroadcastState, InjectedPayload, Payload,
};
use crate::message::{Event, Message};
use crate::node::StepError;
use vstd::prelude::*;

verus! {

/// A system of nodes and the network between them.
pub struct World {
    /// The nodes, by name.
    pub nodes: Map<Seq<char>, BroadcastState>,
    /// The messages that nodes have sent and that may still arrive.
    pub flying: Set<Message<Payload>>,
    /// The values of the `broadcast` requests that nodes have taken.
    pub accepted: Set<usize>,
}

/// The system of the nodes `names` right after their handshakes.
pub open spec fn starts(w: World, names: Seq<Seq<char>>) -> bool {
    &&& forall|n: Seq<char>| w.nodes.contains_key(n) <==> names.contains(n)
    &&& forall|n: Seq<char>| w.nodes.contains_key(n) ==> #[trigger] w.nodes[n] == fresh(n, names)
    &&& w.flying == Set::<Message<Payload>>::empty()
    &&& w.accepted == Set::<usize>::empty()
}

/// Gossip and its confirmation: the messages that only nodes send.
pub open spec fn between_nodes(p: Payload) -> bool {
    p is Gossip || p is GossipOk
}

/// The network may hand `input` to the node `n`: a message is addressed to
/// `n`, and gossip and confirmations are such as a node has sent. Requests
/// may come from anywhere, and so may timer events.
pub open spec fn may_arrive(w: World, n: Seq<char>, input: Event<Payload, InjectedPayload>) -> bool {
    match input {
        Event::Message(m) => m.dest@ == n && (w.flying.contains(m) || !between_nodes(
            m.body.payload,
        )),
        _ => true,
    }
}

/// The messages that a step hands to the network.
pub open spec fn handed_over(r: Result<Seq<Message<Payload>>, StepError>) -> Set<Message<Payload>> {
    match r {
        Ok(out) => out.to_set(),
        Err(_) => Set::empty(),
    }
}

/// The value that the step takes from a client, if it takes one.
pub open spec fn taken(
    input: Event<Payload, InjectedPayload>,
    r: Result<Seq<Message<Payload>>, StepError>,
) -> Set<usize> {
    match input {
        Event::Message(m) => match m.body.payload {
            Payload::Broadcast { message } => if r is Ok {
                set![message]
            } else {
                Set::empty()
            },
            _ => Set::empty(),
        },
        _ => Set::empty(),
    }
}

/// One move of the system: the node `n` takes `input` with the outcome `r`.
/// What it sends is on the network from then on; the network may lose
/// messages and may deliver a message more than once, in any order.
pub open spec fn moves(
    pre: World,
    n: Seq<char>,
    input: Event<Payload, InjectedPayload>,
    r: Result<Seq<Message<Payload>>, StepError>,
    post: World,
) -> bool {
    &&& pre.nodes.contains_key(n)
    &&& post.nodes.contains_key(n)
    &&& may_arrive(pre, n, input)
    &&& steps(pre.nodes[n], input, post.nodes[n], r)
    &&& post.nodes == pre.nodes.insert(n, post.nodes[n])
    &&& post.flying.subset_of(pre.flying.union(handed_over(r)))
    &&& post.accepted == pre.accepted.union(taken(input, r))
}

/// `post` follows `pre` by one move.
pub open spec fn follows(pre: World, post: World) -> bool {
    exists|
        n: Seq<char>,
        input: Event<Payload, InjectedPayload>,
        r: Result<Seq<Message<Payload>>, StepError>,
    | #[trigger] moves(pre, n, input, r, post)
}

/// `trace` is a run of the system of the nodes `names`, state by state.
pub open spec fn is_run(trace: Seq<World>, names: Seq<Seq<char>>) -> bool {
    &&& trace.len() >= 1
    &&& starts(trace[0], names)
    &&& forall|i: int| 0 <= i < trace.len() - 1 ==> follows(#[trigger] trace[i], trace[i + 1])
}

/// What holds of a gossip on the network: it carries only values that were
/// taken from clients, its id is one that its sender has used, and as long
/// as the sender waits for its confirmation, the values waiting are among
/// those it carries.
pub open spec fn gossip_is_true(w: World, m: Message<Payload>) -> bool {
    m.body.payload matches Payload::Gossip { new_messages } ==> {
        &&& new_messages@.to_set().subset_of(w.accepted)
        &&& w.nodes.contains_key(m.src@) ==> {
            &&& m.body.id matches Some(k)
            &&& k < w.nodes[m.src@].id
            &&& w.nodes[m.src@].pending.contains_key(k) ==> w.nodes[m.src@].pending[k].subset_of(
                new_messages@.to_set(),
            )
        }
    }
}

/// What holds of a confirmation on the network: it answers an id that its
/// receiver has used, and as long as the receiver waits for it, its sender
/// is a node that has seen the values waiting.
pub open spec fn confirmation_is_true(w: World, m: Message<Payload>) -> bool {
    (m.body.payload is GossipOk && w.nodes.contains_key(m.dest@)) ==> (m.body.in_reply_to matches Some(
        k,
    ) ==> {
        &&& k < w.nodes[m.dest@].id
        &&& w.nodes[m.dest@].pending.contains_key(k) ==> {
            &&& w.nodes.contains_key(m.src@)
            &&& w.nodes[m.dest@].pending[k].subset_of(w.nodes[m.src@].messages)
        }
    })
}

/// What holds of a node in every state of a run: it goes by its name, the
/// gossip it waits to have confirmed went out under ids it has used, and it
/// has seen only values that were taken from clients.
pub open spec fn node_is_true(w: World, n: Seq<char>) -> bool {
    &&& w.nodes[n].node == n
    &&& forall|k: usize| #[trigger] w.nodes[n].pending.contains_key(k) ==> k < w.nodes[n].id
    &&& w.nodes[n].messages.subset_of(w.accepted)
}

/// What holds in every state of a run.
pub open spec fn inv(w: World) -> bool {
    &&& forall|n: Seq<char>| w.nodes.contains_key(n) ==> #[trigger] node_is_true(w, n)
    &&& sound(w.nodes)
    &&& forall|m: Message<Payload>| #[trigger]
        w.flying.contains(m) ==> gossip_is_true(w, m) && confirmation_is_true(w, m)
    &&& w.accepted.subset_of(seen_anywhere(w.nodes))
}

/// A system that starts is in order.
pub proof fn lemma_start_is_in_order(w: World, names: Seq<Seq<char>>)
    requires
        starts(w, names),
    ensures
        inv(w),
{
    assert forall|n: Seq<char>| w.nodes.contains_key(n) implies #[trigger] node_is_true(w, n) by {
        assert(w.nodes[n] == fresh(n, names));
    }
    assert forall|a: Seq<char>, b: Seq<char>|
        w.nodes.contains_key(a) && w.nodes.contains_key(b) implies #[trigger] known_of(
        w.nodes[a].known,
        b,
    ).subset_of(w.nodes[b].messages) by {
        assert(w.nodes[a] == fresh(a, names));
    }
}

/// What every step of a node keeps, seen from the network: the name stays,
/// ids are not given back, nothing seen is forgotten, and what waits for a
/// confirmation under an id used before the step waited there already.
pub proof fn lemma_step_keeps(
    s: BroadcastState,
    input: Event<Payload, InjectedPayload>,
    t: BroadcastState,
    r: Result<Seq<Message<Payload>>, StepError>,
)
    requires
        steps(s, input, t, r),
    ensures
        t.node == s.node,
        s.id <= t.id,
        s.messages.subset_of(t.messages),
        forall|k: usize| #[trigger]
            t.pending.contains_key(k) && k < s.id ==> s.pending.contains_key(k) && t.pending[k]
                == s.pending[k],
{
}

/// What a step teaches a node about its peers: nothing, unless it takes the
/// confirmation of a gossip that is pending; then the values of that gossip
/// are known to be held by the confirmation's sender.
pub proof fn lemma_step_learns(
    s: BroadcastState,
    input: Event<Payload, InjectedPayload>,
    t: BroadcastState,
    r: Result<Seq<Message<Payload>>, StepError>,
    peer: Seq<char>,
    v: usize,
)
    requires
        steps(s, input, t, r),
        known_of(t.known, peer).contains(v),
        !known_of(s.known, peer).contains(v),
    ensures
        input matches Event::Message(m) && m.body.payload is GossipOk && m.src@ == peer && (
        confirmed_gossip(s.pending, m) matches Some(k) && s.pending[k].contains(v)),
{
}

/// Every move keeps the system in order.
pub proof fn lemma_move_keeps_order(
    pre: World,
    n: Seq<char>,
    input: Event<Payload, InjectedPayload>,
    r: Result<Seq<Message<Payload>>, StepError>,
    post: World,
)
    requires
        inv(pre),
        moves(pre, n, input, r, post),
    ensures
        inv(post),
{
    let s = pre.nodes[n];
    let t = post.nodes[n];
    lemma_step_keeps(s, input, t, r);
    assert(node_is_true(pre, n));
    assert forall|x: Seq<char>| post.nodes.contains_key(x) implies pre.nodes.contains_key(x) && (x
        != n ==> post.nodes[x] == pre.nodes[x]) by {}
    // the nodes
    assert forall|x: Seq<char>| post.nodes.contains_key(x) implies #[trigger] node_is_true(
        post,
        x,
    ) by {
        assert(node_is_true(pre, x));
        if x == n {
            assert forall|v: usize| t.messages.contains(v) implies post.accepted.contains(v) by {
                if !s.messages.contains(v) {
                    lemma_new_value_is_accepted(pre, n, input, r, post, v);
                }
            }
        }
    }
    // what the nodes know of each other
    assert forall|a: Seq<char>, b: Seq<char>|
        post.nodes.contains_key(a) && post.nodes.contains_key(b) implies #[trigger] known_of(
        post.nodes[a].known,
        b,
    ).subset_of(post.nodes[b].messages) by {
        assert(known_of(pre.nodes[a].known, b).subset_of(pre.nodes[b].messages));
        assert(pre.nodes[b].messages.subset_of(post.nodes[b].messages));
        assert forall|v: usize| known_of(post.nodes[a].known, b).contains(v) implies post.nodes[b].messages.contains(
            v,
        ) by {
            if !known_of(pre.nodes[a].known, b).contains(v) {
                assert(a == n);
                lemma_step_learns(s, input, t, r, b, v);
                let ok = input->Message_0;
                assert(pre.flying.contains(ok));
                assert(confirmation_is_true(pre, ok));
            }
        }
    }
    // the messages on the network
    assert forall|m: Message<Payload>| #[trigger] post.flying.contains(m) implies gossip_is_true(
        post,
        m,
    ) && confirmation_is_true(post, m) by {
        if pre.flying.contains(m) {
            assert(gossip_is_true(pre, m) && confirmation_is_true(pre, m));
            if post.nodes.contains_key(m.src@) {
                assert(pre.nodes[m.src@].messages.subset_of(post.nodes[m.src@].messages));
            }
        } else {
            lemma_new_message_is_true(pre, n, input, r, post, m);
        }
    }
    // what was taken from clients
    assert forall|v: usize| post.accepted.contains(v) implies seen_anywhere(post.nodes).contains(
        v,
    ) by {
        if pre.accepted.contains(v) {
            assert(seen_anywhere(pre.nodes).contains(v));
            let a = choose|a: Seq<char>|
                pre.nodes.contains_key(a) && (#[trigger] pre.nodes[a]).messages.contains(v);
            assert(pre.nodes[a].messages.subset_of(post.nodes[a].messages));
            assert(post.nodes.contains_key(a) && post.nodes[a].messages.contains(v));
        } else {
            assert(taken(input, r).contains(v));
            assert(post.nodes.contains_key(n) && post.nodes[n].messages.contains(v));
        }
    }
}

/// A value that a node sees for the first time was taken from a client, by
/// this node now or by another before.
proof fn lemma_new_value_is_accepted(
    pre: World,
    n: Seq<char>,
    input: Event<Payload, InjectedPayload>,
    r: Result<Seq<Message<Payload>>, StepError>,
    post: World,
    v: usize,
)
    requires
        inv(pre),
        moves(pre, n, input, r, post),
        post.nodes[n].messages.contains(v),
        !pre.nodes[n].messages.contains(v),
    ensures
        post.accepted.contains(v),
{
    let m = input->Message_0;
    match m.body.payload {
        Payload::Gossip { new_messages } => {
            assert(pre.flying.contains(m));
            assert(gossip_is_true(pre, m));
            assert(new_messages@.to_set().contains(v));
        },
        Payload::Broadcast { message } => {
            assert(taken(input, r).contains(v));
        },
        _ => {},
    }
}

/// A message that a move puts on the network is true of the system after
/// the move.
proof fn lemma_new_message_is_true(
    pre: World,
    n: Seq<char>,
    input: Event<Payload, InjectedPayload>,
    r: Result<Seq<Message<Payload>>, StepError>,
    post: World,
    m: Message<Payload>,
)
    requires
        inv(pre),
        moves(pre, n, input, r, post),
        post.flying.contains(m),
        !pre.flying.contains(m),
    ensures
        gossip_is_true(post, m),
        confirmation_is_true(post, m),
{
    let s = pre.nodes[n];
    let t = post.nodes[n];
    lemma_step_keeps(s, input, t, r);
    assert(node_is_true(pre, n));
    assert(handed_over(r).contains(m));
    let out = r->Ok_0;
    let i = choose|i: int| 0 <= i < out.len() && out[i] == m;
    match input {
        Event::Message(g) => match g.body.payload {
            Payload::Gossip { new_messages } => {
                assert(pre.flying.contains(g));
                assert(gossip_is_true(pre, g));
                if post.nodes.contains_key(g.src@) {
                    lemma_step_keeps(s, input, t, r);
                }
            },
            _ => {},
        },
        Event::InjectedPayload(_) => {
            let to = s.targets(s.neighbours.len() as int);
            assert(m.body.payload is Gossip);
            assert(m.src@ == n);
            assert(t.pending == s.pending_after(to));
        },
        Event::EOF => {},
    }
}

/// Every state of a run is in order.
pub proof fn lemma_runs_stay_in_order(trace: Seq<World>, names: Seq<Seq<char>>, i: int)
    requires
        is_run(trace, names),
        0 <= i < trace.len(),
    ensures
        inv(trace[i]),
    decreases i,
{
    if i == 0 {
        lemma_start_is_in_order(trace[0], names);
    } else {
        lemma_runs_stay_in_order(trace, names, i - 1);
        assert(follows(trace[i - 1], trace[i - 1 + 1]));
        let (n, input, r) = choose|
            n: Seq<char>,
            input: Event<Payload, InjectedPayload>,
            r: Result<Seq<Message<Payload>>, StepError>,
        | #[trigger] moves(trace[i - 1], n, input, r, trace[i]);
        lemma_move_keeps_order(trace[i - 1], n, input, r, trace[i]);
    }
}

/// In every run, whatever a node knows a peer to hold, that peer has seen,
/// and every node has seen only values that clients have broadcast.
pub proof fn nodes_know_only_what_is_true(trace: Seq<World>, names: Seq<Seq<char>>, i: int)
    requires
        is_run(trace, names),
        0 <= i < trace.len(),
    ensures
        sound(trace[i].nodes),
        seen_anywhere(trace[i].nodes) == trace[i].accepted,
{
    lemma_runs_stay_in_order(trace, names, i);
    let w = trace[i];
    assert forall|v: usize| seen_anywhere(w.nodes).contains(v) implies w.accepted.contains(v) by {
        let a = choose|a: Seq<char>|
            w.nodes.contains_key(a) && (#[trigger] w.nodes[a]).messages.contains(v);
        assert(node_is_true(w, a));
    }
    assert(seen_anywhere(w.nodes) =~= w.accepted);
}

/// Convergence: when a run of a connected system has come to rest, so that
/// no node's timer has anything left to send, every node has seen exactly
/// the values that nodes have taken from clients, and a `read` at any node
/// lists exactly these.
pub proof fn values_converge(
    trace: Seq<World>,
    names: Seq<Seq<char>>,
    n: Seq<char>,
    request: Message<Payload>,
    after: BroadcastState,
    out: Seq<Message<Payload>>,
)
    requires
        is_run(trace, names),
        connected(trace.last().nodes),
        forall|x: Seq<char>|
            trace.last().nodes.contains_key(x) ==> quiet(#[trigger] trace.last().nodes[x]),
        trace.last().nodes.contains_key(n),
        reads(trace.last().nodes[n], request, after, Ok(out)),
    ensures
        trace.last().nodes[n].messages == trace.last().accepted,
        out[0].body.payload matches Payload::ReadOk { messages } && messages@.to_set()
            == trace.last().accepted,
{
    let w = trace.last();
    nodes_know_only_what_is_true(trace, names, trace.len() - 1);
    quiet_nodes_agree(w.nodes, n);
}

} // verus!
