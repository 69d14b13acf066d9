//! Counter nodes on a network: what a run of a whole system is, what holds
//! in every state that a run can reach, and that every node reads the sum of
//! all that was added once the gossip has come to rest.

use crate::g_counter::{
    added, fresh, lemma_merge, owned, quiet, quiet_nodes_agree, reads, sound, steps, well_named,
    GCounterState, InjectedPayload, Payload,
};
use crate::message::{Event, Message};
use crate::node::StepError;
use crate::table::as_map;
use crate::tally::{count_of, lemma_total, lemma_total_by_counts, lemma_total_remove, total};
use vstd::prelude::*;

verus! {

/// A system of nodes and the network between them.
pub struct World {
    /// The nodes, by name.
    pub nodes: Map<Seq<char>, GCounterState>,
    /// The messages that nodes have sent and that may still arrive.
    pub flying: Set<Message<Payload>>,
    /// The sum of the deltas of the `add` requests that nodes have taken.
    pub added: nat,
}

/// The system of the nodes `names` right after their handshakes.
pub open spec fn starts(w: World, names: Seq<Seq<char>>) -> bool {
    &&& forall|n: Seq<char>| w.nodes.contains_key(n) <==> names.contains(n)
    &&& forall|n: Seq<char>| w.nodes.contains_key(n) ==> #[trigger] w.nodes[n] == fresh(n, names)
    &&& w.flying == Set::<Message<Payload>>::empty()
    &&& w.added == 0
}

/// Gossip and its acknowledgement: the messages that only nodes send.
pub open spec fn between_nodes(p: Payload) -> bool {
    p is Gossip || p is GossipOk
}

/// The network may hand `input` to the node `n`: a message is addressed to
/// `n`, and gossip and acknowledgements are such as a node has sent.
/// Requests may come from anywhere, and so may timer events.
pub open spec fn may_arrive(w: World, n: Seq<char>, input: Event<Payload, InjectedPayload>) -> bool {
    match input {
        Event::Message(m) => m.dest@ == n && (w.flying.contains(m) || !between_nodes(
            m.body.payload,
        )),
        _ => true,
    }
}

/// The messages that a step hands to the network.
pub open spec fn handed_over(r: Result<Seq<Message<Payload>>, StepError>) -> Set<Message<Payload>> {
    match r {
        Ok(out) => out.to_set(),
        Err(_) => Set::empty(),
    }
}

/// One move of the system: the node `n` takes `input` with the outcome `r`.
/// What it sends is on the network from then on; the network may lose
/// messages and may deliver a message more than once, in any order.
pub open spec fn moves(
    pre: World,
    n: Seq<char>,
    input: Event<Payload, InjectedPayload>,
    r: Result<Seq<Message<Payload>>, StepError>,
    post: World,
) -> bool {
    &&& pre.nodes.contains_key(n)
    &&& post.nodes.contains_key(n)
    &&& may_arrive(pre, n, input)
    &&& steps(pre.nodes[n], input, post.nodes[n], r)
    &&& post.nodes == pre.nodes.insert(n, post.nodes[n])
    &&& post.flying.subset_of(pre.flying.union(handed_over(r)))
    &&& post.added == pre.added + added(input, r)
}

/// `post` follows `pre` by one move.
pub open spec fn follows(pre: World, post: World) -> bool {
    exists|
        n: Seq<char>,
        input: Event<Payload, InjectedPayload>,
        r: Result<Seq<Message<Payload>>, StepError>,
    | #[trigger] moves(pre, n, input, r, post)
}

/// `trace` is a run of the system of the nodes `names`, state by state.
pub open spec fn is_run(trace: Seq<World>, names: Seq<Seq<char>>) -> bool {
    &&& trace.len() >= 1
    &&& starts(trace[0], names)
    &&& forall|i: int| 0 <= i < trace.len() - 1 ==> follows(#[trigger] trace[i], trace[i + 1])
}

/// What holds of a gossip on the network: no counter it carries is ahead of
/// the counter as its owner holds it.
pub open spec fn gossip_is_true(w: World, m: Message<Payload>) -> bool {
    m.body.payload matches Payload::Gossip { values } ==> forall|k: Seq<char>| #[trigger]
        w.nodes.contains_key(k) ==> count_of(values@, k) <= w.nodes[k].own()
}

/// What holds of an acknowledgement on the network: the value it reports is
/// not ahead of the view that its sender holds of its receiver's counter.
pub open spec fn acknowledgement_is_true(w: World, m: Message<Payload>) -> bool {
    m.body.payload matches Payload::GossipOk { value } ==> (w.nodes.contains_key(m.src@)
        && w.nodes.contains_key(m.dest@) && m.src@ != m.dest@ ==> value <= count_of(
        w.nodes[m.src@].values,
        m.dest@,
    ))
}

/// The peers of every node are nodes of the system other than itself.
pub open spec fn peers_are_nodes(nodes: Map<Seq<char>, GCounterState>) -> bool {
    forall|a: Seq<char>, b: Seq<char>|
        nodes.contains_key(a) && (#[trigger] nodes[a]).peers.contains(b) ==> b != a
            && #[trigger] nodes.contains_key(b)
}

/// What holds in every state of a run.
pub open spec fn inv(w: World) -> bool {
    &&& w.nodes.dom().finite()
    &&& well_named(w.nodes)
    &&& peers_are_nodes(w.nodes)
    &&& sound(w.nodes)
    &&& forall|m: Message<Payload>| #[trigger]
        w.flying.contains(m) ==> gossip_is_true(w, m) && acknowledgement_is_true(w, m)
    &&& total(owned(w.nodes)) == w.added
}

/// A system that starts is in order.
pub proof fn lemma_start_is_in_order(w: World, names: Seq<Seq<char>>)
    requires
        starts(w, names),
    ensures
        inv(w),
{
    assert(w.nodes.dom() =~= names.to_set());
    vstd::seq_lib::seq_to_set_is_finite(names);
    assert forall|a: Seq<char>| w.nodes.contains_key(a) implies #[trigger] w.nodes[a] == fresh(
        a,
        names,
    ) && (forall|b: Seq<char>|
        w.nodes[a].peers.contains(b) <==> names.contains(b) && b != a) by {
        let keep = |n: Seq<char>| n != a;
        assert forall|b: Seq<char>| names.filter(keep).contains(b) <==> names.contains(b) && b
            != a by {
            if names.contains(b) && b != a {
                let i = choose|i: int| 0 <= i < names.len() && names[i] == b;
                names.lemma_filter_contains(keep, i);
            }
            if names.filter(keep).contains(b) {
                names.lemma_filter_contains_rev(keep, b);
            }
        }
    }
    let none = Map::<Seq<char>, usize>::empty();
    assert forall|k: Seq<char>| count_of(owned(w.nodes), k) == count_of(none, k) by {
        if w.nodes.contains_key(k) {
            assert(w.nodes[k] == fresh(k, names));
        }
    }
    assert(owned(w.nodes).dom() =~= w.nodes.dom());
    lemma_total_by_counts(owned(w.nodes), none);
    let nothing = Seq::<(Seq<char>, usize)>::empty();
    assert(as_map(nothing) =~= none);
    lemma_total(nothing);
}

/// What every step of a node keeps, seen from the network: name and peers
/// stay, no view of a counter falls, and a counter appears only under the
/// node's own name or the name of a peer.
pub proof fn lemma_step_keeps(
    s: GCounterState,
    input: Event<Payload, InjectedPayload>,
    t: GCounterState,
    r: Result<Seq<Message<Payload>>, StepError>,
)
    requires
        steps(s, input, t, r),
    ensures
        t.node == s.node,
        t.peers == s.peers,
        s.values.dom().finite() ==> t.values.dom().finite(),
        forall|k: Seq<char>| count_of(s.values, k) <= #[trigger] count_of(t.values, k),
        forall|k: Seq<char>| #[trigger]
            t.values.contains_key(k) ==> s.values.contains_key(k) || k == s.node
                || s.peers.contains(k),
        !s.peers.contains(s.node) ==> t.own() == s.own() + added(input, r),
{
    assert forall|k: Seq<char>| count_of(s.values, k) <= #[trigger] count_of(t.values, k) by {
        crate::g_counter::counters_only_grow(s, input, t, r, k);
    }
    assert forall|k: Seq<char>| #[trigger] t.values.contains_key(k) implies s.values.contains_key(
        k,
    ) || k == s.node || s.peers.contains(k) by {
        if let Event::Message(m) = input {
            if let Payload::Gossip { values } = m.body.payload {
                lemma_merge(s.values, values@, s.peers, k);
            }
        }
    }
    crate::g_counter::counters_only_grow(s, input, t, r, s.node);
    if let Event::Message(m) = input {
        if let Payload::Gossip { values } = m.body.payload {
            lemma_merge(s.values, values@, s.peers, s.node);
        }
    }
}

/// A view that a step raises was raised by a gossip, to the counter that
/// the gossip carries for a peer; no other step changes the view of another
/// node's counter.
pub proof fn lemma_step_adopts(
    s: GCounterState,
    input: Event<Payload, InjectedPayload>,
    t: GCounterState,
    r: Result<Seq<Message<Payload>>, StepError>,
    k: Seq<char>,
)
    requires
        steps(s, input, t, r),
        k != s.node,
        count_of(t.values, k) != count_of(s.values, k),
    ensures
        input matches Event::Message(m) && (m.body.payload matches Payload::Gossip { values }
            && count_of(t.values, k) == count_of(values@, k)),
{
    if let Event::Message(m) = input {
        if let Payload::Gossip { values } = m.body.payload {
            lemma_merge(s.values, values@, s.peers, k);
        }
    }
}

/// Every move keeps the system in order.
pub proof fn lemma_move_keeps_order(
    pre: World,
    n: Seq<char>,
    input: Event<Payload, InjectedPayload>,
    r: Result<Seq<Message<Payload>>, StepError>,
    post: World,
)
    requires
        inv(pre),
        moves(pre, n, input, r, post),
    ensures
        inv(post),
{
    let s = pre.nodes[n];
    let t = post.nodes[n];
    lemma_step_keeps(s, input, t, r);
    assert(post.nodes.dom() =~= pre.nodes.dom());
    assert(!s.peers.contains(n)) by {
        if s.peers.contains(n) {
            assert(pre.nodes.contains_key(n) && pre.nodes[n].peers.contains(n));
        }
    }
    assert forall|x: Seq<char>| post.nodes.contains_key(x) implies pre.nodes.contains_key(x) && (x
        != n ==> post.nodes[x] == pre.nodes[x]) && pre.nodes[x].own() <= post.nodes[x].own() by {}
    // the names
    assert forall|a: Seq<char>| #[trigger] post.nodes.contains_key(a) implies {
        &&& post.nodes[a].node == a
        &&& post.nodes[a].values.dom().finite()
        &&& forall|k: Seq<char>| #[trigger]
            post.nodes[a].values.contains_key(k) ==> post.nodes.contains_key(k)
        &&& forall|b: Seq<char>| #[trigger]
            post.nodes.contains_key(b) && b != a ==> post.nodes[a].peers.contains(b)
    } by {
        assert(pre.nodes.contains_key(a));
    }
    assert forall|a: Seq<char>, b: Seq<char>|
        post.nodes.contains_key(a) && (#[trigger] post.nodes[a]).peers.contains(b) implies b != a
        && #[trigger] post.nodes.contains_key(b) by {
        assert(pre.nodes.contains_key(a) && pre.nodes[a].peers.contains(b));
    }
    // what the nodes hold of each other
    assert forall|a: Seq<char>, b: Seq<char>|
        #![trigger post.nodes[a], post.nodes[b]]
        post.nodes.contains_key(a) && post.nodes.contains_key(b) && a != b implies {
        &&& count_of(post.nodes[a].acked, b) <= count_of(post.nodes[b].values, a)
        &&& count_of(post.nodes[b].values, a) <= post.nodes[a].own()
    } by {
        let x = pre.nodes[a];
        let y = pre.nodes[b];
        assert(count_of(x.acked, b) <= count_of(y.values, a));
        assert(count_of(y.values, a) <= x.own());
        assert(count_of(y.values, a) <= count_of(post.nodes[b].values, a));
        if b == n && count_of(t.values, a) != count_of(s.values, a) {
            lemma_step_adopts(s, input, t, r, a);
            let g = input->Message_0;
            assert(pre.flying.contains(g));
            assert(gossip_is_true(pre, g));
        }
        if a == n && count_of(t.acked, b) != count_of(s.acked, b) {
            let ok = input->Message_0;
            assert(ok.body.payload is GossipOk);
            assert(pre.flying.contains(ok));
            assert(acknowledgement_is_true(pre, ok));
        }
    }
    // the messages on the network
    assert forall|m: Message<Payload>| #[trigger] post.flying.contains(m) implies gossip_is_true(
        post,
        m,
    ) && acknowledgement_is_true(post, m) by {
        if pre.flying.contains(m) {
            assert(gossip_is_true(pre, m) && acknowledgement_is_true(pre, m));
            if post.nodes.contains_key(m.src@) {
                assert(count_of(pre.nodes[m.src@].values, m.dest@) <= count_of(
                    post.nodes[m.src@].values,
                    m.dest@,
                ));
            }
        } else {
            lemma_new_message_is_true(pre, n, input, r, post, m);
        }
    }
    // the sum of what was added
    let before = owned(pre.nodes);
    let now = owned(post.nodes);
    assert(before.dom() =~= pre.nodes.dom());
    assert(now.dom() =~= post.nodes.dom());
    lemma_total_remove(before, n);
    lemma_total_remove(now, n);
    assert(now.remove(n) =~= before.remove(n));
}

/// A message that a move puts on the network is true of the system after
/// the move.
proof fn lemma_new_message_is_true(
    pre: World,
    n: Seq<char>,
    input: Event<Payload, InjectedPayload>,
    r: Result<Seq<Message<Payload>>, StepError>,
    post: World,
    m: Message<Payload>,
)
    requires
        inv(pre),
        moves(pre, n, input, r, post),
        post.flying.contains(m),
        !pre.flying.contains(m),
    ensures
        gossip_is_true(post, m),
        acknowledgement_is_true(post, m),
{
    let s = pre.nodes[n];
    let t = post.nodes[n];
    lemma_step_keeps(s, input, t, r);
    assert(handed_over(r).contains(m));
    let out = r->Ok_0;
    let i = choose|i: int| 0 <= i < out.len() && out[i] == m;
    match input {
        Event::Message(g) => {},
        Event::InjectedPayload(_) => {
            let values = m.body.payload->Gossip_values;
            assert(values@ == s.values);
            assert forall|k: Seq<char>| #[trigger] post.nodes.contains_key(k) implies count_of(
                values@,
                k,
            ) <= post.nodes[k].own() by {
                if k != n {
                    assert(pre.nodes.contains_key(k) && pre.nodes.contains_key(n));
                    assert(count_of(pre.nodes[n].values, k) <= pre.nodes[k].own());
                }
            }
        },
        Event::EOF => {},
    }
}

/// Every state of a run is in order.
pub proof fn lemma_runs_stay_in_order(trace: Seq<World>, names: Seq<Seq<char>>, i: int)
    requires
        is_run(trace, names),
        0 <= i < trace.len(),
    ensures
        inv(trace[i]),
    decreases i,
{
    if i == 0 {
        lemma_start_is_in_order(trace[0], names);
    } else {
        lemma_runs_stay_in_order(trace, names, i - 1);
        assert(follows(trace[i - 1], trace[i - 1 + 1]));
        let (n, input, r) = choose|
            n: Seq<char>,
            input: Event<Payload, InjectedPayload>,
            r: Result<Seq<Message<Payload>>, StepError>,
        | #[trigger] moves(trace[i - 1], n, input, r, trace[i]);
        lemma_move_keeps_order(trace[i - 1], n, input, r, trace[i]);
    }
}

/// In every run the counters, as their owners hold them, add up to the sum
/// of all that was added, and no node's view of a counter is ahead of it.
pub proof fn counters_hold_what_was_added(trace: Seq<World>, names: Seq<Seq<char>>, i: int)
    requires
        is_run(trace, names),
        0 <= i < trace.len(),
    ensures
        total(owned(trace[i].nodes)) == trace[i].added,
        sound(trace[i].nodes),
{
    lemma_runs_stay_in_order(trace, names, i);
}

/// Convergence: when a run has come to rest, so that no node's timer has
/// anything left to send, the counters of every node add up to the sum of
/// all that was added, and a `read` at any node that is answered returns
/// that sum.
pub proof fn g_counter_converges(
    trace: Seq<World>,
    names: Seq<Seq<char>>,
    n: Seq<char>,
    request: Message<Payload>,
    after: GCounterState,
    r: Result<Seq<Message<Payload>>, StepError>,
)
    requires
        is_run(trace, names),
        forall|x: Seq<char>|
            trace.last().nodes.contains_key(x) ==> quiet(#[trigger] trace.last().nodes[x]),
        trace.last().nodes.contains_key(n),
        reads(trace.last().nodes[n], request, after, r),
    ensures
        total(trace.last().nodes[n].values) == trace.last().added,
        r matches Ok(out) ==> out[0].body.payload == (Payload::ReadOk {
            value: trace.last().added as usize,
        }) && trace.last().added <= usize::MAX,
        r is Err ==> trace.last().nodes[n].id == usize::MAX || trace.last().added > usize::MAX,
{
    let w = trace.last();
    lemma_runs_stay_in_order(trace, names, trace.len() - 1);
    quiet_nodes_agree(w.nodes, n);
}

} // verus!
