//! Map nodes on a network: what a run of a whole system is, and what holds
//! in every state that a run can reach: whatever a node's map holds under a
//! key was written to that key by a transaction that some node has taken,
//! and it is the last write to that key that the node has heard of.

use crate::message::{Event, Message};
use crate::node::StepError;
use crate::ta_map::{
    apply_all, enqueue, fresh, last_write, last_write_wins, queue_of, steps,
    values_come_from_writes, written, InjectedPayload, Op, OpType, Payload, TAMapState,
};
use vstd::prelude::*;

verus! {

/// A system of nodes and the network between them.
pub struct World {
    /// The nodes, by name.
    pub nodes: Map<Seq<char>, TAMapState>,
    /// The messages that nodes have sent and that may still arrive.
    pub flying: Set<Message<Payload>>,
    /// The writes, as key and value, of the transactions that nodes have
    /// taken from clients.
    pub accepted: Set<(isize, isize)>,
    /// Per node, the operations of all transactions it has handled, from
    /// clients and from gossip, in the order in which it handled them.
    pub heard: Map<Seq<char>, Seq<Op>>,
}

/// The writes among the operations, as key and value.
pub open spec fn writes_of(ops: Seq<Op>) -> Set<(isize, isize)> {
    Set::new(
        |w: (isize, isize)|
            exists|j: int|
                0 <= j < ops.len() && (#[trigger] ops[j]) == (Op {
                    op_type: OpType::Write,
                    key: w.0,
                    val: Some(w.1),
                }),
    )
}

/// The system of the nodes `names` right after their handshakes.
pub open spec fn starts(w: World, names: Seq<Seq<char>>) -> bool {
    &&& forall|n: Seq<char>| w.nodes.contains_key(n) <==> names.contains(n)
    &&& forall|n: Seq<char>| w.nodes.contains_key(n) ==> #[trigger] w.nodes[n] == fresh(n, names)
    &&& w.flying == Set::<Message<Payload>>::empty()
    &&& w.accepted == Set::<(isize, isize)>::empty()
    &&& forall|n: Seq<char>| w.heard.contains_key(n) <==> names.contains(n)
    &&& forall|n: Seq<char>| w.heard.contains_key(n) ==> #[trigger] w.heard[n] == Seq::<Op>::empty()
}

/// The network may hand `input` to the node `n`: a message is addressed to
/// `n`, and a gossip is one that a node has sent. Anything else may come
/// from anywhere, and so may timer events.
pub open spec fn may_arrive(w: World, n: Seq<char>, input: Event<Payload, InjectedPayload>) -> bool {
    match input {
        Event::Message(m) => m.dest@ == n && (w.flying.contains(m) || !(m.body.payload is Gossip)),
        _ => true,
    }
}

/// The messages that a step hands to the network.
pub open spec fn handed_over(r: Result<Seq<Message<Payload>>, StepError>) -> Set<Message<Payload>> {
    match r {
        Ok(out) => out.to_set(),
        Err(_) => Set::empty(),
    }
}

/// The writes that the step takes from a client.
pub open spec fn taken(
    input: Event<Payload, InjectedPayload>,
    r: Result<Seq<Message<Payload>>, StepError>,
) -> Set<(isize, isize)> {
    match input {
        Event::Message(m) => match m.body.payload {
            Payload::Txn { txn } => if r is Ok {
                writes_of(txn@)
            } else {
                Set::empty()
            },
            _ => Set::empty(),
        },
        _ => Set::empty(),
    }
}

/// One move of the system: the node `n` takes `input` with the outcome `r`.
/// What it sends is on the network from then on; the network may lose
/// messages and may deliver a message more than once, in any order.
pub open spec fn moves(
    pre: World,
    n: Seq<char>,
    input: Event<Payload, InjectedPayload>,
    r: Result<Seq<Message<Payload>>, StepError>,
    post: World,
) -> bool {
    &&& pre.nodes.contains_key(n)
    &&& post.nodes.contains_key(n)
    &&& may_arrive(pre, n, input)
    &&& steps(pre.nodes[n], input, post.nodes[n], r)
    &&& post.nodes == pre.nodes.insert(n, post.nodes[n])
    &&& post.flying.subset_of(pre.flying.union(handed_over(r)))
    &&& post.accepted == pre.accepted.union(taken(input, r))
    &&& pre.heard.contains_key(n)
    &&& post.heard == pre.heard.insert(
        n,
        if r is Ok {
            pre.heard[n] + written(input)
        } else {
            pre.heard[n]
        },
    )
}

/// `post` follows `pre` by one move.
pub open spec fn follows(pre: World, post: World) -> bool {
    exists|
        n: Seq<char>,
        input: Event<Payload, InjectedPayload>,
        r: Result<Seq<Message<Payload>>, StepError>,
    | #[trigger] moves(pre, n, input, r, post)
}

/// `trace` is a run of the system of the nodes `names`, state by state.
pub open spec fn is_run(trace: Seq<World>, names: Seq<Seq<char>>) -> bool {
    &&& trace.len() >= 1
    &&& starts(trace[0], names)
    &&& forall|i: int| 0 <= i < trace.len() - 1 ==> follows(#[trigger] trace[i], trace[i + 1])
}

/// What holds of a node in every state of a run: its map is what the
/// operations it has heard of make of an empty map, and what its map holds,
/// and what the transactions in its queues write, was taken from clients.
pub open spec fn node_is_true(w: World, n: Seq<char>) -> bool {
    &&& w.heard.contains_key(n)
    &&& w.nodes[n].map == apply_all(Map::empty(), w.heard[n])
    &&& forall|k: isize| #[trigger]
        w.nodes[n].map.contains_key(k) ==> w.accepted.contains((k, w.nodes[n].map[k]))
    &&& forall|peer: Seq<char>, i: int|
        w.nodes[n].queued.contains_key(peer) && 0 <= i < w.nodes[n].queued[peer].len()
            ==> writes_of(#[trigger] w.nodes[n].queued[peer][i]).subset_of(w.accepted)
}

/// What holds in every state of a run.
pub open spec fn inv(w: World) -> bool {
    &&& forall|n: Seq<char>| w.nodes.contains_key(n) ==> #[trigger] node_is_true(w, n)
    &&& forall|m: Message<Payload>| #[trigger]
        w.flying.contains(m) ==> (m.body.payload matches Payload::Gossip { txn } ==> writes_of(
            txn.ops@,
        ).subset_of(w.accepted))
}

/// A system that starts is in order.
pub proof fn lemma_start_is_in_order(w: World, names: Seq<Seq<char>>)
    requires
        starts(w, names),
    ensures
        inv(w),
{
    assert forall|n: Seq<char>| w.nodes.contains_key(n) implies #[trigger] node_is_true(w, n) by {
        assert(w.nodes[n] == fresh(n, names));
        assert(names.contains(n));
        assert(w.heard.contains_key(n));
        assert(w.heard[n] == Seq::<Op>::empty());
    }
}

/// Queueing a transaction adds nothing else to a queue: each transaction in
/// a queue afterwards is the one queued, or stood at the same place of that
/// queue before.
pub proof fn lemma_enqueue(
    q: Map<Seq<char>, Seq<Seq<Op>>>,
    peers: Seq<Seq<char>>,
    ops: Seq<Op>,
    peer: Seq<char>,
    i: int,
)
    requires
        enqueue(q, peers, ops).contains_key(peer),
        0 <= i < enqueue(q, peers, ops)[peer].len(),
    ensures
        enqueue(q, peers, ops)[peer][i] == ops || (q.contains_key(peer) && i < q[peer].len()
            && enqueue(q, peers, ops)[peer][i] == q[peer][i]),
    decreases peers.len(),
{
    if peers.len() > 0 {
        let before = enqueue(q, peers.drop_last(), ops);
        if peers.last() == peer {
            if i < queue_of(before, peer).len() {
                lemma_enqueue(q, peers.drop_last(), ops, peer, i);
            }
        } else {
            lemma_enqueue(q, peers.drop_last(), ops, peer, i);
        }
    }
}

/// Operations applied one run after the other are applied as one run.
pub proof fn lemma_apply_in_turn(m: Map<isize, isize>, first: Seq<Op>, then: Seq<Op>)
    ensures
        apply_all(m, first + then) == apply_all(apply_all(m, first), then),
    decreases then.len(),
{
    if then.len() == 0 {
        assert(first + then =~= first);
    } else {
        lemma_apply_in_turn(m, first, then.drop_last());
        assert((first + then).drop_last() =~= first + then.drop_last());
        assert((first + then).last() == then.last());
    }
}

/// Every move keeps the system in order.
pub proof fn lemma_move_keeps_order(
    pre: World,
    n: Seq<char>,
    input: Event<Payload, InjectedPayload>,
    r: Result<Seq<Message<Payload>>, StepError>,
    post: World,
)
    requires
        inv(pre),
        moves(pre, n, input, r, post),
    ensures
        inv(post),
{
    let s = pre.nodes[n];
    let t = post.nodes[n];
    assert(node_is_true(pre, n));
    assert forall|x: Seq<char>| post.nodes.contains_key(x) implies pre.nodes.contains_key(x) && (x
        != n ==> post.nodes[x] == pre.nodes[x]) by {}
    // what the event brings was taken from clients, now or before
    assert(r is Ok ==> writes_of(written(input)).subset_of(post.accepted)) by {
        if let Event::Message(m) = input {
            if m.body.payload is Gossip {
                assert(pre.flying.contains(m));
            }
        }
    }
    assert forall|x: Seq<char>| post.nodes.contains_key(x) implies #[trigger] node_is_true(
        post,
        x,
    ) by {
        assert(node_is_true(pre, x));
        if x == n {
            if r is Ok {
                lemma_apply_in_turn(Map::empty(), pre.heard[n], written(input));
            } else {
                assert(t == s);
            }
            assert forall|k: isize| #[trigger] t.map.contains_key(k) implies post.accepted.contains(
                (k, t.map[k]),
            ) by {
                values_come_from_writes(s, input, t, r, k);
                if !(s.map.contains_key(k) && s.map[k] == t.map[k]) {
                    assert(writes_of(written(input)).contains((k, t.map[k])));
                }
            }
            assert forall|peer: Seq<char>, i: int|
                t.queued.contains_key(peer) && 0 <= i < t.queued[peer].len() implies writes_of(
                #[trigger] t.queued[peer][i],
            ).subset_of(post.accepted) by {
                if let Event::Message(m) = input {
                    if let Payload::Txn { txn } = m.body.payload {
                        if r is Ok {
                            lemma_enqueue(s.queued, s.peers, txn@, peer, i);
                        }
                    }
                }
                if s.queued.contains_key(peer) && i < s.queued[peer].len() && t.queued[peer][i]
                    == s.queued[peer][i] {
                    assert(writes_of(s.queued[peer][i]).subset_of(pre.accepted));
                }
            }
        }
    }
    assert forall|m: Message<Payload>| #[trigger] post.flying.contains(m) implies (
    m.body.payload matches Payload::Gossip { txn } ==> writes_of(txn.ops@).subset_of(
        post.accepted,
    )) by {
        if !pre.flying.contains(m) {
            assert(handed_over(r).contains(m));
            let out = r->Ok_0;
            let i = choose|i: int| 0 <= i < out.len() && out[i] == m;
            if m.body.payload is Gossip {
                assert(input is InjectedPayload);
                let peer = choose|peer: Seq<char>| #[trigger]
                    s.queued.contains_key(peer) && crate::ta_map::flushes_to(s, peer, t, r);
                assert(writes_of(s.queued[peer][i]).subset_of(pre.accepted));
            }
        }
    }
}

/// Every state of a run is in order.
pub proof fn lemma_runs_stay_in_order(trace: Seq<World>, names: Seq<Seq<char>>, i: int)
    requires
        is_run(trace, names),
        0 <= i < trace.len(),
    ensures
        inv(trace[i]),
    decreases i,
{
    if i == 0 {
        lemma_start_is_in_order(trace[0], names);
    } else {
        lemma_runs_stay_in_order(trace, names, i - 1);
        assert(follows(trace[i - 1], trace[i - 1 + 1]));
        let (n, input, r) = choose|
            n: Seq<char>,
            input: Event<Payload, InjectedPayload>,
            r: Result<Seq<Message<Payload>>, StepError>,
        | #[trigger] moves(trace[i - 1], n, input, r, trace[i]);
        lemma_move_keeps_order(trace[i - 1], n, input, r, trace[i]);
    }
}

/// Every stored value was written: in every state of a run, what a node's
/// map holds under a key is the value of a write to that key in a
/// transaction that some node has taken from a client.
pub proof fn stored_values_were_written(
    trace: Seq<World>,
    names: Seq<Seq<char>>,
    i: int,
    n: Seq<char>,
    key: isize,
)
    requires
        is_run(trace, names),
        0 <= i < trace.len(),
        trace[i].nodes.contains_key(n),
        trace[i].nodes[n].map.contains_key(key),
    ensures
        trace[i].accepted.contains((key, trace[i].nodes[n].map[key])),
{
    lemma_runs_stay_in_order(trace, names, i);
    assert(node_is_true(trace[i], n));
}

/// The last write heard wins: in every state of a run, a node's map holds
/// under a key the value of the last write to that key among the
/// transactions the node has handled, and nothing if there was none.
pub proof fn last_heard_write_is_stored(
    trace: Seq<World>,
    names: Seq<Seq<char>>,
    i: int,
    n: Seq<char>,
    key: isize,
)
    requires
        is_run(trace, names),
        0 <= i < trace.len(),
        trace[i].nodes.contains_key(n),
    ensures
        trace[i].heard.contains_key(n),
        match last_write(trace[i].heard[n], key) {
            Some(v) => trace[i].nodes[n].map.contains_key(key) && trace[i].nodes[n].map[key] == v,
            None => !trace[i].nodes[n].map.contains_key(key),
        },
{
    lemma_runs_stay_in_order(trace, names, i);
    assert(node_is_true(trace[i], n));
    last_write_wins(Map::empty(), trace[i].heard[n], key);
}

/// Nodes agree on a key exactly where they have heard the same last write
/// to it: two nodes of a run hold the same under a key, or both nothing, if
/// and only if the last write to that key among the transactions the one has
/// handled has the value of the last such write that the other has handled.
pub proof fn nodes_agree_where_last_writes_agree(
    trace: Seq<World>,
    names: Seq<Seq<char>>,
    i: int,
    a: Seq<char>,
    b: Seq<char>,
    key: isize,
)
    requires
        is_run(trace, names),
        0 <= i < trace.len(),
        trace[i].nodes.contains_key(a),
        trace[i].nodes.contains_key(b),
    ensures
        (last_write(trace[i].heard[a], key) == last_write(trace[i].heard[b], key)) <==> ({
            let at_a = trace[i].nodes[a].map;
            let at_b = trace[i].nodes[b].map;
            at_a.contains_key(key) == at_b.contains_key(key) && (at_a.contains_key(key)
                ==> at_a[key] == at_b[key])
        }),
{
    last_heard_write_is_stored(trace, names, i, a, key);
    last_heard_write_is_stored(trace, names, i, b, key);
}

/// The writes of a value among the operations, in their order.
pub open spec fn writes_in_order(ops: Seq<Op>) -> Seq<Op> {
    ops.filter(|op: Op| op.op_type == OpType::Write && op.val is Some)
}

/// The last write to a key among operations is the last among their writes.
pub proof fn lemma_last_write_is_among_writes(ops: Seq<Op>, key: isize)
    ensures
        last_write(writes_in_order(ops), key) == last_write(ops, key),
    decreases ops.len(),
{
    reveal(Seq::filter);
    if ops.len() > 0 {
        lemma_last_write_is_among_writes(ops.drop_last(), key);
        let op = ops.last();
        if op.op_type == OpType::Write && op.val is Some {
            let kept = writes_in_order(ops.drop_last());
            assert(writes_in_order(ops) == kept.push(op));
            assert(kept.push(op).drop_last() =~= kept);
            assert(kept.push(op).last() == op);
        }
    }
}

/// Nodes that have heard the same writes in the same order hold the same
/// map: where the writes among the transactions that two nodes of a run have
/// handled, from clients and from gossip, are the same and came in the same
/// order, the two maps are equal. Such are a node that alone takes writes and
/// a peer that has heard all its gossip in order.
pub proof fn nodes_agree_after_the_same_writes(
    trace: Seq<World>,
    names: Seq<Seq<char>>,
    i: int,
    a: Seq<char>,
    b: Seq<char>,
)
    requires
        is_run(trace, names),
        0 <= i < trace.len(),
        trace[i].nodes.contains_key(a),
        trace[i].nodes.contains_key(b),
        writes_in_order(trace[i].heard[a]) == writes_in_order(trace[i].heard[b]),
    ensures
        trace[i].nodes[a].map == trace[i].nodes[b].map,
{
    let at_a = trace[i].nodes[a].map;
    let at_b = trace[i].nodes[b].map;
    assert forall|key: isize|
        #![trigger at_a.contains_key(key)]
        #![trigger at_b.contains_key(key)]
        at_a.contains_key(key) == at_b.contains_key(key) && (at_a.contains_key(key) ==> at_a[key]
            == at_b[key]) by {
        lemma_last_write_is_among_writes(trace[i].heard[a], key);
        lemma_last_write_is_among_writes(trace[i].heard[b], key);
        nodes_agree_where_last_writes_agree(trace, names, i, a, b, key);
    }
    assert(at_a =~= at_b);
}

} // verus!
