use rustengan::ta_map::{InjectedPayload, InvalidOpType, Op, OpType, Payload, TAMap, Txn};
use rustengan::{Body, Event, Init, Message, Node, StepError};

type Input = Event<Payload, InjectedPayload>;

fn node(name: &str, all: &[&str]) -> TAMap {
    <TAMap as Node<Payload, InjectedPayload>>::from_init(Init {
        node_id: name.to_string(),
        node_ids: all.iter().map(|s| s.to_string()).collect(),
    })
    .expect("a node")
}

fn msg(src: &str, dest: &str, id: Option<usize>, re: Option<usize>, payload: Payload) -> Input {
    Event::Message(Message {
        src: src.to_string(),
        dest: dest.to_string(),
        body: Body { id, in_reply_to: re, payload },
    })
}

fn w(key: isize, val: isize) -> Op {
    Op { op_type: OpType::Write, key, val: Some(val) }
}

fn r(key: isize) -> Op {
    Op { op_type: OpType::Read, key, val: None }
}

fn parts(ops: &[Op]) -> Vec<(&'static str, isize, Option<isize>)> {
    ops.iter().map(|o| o.to_parts()).collect()
}

fn txn(n: &mut TAMap, dest: &str, id: usize, ops: Vec<Op>) -> Vec<(&'static str, isize, Option<isize>)> {
    let out = n.step(msg("c1", dest, Some(id), None, Payload::Txn { txn: ops })).expect("txn");
    assert_eq!(out.len(), 1);
    assert_eq!(out[0].dest, "c1");
    assert_eq!(out[0].src, dest);
    assert_eq!(out[0].body.in_reply_to, Some(id));
    match &out[0].body.payload {
        Payload::TxnOk { txn } => parts(txn),
        other => panic!("not a txn_ok: {:?}", other),
    }
}

fn tick(n: &mut TAMap) -> Vec<Message<Payload>> {
    n.step(Event::InjectedPayload(InjectedPayload::Gossip)).expect("tick")
}

fn carried(m: &Message<Payload>) -> Vec<(&'static str, isize, Option<isize>)> {
    match &m.body.payload {
        Payload::Gossip { txn } => parts(&txn.ops),
        other => panic!("not a gossip: {:?}", other),
    }
}

#[test]
fn ta_map_read_your_writes() {
    let mut n = node("n1", &["n1"]);
    let out = n
        .step(msg("c1", "n1", Some(1), None, Payload::Txn { txn: vec![w(1, 10), r(1)] }))
        .expect("txn");
    assert_eq!(out.len(), 1);
    assert_eq!(out[0].src, "n1");
    assert_eq!(out[0].dest, "c1");
    assert_eq!(out[0].body.id, Some(1));
    assert_eq!(out[0].body.in_reply_to, Some(1));
    match &out[0].body.payload {
        Payload::TxnOk { txn } => {
            assert_eq!(parts(txn), vec![("w", 1, Some(10)), ("r", 1, Some(10))]);
        }
        other => panic!("not a txn_ok: {:?}", other),
    }
    assert_eq!(n.get(1), Some(10));
}

#[test]
fn reads_see_what_is_stored_or_null() {
    let mut n = node("n1", &["n1"]);
    assert_eq!(txn(&mut n, "n1", 1, vec![r(5)]), vec![("r", 5, None)]);
    assert_eq!(
        txn(&mut n, "n1", 2, vec![r(5), w(5, 1), r(5), w(5, 2), w(6, -3), r(5), r(6)]),
        vec![
            ("r", 5, None),
            ("w", 5, Some(1)),
            ("r", 5, Some(1)),
            ("w", 5, Some(2)),
            ("w", 6, Some(-3)),
            ("r", 5, Some(2)),
            ("r", 6, Some(-3)),
        ]
    );
    assert_eq!(txn(&mut n, "n1", 3, vec![]), vec![]);
    assert_eq!(n.get(5), Some(2));
    assert_eq!(n.get(6), Some(-3));
    assert_eq!(n.get(7), None);
}

#[test]
fn a_read_ignores_the_value_it_came_with() {
    let mut n = node("n1", &["n1"]);
    let stale = Op { op_type: OpType::Read, key: 4, val: Some(77) };
    assert_eq!(txn(&mut n, "n1", 1, vec![stale]), vec![("r", 4, None)]);
    assert_eq!(n.get(4), None);
}

#[test]
fn a_write_without_a_value_is_echoed_and_stores_nothing() {
    let mut n = node("n1", &["n1"]);
    let empty = Op { op_type: OpType::Write, key: 4, val: None };
    assert_eq!(txn(&mut n, "n1", 1, vec![empty]), vec![("w", 4, None)]);
    assert_eq!(n.get(4), None);
    assert_eq!(
        txn(&mut n, "n1", 2, vec![w(4, 1), empty, r(4)]),
        vec![("w", 4, Some(1)), ("w", 4, None), ("r", 4, Some(1))]
    );
    assert_eq!(n.get(4), Some(1));
}

#[test]
fn the_answer_is_as_long_as_the_transaction() {
    let mut n = node("n1", &["n1", "n2"]);
    let empty = Op { op_type: OpType::Write, key: 9, val: None };
    let stale = Op { op_type: OpType::Read, key: 3, val: Some(5) };
    let ops = vec![r(1), w(1, 2), empty, stale, w(3, 4), r(3), r(9), w(1, 7), r(1)];
    let got = txn(&mut n, "n1", 1, ops.clone());
    assert_eq!(got.len(), ops.len());
    for (j, op) in ops.iter().enumerate() {
        let (word, key, val) = op.to_parts();
        assert_eq!(got[j].0, word);
        assert_eq!(got[j].1, key);
        if word == "w" {
            assert_eq!(got[j].2, val);
        }
    }
    assert_eq!(got[0].2, None);
    assert_eq!(got[3].2, None);
    assert_eq!(got[5].2, Some(4));
    assert_eq!(got[6].2, None);
    assert_eq!(got[8].2, Some(7));
    // the transaction is queued as it came
    let g = tick(&mut n);
    assert_eq!(g.len(), 1);
    assert_eq!(carried(&g[0]), parts(&ops));
}

#[test]
fn transactions_are_queued_for_every_peer_and_flushed_peer_by_peer() {
    let mut n = node("n2", &["n1", "n2", "n3"]);
    txn(&mut n, "n2", 1, vec![w(1, 10), r(1)]);
    txn(&mut n, "n2", 2, vec![w(2, 20)]);
    assert_eq!(n.in_flight(), 0);

    let first = tick(&mut n);
    let second = tick(&mut n);
    let third = tick(&mut n);
    assert!(third.is_empty());
    let mut dests = vec![first[0].dest.clone(), second[0].dest.clone()];
    dests.sort();
    assert_eq!(dests, vec!["n1".to_string(), "n3".to_string()]);
    let mut next = 3;
    for batch in [&first, &second] {
        assert_eq!(batch.len(), 2);
        assert_eq!(batch[0].dest, batch[1].dest);
        // the transactions go out as they came, oldest first
        assert_eq!(carried(&batch[0]), vec![("w", 1, Some(10)), ("r", 1, None)]);
        assert_eq!(carried(&batch[1]), vec![("w", 2, Some(20))]);
        for m in batch.iter() {
            assert_eq!(m.src, "n2");
            assert_eq!(m.body.id, Some(next));
            assert_eq!(m.body.in_reply_to, None);
            next += 1;
        }
    }
    assert_eq!(n.in_flight(), 4);

    for id in [3usize, 5, 5, 99] {
        let out = n.step(msg("n1", "n2", Some(1), Some(id), Payload::GossipOk)).expect("ok");
        assert!(out.is_empty());
    }
    assert_eq!(n.in_flight(), 2);
}

#[test]
fn gossip_applies_the_writes_only() {
    let mut n = node("n1", &["n1", "n2"]);
    txn(&mut n, "n1", 1, vec![w(1, 1), w(2, 2)]);
    let out = n
        .step(msg(
            "n2",
            "n1",
            Some(6),
            None,
            Payload::Gossip { txn: Txn { ops: vec![r(2), w(1, 50), w(3, 30), w(3, 31)] } },
        ))
        .expect("gossip");
    assert_eq!(out.len(), 1);
    assert!(matches!(out[0].body.payload, Payload::GossipOk));
    assert_eq!(out[0].src, "n1");
    assert_eq!(out[0].dest, "n2");
    assert_eq!(out[0].body.id, Some(2));
    assert_eq!(out[0].body.in_reply_to, Some(6));
    assert_eq!(n.get(1), Some(50));
    assert_eq!(n.get(2), Some(2));
    assert_eq!(n.get(3), Some(31));
    // what was heard is not passed on: only the node's own transaction is queued
    let g = tick(&mut n);
    assert_eq!(g.len(), 1);
    assert_eq!(carried(&g[0]), vec![("w", 1, Some(1)), ("w", 2, Some(2))]);
}

#[test]
fn a_confirmation_that_answers_nothing_fails() {
    let mut n = node("n1", &["n1", "n2"]);
    txn(&mut n, "n1", 1, vec![w(1, 1)]);
    tick(&mut n);
    let r = n.step(msg("n2", "n1", Some(1), None, Payload::GossipOk));
    assert_eq!(r.err(), Some(StepError::NoInReplyTo));
    assert_eq!(n.in_flight(), 1);
    assert_eq!(n.get(1), Some(1));
}

#[test]
fn txn_ok_and_end_of_input_change_nothing() {
    let mut n = node("n1", &["n1", "n2"]);
    assert!(n
        .step(msg("n2", "n1", Some(1), Some(1), Payload::TxnOk { txn: vec![w(1, 1)] }))
        .expect("ignored")
        .is_empty());
    assert!(n.step(Event::EOF).expect("eof").is_empty());
    assert_eq!(n.get(1), None);
    assert!(tick(&mut n).is_empty());
}

#[test]
fn writes_reach_the_other_node() {
    let names = ["n1", "n2"];
    let mut a = node("n1", &names);
    let mut b = node("n2", &names);
    txn(&mut a, "n1", 1, vec![w(1, 10), w(2, 20)]);
    txn(&mut a, "n1", 2, vec![w(1, 11)]);
    let out = tick(&mut a);
    assert_eq!(out.len(), 2);
    for g in out {
        let ops = match &g.body.payload {
            Payload::Gossip { txn } => txn.ops.clone(),
            other => panic!("not a gossip: {:?}", other),
        };
        let acks = b
            .step(msg(&g.src, &g.dest, g.body.id, None, Payload::Gossip { txn: Txn { ops } }))
            .expect("gossip");
        assert_eq!(acks.len(), 1);
        assert_eq!(acks[0].body.in_reply_to, g.body.id);
        let back = a
            .step(msg(&acks[0].src, &acks[0].dest, acks[0].body.id, acks[0].body.in_reply_to, Payload::GossipOk))
            .expect("ok");
        assert!(back.is_empty());
    }
    assert_eq!(a.in_flight(), 0);
    assert!(tick(&mut a).is_empty());
    assert!(tick(&mut b).is_empty());
    for key in [1isize, 2, 3] {
        assert_eq!(a.get(key), b.get(key));
    }
    assert_eq!(b.get(1), Some(11));
    assert_eq!(b.get(2), Some(20));
}

#[test]
fn operation_words() {
    assert_eq!(OpType::from_str("r"), Ok(OpType::Read));
    assert_eq!(OpType::from_str("w"), Ok(OpType::Write));
    assert_eq!(OpType::from_str(""), Err(InvalidOpType));
    assert_eq!(OpType::from_str("R"), Err(InvalidOpType));
    assert_eq!(OpType::from_str("rw"), Err(InvalidOpType));
    assert_eq!(OpType::from_str("write"), Err(InvalidOpType));
    assert_eq!(OpType::Read.as_str(), "r");
    assert_eq!(OpType::Write.as_str(), "w");
}

#[test]
fn operations_to_and_from_their_parts() {
    let op = Op::from_parts("w", -4, Some(9)).expect("a write");
    assert_eq!(op.op_type, OpType::Write);
    assert_eq!(op.key, -4);
    assert_eq!(op.val, Some(9));
    assert_eq!(op.to_parts(), ("w", -4, Some(9)));
    let op = Op::from_parts("r", 3, None).expect("a read");
    assert_eq!(op.to_parts(), ("r", 3, None));
    assert_eq!(Op::from_parts("x", 3, None).err(), Some(InvalidOpType));
}

#[test]
fn ta_map_asks_for_its_gossip_timer() {
    let t = <TAMap as Node<Payload, InjectedPayload>>::timers();
    assert_eq!(t.len(), 1);
    assert_eq!(t[0].every_ms, 200);
    assert_eq!(t[0].event, InjectedPayload::Gossip);
}

#[test]
fn writes_that_cross_leave_each_node_with_the_other_value() {
    let names = ["n1", "n2"];
    let mut a = node("n1", &names);
    let mut b = node("n2", &names);
    txn(&mut a, "n1", 1, vec![w(7, 1)]);
    txn(&mut b, "n2", 1, vec![w(7, 2)]);
    let from_a = tick(&mut a);
    let from_b = tick(&mut b);
    assert_eq!(from_a.len(), 1);
    assert_eq!(from_b.len(), 1);
    for (to, g) in [(&mut b, &from_a[0]), (&mut a, &from_b[0])] {
        let ops = match &g.body.payload {
            Payload::Gossip { txn } => txn.ops.clone(),
            other => panic!("not a gossip: {:?}", other),
        };
        to.step(msg(&g.src, &g.dest, g.body.id, None, Payload::Gossip { txn: Txn { ops } }))
            .expect("gossip");
    }
    // each node holds the write it heard last, and both values were written
    assert_eq!(a.get(7), Some(2));
    assert_eq!(b.get(7), Some(1));
    assert!(tick(&mut a).is_empty());
    assert!(tick(&mut b).is_empty());
}

#[test]
fn a_single_writer_and_its_peer_read_the_same() {
    let names = ["n1", "n2"];
    let mut a = node("n1", &names);
    let mut b = node("n2", &names);
    txn(&mut a, "n1", 1, vec![w(1, 10), w(2, 20), r(1)]);
    txn(&mut b, "n2", 1, vec![r(1), r(2)]);
    txn(&mut a, "n1", 2, vec![w(1, 11), w(3, 30)]);
    txn(&mut a, "n1", 3, vec![w(2, 21)]);
    while {
        let out = tick(&mut a);
        for g in out.iter() {
            let ops = match &g.body.payload {
                Payload::Gossip { txn } => txn.ops.clone(),
                other => panic!("not a gossip: {:?}", other),
            };
            b.step(msg(&g.src, &g.dest, g.body.id, None, Payload::Gossip { txn: Txn { ops } }))
                .expect("gossip");
        }
        !out.is_empty()
    } {}
    let all = vec![r(1), r(2), r(3), r(4)];
    let at_a = txn(&mut a, "n1", 9, all.clone());
    let at_b = txn(&mut b, "n2", 9, all);
    assert_eq!(at_a, at_b);
    assert_eq!(
        at_a,
        vec![("r", 1, Some(11)), ("r", 2, Some(21)), ("r", 3, Some(30)), ("r", 4, None)]
    );
}
