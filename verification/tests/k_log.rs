use rustengan::k_log::{InjectedPayload, KLogNode, Payload};
use rustengan::table::StrMap;
use rustengan::{Body, Event, Init, Message, Node, StepError};

fn node(name: &str, all: &[&str]) -> KLogNode {
    KLogNode::new(Init {
        node_id: name.to_string(),
        node_ids: all.iter().map(|s| s.to_string()).collect(),
    })
}

fn msg(src: &str, dest: &str, id: Option<usize>, re: Option<usize>, payload: Payload) -> Event<Payload, InjectedPayload> {
    Event::Message(Message {
        src: src.to_string(),
        dest: dest.to_string(),
        body: Body { id, in_reply_to: re, payload },
    })
}

fn send(n: &mut KLogNode, id: usize, key: &str, value: usize) -> Vec<Message<Payload>> {
    n.step(msg("c1", "n1", Some(id), None, Payload::Send { key: key.to_string(), msg: value }))
        .expect("send")
}

fn offsets(pairs: &[(&str, usize)]) -> StrMap<usize> {
    let mut m = StrMap::new();
    for (k, v) in pairs {
        m.insert(k.to_string(), *v);
    }
    m
}

fn cas_of(m: &Message<Payload>) -> (usize, usize, bool) {
    match &m.body.payload {
        Payload::Cas { key, from, to, put } => {
            assert_eq!(key, "offset");
            (*from, *to, *put)
        }
        other => panic!("not a cas: {:?}", other),
    }
}

#[test]
fn send_allocates_from_zero() {
    let mut n = node("n1", &["n1"]);
    let out = send(&mut n, 1, "k", 100);
    assert_eq!(out.len(), 1);
    assert_eq!(out[0].src, "n1");
    assert_eq!(out[0].dest, "lin-kv");
    assert_eq!(out[0].body.id, Some(1));
    assert_eq!(out[0].body.in_reply_to, None);
    assert_eq!(cas_of(&out[0]), (0, 1, true));
    assert_eq!(n.curr_offset(), 1);
    assert_eq!(n.waiting(), 1);

    let out = n.step(msg("lin-kv", "n1", Some(7), Some(1), Payload::CasOk)).expect("cas_ok");
    assert_eq!(out.len(), 1);
    assert_eq!(out[0].src, "n1");
    assert_eq!(out[0].dest, "c1");
    assert_eq!(out[0].body.id, Some(2));
    assert_eq!(out[0].body.in_reply_to, Some(1));
    assert!(matches!(out[0].body.payload, Payload::SendOk { offset: 1 }));
    assert_eq!(n.waiting(), 0);

    let out = n
        .step(msg("c1", "n1", Some(2), None, Payload::Poll { offsets: offsets(&[("k", 0)]) }))
        .expect("poll");
    assert_eq!(out.len(), 1);
    assert_eq!(out[0].body.in_reply_to, Some(2));
    match &out[0].body.payload {
        Payload::PollOk { msgs } => {
            assert_eq!(msgs.len(), 1);
            assert_eq!(msgs.get(&"k".to_string()), Some(&vec![(1, 100)]));
        }
        other => panic!("not a poll_ok: {:?}", other),
    }
}

#[test]
fn turned_down_swap_is_retried_from_the_current_value() {
    let mut n = node("n1", &["n1"]);
    send(&mut n, 1, "k", 100);
    let out = n
        .step(msg(
            "lin-kv",
            "n1",
            Some(3),
            Some(1),
            Payload::Error { code: 22, text: "current value 7 is not 0".to_string() },
        ))
        .expect("error 22");
    assert!(out.is_empty());
    assert_eq!(n.curr_offset(), 7);
    assert_eq!(n.waiting(), 1);

    let out = n.step(Event::InjectedPayload(InjectedPayload::Gossip)).expect("retry");
    assert_eq!(out.len(), 1);
    assert_eq!(out[0].src, "n1");
    assert_eq!(out[0].dest, "lin-kv");
    assert_eq!(out[0].body.id, Some(2));
    assert_eq!(cas_of(&out[0]), (7, 8, true));

    // Nothing is marked any more, so the next tick is silent.
    let out = n.step(Event::InjectedPayload(InjectedPayload::Gossip)).expect("tick");
    assert!(out.is_empty());

    // The acknowledgement of the first swap no longer matches anything.
    let out = n.step(msg("lin-kv", "n1", Some(4), Some(1), Payload::CasOk)).expect("stale");
    assert!(out.is_empty());

    let out = n.step(msg("lin-kv", "n1", Some(5), Some(2), Payload::CasOk)).expect("cas_ok");
    assert_eq!(out.len(), 1);
    assert_eq!(out[0].dest, "c1");
    assert_eq!(out[0].body.in_reply_to, Some(1));
    assert!(matches!(out[0].body.payload, Payload::SendOk { offset: 8 }));
    assert_eq!(n.waiting(), 0);
}

#[test]
fn error_text_without_a_current_value_changes_nothing() {
    let mut n = node("n1", &["n1"]);
    send(&mut n, 1, "k", 100);
    let out = n
        .step(msg(
            "lin-kv",
            "n1",
            None,
            Some(1),
            Payload::Error { code: 22, text: "precondition failed".to_string() },
        ))
        .expect("error 22");
    assert!(out.is_empty());
    assert_eq!(n.curr_offset(), 1);
    let out = n.step(Event::InjectedPayload(InjectedPayload::Gossip)).expect("tick");
    assert!(out.is_empty());
}

#[test]
fn current_value_is_found_anywhere_in_the_text() {
    let mut n = node("n1", &["n1"]);
    let out = n
        .step(msg(
            "lin-kv",
            "n1",
            None,
            None,
            Payload::Error {
                code: 22,
                text: "cas failed: current value 0042 is not 41, try again".to_string(),
            },
        ))
        .expect("error 22");
    assert!(out.is_empty());
    assert_eq!(n.curr_offset(), 42);
}

#[test]
fn current_value_too_large_ends_the_run() {
    let mut n = node("n1", &["n1"]);
    let r = n.step(msg(
        "lin-kv",
        "n1",
        None,
        None,
        Payload::Error {
            code: 22,
            text: "current value 340282366920938463463374607431768211456 is not 0".to_string(),
        },
    ));
    assert_eq!(r.err(), Some(StepError::Overflow));
    assert_eq!(n.curr_offset(), 0);
}

#[test]
fn missing_counter_is_created() {
    let mut n = node("n1", &["n1"]);
    let out = n
        .step(msg(
            "lin-kv",
            "n1",
            Some(9),
            Some(1),
            Payload::Error { code: 20, text: "key does not exist".to_string() },
        ))
        .expect("error 20");
    assert_eq!(out.len(), 1);
    assert_eq!(out[0].src, "n1");
    assert_eq!(out[0].dest, "lin-kv");
    assert_eq!(out[0].body.id, Some(1));
    assert_eq!(out[0].body.in_reply_to, None);
    assert_eq!(cas_of(&out[0]), (0, 0, true));
}

#[test]
fn other_errors_and_replies_are_ignored() {
    let mut n = node("n1", &["n1"]);
    let quiet = vec![
        Payload::Error { code: 11, text: "busy".to_string() },
        Payload::SendOk { offset: 3 },
        Payload::CommitOffsetsOk,
        Payload::CasOk,
        Payload::Cas { key: "offset".to_string(), from: 0, to: 1, put: true },
    ];
    for p in quiet {
        let out = n.step(msg("x", "n1", Some(1), Some(77), p)).expect("ignored");
        assert!(out.is_empty());
    }
    assert!(n.step(Event::EOF).expect("eof").is_empty());
    assert_eq!(n.curr_offset(), 0);
    assert_eq!(n.waiting(), 0);
}

#[test]
fn poll_lists_by_ascending_offset_from_the_offset_asked() {
    let mut n = node("n1", &["n1"]);
    for (i, v) in [30usize, 10, 20].iter().enumerate() {
        send(&mut n, i + 1, "k", *v);
    }
    // acknowledge in another order than sent
    for cas in [3usize, 1, 2] {
        n.step(msg("lin-kv", "n1", None, Some(cas), Payload::CasOk)).expect("cas_ok");
    }
    let out = n
        .step(msg(
            "c1",
            "n1",
            Some(9),
            None,
            Payload::Poll { offsets: offsets(&[("k", 2), ("unknown", 0)]) },
        ))
        .expect("poll");
    match &out[0].body.payload {
        Payload::PollOk { msgs } => {
            assert_eq!(msgs.len(), 1);
            assert_eq!(msgs.get(&"k".to_string()), Some(&vec![(2, 10), (3, 20)]));
            assert!(!msgs.contains_key(&"unknown".to_string()));
        }
        other => panic!("not a poll_ok: {:?}", other),
    }
    let out = n
        .step(msg("c1", "n1", Some(10), None, Payload::Poll { offsets: offsets(&[("k", 0)]) }))
        .expect("poll");
    match &out[0].body.payload {
        Payload::PollOk { msgs } => {
            assert_eq!(msgs.get(&"k".to_string()), Some(&vec![(1, 30), (2, 10), (3, 20)]));
        }
        other => panic!("not a poll_ok: {:?}", other),
    }
}

#[test]
fn offsets_are_committed_only_for_known_keys() {
    let mut n = node("n1", &["n1"]);
    send(&mut n, 1, "k", 5);
    n.step(msg("lin-kv", "n1", None, Some(1), Payload::CasOk)).expect("cas_ok");
    let out = n
        .step(msg(
            "c1",
            "n1",
            Some(2),
            None,
            Payload::CommitOffsets { offsets: offsets(&[("k", 1), ("other", 4)]) },
        ))
        .expect("commit");
    assert_eq!(out.len(), 1);
    assert!(matches!(out[0].body.payload, Payload::CommitOffsetsOk));
    assert_eq!(out[0].body.in_reply_to, Some(2));

    let out = n
        .step(msg(
            "c1",
            "n1",
            Some(3),
            None,
            Payload::ListCommittedOffsets {
                keys: vec!["k".to_string(), "other".to_string(), "k".to_string()],
            },
        ))
        .expect("list");
    match &out[0].body.payload {
        Payload::ListCommittedOffsetsOk { offsets } => {
            assert_eq!(offsets.len(), 1);
            assert_eq!(offsets.get(&"k".to_string()), Some(&1));
        }
        other => panic!("not a list: {:?}", other),
    }
}

#[test]
fn outgoing_ids_count_up_and_replies_point_back() {
    let mut n = node("n1", &["n1", "n2"]);
    let mut ids = Vec::new();
    let a = send(&mut n, 41, "a", 1);
    let b = send(&mut n, 42, "b", 2);
    let c = n.step(msg("lin-kv", "n1", None, Some(2), Payload::CasOk)).expect("cas_ok");
    let d = n
        .step(msg("c2", "n1", Some(5), None, Payload::Poll { offsets: offsets(&[]) }))
        .expect("poll");
    for out in [&a, &b, &c, &d] {
        for m in out.iter() {
            ids.push(m.body.id.expect("an id"));
        }
    }
    assert_eq!(ids, vec![1, 2, 3, 4]);
    // the send_ok answers the request that the acknowledged swap stood for
    assert_eq!(c[0].body.in_reply_to, Some(42));
    assert_eq!(c[0].dest, "c1");
    assert!(matches!(c[0].body.payload, Payload::SendOk { offset: 2 }));
    // the poll_ok answers the poll
    assert_eq!(d[0].body.in_reply_to, Some(5));
    assert_eq!(d[0].dest, "c2");
    assert_eq!(d[0].src, "n1");
}

#[test]
fn one_retry_per_tick() {
    let mut n = node("n1", &["n1"]);
    send(&mut n, 1, "a", 1);
    send(&mut n, 2, "b", 2);
    for cas in [1usize, 2] {
        n.step(msg(
            "lin-kv",
            "n1",
            None,
            Some(cas),
            Payload::Error { code: 22, text: "current value 5 is not 0".to_string() },
        ))
        .expect("error");
    }
    let first = n.step(Event::InjectedPayload(InjectedPayload::Gossip)).expect("tick");
    let second = n.step(Event::InjectedPayload(InjectedPayload::Gossip)).expect("tick");
    let third = n.step(Event::InjectedPayload(InjectedPayload::Gossip)).expect("tick");
    assert_eq!(first.len(), 1);
    assert_eq!(second.len(), 1);
    assert!(third.is_empty());
    assert_eq!(cas_of(&first[0]), (5, 6, true));
    assert_eq!(cas_of(&second[0]), (5, 6, true));
    assert_eq!(first[0].body.id, Some(3));
    assert_eq!(second[0].body.id, Some(4));
    assert_eq!(n.waiting(), 2);
}

#[test]
fn k_log_asks_for_its_retry_timer() {
    let t = <KLogNode as Node<Payload, InjectedPayload>>::timers();
    assert_eq!(t.len(), 1);
    assert_eq!(t[0].every_ms, 10);
    assert_eq!(t[0].event, InjectedPayload::Gossip);
}

#[test]
fn the_current_value_is_handed_over_as_text() {
    let mut n = node("n1", &["n1"]);
    send(&mut n, 1, "k", 100);
    let reply = Message {
        src: "lin-kv".to_string(),
        dest: "n1".to_string(),
        body: Body {
            id: None,
            in_reply_to: Some(1),
            payload: Payload::Error { code: 22, text: String::new() },
        },
    };
    // no current value: nothing changes
    assert!(n.on_turned_down(&reply, None).expect("ignored").is_empty());
    assert_eq!(n.curr_offset(), 1);
    assert!(n.step(Event::InjectedPayload(InjectedPayload::Gossip)).expect("tick").is_empty());
    // a current value: it is taken over and the swap is marked
    assert!(n.on_turned_down(&reply, Some("41".to_string())).expect("taken").is_empty());
    assert_eq!(n.curr_offset(), 41);
    let out = n.step(Event::InjectedPayload(InjectedPayload::Gossip)).expect("tick");
    assert_eq!(cas_of(&out[0]), (41, 42, true));
    // a value that is no number that fits
    assert_eq!(
        n.on_turned_down(&reply, Some("4x".to_string())).err(),
        Some(StepError::Overflow)
    );
    assert_eq!(
        n.on_turned_down(&reply, Some("18446744073709551616".to_string())).err(),
        Some(StepError::Overflow)
    );
    assert_eq!(n.curr_offset(), 41);
}

#[test]
fn two_nodes_and_one_store_never_tell_an_offset_twice() {
    let names = ["n1", "n2"];
    let mut nodes = vec![node("n1", &names), node("n2", &names)];
    let mut counter: Option<usize> = None;
    let mut told: Vec<usize> = Vec::new();
    let mut wire: Vec<Message<Payload>> = Vec::new();
    for round in 0..3usize {
        for (i, name) in names.iter().enumerate() {
            let out = nodes[i]
                .step(msg(
                    "c1",
                    name,
                    Some(round + 1),
                    None,
                    Payload::Send { key: "k".to_string(), msg: 10 * round + i },
                ))
                .expect("send");
            wire.extend(out);
        }
    }
    let mut turns = 0;
    while !wire.is_empty() || nodes.iter().any(|n| n.waiting() > 0) {
        turns += 1;
        assert!(turns < 200);
        let swaps: Vec<Message<Payload>> = wire.drain(..).collect();
        for swap in swaps {
            let (from, to) = match &swap.body.payload {
                Payload::Cas { from, to, .. } => (*from, *to),
                other => panic!("not a cas: {:?}", other),
            };
            assert_eq!(swap.dest, "lin-kv");
            // the store: a compare-and-swap that creates the counter where missing
            let payload = if counter.is_none() || counter == Some(from) {
                counter = Some(to);
                Payload::CasOk
            } else {
                Payload::Error {
                    code: 22,
                    text: format!("current value {} is not {}", counter.expect("a value"), from),
                }
            };
            let i = names.iter().position(|n| *n == swap.src).expect("a node");
            let out = nodes[i]
                .step(msg("lin-kv", &swap.src, None, swap.body.id, payload))
                .expect("reply");
            for m in out {
                match m.body.payload {
                    Payload::SendOk { offset } => told.push(offset),
                    ref other => panic!("not a send_ok: {:?}", other),
                }
            }
        }
        for n in nodes.iter_mut() {
            wire.extend(n.step(Event::InjectedPayload(InjectedPayload::Gossip)).expect("tick"));
        }
    }
    assert_eq!(told.len(), 6);
    let mut distinct = told.clone();
    distinct.sort();
    distinct.dedup();
    assert_eq!(distinct.len(), 6);
    assert!(distinct[0] >= 1);
}
