use rustengan::g_counter::{GCounterNode, InjectedPayload, Payload};
use rustengan::table::StrMap;
use rustengan::{Body, Event, Init, Message, Node, StepError};

type Input = Event<Payload, InjectedPayload>;

fn node(name: &str, all: &[&str]) -> GCounterNode {
    <GCounterNode as Node<Payload, InjectedPayload>>::from_init(Init {
        node_id: name.to_string(),
        node_ids: all.iter().map(|s| s.to_string()).collect(),
    })
    .expect("a node")
}

fn msg(src: &str, dest: &str, id: Option<usize>, re: Option<usize>, payload: Payload) -> Input {
    Event::Message(Message {
        src: src.to_string(),
        dest: dest.to_string(),
        body: Body { id, in_reply_to: re, payload },
    })
}

fn counters(pairs: &[(&str, usize)]) -> StrMap<usize> {
    let mut m = StrMap::new();
    for (k, v) in pairs {
        m.insert(k.to_string(), *v);
    }
    m
}

fn add(n: &mut GCounterNode, dest: &str, id: usize, delta: usize) -> Vec<Message<Payload>> {
    n.step(msg("c1", dest, Some(id), None, Payload::Add { delta })).expect("add")
}

fn read(n: &mut GCounterNode, dest: &str) -> usize {
    let out = n.step(msg("c9", dest, Some(900), None, Payload::Read)).expect("read");
    assert_eq!(out.len(), 1);
    match out[0].body.payload {
        Payload::ReadOk { value } => value,
        ref other => panic!("not a read_ok: {:?}", other),
    }
}

fn tick(n: &mut GCounterNode) -> Vec<Message<Payload>> {
    n.step(Event::InjectedPayload(InjectedPayload::Gossip)).expect("tick")
}

fn carried(m: &Message<Payload>) -> Vec<(String, usize)> {
    match &m.body.payload {
        Payload::Gossip { values } => {
            let mut v: Vec<(String, usize)> =
                (0..values.len()).map(|i| (values.key_at(i).clone(), *values.value_at(i))).collect();
            v.sort();
            v
        }
        other => panic!("not a gossip: {:?}", other),
    }
}

fn deliver(to: &mut GCounterNode, m: &Message<Payload>) -> Vec<Message<Payload>> {
    let payload = match &m.body.payload {
        Payload::Gossip { values } => {
            let mut copy = StrMap::new();
            for i in 0..values.len() {
                copy.insert(values.key_at(i).clone(), *values.value_at(i));
            }
            Payload::Gossip { values: copy }
        }
        Payload::GossipOk { value } => Payload::GossipOk { value: *value },
        other => panic!("not gossip traffic: {:?}", other),
    };
    to.step(msg(&m.src, &m.dest, m.body.id, m.body.in_reply_to, payload)).expect("delivery")
}

#[test]
fn g_counter_single_node() {
    let mut n = node("n1", &["n1"]);
    let a = add(&mut n, "n1", 1, 5);
    assert_eq!(a.len(), 1);
    assert!(matches!(a[0].body.payload, Payload::AddOk));
    assert_eq!(a[0].src, "n1");
    assert_eq!(a[0].dest, "c1");
    assert_eq!(a[0].body.id, Some(1));
    assert_eq!(a[0].body.in_reply_to, Some(1));
    add(&mut n, "n1", 2, 3);
    let out = n.step(msg("c1", "n1", Some(3), None, Payload::Read)).expect("read");
    assert_eq!(out.len(), 1);
    assert_eq!(out[0].body.id, Some(3));
    assert_eq!(out[0].body.in_reply_to, Some(3));
    assert!(matches!(out[0].body.payload, Payload::ReadOk { value: 8 }));
}

#[test]
fn a_fresh_counter_reads_zero_and_is_silent() {
    let mut n = node("n1", &["n1", "n2"]);
    assert_eq!(read(&mut n, "n1"), 0);
    assert!(tick(&mut n).is_empty());
}

#[test]
fn the_timer_sends_all_counters_to_peers_that_are_behind() {
    let mut n = node("n2", &["n1", "n2", "n3"]);
    add(&mut n, "n2", 1, 4);
    n.step(msg("n1", "n2", Some(1), None, Payload::Gossip { values: counters(&[("n1", 6)]) }))
        .expect("gossip");
    let g = tick(&mut n);
    assert_eq!(g.len(), 2);
    assert_eq!(g[0].dest, "n1");
    assert_eq!(g[1].dest, "n3");
    assert_eq!(g[0].src, "n2");
    assert_eq!(g[0].body.id, Some(3));
    assert_eq!(g[1].body.id, Some(4));
    assert_eq!(g[0].body.in_reply_to, None);
    let all = vec![("n1".to_string(), 6), ("n2".to_string(), 4)];
    assert_eq!(carried(&g[0]), all);
    assert_eq!(carried(&g[1]), all);

    // n1 acknowledges the current value, n3 an older one
    assert!(n.step(msg("n1", "n2", Some(2), Some(3), Payload::GossipOk { value: 4 }))
        .expect("ok")
        .is_empty());
    assert!(n.step(msg("n3", "n2", Some(2), Some(4), Payload::GossipOk { value: 3 }))
        .expect("ok")
        .is_empty());
    let g = tick(&mut n);
    assert_eq!(g.len(), 1);
    assert_eq!(g[0].dest, "n3");

    // a new add puts every peer behind again
    add(&mut n, "n2", 2, 1);
    assert_eq!(tick(&mut n).len(), 2);
}

#[test]
fn gossip_adopts_only_greater_counters_of_peers() {
    let mut n = node("n1", &["n1", "n2", "n3"]);
    add(&mut n, "n1", 1, 10);
    let out = n
        .step(msg(
            "n2",
            "n1",
            Some(7),
            None,
            Payload::Gossip { values: counters(&[("n1", 99), ("n2", 5), ("n3", 2), ("n4", 50)]) },
        ))
        .expect("gossip");
    assert_eq!(out.len(), 1);
    assert_eq!(out[0].dest, "n2");
    assert_eq!(out[0].src, "n1");
    assert_eq!(out[0].body.in_reply_to, Some(7));
    // the reply carries the view of the sender's counter
    assert!(matches!(out[0].body.payload, Payload::GossipOk { value: 5 }));
    // the own counter and names that are no peer are left alone
    assert_eq!(read(&mut n, "n1"), 17);

    // a smaller or equal counter is not adopted
    let out = n
        .step(msg(
            "n3",
            "n1",
            Some(8),
            None,
            Payload::Gossip { values: counters(&[("n2", 4), ("n3", 2)]) },
        ))
        .expect("gossip");
    assert!(matches!(out[0].body.payload, Payload::GossipOk { value: 2 }));
    assert_eq!(read(&mut n, "n1"), 17);

    let out = n
        .step(msg("n3", "n1", Some(9), None, Payload::Gossip { values: counters(&[("n2", 6)]) }))
        .expect("gossip");
    assert!(matches!(out[0].body.payload, Payload::GossipOk { value: 2 }));
    assert_eq!(read(&mut n, "n1"), 18);
}

#[test]
fn an_add_past_the_range_fails_and_changes_nothing() {
    let mut n = node("n1", &["n1"]);
    add(&mut n, "n1", 1, usize::MAX - 1);
    let r = n.step(msg("c1", "n1", Some(2), None, Payload::Add { delta: 2 }));
    assert_eq!(r.err(), Some(StepError::Overflow));
    assert_eq!(read(&mut n, "n1"), usize::MAX - 1);
    add(&mut n, "n1", 3, 1);
    assert_eq!(read(&mut n, "n1"), usize::MAX);
}

#[test]
fn a_sum_past_the_range_fails() {
    let mut n = node("n1", &["n1", "n2"]);
    add(&mut n, "n1", 1, 1);
    n.step(msg(
        "n2",
        "n1",
        Some(1),
        None,
        Payload::Gossip { values: counters(&[("n2", usize::MAX)]) },
    ))
    .expect("gossip");
    let r = n.step(msg("c1", "n1", Some(2), None, Payload::Read));
    assert_eq!(r.err(), Some(StepError::Overflow));
}

#[test]
fn other_replies_and_end_of_input_change_nothing() {
    let mut n = node("n1", &["n1", "n2"]);
    add(&mut n, "n1", 1, 2);
    assert!(n.step(msg("n2", "n1", Some(1), Some(1), Payload::AddOk)).expect("ignored").is_empty());
    assert!(n
        .step(msg("n2", "n1", Some(1), Some(1), Payload::ReadOk { value: 40 }))
        .expect("ignored")
        .is_empty());
    assert!(n.step(Event::EOF).expect("eof").is_empty());
    assert_eq!(read(&mut n, "n1"), 2);
}

#[test]
fn three_counters_come_to_agree() {
    let names = ["n1", "n2", "n3"];
    let mut nodes = vec![node("n1", &names), node("n2", &names), node("n3", &names)];
    add(&mut nodes[0], "n1", 1, 5);
    add(&mut nodes[1], "n2", 1, 7);
    add(&mut nodes[0], "n1", 2, 1);
    add(&mut nodes[2], "n3", 1, 100);

    let mut rounds = 0;
    loop {
        let mut sent = 0;
        for i in 0..3 {
            let out = tick(&mut nodes[i]);
            sent += out.len();
            for g in out {
                let j = names.iter().position(|n| *n == g.dest).expect("a node");
                let acks = deliver(&mut nodes[j], &g);
                assert_eq!(acks.len(), 1);
                assert_eq!(acks[0].body.in_reply_to, g.body.id);
                assert!(deliver(&mut nodes[i], &acks[0]).is_empty());
            }
        }
        if sent == 0 {
            break;
        }
        rounds += 1;
        assert!(rounds < 10);
    }
    for (i, n) in nodes.iter_mut().enumerate() {
        assert_eq!(read(n, names[i]), 113);
    }
}

#[test]
fn g_counter_ids_increase_over_a_run() {
    let mut n = node("n1", &["n1", "n2"]);
    let mut ids = Vec::new();
    let mut note = |out: Vec<Message<Payload>>| {
        for m in out {
            ids.push(m.body.id.expect("an id"));
        }
    };
    note(n.step(msg("c1", "n1", Some(70), None, Payload::Add { delta: 1 })).expect("add"));
    note(n.step(Event::InjectedPayload(InjectedPayload::Gossip)).expect("tick"));
    note(n.step(msg("n2", "n1", Some(3), None, Payload::Gossip { values: counters(&[]) })).expect("g"));
    note(n.step(msg("n2", "n1", Some(4), Some(2), Payload::GossipOk { value: 1 })).expect("ok"));
    note(n.step(Event::InjectedPayload(InjectedPayload::Gossip)).expect("tick"));
    note(n.step(msg("c1", "n1", Some(71), None, Payload::Read)).expect("read"));
    assert_eq!(ids, vec![1, 2, 3, 4]);
}

#[test]
fn g_counter_asks_for_its_gossip_timer() {
    let t = <GCounterNode as Node<Payload, InjectedPayload>>::timers();
    assert_eq!(t.len(), 1);
    assert_eq!(t[0].every_ms, 200);
    assert_eq!(t[0].event, InjectedPayload::Gossip);
}
