use rustengan::bcast::{BroadcastNode, InjectedPayload, Payload};
use rustengan::table::StrMap;
use rustengan::{Body, Event, Init, Message, Node, StepError};

type Input = Event<Payload, InjectedPayload>;

fn node(name: &str, all: &[&str]) -> BroadcastNode {
    <BroadcastNode as Node<Payload, InjectedPayload>>::from_init(Init {
        node_id: name.to_string(),
        node_ids: all.iter().map(|s| s.to_string()).collect(),
    })
    .expect("a node")
}

fn msg(src: &str, dest: &str, id: Option<usize>, re: Option<usize>, payload: Payload) -> Input {
    Event::Message(Message {
        src: src.to_string(),
        dest: dest.to_string(),
        body: Body { id, in_reply_to: re, payload },
    })
}

fn topology(entries: &[(&str, &[&str])]) -> Payload {
    let mut t = StrMap::new();
    for (k, v) in entries {
        t.insert(k.to_string(), v.iter().map(|s| s.to_string()).collect::<Vec<String>>());
    }
    Payload::Topology { topology: t }
}

fn tick(n: &mut BroadcastNode) -> Vec<Message<Payload>> {
    n.step(Event::InjectedPayload(InjectedPayload::Gossip)).expect("tick")
}

fn read(n: &mut BroadcastNode, dest: &str) -> Vec<usize> {
    let out = n.step(msg("c9", dest, Some(900), None, Payload::Read)).expect("read");
    assert_eq!(out.len(), 1);
    match &out[0].body.payload {
        Payload::ReadOk { messages } => {
            let mut v = messages.clone();
            v.sort();
            v
        }
        other => panic!("not a read_ok: {:?}", other),
    }
}

fn carried(m: &Message<Payload>) -> Vec<usize> {
    match &m.body.payload {
        Payload::Gossip { new_messages } => {
            let mut v = new_messages.clone();
            v.sort();
            v
        }
        other => panic!("not a gossip: {:?}", other),
    }
}

/// Hands `m` to `to` as an incoming message and returns what `to` sends.
fn deliver(to: &mut BroadcastNode, m: &Message<Payload>) -> Vec<Message<Payload>> {
    let payload = match &m.body.payload {
        Payload::Gossip { new_messages } => Payload::Gossip { new_messages: new_messages.clone() },
        Payload::GossipOk => Payload::GossipOk,
        other => panic!("not gossip traffic: {:?}", other),
    };
    to.step(msg(&m.src, &m.dest, m.body.id, m.body.in_reply_to, payload)).expect("delivery")
}

#[test]
fn broadcast_single_node() {
    let mut n = node("n1", &["n1"]);
    let a = n
        .step(msg("c1", "n1", Some(1), None, Payload::Broadcast { message: 1 }))
        .expect("broadcast");
    assert_eq!(a.len(), 1);
    assert!(matches!(a[0].body.payload, Payload::BroadcastOk));
    assert_eq!(a[0].src, "n1");
    assert_eq!(a[0].dest, "c1");
    assert_eq!(a[0].body.id, Some(1));
    assert_eq!(a[0].body.in_reply_to, Some(1));
    let b = n
        .step(msg("c1", "n1", Some(2), None, Payload::Broadcast { message: 2 }))
        .expect("broadcast");
    assert_eq!(b[0].body.id, Some(2));
    assert_eq!(b[0].body.in_reply_to, Some(2));
    let out = n.step(msg("c1", "n1", Some(3), None, Payload::Read)).expect("read");
    assert_eq!(out.len(), 1);
    assert_eq!(out[0].body.id, Some(3));
    assert_eq!(out[0].body.in_reply_to, Some(3));
    match &out[0].body.payload {
        Payload::ReadOk { messages } => {
            let mut v = messages.clone();
            v.sort();
            assert_eq!(v, vec![1, 2]);
        }
        other => panic!("not a read_ok: {:?}", other),
    }
    assert!(n.has_seen(1));
    assert!(n.has_seen(2));
    assert!(!n.has_seen(3));
}

#[test]
fn a_value_broadcast_twice_is_listed_once() {
    let mut n = node("n1", &["n1"]);
    for id in 1..=3usize {
        n.step(msg("c1", "n1", Some(id), None, Payload::Broadcast { message: 7 }))
            .expect("broadcast");
    }
    assert_eq!(read(&mut n, "n1"), vec![7]);
}

#[test]
fn a_fresh_node_reads_nothing() {
    let mut n = node("n1", &["n1", "n2"]);
    assert_eq!(read(&mut n, "n1"), Vec::<usize>::new());
    assert!(tick(&mut n).is_empty());
}

#[test]
fn topology_sets_the_neighbours() {
    let mut n = node("n1", &["n1", "n2", "n3"]);
    let out = n
        .step(msg("c1", "n1", Some(4), None, topology(&[("n1", &["n3", "n2"]), ("n2", &["n1"])])))
        .expect("topology");
    assert_eq!(out.len(), 1);
    assert!(matches!(out[0].body.payload, Payload::TopologyOk));
    assert_eq!(out[0].body.in_reply_to, Some(4));
    n.step(msg("c1", "n1", Some(5), None, Payload::Broadcast { message: 11 })).expect("broadcast");
    let g = tick(&mut n);
    assert_eq!(g.len(), 2);
    assert_eq!(g[0].dest, "n3");
    assert_eq!(g[1].dest, "n2");
    assert_eq!(g[0].src, "n1");
    assert_eq!(g[0].body.id, Some(3));
    assert_eq!(g[1].body.id, Some(4));
    assert_eq!(g[0].body.in_reply_to, None);
    assert_eq!(carried(&g[0]), vec![11]);
    assert_eq!(carried(&g[1]), vec![11]);
    assert_eq!(n.pending(), 2);
}

#[test]
fn topology_without_an_entry_for_the_node_fails() {
    let mut n = node("n1", &["n1", "n2"]);
    n.step(msg("c1", "n1", Some(1), None, Payload::Broadcast { message: 3 })).expect("broadcast");
    let r = n.step(msg("c1", "n1", Some(2), None, topology(&[("n2", &["n1"])])));
    assert_eq!(r.err(), Some(StepError::NoTopology));
    // the node is as it was
    assert_eq!(read(&mut n, "n1"), vec![3]);
    assert!(tick(&mut n).is_empty());
}

#[test]
fn without_neighbours_the_timer_is_silent() {
    let mut n = node("n1", &["n1", "n2"]);
    n.step(msg("c1", "n1", Some(1), None, Payload::Broadcast { message: 3 })).expect("broadcast");
    assert!(tick(&mut n).is_empty());
    assert_eq!(n.pending(), 0);
}

#[test]
fn confirmed_values_are_not_sent_again() {
    let mut n = node("n1", &["n1", "n2"]);
    n.step(msg("c1", "n1", Some(1), None, topology(&[("n1", &["n2"])]))).expect("topology");
    n.step(msg("c1", "n1", Some(2), None, Payload::Broadcast { message: 5 })).expect("broadcast");
    let g = tick(&mut n);
    assert_eq!(g.len(), 1);
    assert_eq!(carried(&g[0]), vec![5]);
    let id = g[0].body.id.expect("an id");

    // unconfirmed: the same news goes out again, under a new id
    let again = tick(&mut n);
    assert_eq!(again.len(), 1);
    assert_eq!(carried(&again[0]), vec![5]);
    assert_eq!(again[0].body.id, Some(id + 1));
    assert_eq!(n.pending(), 2);

    let out = n.step(msg("n2", "n1", Some(1), Some(id), Payload::GossipOk)).expect("gossip_ok");
    assert!(out.is_empty());
    assert_eq!(n.pending(), 1);
    assert!(tick(&mut n).is_empty());

    n.step(msg("c1", "n1", Some(3), None, Payload::Broadcast { message: 6 })).expect("broadcast");
    let g = tick(&mut n);
    assert_eq!(g.len(), 1);
    assert_eq!(carried(&g[0]), vec![6]);
}

#[test]
fn a_confirmation_of_nothing_pending_is_ignored() {
    let mut n = node("n1", &["n1", "n2"]);
    n.step(msg("c1", "n1", Some(1), None, topology(&[("n1", &["n2"])]))).expect("topology");
    n.step(msg("c1", "n1", Some(2), None, Payload::Broadcast { message: 5 })).expect("broadcast");
    assert!(n.step(msg("n2", "n1", Some(1), Some(99), Payload::GossipOk)).expect("ok").is_empty());
    assert!(n.step(msg("n2", "n1", Some(2), None, Payload::GossipOk)).expect("ok").is_empty());
    let g = tick(&mut n);
    assert_eq!(g.len(), 1);
    assert_eq!(carried(&g[0]), vec![5]);
}

#[test]
fn gossip_is_merged_and_answered() {
    let mut n = node("n2", &["n1", "n2"]);
    n.step(msg("c1", "n2", Some(1), None, Payload::Broadcast { message: 1 })).expect("broadcast");
    let out = n
        .step(msg("n1", "n2", Some(8), None, Payload::Gossip { new_messages: vec![1, 2, 3] }))
        .expect("gossip");
    assert_eq!(out.len(), 1);
    assert!(matches!(out[0].body.payload, Payload::GossipOk));
    assert_eq!(out[0].src, "n2");
    assert_eq!(out[0].dest, "n1");
    assert_eq!(out[0].body.in_reply_to, Some(8));
    assert_eq!(out[0].body.id, Some(2));
    assert_eq!(read(&mut n, "n2"), vec![1, 2, 3]);
}

#[test]
fn replies_and_end_of_input_change_nothing() {
    let mut n = node("n1", &["n1"]);
    n.step(msg("c1", "n1", Some(1), None, Payload::Broadcast { message: 1 })).expect("broadcast");
    let quiet = vec![
        Payload::ReadOk { messages: vec![9] },
        Payload::BroadcastOk,
        Payload::TopologyOk,
    ];
    for p in quiet {
        assert!(n.step(msg("n2", "n1", Some(1), Some(1), p)).expect("ignored").is_empty());
    }
    assert!(n.step(Event::EOF).expect("eof").is_empty());
    let out = n.step(msg("c1", "n1", Some(2), None, Payload::Read)).expect("read");
    // no id was spent on what was ignored
    assert_eq!(out[0].body.id, Some(2));
}

#[test]
fn three_nodes_in_a_line_come_to_agree() {
    let names = ["n1", "n2", "n3"];
    let mut nodes = vec![node("n1", &names), node("n2", &names), node("n3", &names)];
    let line: [(&str, &[&str]); 3] = [("n1", &["n2"]), ("n2", &["n1", "n3"]), ("n3", &["n2"])];
    for (i, n) in nodes.iter_mut().enumerate() {
        n.step(msg("c1", names[i], Some(1), None, topology(&line))).expect("topology");
    }
    nodes[0].step(msg("c1", "n1", Some(2), None, Payload::Broadcast { message: 10 })).expect("b");
    nodes[2].step(msg("c1", "n3", Some(2), None, Payload::Broadcast { message: 30 })).expect("b");
    nodes[1].step(msg("c1", "n2", Some(2), None, Payload::Broadcast { message: 20 })).expect("b");

    let mut rounds = 0;
    loop {
        let mut sent = 0;
        for i in 0..3 {
            let out = tick(&mut nodes[i]);
            sent += out.len();
            for g in out {
                let j = names.iter().position(|n| *n == g.dest).expect("a node");
                let acks = deliver(&mut nodes[j], &g);
                assert_eq!(acks.len(), 1);
                assert_eq!(acks[0].body.in_reply_to, g.body.id);
                assert!(deliver(&mut nodes[i], &acks[0]).is_empty());
            }
        }
        if sent == 0 {
            break;
        }
        rounds += 1;
        assert!(rounds < 10);
    }
    for (i, n) in nodes.iter_mut().enumerate() {
        assert_eq!(read(n, names[i]), vec![10, 20, 30]);
        assert_eq!(n.pending(), 0);
    }
}

#[test]
fn broadcast_ids_increase_over_a_run() {
    let mut n = node("n1", &["n1", "n2", "n3"]);
    let mut ids = Vec::new();
    let mut note = |out: Vec<Message<Payload>>| {
        for m in out {
            ids.push(m.body.id.expect("an id"));
        }
    };
    note(n.step(msg("c1", "n1", Some(50), None, topology(&[("n1", &["n2", "n3"])]))).expect("t"));
    note(n.step(msg("c1", "n1", Some(51), None, Payload::Broadcast { message: 1 })).expect("b"));
    note(n.step(Event::InjectedPayload(InjectedPayload::Gossip)).expect("tick"));
    note(n.step(msg("n2", "n1", Some(1), None, Payload::Gossip { new_messages: vec![4] })).expect("g"));
    note(n.step(Event::InjectedPayload(InjectedPayload::Gossip)).expect("tick"));
    note(n.step(msg("c1", "n1", Some(52), None, Payload::Read)).expect("read"));
    assert_eq!(ids, vec![1, 2, 3, 4, 5, 6, 7, 8]);
}

#[test]
fn broadcast_asks_for_its_gossip_timer() {
    let t = <BroadcastNode as Node<Payload, InjectedPayload>>::timers();
    assert_eq!(t.len(), 1);
    assert_eq!(t[0].every_ms, 500);
    assert_eq!(t[0].event, InjectedPayload::Gossip);
}

#[test]
fn two_nodes_come_to_read_the_same() {
    let names = ["n1", "n2"];
    let mut a = node("n1", &names);
    let mut b = node("n2", &names);
    let both: [(&str, &[&str]); 2] = [("n1", &["n2"]), ("n2", &["n1"])];
    a.step(msg("c1", "n1", Some(1), None, topology(&both))).expect("topology");
    b.step(msg("c1", "n2", Some(1), None, topology(&both))).expect("topology");
    a.step(msg("c1", "n1", Some(2), None, Payload::Broadcast { message: 1 })).expect("broadcast");
    b.step(msg("c1", "n2", Some(2), None, Payload::Broadcast { message: 2 })).expect("broadcast");
    let from_a = tick(&mut a);
    let from_b = tick(&mut b);
    assert_eq!(from_a.len(), 1);
    assert_eq!(from_b.len(), 1);
    assert_eq!(carried(&from_a[0]), vec![1]);
    assert_eq!(carried(&from_b[0]), vec![2]);
    deliver(&mut b, &from_a[0]);
    deliver(&mut a, &from_b[0]);
    assert_eq!(read(&mut a, "n1"), vec![1, 2]);
    assert_eq!(read(&mut b, "n2"), vec![1, 2]);
}

#[test]
fn a_reply_goes_back_over_the_name_the_request_came_to() {
    let mut n = node("n1", &["n1"]);
    let out = n.step(msg("c7", "elsewhere", Some(44), None, Payload::Read)).expect("read");
    assert_eq!(out.len(), 1);
    assert_eq!(out[0].src, "elsewhere");
    assert_eq!(out[0].dest, "c7");
    assert_eq!(out[0].body.in_reply_to, Some(44));
}
