use rustengan::bcast::{self, BroadcastNode};
use rustengan::g_counter::{self, GCounterNode};
use rustengan::k_log::{self, KLogNode};
use rustengan::table::StrMap;
use rustengan::ta_map::{self, Op, OpType, TAMap};
use rustengan::{
    run, Body, Event, Init, InitPayload, Message, OpenError, Session, StepError, Transcript,
};

fn init(name: &str, all: &[&str]) -> Message<InitPayload> {
    Message {
        src: "c0".to_string(),
        dest: name.to_string(),
        body: Body {
            id: Some(1),
            in_reply_to: None,
            payload: InitPayload::Init(Init {
                node_id: name.to_string(),
                node_ids: all.iter().map(|s| s.to_string()).collect(),
            }),
        },
    }
}

fn from<P, IP>(src: &str, dest: &str, id: usize, re: Option<usize>, payload: P) -> Event<P, IP> {
    Event::Message(Message {
        src: src.to_string(),
        dest: dest.to_string(),
        body: Body { id: Some(id), in_reply_to: re, payload },
    })
}

fn ids<P>(t: &Transcript<P>) -> Vec<usize> {
    t.sent.iter().flatten().map(|m| m.body.id.expect("an id")).collect()
}

#[test]
fn a_run_without_events_only_answers_the_init() {
    let t = run::<BroadcastNode, bcast::Payload, bcast::InjectedPayload>(
        init("n1", &["n1"]),
        Vec::new(),
    )
    .expect("a run");
    assert_eq!(t.init_ok.src, "n1");
    assert_eq!(t.init_ok.dest, "c0");
    assert_eq!(t.init_ok.body.id, Some(0));
    assert_eq!(t.init_ok.body.in_reply_to, Some(1));
    assert!(matches!(t.init_ok.body.payload, InitPayload::InitOk));
    assert!(t.sent.is_empty());
    assert_eq!(t.failure, None);
}

#[test]
fn a_run_must_open_with_an_init() {
    let first = Message {
        src: "c0".to_string(),
        dest: "n1".to_string(),
        body: Body { id: Some(1), in_reply_to: None, payload: InitPayload::InitOk },
    };
    let r = run::<BroadcastNode, bcast::Payload, bcast::InjectedPayload>(first, Vec::new());
    assert_eq!(r.err(), Some(OpenError::NotInit));
}

#[test]
fn a_run_of_broadcasts_and_a_read() {
    let events = vec![
        from("c1", "n1", 10, None, bcast::Payload::Broadcast { message: 1 }),
        from("c1", "n1", 11, None, bcast::Payload::Broadcast { message: 2 }),
        Event::InjectedPayload(bcast::InjectedPayload::Gossip),
        from("c1", "n1", 12, None, bcast::Payload::Read),
    ];
    let t = run::<BroadcastNode, bcast::Payload, bcast::InjectedPayload>(
        init("n1", &["n1"]),
        events,
    )
    .expect("a run");
    assert_eq!(t.failure, None);
    assert_eq!(t.sent.len(), 4);
    assert_eq!(t.sent[0].len(), 1);
    assert_eq!(t.sent[1].len(), 1);
    assert!(t.sent[2].is_empty());
    assert_eq!(t.sent[3].len(), 1);
    assert_eq!(ids(&t), vec![1, 2, 3]);
    match &t.sent[3][0].body.payload {
        bcast::Payload::ReadOk { messages } => {
            let mut v = messages.clone();
            v.sort();
            assert_eq!(v, vec![1, 2]);
        }
        other => panic!("not a read_ok: {:?}", other),
    }
    for (step, request) in [(0usize, 10usize), (1, 11), (3, 12)] {
        let reply = &t.sent[step][0];
        assert_eq!(reply.body.in_reply_to, Some(request));
        assert_eq!(reply.src, "n1");
        assert_eq!(reply.dest, "c1");
    }
}

#[test]
fn a_run_stops_at_the_end_of_input() {
    let events = vec![
        from("c1", "n1", 1, None, g_counter::Payload::Add { delta: 5 }),
        from("c1", "n1", 2, None, g_counter::Payload::Add { delta: 3 }),
        from("c1", "n1", 3, None, g_counter::Payload::Read),
        Event::EOF,
        from("c1", "n1", 4, None, g_counter::Payload::Add { delta: 100 }),
        from("c1", "n1", 5, None, g_counter::Payload::Read),
    ];
    let t = run::<GCounterNode, g_counter::Payload, g_counter::InjectedPayload>(
        init("n1", &["n1"]),
        events,
    )
    .expect("a run");
    assert_eq!(t.failure, None);
    // three requests and the end of input
    assert_eq!(t.sent.len(), 4);
    assert!(t.sent[3].is_empty());
    assert!(matches!(t.sent[2][0].body.payload, g_counter::Payload::ReadOk { value: 8 }));
    assert_eq!(ids(&t), vec![1, 2, 3]);
}

#[test]
fn a_run_ends_where_the_node_fails() {
    let mut wrong = StrMap::new();
    wrong.insert("n2".to_string(), vec!["n1".to_string()]);
    let events = vec![
        from("c1", "n1", 1, None, bcast::Payload::Broadcast { message: 1 }),
        from("c1", "n1", 2, None, bcast::Payload::Topology { topology: wrong }),
        from("c1", "n1", 3, None, bcast::Payload::Read),
    ];
    let t = run::<BroadcastNode, bcast::Payload, bcast::InjectedPayload>(
        init("n1", &["n1", "n2"]),
        events,
    )
    .expect("a run");
    assert_eq!(t.failure, Some(StepError::NoTopology));
    assert_eq!(t.sent.len(), 1);
    assert!(matches!(t.sent[0][0].body.payload, bcast::Payload::BroadcastOk));
}

#[test]
fn a_run_of_the_log_with_a_store_that_agrees() {
    let mut from_zero = StrMap::new();
    from_zero.insert("k".to_string(), 0usize);
    let events = vec![
        from("c1", "n1", 1, None, k_log::Payload::Send { key: "k".to_string(), msg: 100 }),
        from("lin-kv", "n1", 1, Some(1), k_log::Payload::CasOk),
        from("c1", "n1", 2, None, k_log::Payload::Poll { offsets: from_zero }),
        Event::EOF,
    ];
    let t = run::<KLogNode, k_log::Payload, k_log::InjectedPayload>(init("n1", &["n1"]), events)
        .expect("a run");
    assert_eq!(t.failure, None);
    assert_eq!(t.sent.len(), 4);
    match &t.sent[0][0].body.payload {
        k_log::Payload::Cas { key, from, to, put } => {
            assert_eq!(key, "offset");
            assert_eq!((*from, *to, *put), (0, 1, true));
        }
        other => panic!("not a cas: {:?}", other),
    }
    assert_eq!(t.sent[0][0].dest, "lin-kv");
    assert!(matches!(t.sent[1][0].body.payload, k_log::Payload::SendOk { offset: 1 }));
    assert_eq!(t.sent[1][0].dest, "c1");
    assert_eq!(t.sent[1][0].body.in_reply_to, Some(1));
    match &t.sent[2][0].body.payload {
        k_log::Payload::PollOk { msgs } => {
            assert_eq!(msgs.len(), 1);
            assert_eq!(msgs.get(&"k".to_string()), Some(&vec![(1, 100)]));
        }
        other => panic!("not a poll_ok: {:?}", other),
    }
    assert_eq!(ids(&t), vec![1, 2, 3]);
}

#[test]
fn a_run_of_the_log_with_a_store_that_is_ahead() {
    let events = vec![
        from("c1", "n1", 1, None, k_log::Payload::Send { key: "k".to_string(), msg: 100 }),
        from(
            "lin-kv",
            "n1",
            1,
            Some(1),
            k_log::Payload::Error { code: 22, text: "current value 7 is not 0".to_string() },
        ),
        Event::InjectedPayload(k_log::InjectedPayload::Gossip),
        from("lin-kv", "n1", 2, Some(2), k_log::Payload::CasOk),
        Event::InjectedPayload(k_log::InjectedPayload::Gossip),
    ];
    let t = run::<KLogNode, k_log::Payload, k_log::InjectedPayload>(init("n1", &["n1"]), events)
        .expect("a run");
    assert_eq!(t.failure, None);
    assert_eq!(t.sent.len(), 5);
    assert!(t.sent[1].is_empty());
    match &t.sent[2][0].body.payload {
        k_log::Payload::Cas { from, to, .. } => assert_eq!((*from, *to), (7, 8)),
        other => panic!("not a cas: {:?}", other),
    }
    assert!(matches!(t.sent[3][0].body.payload, k_log::Payload::SendOk { offset: 8 }));
    assert_eq!(t.sent[3][0].body.in_reply_to, Some(1));
    assert!(t.sent[4].is_empty());
    assert_eq!(ids(&t), vec![1, 2, 3]);
}

#[test]
fn a_run_of_a_transaction() {
    let ops = vec![
        Op { op_type: OpType::Write, key: 1, val: Some(10) },
        Op { op_type: OpType::Read, key: 1, val: None },
    ];
    let events = vec![from("c1", "n1", 1, None, ta_map::Payload::Txn { txn: ops })];
    let t = run::<TAMap, ta_map::Payload, ta_map::InjectedPayload>(init("n1", &["n1"]), events)
        .expect("a run");
    assert_eq!(t.failure, None);
    match &t.sent[0][0].body.payload {
        ta_map::Payload::TxnOk { txn } => {
            let last = txn.last().expect("an operation");
            assert_eq!(last.to_parts(), ("r", 1, Some(10)));
        }
        other => panic!("not a txn_ok: {:?}", other),
    }
}

#[test]
fn a_session_is_over_after_the_end_of_input() {
    let first = Init { node_id: "n1".to_string(), node_ids: vec!["n1".to_string()] };
    let mut session = Session::<GCounterNode>::open::<
        g_counter::Payload,
        g_counter::InjectedPayload,
    >(first)
    .expect("a session");
    assert!(!session.over());
    let out = session
        .feed(from("c1", "n1", 1, None, g_counter::Payload::Add { delta: 2 }))
        .expect("add");
    assert_eq!(out.len(), 1);
    assert!(!session.over());
    let out = session.feed(Event::InjectedPayload(g_counter::InjectedPayload::Gossip)).expect("tick");
    assert!(out.is_empty());
    assert!(!session.over());
    let out = session.feed(Event::EOF).expect("eof");
    assert!(out.is_empty());
    assert!(session.over());
}

#[test]
fn a_session_is_over_after_a_failure() {
    let first = Init { node_id: "n1".to_string(), node_ids: vec!["n1".to_string()] };
    let mut session = Session::<GCounterNode>::open::<
        g_counter::Payload,
        g_counter::InjectedPayload,
    >(first)
    .expect("a session");
    session
        .feed(from("c1", "n1", 1, None, g_counter::Payload::Add { delta: usize::MAX }))
        .expect("add");
    let r = session.feed(from("c1", "n1", 2, None, g_counter::Payload::Add { delta: 1 }));
    assert_eq!(r.err(), Some(StepError::Overflow));
    assert!(session.over());
}

#[test]
fn a_run_hands_over_every_event_once_and_in_order() {
    let texts = ["one", "two", "three", "four"];
    let mut events: Vec<Event<rustengan::echo::Payload>> = texts
        .iter()
        .enumerate()
        .map(|(i, t)| {
            from("c1", "n1", 10 + i, None, rustengan::echo::Payload::Echo { echo: t.to_string() })
        })
        .collect();
    events.push(Event::EOF);
    events.push(from(
        "c1",
        "n1",
        99,
        None,
        rustengan::echo::Payload::Echo { echo: "late".to_string() },
    ));
    let t = run::<rustengan::echo::EchoNode, rustengan::echo::Payload, ()>(
        init("n1", &["n1"]),
        events,
    )
    .expect("a run");
    assert_eq!(t.failure, None);
    assert_eq!(t.sent.len(), 5);
    for (i, text) in texts.iter().enumerate() {
        assert_eq!(t.sent[i].len(), 1);
        let reply = &t.sent[i][0];
        assert_eq!(reply.body.id, Some(i + 1));
        assert_eq!(reply.body.in_reply_to, Some(10 + i));
        match &reply.body.payload {
            rustengan::echo::Payload::EchoOk { echo } => assert_eq!(echo, text),
            other => panic!("not an echo_ok: {:?}", other),
        }
    }
    assert!(t.sent[4].is_empty());
}
