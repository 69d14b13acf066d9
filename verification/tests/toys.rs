use rustengan::echo::{self, EchoNode};
use rustengan::uniq_ids::{self, append_decimal, UniqNode};
use rustengan::{Body, Event, Init, Message, Node};

fn init(name: &str) -> Init {
    Init { node_id: name.to_string(), node_ids: vec![name.to_string(), "other".to_string()] }
}

fn from<P>(src: &str, dest: &str, id: Option<usize>, payload: P) -> Event<P> {
    Event::Message(Message {
        src: src.to_string(),
        dest: dest.to_string(),
        body: Body { id, in_reply_to: None, payload },
    })
}

#[test]
fn echo_comes_back() {
    let mut n = <EchoNode as Node<echo::Payload>>::from_init(init("n1")).expect("a node");
    let out = n
        .step(from("c1", "n1", Some(12), echo::Payload::Echo { echo: "Please echo 35".to_string() }))
        .expect("echo");
    assert_eq!(out.len(), 1);
    assert_eq!(out[0].src, "n1");
    assert_eq!(out[0].dest, "c1");
    assert_eq!(out[0].body.id, Some(1));
    assert_eq!(out[0].body.in_reply_to, Some(12));
    match &out[0].body.payload {
        echo::Payload::EchoOk { echo } => assert_eq!(echo, "Please echo 35"),
        other => panic!("not an echo_ok: {:?}", other),
    }
    let out = n
        .step(from("c2", "n1", None, echo::Payload::Echo { echo: String::new() }))
        .expect("echo");
    assert_eq!(out[0].dest, "c2");
    assert_eq!(out[0].body.id, Some(2));
    assert_eq!(out[0].body.in_reply_to, None);
    match &out[0].body.payload {
        echo::Payload::EchoOk { echo } => assert_eq!(echo, ""),
        other => panic!("not an echo_ok: {:?}", other),
    }
}

#[test]
fn echo_ignores_everything_else() {
    let mut n = <EchoNode as Node<echo::Payload>>::from_init(init("n1")).expect("a node");
    assert!(n
        .step(from("c1", "n1", Some(1), echo::Payload::EchoOk { echo: "x".to_string() }))
        .expect("ignored")
        .is_empty());
    assert!(n.step(Event::InjectedPayload(())).expect("ignored").is_empty());
    assert!(n.step(Event::EOF).expect("eof").is_empty());
    let out = n
        .step(from("c1", "n1", Some(2), echo::Payload::Echo { echo: "y".to_string() }))
        .expect("echo");
    assert_eq!(out[0].body.id, Some(1));
    assert!(<EchoNode as Node<echo::Payload>>::timers().is_empty());
}

#[test]
fn generated_ids_join_the_node_and_the_message_id() {
    let mut n = <UniqNode as Node<uniq_ids::Payload>>::from_init(init("n1")).expect("a node");
    let mut seen = Vec::new();
    for i in 1..=12usize {
        let out = n.step(from("c1", "n1", Some(100 + i), uniq_ids::Payload::Generate)).expect("id");
        assert_eq!(out.len(), 1);
        assert_eq!(out[0].src, "n1");
        assert_eq!(out[0].dest, "c1");
        assert_eq!(out[0].body.id, Some(i));
        assert_eq!(out[0].body.in_reply_to, Some(100 + i));
        match &out[0].body.payload {
            uniq_ids::Payload::GenerateOk { guid } => {
                assert_eq!(guid, &format!("n1-{}", i));
                assert!(!seen.contains(guid));
                seen.push(guid.clone());
            }
            other => panic!("not a generate_ok: {:?}", other),
        }
    }
    assert_eq!(seen[0], "n1-1");
    assert_eq!(seen[9], "n1-10");
}

#[test]
fn generate_ignores_everything_else() {
    let mut n = <UniqNode as Node<uniq_ids::Payload>>::from_init(init("n7")).expect("a node");
    assert!(n
        .step(from("c1", "n7", Some(1), uniq_ids::Payload::GenerateOk { guid: "g".to_string() }))
        .expect("ignored")
        .is_empty());
    assert!(n.step(Event::InjectedPayload(())).expect("ignored").is_empty());
    assert!(n.step(Event::EOF).expect("eof").is_empty());
    assert!(<UniqNode as Node<uniq_ids::Payload>>::timers().is_empty());
}

#[test]
fn numbers_are_written_in_decimal() {
    let cases: [(usize, &str); 7] = [
        (0, "0"),
        (7, "7"),
        (10, "10"),
        (99, "99"),
        (100, "100"),
        (1234567890, "1234567890"),
        (18446744073709551615, "18446744073709551615"),
    ];
    for (n, text) in cases {
        let mut s = "id:".to_string();
        append_decimal(&mut s, n);
        assert_eq!(s, format!("id:{}", text));
    }
}
