use rustengan::message::{clone_names, handshake, others, NotInit, FIRST_ID, INIT_REPLY_ID};
use rustengan::{Body, Init, InitPayload, Message};

fn request(id: Option<usize>) -> Message<u8> {
    Message {
        src: "c4".to_string(),
        dest: "n2".to_string(),
        body: Body { id, in_reply_to: Some(3), payload: 1 },
    }
}

#[test]
fn a_reply_swaps_the_ends_and_points_back() {
    let mut counter: usize = 5;
    let reply = request(Some(17)).construct_reply(9, Some(&mut counter));
    assert_eq!(reply.src, "n2");
    assert_eq!(reply.dest, "c4");
    assert_eq!(reply.body.id, Some(5));
    assert_eq!(reply.body.in_reply_to, Some(17));
    assert_eq!(reply.body.payload, 9);
    assert_eq!(counter, 6);
}

#[test]
fn a_reply_without_a_counter_has_no_id() {
    let reply = request(Some(17)).construct_reply(9, None);
    assert_eq!(reply.body.id, None);
    assert_eq!(reply.body.in_reply_to, Some(17));
    assert_eq!(reply.src, "n2");
    assert_eq!(reply.dest, "c4");
}

#[test]
fn a_reply_to_a_message_without_id_points_nowhere() {
    let mut counter: usize = 0;
    let reply = request(None).construct_reply(2, Some(&mut counter));
    assert_eq!(reply.body.id, Some(0));
    assert_eq!(reply.body.in_reply_to, None);
    assert_eq!(counter, 1);
}

#[test]
fn the_counter_may_reach_its_last_value() {
    let mut counter: usize = usize::MAX - 1;
    let reply = request(Some(1)).construct_reply(2, Some(&mut counter));
    assert_eq!(reply.body.id, Some(usize::MAX - 1));
    assert_eq!(counter, usize::MAX);
}

#[test]
fn the_first_message_must_be_an_init() {
    let first = Message {
        src: "c1".to_string(),
        dest: "n1".to_string(),
        body: Body { id: Some(1), in_reply_to: None, payload: InitPayload::InitOk },
    };
    assert_eq!(handshake(first).err(), Some(NotInit));
}

#[test]
fn an_init_without_id_is_answered_without_in_reply_to() {
    let first = Message {
        src: "c1".to_string(),
        dest: "n3".to_string(),
        body: Body {
            id: None,
            in_reply_to: None,
            payload: InitPayload::Init(Init {
                node_id: "n3".to_string(),
                node_ids: vec!["n1".to_string(), "n2".to_string(), "n3".to_string()],
            }),
        },
    };
    let (init, reply) = handshake(first).expect("an init message");
    assert_eq!(init.node_id, "n3");
    assert_eq!(init.node_ids.len(), 3);
    assert_eq!(reply.body.id, Some(INIT_REPLY_ID));
    assert_eq!(reply.body.in_reply_to, None);
    assert_eq!(reply.src, "n3");
    assert_eq!(reply.dest, "c1");
}

#[test]
fn ids_start_after_the_handshake() {
    assert_eq!(INIT_REPLY_ID, 0);
    assert_eq!(FIRST_ID, 1);
}

#[test]
fn the_other_names_keep_their_order() {
    let all: Vec<String> = ["n3", "n1", "n2", "n1", "n4"].iter().map(|s| s.to_string()).collect();
    assert_eq!(others(&all, &"n1".to_string()), vec!["n3", "n2", "n4"]);
    assert_eq!(others(&all, &"n9".to_string()), all);
    assert_eq!(others(&Vec::new(), &"n1".to_string()), Vec::<String>::new());
    assert_eq!(clone_names(&all), all);
}
