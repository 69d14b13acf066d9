use rustengan::message::{handshake, Body, Init, InitPayload, Message};

#[test]
fn init_is_answered_under_id_zero() {
    let first = Message {
        src: "c1".to_string(),
        dest: "n1".to_string(),
        body: Body {
            id: Some(0),
            in_reply_to: None,
            payload: InitPayload::Init(Init {
                node_id: "n1".to_string(),
                node_ids: vec!["n1".to_string()],
            }),
        },
    };
    let (init, reply) = handshake(first).expect("an init message");
    assert_eq!(init.node_id, "n1");
    assert_eq!(init.node_ids, vec!["n1".to_string()]);
    assert_eq!(reply.src, "n1");
    assert_eq!(reply.dest, "c1");
    assert_eq!(reply.body.id, Some(0));
    assert_eq!(reply.body.in_reply_to, Some(0));
    assert!(matches!(reply.body.payload, InitPayload::InitOk));
}
