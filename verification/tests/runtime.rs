use nodeforge::Body;
use nodeforge::EchoNode;
use nodeforge::EchoPayload;
use nodeforge::InitPayload;
use nodeforge::Message;
use nodeforge::Node;

fn init_message() -> Message<InitPayload> {
    Message {
        src: String::from("c0"),
        dst: String::from("n1"),
        body: Body {
            msg_id: Some(7),
            in_reply_to: None,
            payload: InitPayload::Init {
                node_id: String::from("n1"),
                node_ids: vec![String::from("n1"), String::from("n2")],
            },
        },
    }
}

#[test]
fn handshake_assigns_identity_and_replies() {
    let init = init_message();
    let (node, reply) = Node::<EchoNode>::handshake(&init).expect("handshake should succeed");
    assert_eq!(node.id, "n1");
    assert_eq!(node.nodes, vec![String::from("n1"), String::from("n2")]);
    assert_eq!(reply.src, "n1");
    assert_eq!(reply.dst, "c0");
    assert_eq!(reply.body.msg_id, Some(0));
    assert_eq!(reply.body.in_reply_to, Some(7));
    assert!(matches!(reply.body.payload, InitPayload::InitOk));
}

#[test]
fn handshake_rejects_non_init() {
    let bad = Message {
        src: String::from("c0"),
        dst: String::from("n1"),
        body: Body { msg_id: Some(0), in_reply_to: None, payload: InitPayload::InitOk },
    };
    assert!(Node::<EchoNode>::handshake(&bad).is_err());
}

#[test]
fn message_ids_are_sequential() {
    let init = init_message();
    let (mut node, reply) = Node::<EchoNode>::handshake(&init).expect("handshake should succeed");
    assert_eq!(reply.body.msg_id, Some(0));
    for expected in 1..6usize {
        let request = Message {
            src: String::from("c0"),
            dst: String::from("n1"),
            body: Body {
                msg_id: Some(100 + expected),
                in_reply_to: None,
                payload: EchoPayload::Echo { echo: String::from("x") },
            },
        };
        let out = node.step(&request);
        assert_eq!(out.body.msg_id, Some(expected));
    }
}

#[test]
fn replies_are_correlated() {
    let init = init_message();
    let (mut node, _) = Node::<EchoNode>::handshake(&init).expect("handshake should succeed");
    let request = Message {
        src: String::from("c9"),
        dst: String::from("n1"),
        body: Body {
            msg_id: Some(41),
            in_reply_to: None,
            payload: EchoPayload::Echo { echo: String::from("ping") },
        },
    };
    let out = node.step(&request);
    assert_eq!(out.src, "n1");
    assert_eq!(out.dst, "c9");
    assert_eq!(out.body.in_reply_to, Some(41));
}
