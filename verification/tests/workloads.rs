use nodeforge::Body;
use nodeforge::BroadcastNode;
use nodeforge::BroadcastPayload;
use nodeforge::GenerateNode;
use nodeforge::GeneratePayload;
use nodeforge::EchoNode;
use nodeforge::EchoPayload;
use nodeforge::InitPayload;
use nodeforge::Message;
use nodeforge::Node;
use nodeforge::NOT_SUPPORTED;
use nodeforge::TopologyEntry;

fn init_message() -> Message<InitPayload> {
    Message {
        src: String::from("c0"),
        dst: String::from("n1"),
        body: Body {
            msg_id: Some(0),
            in_reply_to: None,
            payload: InitPayload::Init {
                node_id: String::from("n1"),
                node_ids: vec![String::from("n1")],
            },
        },
    }
}

fn request<P>(msg_id: usize, payload: P) -> Message<P> {
    Message {
        src: String::from("c0"),
        dst: String::from("n1"),
        body: Body { msg_id: Some(msg_id), in_reply_to: None, payload },
    }
}

#[test]
fn echo_replies_with_same_text() {
    let (mut node, _) = Node::<EchoNode>::handshake(&init_message()).expect("handshake");
    let req = request(1, EchoPayload::Echo { echo: String::from("hi") });
    let out = node.step(&req);
    assert_eq!(out.body.in_reply_to, Some(1));
    match out.body.payload {
        EchoPayload::EchoOk { echo } => assert_eq!(echo, "hi"),
        _ => panic!("expected an echo_ok reply"),
    }
}

#[test]
fn generated_ids_are_pairwise_distinct() {
    let (mut node, _) = Node::<GenerateNode>::handshake(&init_message()).expect("handshake");
    let mut ids: Vec<String> = Vec::new();
    for i in 0..10usize {
        let req = request(i, GeneratePayload::Generate);
        match node.step(&req).body.payload {
            GeneratePayload::GenerateOk { id } => ids.push(id),
            _ => panic!("expected a generate_ok reply"),
        }
    }
    for a in 0..ids.len() {
        assert_eq!(ids[a].len(), 36);
        for b in (a + 1)..ids.len() {
            assert_ne!(ids[a], ids[b]);
        }
    }
}

#[test]
fn read_on_fresh_node_returns_empty_log() {
    let (mut node, _) = Node::<BroadcastNode>::handshake(&init_message()).expect("handshake");
    let out = node.step(&request(1, BroadcastPayload::Read));
    match out.body.payload {
        BroadcastPayload::ReadOk { messages } => assert!(messages.is_empty()),
        _ => panic!("expected a read_ok reply"),
    }
}

#[test]
fn broadcast_then_read_returns_log_in_order() {
    let (mut node, _) = Node::<BroadcastNode>::handshake(&init_message()).expect("handshake");
    let out = node.step(&request(1, BroadcastPayload::Broadcast { message: 5 }));
    assert!(matches!(out.body.payload, BroadcastPayload::BroadcastOk));
    let out = node.step(&request(2, BroadcastPayload::Broadcast { message: 3 }));
    assert!(matches!(out.body.payload, BroadcastPayload::BroadcastOk));
    let out = node.step(&request(3, BroadcastPayload::Read));
    match out.body.payload {
        BroadcastPayload::ReadOk { messages } => {
            assert_eq!(messages, vec![5, 3]);
            assert!(messages.contains(&5));
        },
        _ => panic!("expected a read_ok reply"),
    }
}

#[test]
fn topology_is_acknowledged() {
    let (mut node, _) = Node::<BroadcastNode>::handshake(&init_message()).expect("handshake");
    let topo = vec![TopologyEntry {
        node: String::from("n1"),
        neighbors: vec![String::from("n2")],
    }];
    let out = node.step(&request(1, BroadcastPayload::Topology { topology: topo }));
    assert!(matches!(out.body.payload, BroadcastPayload::TopologyOk));
}

#[test]
fn unsupported_payload_gets_error_and_loop_continues() {
    let (mut node, _) = Node::<EchoNode>::handshake(&init_message()).expect("handshake");
    let req = request(1, EchoPayload::EchoOk { echo: String::from("nope") });
    let out = node.step(&req);
    match out.body.payload {
        EchoPayload::Error { code, text } => {
            assert_eq!(code, NOT_SUPPORTED);
            assert!(!text.is_empty());
        },
        _ => panic!("expected an error reply"),
    }
    let req = request(2, EchoPayload::Echo { echo: String::from("still here") });
    let out = node.step(&req);
    assert_eq!(out.body.msg_id, Some(2));
    match out.body.payload {
        EchoPayload::EchoOk { echo } => assert_eq!(echo, "still here"),
        _ => panic!("expected an echo_ok reply"),
    }
}
