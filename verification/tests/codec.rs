use nodeforge::Body;
use nodeforge::BroadcastPayload;
use nodeforge::EchoPayload;
use nodeforge::GeneratePayload;
use nodeforge::InitPayload;
use nodeforge::Message;
use nodeforge::TopologyEntry;
use nodeforge::encode_message;
use nodeforge::recode_message;

fn envelope<P>(msg_id: Option<usize>, in_reply_to: Option<usize>, payload: P) -> Message<P> {
    Message {
        src: String::from("n1"),
        dst: String::from("c1"),
        body: Body { msg_id, in_reply_to, payload },
    }
}

fn as_text(line: Vec<char>) -> String {
    line.into_iter().collect()
}

#[test]
fn echo_reply_encodes_to_expected_json() {
    let m = envelope(Some(1), Some(5), EchoPayload::EchoOk { echo: String::from("hi") });
    let text = as_text(encode_message(&m));
    assert_eq!(
        text,
        "{\"src\":\"n1\",\"dest\":\"c1\",\"body\":{\"msg_id\":1,\"in_reply_to\":5,\"type\":\"echo_ok\",\"echo\":\"hi\"}}"
    );
}

#[test]
fn absent_ids_are_omitted() {
    let m = envelope(None, None, InitPayload::InitOk);
    let text = as_text(encode_message(&m));
    assert_eq!(text, "{\"src\":\"n1\",\"dest\":\"c1\",\"body\":{\"type\":\"init_ok\"}}");
}

#[test]
fn encoded_line_is_valid_json_with_escapes() {
    let tricky = String::from("a \"quoted\" back\\slash\nnew\tline\r!");
    let m = envelope(Some(3), Some(9), EchoPayload::EchoOk { echo: tricky.clone() });
    let text = as_text(encode_message(&m));
    let v: serde_json::Value = serde_json::from_str(&text).expect("the line must parse as JSON");
    assert_eq!(v["src"], "n1");
    assert_eq!(v["dest"], "c1");
    assert_eq!(v["body"]["msg_id"], 3);
    assert_eq!(v["body"]["in_reply_to"], 9);
    assert_eq!(v["body"]["type"], "echo_ok");
    assert_eq!(v["body"]["echo"], serde_json::Value::String(tricky));
}

#[test]
fn echo_round_trip_preserves_fields() {
    let m = envelope(
        Some(2),
        Some(11),
        EchoPayload::Echo { echo: String::from("it \"was\" a \\ dark \n night") },
    );
    let r = recode_message(&m);
    assert_eq!(r.src, m.src);
    assert_eq!(r.dst, m.dst);
    assert_eq!(r.body.msg_id, m.body.msg_id);
    assert_eq!(r.body.in_reply_to, m.body.in_reply_to);
    match (r.body.payload, &m.body.payload) {
        (EchoPayload::Echo { echo }, EchoPayload::Echo { echo: want }) => {
            assert_eq!(&echo, want)
        },
        _ => panic!("the variant changed in the round trip"),
    }
}

#[test]
fn error_round_trip_preserves_fields() {
    let m = envelope(
        Some(0),
        None,
        EchoPayload::Error { code: 10, text: String::from("Not supported message.") },
    );
    let r = recode_message(&m);
    assert_eq!(r.body.msg_id, Some(0));
    assert_eq!(r.body.in_reply_to, None);
    match r.body.payload {
        EchoPayload::Error { code, text } => {
            assert_eq!(code, 10);
            assert_eq!(text, "Not supported message.");
        },
        _ => panic!("the variant changed in the round trip"),
    }
}

#[test]
fn init_round_trip_preserves_fields() {
    let m = envelope(
        Some(usize::MAX),
        None,
        InitPayload::Init {
            node_id: String::from("n3"),
            node_ids: vec![String::from("n1"), String::from("n2"), String::from("n3")],
        },
    );
    let r = recode_message(&m);
    assert_eq!(r.body.msg_id, Some(usize::MAX));
    match r.body.payload {
        InitPayload::Init { node_id, node_ids } => {
            assert_eq!(node_id, "n3");
            assert_eq!(
                node_ids,
                vec![String::from("n1"), String::from("n2"), String::from("n3")]
            );
        },
        _ => panic!("the variant changed in the round trip"),
    }
}

#[test]
fn generate_round_trip_preserves_fields() {
    let m = envelope(
        Some(4),
        Some(2),
        GeneratePayload::GenerateOk { id: String::from("0a1b-2c3d") },
    );
    let r = recode_message(&m);
    match r.body.payload {
        GeneratePayload::GenerateOk { id } => assert_eq!(id, "0a1b-2c3d"),
        _ => panic!("the variant changed in the round trip"),
    }
    let m = envelope(None, None, GeneratePayload::Generate);
    let r = recode_message(&m);
    assert!(matches!(r.body.payload, GeneratePayload::Generate));
}

#[test]
fn broadcast_round_trips_preserve_fields() {
    let m = envelope(Some(1), Some(2), BroadcastPayload::Broadcast { message: 5 });
    match recode_message(&m).body.payload {
        BroadcastPayload::Broadcast { message } => assert_eq!(message, 5),
        _ => panic!("the variant changed in the round trip"),
    }

    let m = envelope(Some(1), Some(2), BroadcastPayload::ReadOk { messages: vec![5, 0, 123] });
    match recode_message(&m).body.payload {
        BroadcastPayload::ReadOk { messages } => assert_eq!(messages, vec![5, 0, 123]),
        _ => panic!("the variant changed in the round trip"),
    }

    let m = envelope(Some(1), Some(2), BroadcastPayload::ReadOk { messages: Vec::new() });
    match recode_message(&m).body.payload {
        BroadcastPayload::ReadOk { messages } => assert!(messages.is_empty()),
        _ => panic!("the variant changed in the round trip"),
    }

    let topo = vec![
        TopologyEntry { node: String::from("n1"), neighbors: vec![String::from("n2")] },
        TopologyEntry { node: String::from("n2"), neighbors: Vec::new() },
    ];
    let m = envelope(Some(1), Some(2), BroadcastPayload::Topology { topology: topo });
    match recode_message(&m).body.payload {
        BroadcastPayload::Topology { topology } => {
            assert_eq!(topology.len(), 2);
            assert_eq!(topology[0].node, "n1");
            assert_eq!(topology[0].neighbors, vec![String::from("n2")]);
            assert_eq!(topology[1].node, "n2");
            assert!(topology[1].neighbors.is_empty());
        },
        _ => panic!("the variant changed in the round trip"),
    }

    let m = envelope(Some(1), Some(2), BroadcastPayload::TopologyOk);
    assert!(matches!(
        recode_message(&m).body.payload,
        BroadcastPayload::TopologyOk
    ));
    let m = envelope(Some(1), Some(2), BroadcastPayload::Read);
    assert!(matches!(recode_message(&m).body.payload, BroadcastPayload::Read));
    let m = envelope(Some(1), Some(2), BroadcastPayload::BroadcastOk);
    assert!(matches!(
        recode_message(&m).body.payload,
        BroadcastPayload::BroadcastOk
    ));
}

#[test]
fn broadcast_encoding_matches_expected_json() {
    let m = envelope(Some(0), None, BroadcastPayload::ReadOk { messages: vec![5] });
    let text = as_text(encode_message(&m));
    assert_eq!(
        text,
        "{\"src\":\"n1\",\"dest\":\"c1\",\"body\":{\"msg_id\":0,\"type\":\"read_ok\",\"messages\":[5]}}"
    );
    let v: serde_json::Value = serde_json::from_str(&text).expect("the line must parse as JSON");
    assert_eq!(v["body"]["messages"][0], 5);
    assert!(v["body"].get("in_reply_to").is_none());
}
