use chat_room::codec::decode;
use chat_room::codec::encode;
use chat_room::protocol::ProtocolMessage;
use chat_room::protocol::UserInfo;

fn chat(text: &str, from: Option<&str>) -> ProtocolMessage {
    ProtocolMessage::Chat { text: text.to_string(), from: from.map(|f| f.to_string()) }
}

#[test]
fn encode_chat_exact_shape() {
    let m = chat("hi", Some("X"));
    assert_eq!(encode(&m), "{\"type\":\"chat\",\"content\":{\"text\":\"hi\",\"from\":\"X\"}}");
    let plain = chat("hi", None);
    assert_eq!(encode(&plain), "{\"type\":\"chat\",\"content\":{\"text\":\"hi\"}}");
}

#[test]
fn encode_join_exact_shape() {
    let m = ProtocolMessage::Join { user: UserInfo::new("ada".to_string(), "main".to_string()) };
    assert_eq!(encode(&m), "{\"type\":\"join\",\"content\":{\"name\":\"ada\",\"room\":\"main\"}}");
}

#[test]
fn encode_user_list_exact_shape() {
    let m = ProtocolMessage::UserListUpdate { names: vec!["a".to_string(), "b".to_string()] };
    assert_eq!(encode(&m), "{\"type\":\"userListUpdate\",\"content\":[\"a\",\"b\"]}");
    let empty = ProtocolMessage::UserListUpdate { names: Vec::new() };
    assert_eq!(encode(&empty), "{\"type\":\"userListUpdate\",\"content\":[]}");
}

#[test]
fn round_trip_chat() {
    for m in [chat("hi", None), chat("", None), chat("with \"quotes\" and \\slash", Some("a\\b"))] {
        let f = encode(&m);
        match (decode(&f), &m) {
            (
                ProtocolMessage::Chat { text, from },
                ProtocolMessage::Chat { text: t0, from: f0 },
            ) => {
                assert_eq!(&text, t0);
                assert_eq!(&from, f0);
            },
            _ => panic!("decode gave a different variant"),
        }
    }
}

#[test]
fn round_trip_join() {
    let m = ProtocolMessage::Join {
        user: UserInfo::new("a \"b\"".to_string(), "r\\1".to_string()),
    };
    match decode(&encode(&m)) {
        ProtocolMessage::Join { user } => {
            assert_eq!(user.name, "a \"b\"");
            assert_eq!(user.room, "r\\1");
        },
        _ => panic!("decode gave a different variant"),
    }
}

#[test]
fn round_trip_user_list() {
    for names in [vec![], vec!["solo".to_string()], vec![
        "a".to_string(),
        "b\"c".to_string(),
        "".to_string(),
    ]] {
        let m = ProtocolMessage::UserListUpdate { names: names.clone() };
        match decode(&encode(&m)) {
            ProtocolMessage::UserListUpdate { names: got } => assert_eq!(got, names),
            _ => panic!("decode gave a different variant"),
        }
    }
}

#[test]
fn garbage_decodes_to_unrecognized() {
    match decode("not json at all") {
        ProtocolMessage::Unrecognized { raw } => assert_eq!(raw, "not json at all"),
        _ => panic!("garbage must decode to Unrecognized"),
    }
}

#[test]
fn near_miss_frames_decode_to_unrecognized() {
    for f in [
        "",
        "{}",
        "{\"type\":\"chat\",\"content\":{\"text\":\"unterminated",
        "{\"type\":\"chat\",\"content\":{\"text\":\"x\"}} trailing",
        "{\"type\":\"ping\",\"content\":{}}",
        "{\"type\":\"userListUpdate\",\"content\":[\"a\",]}",
        "{\"type\":\"chat\",\"content\":{\"text\":\"bad \\n escape\"}}",
    ] {
        match decode(f) {
            ProtocolMessage::Unrecognized { raw } => assert_eq!(raw, f),
            _ => panic!("frame {:?} should be Unrecognized", f),
        }
    }
}

#[test]
fn decode_inbound_chat_frame() {
    match decode("{\"type\":\"chat\",\"content\":{\"text\":\"hi\"}}") {
        ProtocolMessage::Chat { text, from } => {
            assert_eq!(text, "hi");
            assert!(from.is_none());
        },
        _ => panic!("expected a chat message"),
    }
}
