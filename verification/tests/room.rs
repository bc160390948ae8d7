use chat_room::protocol::ProtocolMessage;
use chat_room::protocol::UserInfo;
use chat_room::room::Room;

fn user(name: &str) -> UserInfo {
    UserInfo::new(name.to_string(), "main".to_string())
}

fn drain(room: &mut Room, handle: u64) -> Vec<ProtocolMessage> {
    let mut out = Vec::new();
    while let Some(m) = room.pop_outbound(handle) {
        out.push(m);
    }
    out
}

fn chat_text(m: &ProtocolMessage) -> (String, Option<String>) {
    match m {
        ProtocolMessage::Chat { text, from } => (text.clone(), from.clone()),
        _ => panic!("expected a chat message"),
    }
}

#[test]
fn join_adds_member_once() {
    let mut room = Room::new(8);
    let _a = room.join(user("ada"));
    let names = room.member_names();
    assert_eq!(names, vec!["ada".to_string()]);
    let _b = room.join(user("bob"));
    assert_eq!(room.member_names(), vec!["ada".to_string(), "bob".to_string()]);
    assert_eq!(room.member_count(), 2);
}

#[test]
fn leave_removes_member() {
    let mut room = Room::new(8);
    let a = room.join(user("ada"));
    let b = room.join(user("bob"));
    room.leave(a);
    assert_eq!(room.member_names(), vec!["bob".to_string()]);
    // Idempotent: a second leave with the same handle changes nothing.
    room.leave(a);
    assert_eq!(room.member_names(), vec!["bob".to_string()]);
    room.leave(b);
    assert_eq!(room.member_count(), 0);
}

#[test]
fn join_announces_member_list_to_everyone() {
    let mut room = Room::new(8);
    let a = room.join(user("ada"));
    let b = room.join(user("bob"));
    let got_a = drain(&mut room, a);
    // ada saw the list after her own join, then the list including bob.
    assert_eq!(got_a.len(), 2);
    match &got_a[0] {
        ProtocolMessage::UserListUpdate { names } => {
            assert_eq!(names, &vec!["ada".to_string()])
        },
        _ => panic!("expected a user list update"),
    }
    match &got_a[1] {
        ProtocolMessage::UserListUpdate { names } => {
            assert_eq!(names, &vec!["ada".to_string(), "bob".to_string()])
        },
        _ => panic!("expected a user list update"),
    }
    let got_b = drain(&mut room, b);
    assert_eq!(got_b.len(), 1);
}

#[test]
fn broadcast_echoes_to_sender_and_tags_name() {
    let mut room = Room::new(8);
    let a = room.join(user("X"));
    let b = room.join(user("Y"));
    drain(&mut room, a);
    drain(&mut room, b);
    let msg = ProtocolMessage::Chat { text: "hi".to_string(), from: None };
    room.broadcast(msg, a);
    let got_a = drain(&mut room, a);
    let got_b = drain(&mut room, b);
    assert_eq!(got_a.len(), 1);
    assert_eq!(got_b.len(), 1);
    assert_eq!(chat_text(&got_a[0]), ("hi".to_string(), Some("X".to_string())));
    assert_eq!(chat_text(&got_b[0]), ("hi".to_string(), Some("X".to_string())));
}

#[test]
fn broadcast_overwrites_claimed_sender() {
    let mut room = Room::new(8);
    let a = room.join(user("honest"));
    drain(&mut room, a);
    let forged = ProtocolMessage::Chat { text: "hi".to_string(), from: Some("fake".to_string()) };
    room.broadcast(forged, a);
    let got = drain(&mut room, a);
    assert_eq!(chat_text(&got[0]), ("hi".to_string(), Some("honest".to_string())));
}

#[test]
fn broadcast_from_departed_sender_is_dropped() {
    let mut room = Room::new(8);
    let a = room.join(user("ada"));
    let b = room.join(user("bob"));
    room.leave(a);
    drain(&mut room, b);
    room.broadcast(ProtocolMessage::Chat { text: "ghost".to_string(), from: None }, a);
    assert!(room.pop_outbound(b).is_none());
}

#[test]
fn fan_out_keeps_one_total_order() {
    let mut room = Room::new(16);
    let a = room.join(user("a"));
    let b = room.join(user("b"));
    let c = room.join(user("c"));
    for h in [a, b, c] {
        drain(&mut room, h);
    }
    // Interleaved senders: the serialized order is the one every member sees.
    room.broadcast(ProtocolMessage::Chat { text: "1".to_string(), from: None }, a);
    room.broadcast(ProtocolMessage::Chat { text: "2".to_string(), from: None }, b);
    room.broadcast(ProtocolMessage::Chat { text: "3".to_string(), from: None }, c);
    room.broadcast(ProtocolMessage::Chat { text: "4".to_string(), from: None }, a);
    let expect = vec![
        ("1".to_string(), Some("a".to_string())),
        ("2".to_string(), Some("b".to_string())),
        ("3".to_string(), Some("c".to_string())),
        ("4".to_string(), Some("a".to_string())),
    ];
    for h in [a, b, c] {
        let got: Vec<_> = drain(&mut room, h).iter().map(chat_text).collect();
        assert_eq!(got, expect);
    }
}

#[test]
fn saturated_member_drops_oldest_and_stalls_nobody() {
    // Queue capacity 2; three messages broadcast while `slow` never drains.
    let mut room = Room::new(2);
    let slow = room.join(user("slow"));
    let fast = room.join(user("fast"));
    drain(&mut room, slow);
    drain(&mut room, fast);
    for t in ["m1", "m2", "m3"] {
        room.broadcast(ProtocolMessage::Chat { text: t.to_string(), from: None }, fast);
        // The healthy member keeps up and receives every message, in order.
        let got = drain(&mut room, fast);
        assert_eq!(got.len(), 1);
        assert_eq!(chat_text(&got[0]).0, t.to_string());
    }
    // The saturated member holds only the newest two; the oldest was dropped.
    let got_slow: Vec<_> = drain(&mut room, slow).iter().map(|m| chat_text(m).0).collect();
    assert_eq!(got_slow, vec!["m2".to_string(), "m3".to_string()]);
}

#[test]
fn pop_outbound_is_fifo_and_total() {
    let mut room = Room::new(8);
    let a = room.join(user("ada"));
    assert!(room.pop_outbound(999).is_none());
    drain(&mut room, a);
    assert!(room.pop_outbound(a).is_none());
}

#[test]
fn log_grows_with_broadcasts_and_stays_bounded() {
    let mut room = Room::new(4);
    let a = room.join(user("ada"));
    assert_eq!(room.log_len(), 0);
    room.broadcast(ProtocolMessage::Chat { text: "one".to_string(), from: None }, a);
    room.broadcast(ProtocolMessage::Chat { text: "two".to_string(), from: None }, a);
    assert_eq!(room.log_len(), 2);
    // The log caps at 1000 entries, evicting the oldest beyond that.
    for _ in 0..1500 {
        room.broadcast(ProtocolMessage::Chat { text: "x".to_string(), from: None }, a);
    }
    assert_eq!(room.log_len(), 1000);
}
