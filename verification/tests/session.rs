use chat_room::codec::encode;
use chat_room::protocol::ProtocolMessage;
use chat_room::room::Room;
use chat_room::session::session_disconnect;
use chat_room::session::session_step;
use chat_room::session::SessionState;

const JOIN_X: &str = "{\"type\":\"join\",\"content\":{\"name\":\"X\",\"room\":\"main\"}}";
const JOIN_Y: &str = "{\"type\":\"join\",\"content\":{\"name\":\"Y\",\"room\":\"main\"}}";
const CHAT_HI: &str = "{\"type\":\"chat\",\"content\":{\"text\":\"hi\"}}";

fn drain(room: &mut Room, handle: u64) -> Vec<ProtocolMessage> {
    let mut out = Vec::new();
    while let Some(m) = room.pop_outbound(handle) {
        out.push(m);
    }
    out
}

#[test]
fn chat_before_join_closes_without_registering() {
    let mut room = Room::new(8);
    let next = session_step(&mut room, SessionState::AwaitingJoin, CHAT_HI);
    assert_eq!(next, SessionState::Closed);
    assert_eq!(room.member_count(), 0);
}

#[test]
fn garbage_before_join_closes_without_registering() {
    let mut room = Room::new(8);
    let next = session_step(&mut room, SessionState::AwaitingJoin, "not json at all");
    assert_eq!(next, SessionState::Closed);
    assert_eq!(room.member_count(), 0);
}

#[test]
fn join_activates_and_registers() {
    let mut room = Room::new(8);
    let next = session_step(&mut room, SessionState::AwaitingJoin, JOIN_X);
    match next {
        SessionState::Active { .. } => {},
        _ => panic!("a join frame must activate the session"),
    }
    assert_eq!(room.member_names(), vec!["X".to_string()]);
}

#[test]
fn echo_scenario_exact_frames() {
    // Client X and client Y join; X sends a chat; both receive the echoed
    // frame with the sender's name stamped in.
    let mut room = Room::new(8);
    let x = match session_step(&mut room, SessionState::AwaitingJoin, JOIN_X) {
        SessionState::Active { handle } => handle,
        _ => panic!("join must activate"),
    };
    let y = match session_step(&mut room, SessionState::AwaitingJoin, JOIN_Y) {
        SessionState::Active { handle } => handle,
        _ => panic!("join must activate"),
    };
    drain(&mut room, x);
    drain(&mut room, y);
    let st = session_step(&mut room, SessionState::Active { handle: x }, CHAT_HI);
    assert_eq!(st, SessionState::Active { handle: x });
    let expect = "{\"type\":\"chat\",\"content\":{\"text\":\"hi\",\"from\":\"X\"}}";
    for h in [x, y] {
        let got = drain(&mut room, h);
        assert_eq!(got.len(), 1);
        assert_eq!(encode(&got[0]), expect);
    }
}

#[test]
fn repeat_join_is_ignored_not_fatal() {
    let mut room = Room::new(8);
    let x = match session_step(&mut room, SessionState::AwaitingJoin, JOIN_X) {
        SessionState::Active { handle } => handle,
        _ => panic!("join must activate"),
    };
    let st = session_step(&mut room, SessionState::Active { handle: x }, JOIN_Y);
    assert_eq!(st, SessionState::Active { handle: x });
    assert_eq!(room.member_names(), vec!["X".to_string()]);
}

#[test]
fn unrecognized_frame_is_ignored_when_active() {
    let mut room = Room::new(8);
    let x = match session_step(&mut room, SessionState::AwaitingJoin, JOIN_X) {
        SessionState::Active { handle } => handle,
        _ => panic!("join must activate"),
    };
    drain(&mut room, x);
    let st = session_step(&mut room, SessionState::Active { handle: x }, "??");
    assert_eq!(st, SessionState::Active { handle: x });
    assert!(room.pop_outbound(x).is_none());
}

#[test]
fn disconnect_leaves_exactly_once() {
    let mut room = Room::new(8);
    let x = match session_step(&mut room, SessionState::AwaitingJoin, JOIN_X) {
        SessionState::Active { handle } => handle,
        _ => panic!("join must activate"),
    };
    let y = match session_step(&mut room, SessionState::AwaitingJoin, JOIN_Y) {
        SessionState::Active { handle } => handle,
        _ => panic!("join must activate"),
    };
    let st = session_disconnect(&mut room, SessionState::Active { handle: x });
    assert_eq!(st, SessionState::Closed);
    assert_eq!(room.member_names(), vec!["Y".to_string()]);
    // A second teardown of the same session finds nothing left to remove.
    let st2 = session_disconnect(&mut room, st);
    assert_eq!(st2, SessionState::Closed);
    assert_eq!(room.member_names(), vec!["Y".to_string()]);
    let _ = y;
}

#[test]
fn closed_session_stays_closed() {
    let mut room = Room::new(8);
    let next = session_step(&mut room, SessionState::Closed, CHAT_HI);
    assert_eq!(next, SessionState::Closed);
    assert_eq!(room.member_count(), 0);
}
