//! The per-connection session lifecycle: a state machine from state and
//! inbound event to next state, with the room effect of each step. The
//! surrounding runtime owns the transport; it feeds frames in, drains the
//! member's outbound queue, and reports disconnection exactly once.
use vstd::prelude::*;
use crate::codec::decode;
use crate::codec::decode_msg;
use crate::protocol::MessageView;
use crate::protocol::ProtocolMessage;
use crate::room::broadcast_spec;
use crate::room::join_spec;
use crate::room::leave_spec;
use crate::room::Room;
use crate::room::RoomView;

verus! {

/// Where one connection stands. `AwaitingJoin` until its first frame carries
/// a join; `Active` once registered; `Closed` is terminal.
#[derive(Clone, Copy, PartialEq, Eq, Structural, Debug)]
pub enum SessionState {
    AwaitingJoin,
    Active { handle: u64 },
    Closed,
}

/// One inbound frame, applied to the room and the session state:
/// - awaiting a join, only a join frame registers the member and activates
///   the session; any other frame is a protocol violation that closes the
///   session with the room untouched — so a chat before a join never
///   registers anyone;
/// - active, a chat frame is broadcast under the session's handle; a repeat
///   join, a user-list frame or an unrecognized frame is ignored, never
///   fatal to the room;
/// - closed stays closed, the room untouched.
pub open spec fn step_spec(r: RoomView, st: SessionState, frame: Seq<char>) -> (
    RoomView,
    SessionState,
) {
    match st {
        SessionState::AwaitingJoin => match decode_msg(frame) {
            MessageView::Join { user } => (
                join_spec(r, user),
                SessionState::Active { handle: r.next_handle },
            ),
            _ => (r, SessionState::Closed),
        },
        SessionState::Active { handle } => match decode_msg(frame) {
            MessageView::Chat { text, from } => (
                broadcast_spec(r, MessageView::Chat { text, from }, handle),
                SessionState::Active { handle },
            ),
            _ => (r, SessionState::Active { handle }),
        },
        SessionState::Closed => (r, SessionState::Closed),
    }
}

/// Teardown, for any exit path: an active session leaves the room, exactly
/// once; a session that never joined leaves no trace. Terminal either way.
pub open spec fn disconnect_spec(r: RoomView, st: SessionState) -> (RoomView, SessionState) {
    match st {
        SessionState::Active { handle } => (leave_spec(r, handle), SessionState::Closed),
        _ => (r, SessionState::Closed),
    }
}

/// Apply one inbound frame to the room, as `step_spec` says.
pub fn session_step(room: &mut Room, st: SessionState, frame: &str) -> (next: SessionState)
    requires
        old(room)@.wf(),
        st is AwaitingJoin ==> old(room)@.next_handle < u64::MAX,
    ensures
        final(room)@ == step_spec(old(room)@, st, frame@).0,
        next == step_spec(old(room)@, st, frame@).1,
        final(room)@.wf(),
{
    match st {
        SessionState::AwaitingJoin => {
            let msg = decode(frame);
            match msg {
                ProtocolMessage::Join { user } => {
                    let h = room.join(user);
                    SessionState::Active { handle: h }
                },
                _ => SessionState::Closed,
            }
        },
        SessionState::Active { handle } => {
            let msg = decode(frame);
            match msg {
                ProtocolMessage::Chat { text, from } => {
                    room.broadcast(ProtocolMessage::Chat { text, from }, handle);
                    SessionState::Active { handle }
                },
                _ => SessionState::Active { handle },
            }
        },
        SessionState::Closed => SessionState::Closed,
    }
}

/// Tear the session down, as `disconnect_spec` says.
pub fn session_disconnect(room: &mut Room, st: SessionState) -> (next: SessionState)
    requires
        old(room)@.wf(),
    ensures
        final(room)@ == disconnect_spec(old(room)@, st).0,
        next == disconnect_spec(old(room)@, st).1,
        next == SessionState::Closed,
        final(room)@.wf(),
{
    match st {
        SessionState::Active { handle } => {
            room.leave(handle);
            SessionState::Closed
        },
        _ => SessionState::Closed,
    }
}

} // verus!
