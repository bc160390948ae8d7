//! A verified core for a single-room broadcast chat: the wire protocol with a
//! total decoder, room membership with in-order fan-out over bounded
//! per-member queues, and the per-connection session state machine.
pub mod codec;
pub mod laws;
pub mod protocol;
pub mod room;
pub mod session;

pub use protocol::ProtocolMessage;
pub use protocol::UserInfo;
