//! What holds of the protocol as a whole: proved laws about the codec and the connections.

pub mod bytes_on_the_wire;
pub mod codec;
pub mod conversation;
pub mod handshake;
pub mod operations;
pub mod sockets;
