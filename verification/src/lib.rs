//! Minimal ZMTP 3.1 client protocol: connect-side DEALER and SUB sockets, verified.
//!
//! Deliberately absent: bind, other socket types, CURVE/PLAIN security, ZMTP 1.0/2.0/3.0
//! downgrade, and automatic reconnection. The scope is exactly what a Jupyter-style client needs:
//! connect to a peer's ROUTER or XPUB socket, speak ZMTP 3.1 with NULL security, and exchange
//! multipart messages.
//!
//! The library does no I/O. A connection is a value that takes in the bytes a peer sent, queues
//! the bytes to write, and says what is to be done next, so that it runs over any byte stream. All
//! progress lives in that value: whoever drives it may stop after any step, nothing is lost or
//! torn, and the next call resumes. [`laws`] proves this and more of the protocol as a whole.

pub mod buffer;
pub mod error;
pub mod laws;
pub mod number;
pub mod socket;
pub mod text;
pub mod wire;

pub use crate::error::{Error, Result};
pub use crate::socket::{Dealer, Handshake, HandshakeStep, Step, Sub, ZmtpStream, DEFAULT_MAX_FRAME};
