//! A framed-message server core: the frame envelope, the message codec,
//! the dispatcher and the per-connection receive/dispatch/reply machine.
pub mod client;
pub mod dispatch;
pub mod lemmas;
pub mod message;
pub mod varint;
pub mod wire;
