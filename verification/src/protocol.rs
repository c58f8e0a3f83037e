//! The wire protocol between clients and the relay: message types and
//! length-prefixed framing. No cryptography.
pub mod error;
pub mod framing;
pub mod message;
