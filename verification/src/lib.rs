//! An end-to-end encrypted messenger: the cryptographic protocol, the wire
//! format, the client session and the state machines behind the desktop
//! shell, all of them verified.
//!
//! What depends on other crates' code (ciphers, curves, hashes, the postcard
//! encoding) is reached only through the trusted functions of
//! [`primitives`] and [`wire`].

pub mod bytes;
pub mod hexadecimal;
pub mod keymap;
pub mod text;
pub mod primitives;
pub mod wire;
pub mod crypto;
pub mod protocol;
pub mod client;
pub mod gui;
