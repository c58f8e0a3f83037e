//! The colours of the user interface, as red, green and blue.
use vstd::prelude::*;

verus! {

/// Buttons, links and unread badges.
pub const ACCENT: [u8; 3] = [0xBD, 0x93, 0xF9];

/// The fill of an outgoing bubble.
pub const BUBBLE_OUT: [u8; 3] = [0x44, 0x47, 0x5A];

/// The fill of an incoming bubble.
pub const BUBBLE_IN: [u8; 3] = [0x28, 0x2A, 0x36];

/// The text of the error banner.
pub const ERROR: [u8; 3] = [0xFF, 0x55, 0x55];

/// Secondary text: fingerprints, ids and hints.
pub const MUTED: [u8; 3] = [0x8B, 0xE9, 0xFD];

/// The dot of a connection that stands.
pub const OK: [u8; 3] = [0x50, 0xFA, 0x7B];

} // verus!
