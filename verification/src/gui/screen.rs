//! The screens of the user interface.
use vstd::prelude::*;

verus! {

/// Which screen is shown.
#[derive(Debug, Clone, Copy, PartialEq, Eq)]
pub enum View {
    Setup,
    Login,
    ContactList,
    /// The thread with a peer.
    ChatThread([u8; 32]),
    /// The thread of a group.
    GroupChat([u8; 32]),
    Settings,
}

} // verus!
