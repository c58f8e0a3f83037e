//! The client without its user interface: session state, the encrypted
//! store's formats, and the command line's input.
pub mod cli;
pub mod crypto_bridge;
pub mod error;
pub mod net;
pub mod session;
pub mod store;
