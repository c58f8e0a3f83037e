//! The end-to-end encryption protocol: X3DH session establishment with an
//! optional ML-KEM-768 layer, the Double Ratchet for one-to-one messages and
//! Sender Keys for groups.
pub mod error;
pub mod aead;
pub mod keys;
pub mod kem;
pub mod identity;
pub mod x3dh;
pub mod double_ratchet;
pub mod delivery;
pub mod sender_keys;
