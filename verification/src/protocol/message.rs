//! Messages between clients and the relay. Cryptographic material is carried
//! as opaque bytes.
use vstd::prelude::*;

verus! {

/// What kind of ciphertext an envelope carries.
#[derive(Debug, Clone, Copy, PartialEq, Eq, Structural)]
pub enum MessageKind {
    /// A one-to-one Double Ratchet message.
    Direct,
    /// A group Sender Keys message.
    Group,
}

impl Default for MessageKind {
    fn default() -> (r: Self)
        ensures
            r == MessageKind::Direct,
    {
        MessageKind::Direct
    }
}

/// An encrypted message as the relay passes it on.
#[derive(Debug, Clone, PartialEq, Eq)]
pub struct EncryptedEnvelope {
    /// Assigned by the relay, used to acknowledge.
    pub id: u64,
    /// The sender's identity public key.
    pub sender: [u8; 32],
    /// Which way the client decrypts it.
    pub kind: MessageKind,
    /// The ratchet or group header.
    pub header: Vec<u8>,
    /// The X3DH init message, only on the first message of a one-to-one
    /// session.
    pub init: Option<Vec<u8>>,
    /// The ciphertext.
    pub ciphertext: Vec<u8>,
    /// The sender's signature of header and ciphertext for a group message,
    /// empty for a direct one.
    pub signature: Vec<u8>,
}

/// A prekey bundle as clients register and fetch it.
#[derive(Debug, Clone, PartialEq, Eq)]
pub struct PreKeyBundle {
    /// The owner's identity public key.
    pub identity_pub: [u8; 32],
    pub signed_prekey_id: u32,
    pub signed_prekey_pub: [u8; 32],
    /// The identity's signature of `signed_prekey_pub`.
    pub signed_prekey_sig: Vec<u8>,
    pub one_time_prekeys: Vec<(u32, [u8; 32])>,
    /// An ML-KEM-768 encapsulation key, absent for classical-only clients.
    pub pq_encapsulation_key: Option<Vec<u8>>,
    /// The identity's signature of `pq_encapsulation_key`, present exactly
    /// where the key is.
    pub pq_encapsulation_key_sig: Option<Vec<u8>>,
}

/// A message from a client to the relay.
#[derive(Debug, Clone, PartialEq, Eq)]
pub enum ClientMessage {
    /// Register or refresh the client's prekey bundle.
    Register { bundle: PreKeyBundle },
    /// Fetch the bundle of an identity.
    FetchBundle { target: [u8; 32] },
    /// Deliver an envelope to each recipient.
    Send { recipients: Vec<[u8; 32]>, envelope: EncryptedEnvelope },
    /// Ask for envelopes with a higher id than `since`.
    Poll { since: u64 },
    /// Acknowledge delivered envelopes.
    Ack { envelope_ids: Vec<u64> },
    /// Ask for envelopes to be pushed on this connection.
    Subscribe,
    /// Probe whether the connection is alive.
    Ping,
}

/// A message from the relay to a client.
#[derive(Debug, Clone, PartialEq, Eq)]
pub enum ServerMessage {
    /// The fetched bundle, or `None` where the identity is not registered.
    Bundle(Option<PreKeyBundle>),
    /// Envelopes for this client.
    Delivered(Vec<EncryptedEnvelope>),
    AckOk,
    /// Answer to a probe.
    Pong,
    Error(ServerError),
}

/// An error that the relay reports.
#[derive(Debug, Clone, Copy, PartialEq, Eq, Structural)]
pub enum ServerError {
    /// A recipient is not registered.
    UnknownRecipient,
    /// The signed prekey's signature is bad.
    InvalidSignature,
    /// The envelope's sender is not the connection's identity.
    BadSender,
    /// The frame is malformed; the connection is closed.
    MalformedFrame,
    /// The frame is too large.
    TooLarge,
    /// The client is not registered.
    NotRegistered,
}

} // verus!
