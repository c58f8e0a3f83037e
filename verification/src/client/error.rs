//! Errors of the client.
use crate::crypto::error::CryptoError;
use crate::protocol::error::ProtocolError;
use crate::text::{decimal_chars, push_decimal};
use crate::wire::CodecError;
use vstd::prelude::*;

verus! {

#[derive(Debug)]
pub enum ClientError {
    Crypto(CryptoError),
    Protocol(ProtocolError),
    /// Bytes that are no encoding of the expected value.
    Postcard(CodecError),
    Io(String),
    Sqlite(String),
    NoSession,
    /// No session of the group whose id starts with the given digits.
    NoGroupSession(String),
    /// A group message names another sender inside than outside. Its
    /// signature covers only the inside, so a member could otherwise send in
    /// another's name.
    GroupSenderMismatch,
    NoOneTimePreKey(u32),
    Store(String),
    NotConnected,
    /// The relay did not answer in time.
    Timeout,
}

impl ClientError {
    /// The error in words.
    pub open spec fn message(self) -> Seq<char> {
        match self {
            ClientError::Crypto(e) => "crypto error: "@ + e.message(),
            ClientError::Protocol(e) => "protocol error: "@ + e.message(),
            ClientError::Postcard(e) => "postcard error: "@ + e.message(),
            ClientError::Io(s) => "io error: "@ + s@,
            ClientError::Sqlite(s) => "sqlite error: "@ + s@,
            ClientError::NoSession => "no session with peer"@,
            ClientError::NoGroupSession(s) => "no group session with id "@ + s@,
            ClientError::GroupSenderMismatch => "group sender_id does not match envelope.sender"@,
            ClientError::NoOneTimePreKey(id) => "no one-time prekey with id "@ + decimal_chars(
                id as nat,
            ),
            ClientError::Store(s) => "store error: "@ + s@,
            ClientError::NotConnected => "not connected"@,
            ClientError::Timeout => "timed out"@,
        }
    }

    /// Describes the error in words.
    pub fn to_string(&self) -> (r: String)
        ensures
            r@ == self.message(),
    {
        match self {
            ClientError::Crypto(e) => joined("crypto error: ", e.to_string().as_str()),
            ClientError::Protocol(e) => joined("protocol error: ", e.to_string().as_str()),
            ClientError::Postcard(e) => joined("postcard error: ", e.to_string().as_str()),
            ClientError::Io(s) => joined("io error: ", s.as_str()),
            ClientError::Sqlite(s) => joined("sqlite error: ", s.as_str()),
            ClientError::NoSession => "no session with peer".to_owned(),
            ClientError::NoGroupSession(s) => joined("no group session with id ", s.as_str()),
            ClientError::GroupSenderMismatch =>
                "group sender_id does not match envelope.sender".to_owned(),
            ClientError::NoOneTimePreKey(id) => {
                let mut out: String = "no one-time prekey with id ".to_owned();
                push_decimal(&mut out, *id as u64);
                out
            },
            ClientError::Store(s) => joined("store error: ", s.as_str()),
            ClientError::NotConnected => "not connected".to_owned(),
            ClientError::Timeout => "timed out".to_owned(),
        }
    }
}

/// One text behind another.
fn joined(a: &str, b: &str) -> (r: String)
    ensures
        r@ == a@ + b@,
{
    let mut out: String = a.to_owned();
    out.append(b);
    out
}

/// The words of an error end with its details: the reason that was given, the
/// group or the id that is missing.
pub proof fn lemma_details_told(s: String, e: ClientError, id: u32)
    ensures
        ClientError::Io(s).message() == "io error: "@ + s@,
        ClientError::Sqlite(s).message() == "sqlite error: "@ + s@,
        ClientError::Store(s).message() == "store error: "@ + s@,
        ClientError::NoGroupSession(s).message() == "no group session with id "@ + s@,
        ClientError::NoOneTimePreKey(id).message() == "no one-time prekey with id "@
            + decimal_chars(id as nat),
        e matches ClientError::Crypto(c) ==> e.message() == "crypto error: "@ + c.message(),
        e matches ClientError::Protocol(c) ==> e.message() == "protocol error: "@ + c.message(),
        e matches ClientError::Postcard(c) ==> e.message() == "postcard error: "@ + c.message(),
{
}

} // verus!
