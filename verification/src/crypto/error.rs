//! Errors of the protocol primitives.
use vstd::prelude::*;

verus! {

#[derive(Debug, Clone, Copy, PartialEq, Eq, Structural)]
pub enum CryptoError {
    InvalidSignature,
    DecryptionFailed,
    MissingPreKey,
    SkippedMessageLimit,
    MalformedBundle,
    InvalidState,
}

impl CryptoError {
    /// The text that describes the error.
    pub open spec fn message(self) -> Seq<char> {
        match self {
            CryptoError::InvalidSignature => "invalid signature"@,
            CryptoError::DecryptionFailed => "decryption failed"@,
            CryptoError::MissingPreKey => "missing prekey"@,
            CryptoError::SkippedMessageLimit => "skipped message key cache limit reached"@,
            CryptoError::MalformedBundle => "malformed prekey bundle"@,
            CryptoError::InvalidState => "invalid ratchet state"@,
        }
    }

    /// Describes the error in words.
    pub fn to_string(&self) -> (r: String)
        ensures
            r@ == self.message(),
    {
        let text = match self {
            CryptoError::InvalidSignature => "invalid signature",
            CryptoError::DecryptionFailed => "decryption failed",
            CryptoError::MissingPreKey => "missing prekey",
            CryptoError::SkippedMessageLimit => "skipped message key cache limit reached",
            CryptoError::MalformedBundle => "malformed prekey bundle",
            CryptoError::InvalidState => "invalid ratchet state",
        };
        text.to_owned()
    }
}

/// Different errors are described in different words.
pub proof fn lemma_errors_differ(a: CryptoError, b: CryptoError)
    requires
        a.message() == b.message(),
    ensures
        a == b,
{
    reveal_strlit("invalid signature");
    reveal_strlit("decryption failed");
    reveal_strlit("missing prekey");
    reveal_strlit("skipped message key cache limit reached");
    reveal_strlit("malformed prekey bundle");
    reveal_strlit("invalid ratchet state");
    assert("invalid signature"@[0] == 'i' && "decryption failed"@[0] == 'd');
    assert("invalid signature"@.len() == 17 && "decryption failed"@.len() == 17);
    assert("missing prekey"@.len() == 14 && "malformed prekey bundle"@.len() == 23);
    assert("skipped message key cache limit reached"@.len() == 39);
    assert("invalid ratchet state"@.len() == 21);
}

} // verus!
