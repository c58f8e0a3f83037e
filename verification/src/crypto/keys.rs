//! Keys and signatures as byte strings.
use crate::bytes::{array64, same_bytes, same32};
use crate::crypto::error::CryptoError;
use crate::primitives;
use vstd::prelude::*;

verus! {

/// An X25519 public key.
#[derive(Clone, Copy, Debug)]
pub struct PublicKey {
    pub bytes: [u8; 32],
}

/// An X25519 secret key.
#[derive(Clone, Copy)]
pub struct StaticSecret {
    pub bytes: [u8; 32],
}

/// An Ed25519 public key.
#[derive(Clone, Copy, Debug)]
pub struct VerifyingKey {
    pub bytes: [u8; 32],
}

/// An Ed25519 signing key, held as its seed.
#[derive(Clone, Copy)]
pub struct SigningKey {
    pub bytes: [u8; 32],
}

/// An Ed25519 signature.
#[derive(Clone, Copy, Debug)]
pub struct Signature {
    pub bytes: [u8; 64],
}

impl View for PublicKey {
    type V = Seq<u8>;

    open spec fn view(&self) -> Seq<u8> {
        self.bytes@
    }
}

impl View for StaticSecret {
    type V = Seq<u8>;

    open spec fn view(&self) -> Seq<u8> {
        self.bytes@
    }
}

impl View for VerifyingKey {
    type V = Seq<u8>;

    open spec fn view(&self) -> Seq<u8> {
        self.bytes@
    }
}

impl View for SigningKey {
    type V = Seq<u8>;

    open spec fn view(&self) -> Seq<u8> {
        self.bytes@
    }
}

impl View for Signature {
    type V = Seq<u8>;

    open spec fn view(&self) -> Seq<u8> {
        self.bytes@
    }
}

impl PublicKey {
    /// The public key with the given bytes.
    pub fn from_bytes(bytes: [u8; 32]) -> (r: PublicKey)
        ensures
            r.bytes == bytes,
    {
        PublicKey { bytes }
    }

    /// Its bytes.
    pub fn to_bytes(&self) -> (r: [u8; 32])
        ensures
            r == self.bytes,
    {
        self.bytes
    }

    /// The public key of `secret`.
    pub fn of_secret(secret: &StaticSecret) -> (r: PublicKey)
        ensures
            r@ == primitives::x25519_public_of(secret@),
    {
        PublicKey { bytes: primitives::x25519_public(&secret.bytes) }
    }
}

impl PartialEq for PublicKey {
    fn eq(&self, other: &PublicKey) -> (r: bool) {
        same32(&self.bytes, &other.bytes)
    }
}

impl vstd::std_specs::cmp::PartialEqSpecImpl for PublicKey {
    open spec fn obeys_eq_spec() -> bool {
        true
    }

    open spec fn eq_spec(&self, other: &PublicKey) -> bool {
        self.bytes@ == other.bytes@
    }
}

impl Eq for PublicKey {

}

impl StaticSecret {
    /// The secret with the given bytes.
    pub fn from_bytes(bytes: [u8; 32]) -> (r: StaticSecret)
        ensures
            r.bytes == bytes,
    {
        StaticSecret { bytes }
    }

    /// Its bytes.
    pub fn to_bytes(&self) -> (r: [u8; 32])
        ensures
            r == self.bytes,
    {
        self.bytes
    }

    /// A fresh secret from the system's random source. Nothing is stated of its
    /// bytes.
    pub fn random() -> StaticSecret {
        StaticSecret { bytes: primitives::os_random::<32>() }
    }

    /// The secret shared with the holder of `public`. Where `public` is the
    /// public key of a secret `s`, `s` and this secret's public key give the
    /// same value.
    pub fn diffie_hellman(&self, public: &PublicKey) -> (r: [u8; 32])
        ensures
            r@ == primitives::x25519_shared_of(self@, public@),
            forall|s: Seq<u8>|
                s.len() == 32 && public@ == #[trigger] primitives::x25519_public_of(s) ==> r@
                    == primitives::x25519_shared_of(s, primitives::x25519_public_of(self@)),
    {
        primitives::x25519_shared(&self.bytes, &public.bytes)
    }
}

impl VerifyingKey {
    /// Checks that the bytes encode a curve point.
    pub fn from_bytes(bytes: &[u8; 32]) -> (r: Result<VerifyingKey, CryptoError>)
        ensures
            primitives::ed25519_point(bytes@) ==> (r matches Ok(k) && k.bytes == *bytes),
            !primitives::ed25519_point(bytes@) ==> r == Err::<VerifyingKey, CryptoError>(
                CryptoError::MalformedBundle,
            ),
    {
        if primitives::ed25519_is_point(bytes) {
            Ok(VerifyingKey { bytes: *bytes })
        } else {
            Err(CryptoError::MalformedBundle)
        }
    }

    /// Its bytes.
    pub fn to_bytes(&self) -> (r: [u8; 32])
        ensures
            r == self.bytes,
    {
        self.bytes
    }

    /// Checks a signature of `msg`.
    pub fn verify(&self, msg: &[u8], sig: &Signature) -> (r: Result<(), CryptoError>)
        ensures
            r == if primitives::ed25519_accepts(self@, msg@, sig@) {
                Ok(())
            } else {
                Err(CryptoError::InvalidSignature)
            },
            r is Ok ==> primitives::ed25519_point(self@),
    {
        if primitives::ed25519_verify(&self.bytes, msg, &sig.bytes) {
            Ok(())
        } else {
            Err(CryptoError::InvalidSignature)
        }
    }
}

impl PartialEq for VerifyingKey {
    fn eq(&self, other: &VerifyingKey) -> (r: bool) {
        same32(&self.bytes, &other.bytes)
    }
}

impl vstd::std_specs::cmp::PartialEqSpecImpl for VerifyingKey {
    open spec fn obeys_eq_spec() -> bool {
        true
    }

    open spec fn eq_spec(&self, other: &VerifyingKey) -> bool {
        self.bytes@ == other.bytes@
    }
}

impl Eq for VerifyingKey {

}

impl SigningKey {
    /// The signing key with the given seed.
    pub fn from_bytes(bytes: [u8; 32]) -> (r: SigningKey)
        ensures
            r.bytes == bytes,
    {
        SigningKey { bytes }
    }

    /// Its seed.
    pub fn to_bytes(&self) -> (r: [u8; 32])
        ensures
            r == self.bytes,
    {
        self.bytes
    }

    /// A fresh signing key from the system's random source. Nothing is stated of
    /// its seed.
    pub fn random() -> SigningKey {
        SigningKey { bytes: primitives::os_random::<32>() }
    }

    /// The key that checks its signatures.
    pub fn verifying_key(&self) -> (r: VerifyingKey)
        ensures
            r@ == primitives::ed25519_public_of(self@),
            primitives::ed25519_point(r@),
    {
        VerifyingKey { bytes: primitives::ed25519_public(&self.bytes) }
    }

    /// Signs `msg`; the signature verifies under this key's public key.
    pub fn sign(&self, msg: &[u8]) -> (r: Signature)
        ensures
            r@ == primitives::ed25519_signature_of(self@, msg@),
            primitives::ed25519_accepts(primitives::ed25519_public_of(self@), msg@, r@),
    {
        Signature { bytes: primitives::ed25519_sign(&self.bytes, msg) }
    }
}

impl Signature {
    /// A signature from a slice, which must hold 64 bytes.
    pub fn from_slice(bytes: &[u8]) -> (r: Result<Signature, CryptoError>)
        ensures
            bytes@.len() == 64 ==> (r matches Ok(s) && s@ == bytes@),
            bytes@.len() != 64 ==> r == Err::<Signature, CryptoError>(CryptoError::InvalidSignature),
    {
        if bytes.len() == 64 {
            Ok(Signature { bytes: array64(bytes) })
        } else {
            Err(CryptoError::InvalidSignature)
        }
    }

    /// Its bytes.
    pub fn to_bytes(&self) -> (r: [u8; 64])
        ensures
            r == self.bytes,
    {
        self.bytes
    }
}

impl PartialEq for Signature {
    fn eq(&self, other: &Signature) -> (r: bool) {
        same_bytes(&self.bytes, &other.bytes)
    }
}

impl vstd::std_specs::cmp::PartialEqSpecImpl for Signature {
    open spec fn obeys_eq_spec() -> bool {
        true
    }

    open spec fn eq_spec(&self, other: &Signature) -> bool {
        self.bytes@ == other.bytes@
    }
}

impl Eq for Signature {

}

} // verus!
