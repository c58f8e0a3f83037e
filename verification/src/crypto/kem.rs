//! The post-quantum key-encapsulation layer, ML-KEM-768.
//!
//! It is laid on top of the classical X3DH handshake: the responder publishes
//! an encapsulation key beside the signed prekey, the initiator encapsulates a
//! fresh secret to it, and the secret enters the key extraction after the
//! Diffie-Hellman outputs. The session key then rests on both.
//!
//! A decapsulation key is stored as its 64-byte seed.
use crate::bytes::{array64, to_vec};
use crate::crypto::error::CryptoError;
use crate::primitives;
use vstd::prelude::*;

verus! {

/// Length of an encapsulation key.
pub const EK_768_LEN: usize = 1184;

/// Length of a decapsulation seed.
pub const DK_768_LEN: usize = 64;

/// Length of a ciphertext.
pub const CT_768_LEN: usize = 1088;

/// Length of a shared secret.
pub const SS_768_LEN: usize = 32;

/// An encapsulation (public) key.
#[derive(Debug)]
pub struct PqEncapsulationKey(pub Vec<u8>);

/// A decapsulation (private) key, held as its seed.
pub struct PqDecapsulationKey(pub Vec<u8>);

/// A ciphertext.
#[derive(Debug)]
pub struct PqCiphertext(pub Vec<u8>);

impl View for PqEncapsulationKey {
    type V = Seq<u8>;

    open spec fn view(&self) -> Seq<u8> {
        self.0@
    }
}

impl View for PqDecapsulationKey {
    type V = Seq<u8>;

    open spec fn view(&self) -> Seq<u8> {
        self.0@
    }
}

impl View for PqCiphertext {
    type V = Seq<u8>;

    open spec fn view(&self) -> Seq<u8> {
        self.0@
    }
}

impl Clone for PqEncapsulationKey {
    fn clone(&self) -> (r: Self)
        ensures
            r@ == self@,
    {
        PqEncapsulationKey(to_vec(&self.0))
    }
}

impl Clone for PqDecapsulationKey {
    fn clone(&self) -> (r: Self)
        ensures
            r@ == self@,
    {
        PqDecapsulationKey(to_vec(&self.0))
    }
}

impl Clone for PqCiphertext {
    fn clone(&self) -> (r: Self)
        ensures
            r@ == self@,
    {
        PqCiphertext(to_vec(&self.0))
    }
}

/// A ciphertext and a secret come from one encapsulation to a key.
pub open spec fn encapsulated(key: Seq<u8>, ciphertext: Seq<u8>, secret: Seq<u8>) -> bool {
    exists|m: Seq<u8>|
        m.len() == 32 && #[trigger] primitives::mlkem_encapsulated_of(key, m) == (
            ciphertext,
            secret,
        )
}

impl PqEncapsulationKey {
    /// Wraps an encapsulation key.
    pub fn from_array(bytes: [u8; 1184]) -> (r: Self)
        ensures
            r@ == bytes@,
    {
        PqEncapsulationKey(to_vec(&bytes))
    }

    /// The key as an array.
    pub fn as_array(&self) -> (r: [u8; 1184])
        requires
            self@.len() == EK_768_LEN,
        ensures
            r@ == self@,
    {
        let mut out: [u8; 1184] = [0u8; 1184];
        let mut i: usize = 0;
        while i < 1184
            invariant
                0 <= i <= 1184,
                self@.len() == 1184,
                forall|j: int| 0 <= j < i ==> out@[j] == self@[j],
            decreases 1184 - i,
        {
            out[i] = self.0[i];
            i = i + 1;
        }
        assert(out@ =~= self@);
        out
    }

    /// Takes untrusted bytes as a key where their length is right.
    pub fn from_bytes(bytes: &[u8]) -> (r: Result<Self, CryptoError>)
        ensures
            bytes@.len() == EK_768_LEN ==> (r matches Ok(k) && k@ == bytes@),
            bytes@.len() != EK_768_LEN ==> r == Err::<Self, CryptoError>(
                CryptoError::MalformedBundle,
            ),
    {
        if bytes.len() != EK_768_LEN {
            return Err(CryptoError::MalformedBundle);
        }
        Ok(PqEncapsulationKey(to_vec(bytes)))
    }

    /// A fresh key pair from the system's random source.
    pub fn generate_keypair() -> (r: (PqDecapsulationKey, PqEncapsulationKey))
        ensures
            r.0@.len() == DK_768_LEN,
            r.1@.len() == EK_768_LEN,
            r.1@ == primitives::mlkem_public_of(r.0@),
            primitives::mlkem_accepts(r.1@),
    {
        let (dk, ek) = primitives::mlkem_generate();
        (PqDecapsulationKey(dk), PqEncapsulationKey(ek))
    }

    /// A fresh shared secret with the ciphertext that carries it to the
    /// holder of the decapsulation key. Fails exactly on a key that ML-KEM
    /// does not accept. That decapsulating gives the secret back is not
    /// stated: it fails with a negligible probability.
    pub fn encapsulate(&self) -> (r: Result<(PqCiphertext, [u8; 32]), CryptoError>)
        ensures
            primitives::mlkem_accepts(self@) ==> (r matches Ok(out) && out.0@.len() == CT_768_LEN
                && encapsulated(self@, out.0@, out.1@)),
            !primitives::mlkem_accepts(self@) ==> (r matches Err(e) && e
                == CryptoError::MalformedBundle),
    {
        match primitives::mlkem_encapsulate(&self.0) {
            Some((ct, shared)) => Ok((PqCiphertext(ct), shared)),
            None => Err(CryptoError::MalformedBundle),
        }
    }
}

impl PqDecapsulationKey {
    /// Wraps a decapsulation seed.
    pub fn from_array(bytes: [u8; 64]) -> (r: Self)
        ensures
            r@ == bytes@,
    {
        PqDecapsulationKey(to_vec(&bytes))
    }

    /// The seed as an array: the first 64 bytes.
    pub fn as_array(&self) -> (r: [u8; 64])
        requires
            self@.len() >= DK_768_LEN,
        ensures
            r@ == self@.take(64),
    {
        let mut out: [u8; 64] = [0u8; 64];
        let mut i: usize = 0;
        while i < 64
            invariant
                0 <= i <= 64,
                self@.len() >= 64,
                forall|j: int| 0 <= j < i ==> out@[j] == self@[j],
            decreases 64 - i,
        {
            out[i] = self.0[i];
            i = i + 1;
        }
        assert(out@ =~= self@.take(64));
        out
    }

    /// Takes untrusted bytes as a seed where their length is right.
    pub fn from_bytes(bytes: &[u8]) -> (r: Result<Self, CryptoError>)
        ensures
            bytes@.len() == DK_768_LEN ==> (r matches Ok(k) && k@ == bytes@),
            bytes@.len() != DK_768_LEN ==> (r matches Err(e) && e == CryptoError::MalformedBundle),
    {
        if bytes.len() != DK_768_LEN {
            return Err(CryptoError::MalformedBundle);
        }
        Ok(PqDecapsulationKey(to_vec(bytes)))
    }

    /// The encapsulation key that belongs to this seed. Key generation is
    /// deterministic, so it is the one that was generated with the seed.
    pub fn derive_encapsulation_key(&self) -> (r: Result<PqEncapsulationKey, CryptoError>)
        requires
            self@.len() == DK_768_LEN,
        ensures
            r matches Ok(k) && k@ == primitives::mlkem_public_of(self@) && k@.len() == EK_768_LEN
                && primitives::mlkem_accepts(k@),
    {
        let seed = array64(&self.0);
        Ok(PqEncapsulationKey(primitives::mlkem_public(&seed)))
    }

    /// The shared secret that `ct` carries.
    pub fn decapsulate(&self, ct: &PqCiphertext) -> (r: Result<[u8; 32], CryptoError>)
        requires
            ct@.len() == CT_768_LEN ==> self@.len() == DK_768_LEN,
        ensures
            ct@.len() == CT_768_LEN ==> (r matches Ok(s) && s@ == primitives::mlkem_shared_of(
                self@,
                ct@,
            )),
            ct@.len() != CT_768_LEN ==> r == Err::<[u8; 32], CryptoError>(
                CryptoError::MalformedBundle,
            ),
    {
        if ct.0.len() != CT_768_LEN {
            return Err(CryptoError::MalformedBundle);
        }
        let seed = array64(&self.0);
        Ok(primitives::mlkem_decapsulate(&seed, &ct.0))
    }
}

impl PqCiphertext {
    /// The ciphertext as an array.
    pub fn as_array(&self) -> (r: [u8; 1088])
        requires
            self@.len() == CT_768_LEN,
        ensures
            r@ == self@,
    {
        let mut out: [u8; 1088] = [0u8; 1088];
        let mut i: usize = 0;
        while i < 1088
            invariant
                0 <= i <= 1088,
                self@.len() == 1088,
                forall|j: int| 0 <= j < i ==> out@[j] == self@[j],
            decreases 1088 - i,
        {
            out[i] = self.0[i];
            i = i + 1;
        }
        assert(out@ =~= self@);
        out
    }

    /// Takes untrusted bytes as a ciphertext where their length is right.
    pub fn from_bytes(bytes: &[u8]) -> (r: Result<Self, CryptoError>)
        ensures
            bytes@.len() == CT_768_LEN ==> (r matches Ok(k) && k@ == bytes@),
            bytes@.len() != CT_768_LEN ==> r == Err::<Self, CryptoError>(
                CryptoError::MalformedBundle,
            ),
    {
        if bytes.len() != CT_768_LEN {
            return Err(CryptoError::MalformedBundle);
        }
        Ok(PqCiphertext(to_vec(bytes)))
    }
}

} // verus!
