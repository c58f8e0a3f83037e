//! Identities, prekeys and the bundle that a client publishes.
use crate::crypto::error::CryptoError;
use crate::crypto::kem::PqEncapsulationKey;
use crate::crypto::keys::{PublicKey, Signature, SigningKey, StaticSecret, VerifyingKey};
use crate::hexadecimal;
use crate::primitives;
use vstd::prelude::*;

verus! {

/// A long-term identity: an Ed25519 key pair.
#[derive(Clone, Copy)]
pub struct IdentityKey {
    pub signing: SigningKey,
    pub verifying: VerifyingKey,
}

impl IdentityKey {
    /// The two halves belong together.
    pub open spec fn wf(self) -> bool {
        self.verifying@ == primitives::ed25519_public_of(self.signing@)
    }

    /// A fresh identity.
    pub fn generate() -> (r: Self)
        ensures
            r.wf(),
            primitives::ed25519_point(r.verifying@),
    {
        Self::from_signing(SigningKey::random())
    }

    /// The identity of a signing key.
    pub fn from_signing(signing: SigningKey) -> (r: Self)
        ensures
            r.signing == signing,
            r.wf(),
            r.verifying@ == primitives::ed25519_public_of(signing@),
            primitives::ed25519_point(r.verifying@),
    {
        IdentityKey { signing, verifying: signing.verifying_key() }
    }

    /// The SHA-256 of the public key.
    pub fn fingerprint(&self) -> (r: [u8; 32])
        ensures
            r@ == fingerprint_spec(self.verifying@),
    {
        fingerprint_of_pub(&self.verifying.bytes)
    }

    /// The fingerprint as 64 hexadecimal digits.
    pub fn fingerprint_hex(&self) -> (r: String)
        ensures
            r@ == hexadecimal::hex_chars(fingerprint_spec(self.verifying@)),
            r@.len() == 64,
    {
        let fp = self.fingerprint();
        proof {
            hexadecimal::lemma_hex_chars(fp@);
        }
        hexadecimal::encode(&fp)
    }

    /// Signs `msg` with the identity's signing key.
    pub fn sign(&self, msg: &[u8]) -> (r: Signature)
        ensures
            r@ == primitives::ed25519_signature_of(self.signing@, msg@),
            primitives::ed25519_accepts(
                primitives::ed25519_public_of(self.signing@),
                msg@,
                r@,
            ),
    {
        self.signing.sign(msg)
    }

    /// Checks a signature of `msg` by this identity.
    pub fn verify(&self, msg: &[u8], sig: &Signature) -> (r: Result<(), CryptoError>)
        ensures
            r == if primitives::ed25519_accepts(self.verifying@, msg@, sig@) {
                Ok(())
            } else {
                Err(CryptoError::InvalidSignature)
            },
    {
        self.verifying.verify(msg, sig)
    }
}

/// A medium-term prekey, signed by the identity.
#[derive(Clone, Copy)]
pub struct SignedPreKey {
    pub id: u32,
    pub priv_key: StaticSecret,
    pub pub_key: PublicKey,
    pub signature: Signature,
}

impl SignedPreKey {
    /// The two halves belong together.
    pub open spec fn wf(self) -> bool {
        self.pub_key@ == primitives::x25519_public_of(self.priv_key@)
    }

    /// The signature is one of the identity with public key `identity_pub`.
    pub open spec fn signed_by(self, identity_pub: Seq<u8>) -> bool {
        primitives::ed25519_accepts(identity_pub, self.pub_key@, self.signature@)
    }

    /// A fresh prekey, signed by `identity`.
    pub fn generate(id: u32, identity: &IdentityKey) -> (r: Self)
        ensures
            r.id == id,
            r.wf(),
            r.signature@ == primitives::ed25519_signature_of(identity.signing@, r.pub_key@),
            identity.wf() ==> r.signed_by(identity.verifying@),
    {
        Self::from_secret(id, identity, StaticSecret::random())
    }

    /// The prekey of `priv_key`, signed by `identity`.
    pub fn from_secret(id: u32, identity: &IdentityKey, priv_key: StaticSecret) -> (r: Self)
        ensures
            r.id == id,
            r.priv_key == priv_key,
            r.wf(),
            r.pub_key@ == primitives::x25519_public_of(priv_key@),
            r.signature@ == primitives::ed25519_signature_of(identity.signing@, r.pub_key@),
            identity.wf() ==> r.signed_by(identity.verifying@),
    {
        let pub_key = PublicKey::of_secret(&priv_key);
        let signature = identity.sign(&pub_key.bytes);
        SignedPreKey { id, priv_key, pub_key, signature }
    }

    /// Checks the signature against an identity's public key.
    pub fn verify_signature(&self, identity_pub: &VerifyingKey) -> (r: Result<(), CryptoError>)
        ensures
            r == if self.signed_by(identity_pub@) {
                Ok(())
            } else {
                Err(CryptoError::InvalidSignature)
            },
    {
        identity_pub.verify(&self.pub_key.bytes, &self.signature)
    }
}

/// A prekey meant for one session.
#[derive(Clone, Copy)]
pub struct OneTimePreKey {
    pub id: u32,
    pub priv_key: StaticSecret,
    pub pub_key: PublicKey,
}

impl OneTimePreKey {
    /// The two halves belong together.
    pub open spec fn wf(self) -> bool {
        self.pub_key@ == primitives::x25519_public_of(self.priv_key@)
    }

    /// A fresh prekey.
    pub fn generate(id: u32) -> (r: Self)
        ensures
            r.id == id,
            r.wf(),
            r.pub_key@ == primitives::x25519_public_of(r.priv_key@),
    {
        let priv_key = StaticSecret::random();
        let pub_key = PublicKey::of_secret(&priv_key);
        OneTimePreKey { id, priv_key, pub_key }
    }
}

/// A post-quantum encapsulation key with the identity's signature of it.
#[derive(Debug)]
pub struct PqPreKey {
    pub key: PqEncapsulationKey,
    pub signature: Signature,
}

/// The public half of a client's prekeys. The post-quantum key is optional.
#[derive(Debug)]
pub struct PreKeyBundle {
    pub identity_pub: VerifyingKey,
    pub signed_prekey_id: u32,
    pub signed_prekey_pub: PublicKey,
    pub signed_prekey_sig: Signature,
    pub one_time_prekeys: Vec<(u32, PublicKey)>,
    pub pq_prekey: Option<PqPreKey>,
}

/// The advertised half of a sequence of one-time prekeys.
pub open spec fn advertised(keys: Seq<&OneTimePreKey>) -> Seq<(u32, PublicKey)> {
    keys.map_values(|k: &OneTimePreKey| (k.id, k.pub_key))
}

impl PreKeyBundle {
    /// Every signature in the bundle is one of the identity it names.
    pub open spec fn valid(self) -> bool {
        &&& primitives::ed25519_accepts(
            self.identity_pub@,
            self.signed_prekey_pub@,
            self.signed_prekey_sig@,
        )
        &&& self.pq_prekey matches Some(pq) ==> primitives::ed25519_accepts(
            self.identity_pub@,
            pq.key@,
            pq.signature@,
        )
    }

    /// The bundle of an identity's prekeys, without a post-quantum key.
    pub fn from_identity(
        identity: &IdentityKey,
        signed: &SignedPreKey,
        one_time: &[&OneTimePreKey],
    ) -> (r: Self)
        ensures
            r.identity_pub == identity.verifying,
            r.signed_prekey_id == signed.id,
            r.signed_prekey_pub == signed.pub_key,
            r.signed_prekey_sig == signed.signature,
            r.one_time_prekeys@ == advertised(one_time@),
            r.pq_prekey is None,
            signed.signed_by(identity.verifying@) ==> r.valid(),
    {
        let mut keys: Vec<(u32, PublicKey)> = Vec::new();
        let mut i: usize = 0;
        while i < one_time.len()
            invariant
                0 <= i <= one_time@.len(),
                keys@ == advertised(one_time@).take(i as int),
            decreases one_time@.len() - i,
        {
            keys.push((one_time[i].id, one_time[i].pub_key));
            i = i + 1;
            assert(keys@ =~= advertised(one_time@).take(i as int));
        }
        assert(keys@ =~= advertised(one_time@));
        PreKeyBundle {
            identity_pub: identity.verifying,
            signed_prekey_id: signed.id,
            signed_prekey_pub: signed.pub_key,
            signed_prekey_sig: signed.signature,
            one_time_prekeys: keys,
            pq_prekey: None,
        }
    }

    /// The bundle of an identity's prekeys with a post-quantum key, which the
    /// identity signs.
    pub fn from_identity_hybrid(
        identity: &IdentityKey,
        signed: &SignedPreKey,
        one_time: &[&OneTimePreKey],
        pq_key: &PqEncapsulationKey,
    ) -> (r: Self)
        ensures
            r.identity_pub == identity.verifying,
            r.signed_prekey_id == signed.id,
            r.signed_prekey_pub == signed.pub_key,
            r.signed_prekey_sig == signed.signature,
            r.one_time_prekeys@ == advertised(one_time@),
            r.pq_prekey matches Some(pq) && pq.key@ == pq_key@ && pq.signature@
                == primitives::ed25519_signature_of(identity.signing@, pq_key@),
            identity.wf() && signed.signed_by(identity.verifying@) ==> r.valid(),
    {
        let mut bundle = Self::from_identity(identity, signed, one_time);
        let signature = identity.sign(&pq_key.0);
        bundle.pq_prekey = Some(PqPreKey { key: pq_key.clone(), signature });
        bundle
    }

    /// Checks the signatures in the bundle.
    pub fn verify(&self) -> (r: Result<(), CryptoError>)
        ensures
            r == if self.valid() {
                Ok(())
            } else {
                Err(CryptoError::MalformedBundle)
            },
            r is Ok ==> primitives::ed25519_point(self.identity_pub@),
    {
        match self.identity_pub.verify(&self.signed_prekey_pub.bytes, &self.signed_prekey_sig) {
            Ok(_) => {},
            Err(_) => {
                return Err(CryptoError::MalformedBundle);
            },
        }
        match &self.pq_prekey {
            Some(pq) => match self.identity_pub.verify(&pq.key.0, &pq.signature) {
                Ok(_) => Ok(()),
                Err(_) => Err(CryptoError::MalformedBundle),
            },
            None => Ok(()),
        }
    }
}

/// The fingerprint of an identity's public key.
pub open spec fn fingerprint_spec(public: Seq<u8>) -> Seq<u8> {
    primitives::sha256_of(public)
}

/// The SHA-256 of an identity's public key.
pub fn fingerprint_of_pub(pub_bytes: &[u8; 32]) -> (r: [u8; 32])
    ensures
        r@ == fingerprint_spec(pub_bytes@),
{
    primitives::sha256(pub_bytes)
}

// ---- Laws -------------------------------------------------------------------------------

/// One-time prekeys are advertised all of them, in order, each by its own id and
/// its public half.
pub proof fn lemma_advertised(keys: Seq<&OneTimePreKey>, i: int)
    requires
        0 <= i < keys.len(),
    ensures
        advertised(keys).len() == keys.len(),
        advertised(keys)[i].0 == keys[i].id,
        advertised(keys)[i].1 == keys[i].pub_key,
{
}

/// A bundle is valid only where its identity signed its signed prekey and its
/// post-quantum key, if it has one; nothing else is asked of it.
pub proof fn lemma_valid_bundle(b: PreKeyBundle)
    ensures
        b.valid() ==> primitives::ed25519_accepts(
            b.identity_pub@,
            b.signed_prekey_pub@,
            b.signed_prekey_sig@,
        ),
        b.valid() && b.pq_prekey is Some ==> primitives::ed25519_accepts(
            b.identity_pub@,
            b.pq_prekey.unwrap().key@,
            b.pq_prekey.unwrap().signature@,
        ),
        primitives::ed25519_accepts(
            b.identity_pub@,
            b.signed_prekey_pub@,
            b.signed_prekey_sig@,
        ) && b.pq_prekey is None ==> b.valid(),
{
}

/// A fingerprint is the SHA-256 of the public key and of nothing else.
pub proof fn lemma_fingerprint(public: Seq<u8>)
    ensures
        fingerprint_spec(public) == primitives::sha256_of(public),
{
}

/// Keys whose halves belong together have the public key of their secret.
pub proof fn lemma_halves(i: IdentityKey, s: SignedPreKey, o: OneTimePreKey, public: Seq<u8>)
    ensures
        i.wf() <==> i.verifying@ == primitives::ed25519_public_of(i.signing@),
        s.wf() <==> s.pub_key@ == primitives::x25519_public_of(s.priv_key@),
        o.wf() <==> o.pub_key@ == primitives::x25519_public_of(o.priv_key@),
        s.signed_by(public) <==> primitives::ed25519_accepts(public, s.pub_key@, s.signature@),
{
}

} // verus!
