//! X3DH session establishment.
//!
//! The root key is extracted from `DH1 ‖ DH2 ‖ DH3 [‖ DH4] [‖ KEM secret]`,
//! where `DH4` is present when a one-time prekey is used and the KEM secret
//! when the responder's bundle carries a post-quantum key.
use crate::bytes::{append, array32_at};
use crate::crypto::aead::{hkdf_extract, X3DH_SALT};
use crate::crypto::error::CryptoError;
use crate::crypto::identity::{IdentityKey, OneTimePreKey, PreKeyBundle, SignedPreKey};
use crate::crypto::kem::{encapsulated, PqCiphertext, PqDecapsulationKey};
use crate::crypto::keys::{PublicKey, SigningKey, StaticSecret, VerifyingKey};
use crate::primitives;
use vstd::prelude::*;

verus! {

/// What a session starts from.
#[derive(Clone, Copy)]
pub struct SessionInit {
    pub root_key: [u8; 32],
    pub alice_identity: IdentityKey,
    pub alice_ephemeral_priv: StaticSecret,
    pub alice_ephemeral_pub: PublicKey,
    pub bob_signed_prekey_id: u32,
    pub bob_signed_prekey_pub: PublicKey,
    pub bob_one_time_prekey_id: Option<u32>,
}

/// What the initiator sends along with the first message.
pub struct InitMessage {
    pub alice_identity_pub: VerifyingKey,
    pub alice_ephemeral_pub: PublicKey,
    pub bob_signed_prekey_id: u32,
    pub bob_one_time_prekey_id: Option<u32>,
    pub pq_ciphertext: Option<PqCiphertext>,
}

/// The X25519 secret of an Ed25519 signing key.
pub open spec fn x25519_secret_of(seed: Seq<u8>) -> Seq<u8> {
    primitives::first_half(primitives::sha512_of(seed))
}

/// The input of the key extraction.
pub open spec fn x3dh_ikm(
    dh1: Seq<u8>,
    dh2: Seq<u8>,
    dh3: Seq<u8>,
    dh4: Option<Seq<u8>>,
    kem: Option<Seq<u8>>,
) -> Seq<u8> {
    dh1 + dh2 + dh3 + dh4.unwrap_or(Seq::empty()) + kem.unwrap_or(Seq::empty())
}

/// The root key that the key extraction gives.
pub open spec fn x3dh_root(
    dh1: Seq<u8>,
    dh2: Seq<u8>,
    dh3: Seq<u8>,
    dh4: Option<Seq<u8>>,
    kem: Option<Seq<u8>>,
) -> Seq<u8> {
    primitives::hkdf_extract_of(X3DH_SALT@, x3dh_ikm(dh1, dh2, dh3, dh4, kem))
}

/// The root key as the initiator computes it, from the seed of their identity
/// and their ephemeral secret.
pub open spec fn initiator_root(
    alice_seed: Seq<u8>,
    ephemeral: Seq<u8>,
    bob_identity_x: Seq<u8>,
    signed_prekey: Seq<u8>,
    one_time_prekey: Option<Seq<u8>>,
    kem: Option<Seq<u8>>,
) -> Seq<u8> {
    x3dh_root(
        primitives::x25519_shared_of(x25519_secret_of(alice_seed), signed_prekey),
        primitives::x25519_shared_of(ephemeral, bob_identity_x),
        primitives::x25519_shared_of(ephemeral, signed_prekey),
        match one_time_prekey {
            Some(pk) => Some(primitives::x25519_shared_of(ephemeral, pk)),
            None => None,
        },
        kem,
    )
}

/// The root key as the responder computes it, from the seed of their
/// identity and their prekeys.
pub open spec fn responder_root(
    bob_seed: Seq<u8>,
    signed_prekey: Seq<u8>,
    one_time_prekey: Option<Seq<u8>>,
    alice_identity_x: Seq<u8>,
    alice_ephemeral: Seq<u8>,
    kem: Option<Seq<u8>>,
) -> Seq<u8> {
    x3dh_root(
        primitives::x25519_shared_of(signed_prekey, alice_identity_x),
        primitives::x25519_shared_of(x25519_secret_of(bob_seed), alice_ephemeral),
        primitives::x25519_shared_of(signed_prekey, alice_ephemeral),
        match one_time_prekey {
            Some(sk) => Some(primitives::x25519_shared_of(sk, alice_ephemeral)),
            None => None,
        },
        kem,
    )
}

/// The position of the first key with the given id.
pub open spec fn position_of_id(keys: Seq<(u32, PublicKey)>, id: u32, from: int) -> Option<int>
    decreases keys.len() - from,
{
    if from < 0 || from >= keys.len() {
        None
    } else if keys[from].0 == id {
        Some(from)
    } else {
        position_of_id(keys, id, from + 1)
    }
}

/// The one-time prekey that an initiation uses: the first with the asked id,
/// or the first of all where no id is asked.
pub open spec fn chosen_one_time(keys: Seq<(u32, PublicKey)>, id: Option<u32>) -> Option<(u32, PublicKey)> {
    match id {
        Some(wanted) => match position_of_id(keys, wanted, 0) {
            Some(i) => Some(keys[i]),
            None => None,
        },
        None => if keys.len() > 0 {
            Some(keys[0])
        } else {
            None
        },
    }
}

/// The X25519 secret that belongs to an Ed25519 signing key.
pub fn ed25519_priv_to_x25519(sk: &SigningKey) -> (r: StaticSecret)
    ensures
        r@ == x25519_secret_of(sk@),
{
    let digest = primitives::sha512(&sk.bytes);
    let bytes = array32_at(&digest, 0);
    assert(bytes@ =~= x25519_secret_of(sk@));
    StaticSecret { bytes }
}

/// The X25519 public key that belongs to an Ed25519 public key. Where the
/// latter comes from a seed, this is the public key of the seed's X25519
/// secret.
pub fn ed25519_pub_to_x25519(vk: &VerifyingKey) -> (r: Result<PublicKey, CryptoError>)
    ensures
        match primitives::montgomery_of(vk@) {
            Some(u) => r matches Ok(k) && k@ == u,
            None => r == Err::<PublicKey, CryptoError>(CryptoError::MalformedBundle),
        },
        r is Ok <==> primitives::ed25519_point(vk@),
        forall|seed: Seq<u8>|
            seed.len() == 32 && vk@ == #[trigger] primitives::ed25519_public_of(seed) ==> (
            r matches Ok(k) && k@ == primitives::x25519_public_of(x25519_secret_of(seed))),
{
    match primitives::edwards_to_montgomery(&vk.bytes) {
        Some(bytes) => Ok(PublicKey { bytes }),
        None => Err(CryptoError::MalformedBundle),
    }
}

/// Finds the one-time prekey that an initiation uses.
fn choose_one_time(keys: &Vec<(u32, PublicKey)>, id: Option<u32>) -> (r: Option<(u32, PublicKey)>)
    ensures
        r == chosen_one_time(keys@, id),
{
    match id {
        Some(wanted) => {
            let mut i: usize = 0;
            while i < keys.len()
                invariant
                    id == Some(wanted),
                    0 <= i <= keys@.len(),
                    position_of_id(keys@, wanted, 0) == position_of_id(keys@, wanted, i as int),
                decreases keys@.len() - i,
            {
                if keys[i].0 == wanted {
                    return Some(keys[i]);
                }
                i = i + 1;
            }
            None
        },
        None => {
            if keys.len() > 0 {
                Some(keys[0])
            } else {
                None
            }
        },
    }
}

/// The bytes of the key extraction's input.
fn gather_ikm(
    dh1: &[u8; 32],
    dh2: &[u8; 32],
    dh3: &[u8; 32],
    dh4: Option<[u8; 32]>,
    kem: Option<[u8; 32]>,
) -> (r: Vec<u8>)
    ensures
        r@ == x3dh_ikm(dh1@, dh2@, dh3@, primitives::view_of32(dh4), primitives::view_of32(kem)),
        match (dh4, kem) {
            (None, None) => r@ == dh1@ + dh2@ + dh3@,
            (Some(dh), None) => r@ == dh1@ + dh2@ + dh3@ + dh@,
            (None, Some(secret)) => r@ == dh1@ + dh2@ + dh3@ + secret@,
            (Some(dh), Some(secret)) => r@ == dh1@ + dh2@ + dh3@ + dh@ + secret@,
        },
{
    let mut ikm: Vec<u8> = Vec::new();
    append(&mut ikm, dh1);
    append(&mut ikm, dh2);
    append(&mut ikm, dh3);
    if let Some(dh) = dh4 {
        append(&mut ikm, &dh);
    }
    if let Some(secret) = kem {
        append(&mut ikm, &secret);
    }
    assert(ikm@ =~= x3dh_ikm(
        dh1@,
        dh2@,
        dh3@,
        primitives::view_of32(dh4),
        primitives::view_of32(kem),
    ));
    ikm
}

/// What `initiate` makes of its inputs and of the fresh secrets it draws: the
/// ephemeral secret `ephemeral` and the KEM secret `kem`.
pub open spec fn initiated(
    alice: IdentityKey,
    bundle: PreKeyBundle,
    one_time_prekey_id: Option<u32>,
    ephemeral: Seq<u8>,
    kem: Option<Seq<u8>>,
    session: SessionInit,
    init: InitMessage,
) -> bool {
    let chosen = chosen_one_time(bundle.one_time_prekeys@, one_time_prekey_id);
    &&& session.root_key@ == initiator_root(
        alice.signing@,
        ephemeral,
        primitives::montgomery_of(bundle.identity_pub@).unwrap(),
        bundle.signed_prekey_pub@,
        match chosen {
            Some(key) => Some(key.1@),
            None => None,
        },
        kem,
    )
    &&& session.alice_identity == alice
    &&& session.alice_ephemeral_priv@ == ephemeral
    &&& session.alice_ephemeral_pub@ == primitives::x25519_public_of(ephemeral)
    &&& session.bob_signed_prekey_id == bundle.signed_prekey_id
    &&& session.bob_signed_prekey_pub == bundle.signed_prekey_pub
    &&& session.bob_one_time_prekey_id == match chosen {
        Some(key) => Some(key.0),
        None => None,
    }
    &&& init.alice_identity_pub == alice.verifying
    &&& init.alice_ephemeral_pub == session.alice_ephemeral_pub
    &&& init.bob_signed_prekey_id == session.bob_signed_prekey_id
    &&& init.bob_one_time_prekey_id == session.bob_one_time_prekey_id
    &&& init.pq_ciphertext is Some <==> bundle.pq_prekey is Some
    &&& kem is Some <==> bundle.pq_prekey is Some
    &&& init.pq_ciphertext matches Some(ct) ==> ct@.len() == 1088
}

/// The KEM secret of an initiation comes from encapsulating to the bundle's
/// post-quantum key, and the init message carries the ciphertext.
pub open spec fn kem_of_bundle(bundle: PreKeyBundle, init: InitMessage, kem: Option<Seq<u8>>) -> bool {
    bundle.pq_prekey matches Some(pq) ==> (init.pq_ciphertext matches Some(ct) && (kem matches Some(
        secret,
    ) && encapsulated(pq.key@, ct@, secret)))
}

/// Whether an initiation against `bundle` succeeds.
pub open spec fn can_initiate(bundle: PreKeyBundle) -> bool {
    &&& bundle.valid()
    &&& bundle.pq_prekey matches Some(pq) ==> primitives::mlkem_accepts(pq.key@)
}

/// Starts a session with the owner of a bundle: checks the bundle, draws an
/// ephemeral secret (and a KEM secret where the bundle has a post-quantum
/// key) and derives the root key.
pub fn initiate(alice: &IdentityKey, bob_bundle: &PreKeyBundle, one_time_prekey_id: Option<u32>) -> (r:
    Result<(SessionInit, InitMessage), CryptoError>)
    ensures
        r is Ok <==> can_initiate(*bob_bundle),
        r matches Err(e) ==> e == CryptoError::MalformedBundle,
        r matches Ok(out) ==> exists|kem: Option<Seq<u8>>| #[trigger]
            initiated(
                *alice,
                *bob_bundle,
                one_time_prekey_id,
                out.0.alice_ephemeral_priv@,
                kem,
                out.0,
                out.1,
            ) && kem_of_bundle(*bob_bundle, out.1, kem),
        r is Ok ==> forall|seed: Seq<u8>|
            seed.len() == 32 && bob_bundle.identity_pub@ == #[trigger] primitives::ed25519_public_of(
                seed,
            ) ==> primitives::montgomery_of(bob_bundle.identity_pub@) == Some(
                primitives::x25519_public_of(x25519_secret_of(seed)),
            ),
{
    let kem = match &bob_bundle.pq_prekey {
        Some(pq) => match pq.key.encapsulate() {
            Ok(out) => Some(out),
            Err(_) => {
                return Err(CryptoError::MalformedBundle);
            },
        },
        None => None,
    };
    initiate_with(alice, bob_bundle, one_time_prekey_id, StaticSecret::random(), kem)
}

/// Starts a session with given secrets: the ephemeral secret and, exactly
/// where the bundle has a post-quantum key, a KEM ciphertext with its secret.
pub fn initiate_with(
    alice: &IdentityKey,
    bob_bundle: &PreKeyBundle,
    one_time_prekey_id: Option<u32>,
    ephemeral: StaticSecret,
    kem: Option<(PqCiphertext, [u8; 32])>,
) -> (r: Result<(SessionInit, InitMessage), CryptoError>)
    requires
        kem is Some <==> bob_bundle.pq_prekey is Some,
        kem matches Some(k) ==> k.0@.len() == 1088,
    ensures
        r is Ok <==> bob_bundle.valid(),
        r matches Err(e) ==> e == CryptoError::MalformedBundle,
        r matches Ok(out) ==> initiated(
            *alice,
            *bob_bundle,
            one_time_prekey_id,
            ephemeral@,
            match kem {
                Some(k) => Some(k.1@),
                None => None,
            },
            out.0,
            out.1,
        ),
        r matches Ok(out) ==> (kem matches Some(k) ==> (out.1.pq_ciphertext matches Some(ct) && ct@
            == k.0@)),
        r is Ok ==> forall|seed: Seq<u8>|
            seed.len() == 32 && bob_bundle.identity_pub@ == #[trigger] primitives::ed25519_public_of(
                seed,
            ) ==> primitives::montgomery_of(bob_bundle.identity_pub@) == Some(
                primitives::x25519_public_of(x25519_secret_of(seed)),
            ),
{
    match bob_bundle.verify() {
        Ok(_) => {},
        Err(_) => {
            return Err(CryptoError::MalformedBundle);
        },
    }
    let alice_ephemeral_pub = PublicKey::of_secret(&ephemeral);
    let bob_id_x = match ed25519_pub_to_x25519(&bob_bundle.identity_pub) {
        Ok(k) => k,
        Err(_) => {
            return Err(CryptoError::MalformedBundle);
        },
    };
    let alice_id_priv = ed25519_priv_to_x25519(&alice.signing);

    let dh1 = alice_id_priv.diffie_hellman(&bob_bundle.signed_prekey_pub);
    let dh2 = ephemeral.diffie_hellman(&bob_id_x);
    let dh3 = ephemeral.diffie_hellman(&bob_bundle.signed_prekey_pub);
    let chosen = choose_one_time(&bob_bundle.one_time_prekeys, one_time_prekey_id);
    let (dh4, bob_one_time_prekey_id) = match chosen {
        Some((id, pk)) => (Some(ephemeral.diffie_hellman(&pk)), Some(id)),
        None => (None, None),
    };
    let (pq_ciphertext, kem_secret) = match kem {
        Some((ct, secret)) => (Some(ct), Some(secret)),
        None => (None, None),
    };
    let ikm = gather_ikm(&dh1, &dh2, &dh3, dh4, kem_secret);
    let root_key = hkdf_extract(&X3DH_SALT, &ikm);

    let init = InitMessage {
        alice_identity_pub: alice.verifying,
        alice_ephemeral_pub,
        bob_signed_prekey_id: bob_bundle.signed_prekey_id,
        bob_one_time_prekey_id,
        pq_ciphertext,
    };
    let session = SessionInit {
        root_key,
        alice_identity: *alice,
        alice_ephemeral_priv: ephemeral,
        alice_ephemeral_pub,
        bob_signed_prekey_id: bob_bundle.signed_prekey_id,
        bob_signed_prekey_pub: bob_bundle.signed_prekey_pub,
        bob_one_time_prekey_id,
    };
    Ok((session, init))
}

/// The one-time prekey that an init message asks for, as far as the one at
/// hand is it.
pub open spec fn one_time_matches(wanted: Option<u32>, held: Option<OneTimePreKey>) -> bool {
    wanted matches Some(id) ==> (held matches Some(k) && k.id == id)
}

/// The KEM secret that the responder recovers from an init message.
pub open spec fn recovered_kem(
    decapsulation: Option<Seq<u8>>,
    ciphertext: Option<PqCiphertext>,
) -> Option<Seq<u8>> {
    match (decapsulation, ciphertext) {
        (Some(seed), Some(ct)) => Some(primitives::mlkem_shared_of(seed, ct@)),
        _ => None,
    }
}

/// Completes a session that the sender of `init` started, where no
/// post-quantum key is involved. See [`receive_hybrid`].
pub fn receive(
    bob_identity: &IdentityKey,
    bob_signed: &SignedPreKey,
    bob_one_time: Option<&OneTimePreKey>,
    init: &InitMessage,
) -> (r: Result<SessionInit, CryptoError>)
    ensures
        received(*bob_identity, *bob_signed, option_of(bob_one_time), None, *init, r),
        agrees_with_initiator(*bob_identity, *bob_signed, option_of(bob_one_time), None, *init, r),
{
    receive_hybrid(bob_identity, bob_signed, bob_one_time, None, init)
}

/// The value behind an optional reference.
pub open spec fn option_of(o: Option<&OneTimePreKey>) -> Option<OneTimePreKey> {
    match o {
        Some(k) => Some(*k),
        None => None,
    }
}

/// What the responder makes of an init message: an error where the sender's
/// identity is no key, where a key that the message asks for is not at hand
/// or where the KEM ciphertext is malformed, and the session otherwise.
pub open spec fn received(
    bob: IdentityKey,
    signed: SignedPreKey,
    one_time: Option<OneTimePreKey>,
    pq_seed: Option<Seq<u8>>,
    init: InitMessage,
    r: Result<SessionInit, CryptoError>,
) -> bool {
    &&& primitives::montgomery_of(init.alice_identity_pub@) is Some <==> primitives::ed25519_point(
        init.alice_identity_pub@,
    )
    &&& match primitives::montgomery_of(init.alice_identity_pub@) {
        None => r == Err::<SessionInit, CryptoError>(CryptoError::MalformedBundle),
        Some(alice_x) => if !one_time_matches(init.bob_one_time_prekey_id, one_time) || (
        init.pq_ciphertext is Some && pq_seed is None) {
            r == Err::<SessionInit, CryptoError>(CryptoError::MissingPreKey)
        } else if init.pq_ciphertext matches Some(ct) && ct@.len() != 1088 {
            r == Err::<SessionInit, CryptoError>(CryptoError::MalformedBundle)
        } else {
            &&& r matches Ok(session)
            &&& session.root_key@ == responder_root(
                bob.signing@,
                signed.priv_key@,
                match init.bob_one_time_prekey_id {
                    Some(_) => Some(one_time.unwrap().priv_key@),
                    None => None,
                },
                alice_x,
                init.alice_ephemeral_pub@,
                recovered_kem(pq_seed, init.pq_ciphertext),
            )
            &&& session.alice_identity.signing@ == Seq::new(32, |i: int| 0u8)
            &&& session.alice_identity.verifying == init.alice_identity_pub
            &&& session.alice_ephemeral_priv@ == Seq::new(32, |i: int| 0u8)
            &&& session.alice_ephemeral_pub == init.alice_ephemeral_pub
            &&& session.bob_signed_prekey_id == init.bob_signed_prekey_id
            &&& session.bob_signed_prekey_pub == signed.pub_key
            &&& session.bob_one_time_prekey_id == init.bob_one_time_prekey_id
        },
    }
}

/// The responder's root key is the initiator's: whatever seed and ephemeral
/// secret the keys in `init` come from, the session's root key is the one
/// that the initiator derives from them against the responder's public keys,
/// provided that the KEM secrets agree.
pub open spec fn agrees_with_initiator(
    bob: IdentityKey,
    signed: SignedPreKey,
    one_time: Option<OneTimePreKey>,
    pq_seed: Option<Seq<u8>>,
    init: InitMessage,
    r: Result<SessionInit, CryptoError>,
) -> bool {
    (signed.wf() && (one_time matches Some(k) ==> k.wf())) ==> forall|a: Seq<u8>, e: Seq<u8>|
        #![trigger primitives::ed25519_public_of(a), primitives::x25519_public_of(e)]
        a.len() == 32 && e.len() == 32 && init.alice_identity_pub@ == primitives::ed25519_public_of(a)
            && init.alice_ephemeral_pub@ == primitives::x25519_public_of(e) ==> (
        r matches Ok(session) ==> session.root_key@ == initiator_root(
            a,
            e,
            primitives::x25519_public_of(x25519_secret_of(bob.signing@)),
            signed.pub_key@,
            match init.bob_one_time_prekey_id {
                Some(_) => Some(one_time.unwrap().pub_key@),
                None => None,
            },
            recovered_kem(pq_seed, init.pq_ciphertext),
        ))
}

/// Completes a session that the sender of `init` started.
pub fn receive_hybrid(
    bob_identity: &IdentityKey,
    bob_signed: &SignedPreKey,
    bob_one_time: Option<&OneTimePreKey>,
    bob_pq: Option<&PqDecapsulationKey>,
    init: &InitMessage,
) -> (r: Result<SessionInit, CryptoError>)
    requires
        bob_pq matches Some(dk) ==> dk@.len() == 64,
    ensures
        received(*bob_identity, *bob_signed, option_of(bob_one_time), seed_of(bob_pq), *init, r),
        agrees_with_initiator(
            *bob_identity,
            *bob_signed,
            option_of(bob_one_time),
            seed_of(bob_pq),
            *init,
            r,
        ),
{
    let alice_id_x = match ed25519_pub_to_x25519(&init.alice_identity_pub) {
        Ok(k) => k,
        Err(_) => {
            return Err(CryptoError::MalformedBundle);
        },
    };
    let alice_eph_pub = init.alice_ephemeral_pub;
    let bob_id_priv = ed25519_priv_to_x25519(&bob_identity.signing);

    let dh1 = bob_signed.priv_key.diffie_hellman(&alice_id_x);
    let dh2 = bob_id_priv.diffie_hellman(&alice_eph_pub);
    let dh3 = bob_signed.priv_key.diffie_hellman(&alice_eph_pub);
    let dh4 = match init.bob_one_time_prekey_id {
        Some(id) => match bob_one_time {
            Some(otpk) => {
                if otpk.id != id {
                    return Err(CryptoError::MissingPreKey);
                }
                Some(otpk.priv_key.diffie_hellman(&alice_eph_pub))
            },
            None => {
                return Err(CryptoError::MissingPreKey);
            },
        },
        None => None,
    };
    let kem_secret = match &init.pq_ciphertext {
        Some(ct) => match bob_pq {
            Some(dk) => match dk.decapsulate(ct) {
                Ok(secret) => Some(secret),
                Err(_) => {
                    return Err(CryptoError::MalformedBundle);
                },
            },
            None => {
                return Err(CryptoError::MissingPreKey);
            },
        },
        None => None,
    };
    let ikm = gather_ikm(&dh1, &dh2, &dh3, dh4, kem_secret);
    let root_key = hkdf_extract(&X3DH_SALT, &ikm);

    proof {
        assert forall|a: Seq<u8>, e: Seq<u8>|
            #![trigger primitives::ed25519_public_of(a), primitives::x25519_public_of(e)]
            a.len() == 32 && e.len() == 32 && init.alice_identity_pub@
                == primitives::ed25519_public_of(a) && init.alice_ephemeral_pub@
                == primitives::x25519_public_of(e) && bob_signed.wf() implies dh1@
            == primitives::x25519_shared_of(x25519_secret_of(a), bob_signed.pub_key@) && dh2@
            == primitives::x25519_shared_of(
            e,
            primitives::x25519_public_of(x25519_secret_of(bob_identity.signing@)),
        ) && dh3@ == primitives::x25519_shared_of(e, bob_signed.pub_key@) by {
            assert(alice_id_x@ == primitives::x25519_public_of(x25519_secret_of(a)));
        }
    }

    // Only the initiator's public key is known here.
    let zeros: [u8; 32] = [0u8; 32];
    assert(zeros@ =~= Seq::new(32, |i: int| 0u8));
    let alice_identity = IdentityKey {
        signing: SigningKey { bytes: zeros },
        verifying: init.alice_identity_pub,
    };
    let session = SessionInit {
        root_key,
        alice_identity,
        alice_ephemeral_priv: StaticSecret { bytes: zeros },
        alice_ephemeral_pub: alice_eph_pub,
        bob_signed_prekey_id: init.bob_signed_prekey_id,
        bob_signed_prekey_pub: bob_signed.pub_key,
        bob_one_time_prekey_id: init.bob_one_time_prekey_id,
    };
    Ok(session)
}

/// The seed behind an optional decapsulation key.
pub open spec fn seed_of(o: Option<&PqDecapsulationKey>) -> Option<Seq<u8>> {
    match o {
        Some(dk) => Some(dk@),
        None => None,
    }
}

// ---- Laws -----------------------------------------------------------------------------

/// The salt of the key extraction is the text `UM-X3DH-v1`.
pub proof fn lemma_x3dh_salt()
    ensures
        X3DH_SALT@.len() == "UM-X3DH-v1"@.len(),
        forall|i: int| 0 <= i < X3DH_SALT@.len() ==> (#[trigger] X3DH_SALT@[i]) as char == "UM-X3DH-v1"@[i],
{
    reveal_strlit("UM-X3DH-v1");
}

/// The input of the key extraction is made of its parts, 32 bytes each, one
/// after the other and nothing else: the three that are always there, then
/// `DH4` and then the KEM secret, each where it is present.
pub proof fn lemma_ikm_parts(
    dh1: Seq<u8>,
    dh2: Seq<u8>,
    dh3: Seq<u8>,
    dh4: Option<Seq<u8>>,
    kem: Option<Seq<u8>>,
)
    requires
        dh1.len() == 32,
        dh2.len() == 32,
        dh3.len() == 32,
        dh4 matches Some(dh) ==> dh.len() == 32,
        kem matches Some(secret) ==> secret.len() == 32,
    ensures
        ({
            let ikm = x3dh_ikm(dh1, dh2, dh3, dh4, kem);
            let optional = (if dh4 is Some {
                32int
            } else {
                0int
            }) + (if kem is Some {
                32int
            } else {
                0int
            });
            &&& ikm.len() == 96 + optional
            &&& ikm.subrange(0, 32) == dh1
            &&& ikm.subrange(32, 64) == dh2
            &&& ikm.subrange(64, 96) == dh3
            &&& dh4 matches Some(dh) ==> ikm.subrange(96, 128) == dh
            &&& kem matches Some(secret) ==> ikm.subrange(ikm.len() - 32, ikm.len() as int)
                == secret
        }),
{
    let ikm = x3dh_ikm(dh1, dh2, dh3, dh4, kem);
    assert(ikm.subrange(0, 32) =~= dh1);
    assert(ikm.subrange(32, 64) =~= dh2);
    assert(ikm.subrange(64, 96) =~= dh3);
    if let Some(dh) = dh4 {
        assert(ikm.subrange(96, 128) =~= dh);
    }
    if let Some(secret) = kem {
        assert(ikm.subrange(ikm.len() - 32, ikm.len() as int) =~= secret);
    }
}

/// Every part counts: two key extractions with the same optional parts present
/// have the same input only where all parts agree.
pub proof fn lemma_ikm_tells_parts(
    a1: Seq<u8>,
    a2: Seq<u8>,
    a3: Seq<u8>,
    a4: Option<Seq<u8>>,
    akem: Option<Seq<u8>>,
    b1: Seq<u8>,
    b2: Seq<u8>,
    b3: Seq<u8>,
    b4: Option<Seq<u8>>,
    bkem: Option<Seq<u8>>,
)
    requires
        a1.len() == 32 && a2.len() == 32 && a3.len() == 32,
        b1.len() == 32 && b2.len() == 32 && b3.len() == 32,
        a4 matches Some(dh) ==> dh.len() == 32,
        b4 matches Some(dh) ==> dh.len() == 32,
        akem matches Some(secret) ==> secret.len() == 32,
        bkem matches Some(secret) ==> secret.len() == 32,
        a4 is Some == b4 is Some,
        akem is Some == bkem is Some,
        x3dh_ikm(a1, a2, a3, a4, akem) == x3dh_ikm(b1, b2, b3, b4, bkem),
    ensures
        a1 == b1 && a2 == b2 && a3 == b3 && a4 == b4 && akem == bkem,
{
    lemma_ikm_parts(a1, a2, a3, a4, akem);
    lemma_ikm_parts(b1, b2, b3, b4, bkem);
}

/// The one-time prekey of an initiation is one of the bundle's: the first of
/// those with the asked id, or the first of all where no id is asked; there is
/// none exactly where the bundle has none of that id, or none at all.
pub proof fn lemma_chosen_one_time(keys: Seq<(u32, PublicKey)>, id: Option<u32>)
    ensures
        match chosen_one_time(keys, id) {
            Some(key) => exists|i: int|
                0 <= i < keys.len() && #[trigger] keys[i] == key && (match id {
                    Some(wanted) => key.0 == wanted && (forall|j: int|
                        0 <= j < i ==> (#[trigger] keys[j]).0 != wanted),
                    None => i == 0,
                }),
            None => match id {
                Some(wanted) => forall|j: int|
                    0 <= j < keys.len() ==> (#[trigger] keys[j]).0 != wanted,
                None => keys.len() == 0,
            },
        },
{
    if let Some(wanted) = id {
        lemma_position_of_id(keys, wanted, 0);
    }
}

/// The position of an id is that of the first key that has it.
proof fn lemma_position_of_id(keys: Seq<(u32, PublicKey)>, id: u32, from: int)
    requires
        0 <= from,
    ensures
        match position_of_id(keys, id, from) {
            Some(i) => from <= i < keys.len() && keys[i].0 == id && (forall|j: int|
                from <= j < i ==> (#[trigger] keys[j]).0 != id),
            None => forall|j: int| from <= j < keys.len() ==> (#[trigger] keys[j]).0 != id,
        },
    decreases keys.len() - from,
{
    if from < keys.len() && keys[from].0 != id {
        lemma_position_of_id(keys, id, from + 1);
    }
}

/// The root key of an initiation is extracted, under the salt, from the
/// agreements of the initiator's identity with the signed prekey, of the
/// ephemeral key with the responder's identity and with the signed prekey, of
/// the ephemeral key with the one-time prekey where one is used, and from the
/// KEM secret where there is one.
pub proof fn lemma_initiator_root(
    alice_seed: Seq<u8>,
    ephemeral: Seq<u8>,
    bob_identity_x: Seq<u8>,
    signed_prekey: Seq<u8>,
    one_time: Seq<u8>,
    kem: Seq<u8>,
)
    ensures
        ({
            let own = primitives::first_half(primitives::sha512_of(alice_seed));
            let base = primitives::x25519_shared_of(own, signed_prekey)
                + primitives::x25519_shared_of(ephemeral, bob_identity_x)
                + primitives::x25519_shared_of(ephemeral, signed_prekey);
            let fourth = primitives::x25519_shared_of(ephemeral, one_time);
            let (x, s) = (bob_identity_x, signed_prekey);
            &&& initiator_root(alice_seed, ephemeral, x, s, None, None)
                == primitives::hkdf_extract_of(X3DH_SALT@, base)
            &&& initiator_root(alice_seed, ephemeral, x, s, Some(one_time), None)
                == primitives::hkdf_extract_of(X3DH_SALT@, base + fourth)
            &&& initiator_root(alice_seed, ephemeral, x, s, None, Some(kem))
                == primitives::hkdf_extract_of(X3DH_SALT@, base + kem)
            &&& initiator_root(alice_seed, ephemeral, x, s, Some(one_time), Some(kem))
                == primitives::hkdf_extract_of(X3DH_SALT@, base + fourth + kem)
        }),
{
    let own = x25519_secret_of(alice_seed);
    let base = primitives::x25519_shared_of(own, signed_prekey) + primitives::x25519_shared_of(
        ephemeral,
        bob_identity_x,
    ) + primitives::x25519_shared_of(ephemeral, signed_prekey);
    let fourth = primitives::x25519_shared_of(ephemeral, one_time);
    let none = Seq::<u8>::empty();
    assert(base + none + none =~= base);
    assert(base + fourth + none =~= base + fourth);
    assert(base + none + kem =~= base + kem);
}

/// The root key of the responder, in the same way from the other halves of the
/// same key pairs.
pub proof fn lemma_responder_root(
    bob_seed: Seq<u8>,
    signed_prekey: Seq<u8>,
    one_time: Seq<u8>,
    alice_identity_x: Seq<u8>,
    alice_ephemeral: Seq<u8>,
    kem: Seq<u8>,
)
    ensures
        ({
            let own = primitives::first_half(primitives::sha512_of(bob_seed));
            let base = primitives::x25519_shared_of(signed_prekey, alice_identity_x)
                + primitives::x25519_shared_of(own, alice_ephemeral)
                + primitives::x25519_shared_of(signed_prekey, alice_ephemeral);
            let fourth = primitives::x25519_shared_of(one_time, alice_ephemeral);
            let (x, e) = (alice_identity_x, alice_ephemeral);
            &&& responder_root(bob_seed, signed_prekey, None, x, e, None)
                == primitives::hkdf_extract_of(X3DH_SALT@, base)
            &&& responder_root(bob_seed, signed_prekey, Some(one_time), x, e, None)
                == primitives::hkdf_extract_of(X3DH_SALT@, base + fourth)
            &&& responder_root(bob_seed, signed_prekey, None, x, e, Some(kem))
                == primitives::hkdf_extract_of(X3DH_SALT@, base + kem)
            &&& responder_root(bob_seed, signed_prekey, Some(one_time), x, e, Some(kem))
                == primitives::hkdf_extract_of(X3DH_SALT@, base + fourth + kem)
        }),
{
    let own = x25519_secret_of(bob_seed);
    let base = primitives::x25519_shared_of(signed_prekey, alice_identity_x)
        + primitives::x25519_shared_of(own, alice_ephemeral) + primitives::x25519_shared_of(
        signed_prekey,
        alice_ephemeral,
    );
    let fourth = primitives::x25519_shared_of(one_time, alice_ephemeral);
    let none = Seq::<u8>::empty();
    assert(base + none + none =~= base);
    assert(base + fourth + none =~= base + fourth);
    assert(base + none + kem =~= base + kem);
}

/// The two sides agree: where each half of the agreements is the same on both
/// sides, so is the root key, and the KEM secret enters on both.
pub proof fn lemma_roots_agree(
    alice_seed: Seq<u8>,
    ephemeral: Seq<u8>,
    bob_seed: Seq<u8>,
    signed_priv: Seq<u8>,
    one_time_priv: Option<Seq<u8>>,
    alice_identity_x: Seq<u8>,
    alice_ephemeral: Seq<u8>,
    bob_identity_x: Seq<u8>,
    signed_pub: Seq<u8>,
    one_time_pub: Option<Seq<u8>>,
    kem: Option<Seq<u8>>,
)
    requires
        primitives::x25519_shared_of(x25519_secret_of(alice_seed), signed_pub)
            == primitives::x25519_shared_of(signed_priv, alice_identity_x),
        primitives::x25519_shared_of(ephemeral, bob_identity_x) == primitives::x25519_shared_of(
            x25519_secret_of(bob_seed),
            alice_ephemeral,
        ),
        primitives::x25519_shared_of(ephemeral, signed_pub) == primitives::x25519_shared_of(
            signed_priv,
            alice_ephemeral,
        ),
        one_time_priv is Some == one_time_pub is Some,
        one_time_priv matches Some(sk) ==> primitives::x25519_shared_of(
            ephemeral,
            one_time_pub.unwrap(),
        ) == primitives::x25519_shared_of(sk, alice_ephemeral),
    ensures
        initiator_root(alice_seed, ephemeral, bob_identity_x, signed_pub, one_time_pub, kem)
            == responder_root(
            bob_seed,
            signed_priv,
            one_time_priv,
            alice_identity_x,
            alice_ephemeral,
            kem,
        ),
{
}

/// The init message tells the responder which keys the initiator used: its own
/// public keys, the bundle's signed prekey and a one-time prekey of the bundle
/// where one was taken, and the session keeps the same.
pub proof fn lemma_init_names_keys(
    alice: IdentityKey,
    bundle: PreKeyBundle,
    one_time_prekey_id: Option<u32>,
    ephemeral: Seq<u8>,
    kem: Option<Seq<u8>>,
    session: SessionInit,
    init: InitMessage,
)
    requires
        initiated(alice, bundle, one_time_prekey_id, ephemeral, kem, session, init),
    ensures
        init.alice_identity_pub == alice.verifying,
        init.alice_ephemeral_pub@ == primitives::x25519_public_of(ephemeral),
        init.bob_signed_prekey_id == bundle.signed_prekey_id,
        init.pq_ciphertext is Some == bundle.pq_prekey is Some,
        init.bob_one_time_prekey_id matches Some(id) ==> exists|i: int|
            0 <= i < bundle.one_time_prekeys@.len() && (#[trigger] bundle.one_time_prekeys@[i]).0
                == id && (one_time_prekey_id is Some ==> one_time_prekey_id == Some(id))
                && session.root_key@ == initiator_root(
                alice.signing@,
                ephemeral,
                primitives::montgomery_of(bundle.identity_pub@).unwrap(),
                bundle.signed_prekey_pub@,
                Some(bundle.one_time_prekeys@[i].1@),
                kem,
            ),
        init.bob_one_time_prekey_id is None ==> session.root_key@ == initiator_root(
            alice.signing@,
            ephemeral,
            primitives::montgomery_of(bundle.identity_pub@).unwrap(),
            bundle.signed_prekey_pub@,
            None,
            kem,
        ),
        one_time_prekey_id is None && bundle.one_time_prekeys@.len() > 0
            ==> init.bob_one_time_prekey_id == Some(bundle.one_time_prekeys@[0].0),
        one_time_prekey_id matches Some(wanted) ==> (init.bob_one_time_prekey_id == Some(wanted)
            <==> exists|i: int|
            0 <= i < bundle.one_time_prekeys@.len() && (#[trigger] bundle.one_time_prekeys@[i]).0
                == wanted),
        session.alice_identity == alice,
        session.alice_ephemeral_priv@ == ephemeral,
        session.alice_ephemeral_pub == init.alice_ephemeral_pub,
        session.bob_signed_prekey_id == bundle.signed_prekey_id,
        session.bob_signed_prekey_pub == bundle.signed_prekey_pub,
        session.bob_one_time_prekey_id == init.bob_one_time_prekey_id,
        kem is Some == bundle.pq_prekey is Some,
        init.pq_ciphertext matches Some(ct) ==> ct@.len() == 1088,
{
    lemma_chosen_one_time(bundle.one_time_prekeys@, one_time_prekey_id);
}

/// A responder's session is with the sender of the init message, on the keys
/// that it names, and a one-time prekey that it names is the one that enters. The
/// initiator's secrets are not known here: zeros stand in their place.
pub proof fn lemma_received_session(
    bob: IdentityKey,
    signed: SignedPreKey,
    one_time: Option<OneTimePreKey>,
    pq_seed: Option<Seq<u8>>,
    init: InitMessage,
    session: SessionInit,
)
    requires
        received(bob, signed, one_time, pq_seed, init, Ok(session)),
    ensures
        primitives::ed25519_point(init.alice_identity_pub@),
        session.alice_identity.verifying == init.alice_identity_pub,
        forall|i: int| 0 <= i < 32 ==> #[trigger] session.alice_identity.signing@[i] == 0,
        forall|i: int| 0 <= i < 32 ==> #[trigger] session.alice_ephemeral_priv@[i] == 0,
        session.alice_ephemeral_pub == init.alice_ephemeral_pub,
        session.bob_signed_prekey_id == init.bob_signed_prekey_id,
        session.bob_signed_prekey_pub == signed.pub_key,
        session.bob_one_time_prekey_id == init.bob_one_time_prekey_id,
        init.bob_one_time_prekey_id matches Some(id) ==> (one_time matches Some(k) && k.id == id
            && session.root_key@ == responder_root(
            bob.signing@,
            signed.priv_key@,
            Some(k.priv_key@),
            primitives::montgomery_of(init.alice_identity_pub@).unwrap(),
            init.alice_ephemeral_pub@,
            recovered_kem(pq_seed, init.pq_ciphertext),
        )),
        init.bob_one_time_prekey_id is None ==> session.root_key@ == responder_root(
            bob.signing@,
            signed.priv_key@,
            None,
            primitives::montgomery_of(init.alice_identity_pub@).unwrap(),
            init.alice_ephemeral_pub@,
            recovered_kem(pq_seed, init.pq_ciphertext),
        ),
        init.pq_ciphertext matches Some(ct) ==> (pq_seed matches Some(seed) && recovered_kem(
            pq_seed,
            init.pq_ciphertext,
        ) == Some(primitives::mlkem_shared_of(seed, ct@))),
        init.pq_ciphertext is None ==> recovered_kem(pq_seed, init.pq_ciphertext) is None,
{
}

/// An init message that names a one-time prekey which is not at hand, or that
/// carries a KEM ciphertext where there is no key for it, is refused.
pub proof fn lemma_missing_prekey_refused(
    bob: IdentityKey,
    signed: SignedPreKey,
    one_time: Option<OneTimePreKey>,
    pq_seed: Option<Seq<u8>>,
    init: InitMessage,
    r: Result<SessionInit, CryptoError>,
)
    requires
        received(bob, signed, one_time, pq_seed, init, r),
        primitives::ed25519_point(init.alice_identity_pub@),
    ensures
        (init.bob_one_time_prekey_id matches Some(id) && !(one_time matches Some(k) && k.id == id))
            ==> r == Err::<SessionInit, CryptoError>(CryptoError::MissingPreKey),
        init.pq_ciphertext is Some && pq_seed is None ==> r == Err::<SessionInit, CryptoError>(
            CryptoError::MissingPreKey,
        ),
        init.bob_one_time_prekey_id is None && init.pq_ciphertext is None ==> r is Ok,
{
}

/// An init message of someone whose identity is no key, or with a KEM ciphertext of
/// another length, is refused as malformed.
pub proof fn lemma_malformed_init_refused(
    bob: IdentityKey,
    signed: SignedPreKey,
    one_time: Option<OneTimePreKey>,
    pq_seed: Option<Seq<u8>>,
    init: InitMessage,
    r: Result<SessionInit, CryptoError>,
)
    requires
        received(bob, signed, one_time, pq_seed, init, r),
    ensures
        !primitives::ed25519_point(init.alice_identity_pub@) ==> r == Err::<SessionInit, CryptoError>(
            CryptoError::MalformedBundle,
        ),
        primitives::ed25519_point(init.alice_identity_pub@) && init.bob_one_time_prekey_id is None
            && pq_seed is Some && (init.pq_ciphertext matches Some(ct) && ct@.len() != 1088) ==> r
            == Err::<SessionInit, CryptoError>(CryptoError::MalformedBundle),
        primitives::ed25519_point(init.alice_identity_pub@) && init.bob_one_time_prekey_id is None
            && pq_seed is Some && (init.pq_ciphertext matches Some(ct) && ct@.len() == 1088)
            ==> r is Ok,
{
}

/// A session can be started against a bundle without a post-quantum key exactly
/// where its identity signed its signed prekey, and against one with such a key
/// only where the identity signed that too and it is one.
pub proof fn lemma_can_initiate(bundle: PreKeyBundle)
    ensures
        bundle.pq_prekey is None ==> (can_initiate(bundle) <==> primitives::ed25519_accepts(
            bundle.identity_pub@,
            bundle.signed_prekey_pub@,
            bundle.signed_prekey_sig@,
        )),
        can_initiate(bundle) && bundle.pq_prekey is Some ==> primitives::ed25519_accepts(
            bundle.identity_pub@,
            bundle.pq_prekey.unwrap().key@,
            bundle.pq_prekey.unwrap().signature@,
        ) && primitives::mlkem_accepts(bundle.pq_prekey.unwrap().key@),
        can_initiate(bundle) ==> primitives::ed25519_accepts(
            bundle.identity_pub@,
            bundle.signed_prekey_pub@,
            bundle.signed_prekey_sig@,
        ),
{
}

/// The KEM secret of an initiation and the ciphertext in the init message come
/// from one encapsulation to the bundle's post-quantum key.
pub proof fn lemma_kem_of_bundle(bundle: PreKeyBundle, init: InitMessage, kem: Option<Seq<u8>>)
    requires
        kem_of_bundle(bundle, init, kem),
        bundle.pq_prekey is Some,
    ensures
        init.pq_ciphertext is Some,
        kem is Some,
        exists|m: Seq<u8>|
            m.len() == 32 && #[trigger] primitives::mlkem_encapsulated_of(
                bundle.pq_prekey.unwrap().key@,
                m,
            ) == (init.pq_ciphertext.unwrap()@, kem.unwrap()),
{
    let pq = bundle.pq_prekey.unwrap();
    assert(encapsulated(pq.key@, init.pq_ciphertext.unwrap()@, kem.unwrap()));
}

/// A responder whose keys are whole reaches the root key of the initiator who
/// used the public halves of the same keys.
pub proof fn lemma_agrees(
    bob: IdentityKey,
    signed: SignedPreKey,
    one_time: Option<OneTimePreKey>,
    pq_seed: Option<Seq<u8>>,
    init: InitMessage,
    session: SessionInit,
    alice_seed: Seq<u8>,
    ephemeral: Seq<u8>,
)
    requires
        agrees_with_initiator(bob, signed, one_time, pq_seed, init, Ok(session)),
        signed.pub_key@ == primitives::x25519_public_of(signed.priv_key@),
        one_time matches Some(k) ==> k.pub_key@ == primitives::x25519_public_of(k.priv_key@),
        alice_seed.len() == 32,
        ephemeral.len() == 32,
        init.alice_identity_pub@ == primitives::ed25519_public_of(alice_seed),
        init.alice_ephemeral_pub@ == primitives::x25519_public_of(ephemeral),
    ensures
        session.root_key@ == initiator_root(
            alice_seed,
            ephemeral,
            primitives::x25519_public_of(
                primitives::first_half(primitives::sha512_of(bob.signing@)),
            ),
            signed.pub_key@,
            match init.bob_one_time_prekey_id {
                Some(_) => Some(one_time.unwrap().pub_key@),
                None => None,
            },
            recovered_kem(pq_seed, init.pq_ciphertext),
        ),
{
    let a = primitives::ed25519_public_of(alice_seed);
    let e = primitives::x25519_public_of(ephemeral);
}

} // verus!
