//! A client's session state: identity, prekeys, one ratchet per peer and one
//! Sender Keys session per group. No networking: callers hand in bundles and
//! envelopes and get envelopes and plaintexts back.
pub mod record;

use crate::bytes::{same32, to_vec};
use crate::client::crypto_bridge::{
    carries, carries_group, encrypted_from_envelope, envelope_from_encrypted,
    envelope_from_group_encrypted, group_encrypted_from_envelope, group_header_fields,
    header_fields, header_from_envelope, init_fields, init_from_envelope, is_verifying_key,
    lemma_group_header_fields, lemma_header_fields,
};
use crate::client::error::ClientError;
use crate::crypto::double_ratchet::{
    alice_start, awaits_ratchet, bob_start, cached, counter_fits, decrypted, lemma_delivery,
    lemma_start_linked, linked, sent, state_wf, Encrypted, Header, RatchetSession,
    RatchetState,
};
use crate::crypto::error::CryptoError;
use crate::crypto::identity::{
    fingerprint_of_pub, fingerprint_spec, IdentityKey, OneTimePreKey, PqPreKey, SignedPreKey,
};
use crate::crypto::identity::PreKeyBundle as CryptoBundle;
use crate::crypto::kem::{PqDecapsulationKey, PqEncapsulationKey};
use crate::crypto::keys::{PublicKey, Signature, VerifyingKey};
use crate::crypto::sender_keys::{
    follows, group_received, group_sent, lemma_group_delivery, GroupEncrypted, GroupSession,
    GroupState, PeerView, SenderKeyState,
};
use crate::crypto::x3dh;
use crate::crypto::x3dh::{
    agrees_with_initiator, can_initiate, initiated, kem_of_bundle, received, recovered_kem,
    InitMessage, SessionInit,
};
use crate::hexadecimal;
use crate::keymap::{keys_distinct, lemma_key_place, pairs_map, KeyMap};
use crate::primitives;
use crate::protocol::message::{EncryptedEnvelope, MessageKind, PreKeyBundle};
use crate::wire;
use crate::wire::CodecError;
use vstd::prelude::*;

verus! {

/// A client's cryptographic state.
///
/// Signed prekeys that were rotated out are kept, so that an initiation made
/// against a bundle fetched before the rotation can still be completed.
pub struct ClientSession {
    identity: IdentityKey,
    signed_prekey: SignedPreKey,
    previous_signed_prekeys: KeyMap<u32, SignedPreKey>,
    one_time_prekeys: KeyMap<u32, OneTimePreKey>,
    pq_decapsulation_key: PqDecapsulationKey,
    ratchets: KeyMap<[u8; 32], RatchetSession>,
    groups: KeyMap<[u8; 32], GroupSession>,
}

// ---- Model ----------------------------------------------------------------------

/// The contents of a client's state. One-time prekeys are listed in the order
/// in which they were made.
pub struct SessionState {
    pub identity: IdentityKey,
    pub signed: SignedPreKey,
    pub previous: Map<u32, SignedPreKey>,
    pub one_time: Seq<(u32, OneTimePreKey)>,
    pub pq_seed: Seq<u8>,
    pub ratchets: Map<[u8; 32], RatchetState>,
    pub groups: Map<[u8; 32], GroupState>,
}

impl View for ClientSession {
    type V = SessionState;

    closed spec fn view(&self) -> SessionState {
        SessionState {
            identity: self.identity,
            signed: self.signed_prekey,
            previous: self.previous_signed_prekeys@,
            one_time: self.one_time_prekeys.entries@,
            pq_seed: self.pq_decapsulation_key@,
            ratchets: self.ratchets@.map_values(|r: RatchetSession| r@),
            groups: self.groups@.map_values(|g: GroupSession| g@),
        }
    }
}

/// A consistent state: key halves belong together, the signed prekey is
/// signed by the identity, and every session is well-formed.
pub open spec fn session_wf(s: SessionState) -> bool {
    &&& s.identity.wf()
    &&& primitives::ed25519_point(s.identity.verifying@)
    &&& s.signed.wf()
    &&& s.signed.signed_by(s.identity.verifying@)
    &&& forall|id: u32| #[trigger] s.previous.contains_key(id) ==> s.previous[id].wf()
    &&& keys_distinct(s.one_time)
    &&& forall|i: int|
        #![trigger s.one_time[i]]
        0 <= i < s.one_time.len() ==> s.one_time[i].1.wf() && s.one_time[i].1.id
            == s.one_time[i].0
    &&& s.pq_seed.len() == 64
    &&& forall|k: [u8; 32]| #[trigger] s.ratchets.contains_key(k) ==> state_wf(s.ratchets[k])
    &&& forall|k: [u8; 32]| #[trigger]
        s.groups.contains_key(k) ==> group_wf(s, k)
}

/// A group session is listed under its id, with the client as the member and
/// a consistent signing key.
pub open spec fn group_wf(s: SessionState, k: [u8; 32]) -> bool {
    let g = s.groups[k];
    &&& g.group_id == k
    &&& g.member_id@ == fingerprint_spec(s.identity.verifying@)
    &&& g.signing_pub == primitives::ed25519_public_of(g.signing)
    &&& primitives::ed25519_point(g.signing_pub)
}

/// The highest id of a one-time prekey, or 0 where there is none.
pub open spec fn highest_id(keys: Seq<(u32, OneTimePreKey)>) -> u32
    decreases keys.len(),
{
    if keys.len() == 0 {
        0
    } else {
        let rest = highest_id(keys.drop_last());
        if keys.last().0 > rest {
            keys.last().0
        } else {
            rest
        }
    }
}

/// One-time prekeys as a bundle lists them.
pub open spec fn listed(keys: Seq<(u32, OneTimePreKey)>) -> Seq<(u32, [u8; 32])> {
    keys.map_values(|p: (u32, OneTimePreKey)| (p.1.id, p.1.pub_key.bytes))
}

/// A bundle is the one that a client with state `s` registers.
pub open spec fn registers(s: SessionState, b: PreKeyBundle) -> bool {
    &&& b.identity_pub == s.identity.verifying.bytes
    &&& b.signed_prekey_id == s.signed.id
    &&& b.signed_prekey_pub == s.signed.pub_key.bytes
    &&& b.signed_prekey_sig@ == s.signed.signature@
    &&& b.one_time_prekeys@ == listed(s.one_time)
    &&& b.pq_encapsulation_key matches Some(k) && k@ == primitives::mlkem_public_of(s.pq_seed)
    &&& b.pq_encapsulation_key_sig matches Some(sig) && sig@ == primitives::ed25519_signature_of(
        s.identity.signing@,
        primitives::mlkem_public_of(s.pq_seed),
    )
}

/// A bundle's post-quantum part has the right shape: both fields or neither,
/// and their lengths right.
pub open spec fn pq_shape(b: PreKeyBundle) -> bool {
    match (b.pq_encapsulation_key, b.pq_encapsulation_key_sig) {
        (Some(k), Some(sig)) => k@.len() == 1184 && sig@.len() == 64,
        (None, None) => true,
        _ => false,
    }
}

/// A bundle's bytes are keys and signatures.
pub open spec fn parses(b: PreKeyBundle) -> bool {
    &&& primitives::ed25519_point(b.identity_pub@)
    &&& b.signed_prekey_sig@.len() == 64
    &&& pq_shape(b)
}

/// A typed bundle has the contents of a wire bundle.
pub open spec fn parsed(b: PreKeyBundle, c: CryptoBundle) -> bool {
    &&& c.identity_pub.bytes == b.identity_pub
    &&& c.signed_prekey_id == b.signed_prekey_id
    &&& c.signed_prekey_pub.bytes == b.signed_prekey_pub
    &&& c.signed_prekey_sig@ == b.signed_prekey_sig@
    &&& c.one_time_prekeys@ == b.one_time_prekeys@.map_values(
        |p: (u32, [u8; 32])| (p.0, PublicKey { bytes: p.1 }),
    )
    &&& match c.pq_prekey {
        Some(pq) => b.pq_encapsulation_key matches Some(k) && b.pq_encapsulation_key_sig matches Some(
            sig,
        ) && pq.key@ == k@ && pq.signature@ == sig@,
        None => b.pq_encapsulation_key is None && b.pq_encapsulation_key_sig is None,
    }
}

/// The signatures in a bundle verify and its post-quantum key is acceptable.
pub open spec fn trustworthy(b: PreKeyBundle) -> bool {
    &&& primitives::ed25519_accepts(b.identity_pub@, b.signed_prekey_pub@, b.signed_prekey_sig@)
    &&& b.pq_encapsulation_key matches Some(k) ==> (b.pq_encapsulation_key_sig matches Some(sig)
        && primitives::ed25519_accepts(b.identity_pub@, k@, sig@) && primitives::mlkem_accepts(k@))
}

/// The id of the one-time prekey that a session against a bundle uses.
pub open spec fn first_one_time_id(b: PreKeyBundle) -> Option<u32> {
    if b.one_time_prekeys@.len() > 0 {
        Some(b.one_time_prekeys@[0].0)
    } else {
        None
    }
}

/// What an error of an unusable bundle is.
pub open spec fn bundle_refused(b: PreKeyBundle, e: ClientError) -> bool {
    if !primitives::ed25519_point(b.identity_pub@) {
        e matches ClientError::Store(s) && s@ == "bad peer identity pub"@
    } else if b.signed_prekey_sig@.len() != 64 {
        e matches ClientError::Store(s) && s@ == "bad peer signature"@
    } else {
        e matches ClientError::Crypto(c) && c == CryptoError::MalformedBundle
    }
}

/// What starting a session does: the X3DH initiation `init`/`im` (with the
/// KEM secret `kem`) against the typed bundle `c` gives the ratchet that sends
/// the first message `m`, and the envelope carries both.
pub open spec fn started(
    before: SessionState,
    b: PreKeyBundle,
    plaintext: Seq<u8>,
    after: SessionState,
    env: EncryptedEnvelope,
    c: CryptoBundle,
    init: SessionInit,
    im: InitMessage,
    kem: Option<Seq<u8>>,
    m: Encrypted,
) -> bool {
    &&& parsed(b, c)
    &&& initiated(
        before.identity,
        c,
        first_one_time_id(b),
        init.alice_ephemeral_priv@,
        kem,
        init,
        im,
    )
    &&& kem_of_bundle(c, im, kem)
    &&& after.ratchets.contains_key(b.identity_pub)
    &&& after == SessionState {
        ratchets: before.ratchets.insert(b.identity_pub, after.ratchets[b.identity_pub]),
        ..before
    }
    &&& sent(
        alice_start(init, after.ratchets[b.identity_pub].dh_priv),
        plaintext,
        after.ratchets[b.identity_pub],
        Ok(m),
    )
    &&& state_wf(after.ratchets[b.identity_pub])
    &&& carries(env, 0, before.identity.verifying.bytes, m, Some(im))
    &&& forall|seed: Seq<u8>|
        seed.len() == 32 && b.identity_pub@ == #[trigger] primitives::ed25519_public_of(seed)
            ==> primitives::montgomery_of(b.identity_pub@) == Some(
            primitives::x25519_public_of(x3dh::x25519_secret_of(seed)),
        )
}

/// What starting a session against a bundle does: it succeeds exactly where the
/// bundle is well-formed and its signatures verify, and changes nothing where
/// not.
pub open spec fn session_started(
    before: SessionState,
    b: PreKeyBundle,
    plaintext: Seq<u8>,
    after: SessionState,
    r: Result<EncryptedEnvelope, ClientError>,
) -> bool {
    &&& r is Ok <==> parses(b) && trustworthy(b)
    &&& r matches Err(e) ==> after == before && bundle_refused(b, e)
    &&& r matches Ok(env) ==> exists|
        c: CryptoBundle,
        init: SessionInit,
        im: InitMessage,
        kem: Option<Seq<u8>>,
        m: Encrypted,
    | #[trigger]
        started(before, b, plaintext, after, env, c, init, im, kem, m)
}

/// The signed prekey that an initiation refers to: a previous one with the
/// id, or else the current one.
pub open spec fn signed_for(s: SessionState, id: u32) -> SignedPreKey {
    if s.previous.contains_key(id) {
        s.previous[id]
    } else {
        s.signed
    }
}

/// The one-time prekey with the id.
pub open spec fn one_time_for(s: SessionState, id: Option<u32>) -> Option<OneTimePreKey> {
    match id {
        Some(i) => if pairs_map(s.one_time).contains_key(i) {
            Some(pairs_map(s.one_time)[i])
        } else {
            None
        },
        None => None,
    }
}

/// An envelope's init message completes a session: its bytes are an init
/// message, and everything it refers to is at hand.
pub open spec fn begins(s: SessionState, env: EncryptedEnvelope) -> bool {
    &&& env.init matches Some(bytes)
    &&& wire::init_fields_of(bytes@) matches Ok(f)
    &&& is_verifying_key(f.0)
    &&& f.3 is Some ==> one_time_for(s, f.3) is Some
    &&& primitives::montgomery_of(f.0) is Some
    &&& f.4 matches Some(ct) ==> ct.len() == 1088
}

/// What becomes of an envelope's init message.
pub open spec fn began(
    s: SessionState,
    env: EncryptedEnvelope,
    r: Result<(SessionInit, SignedPreKey), ClientError>,
) -> bool {
    match env.init {
        None => r matches Err(ClientError::NoSession),
        Some(bytes) => match wire::init_fields_of(bytes@) {
            Err(e) => r matches Err(ClientError::Postcard(c)) && c == e,
            Ok(f) => if !is_verifying_key(f.0) {
                r matches Err(ClientError::Postcard(CodecError::Custom))
            } else if f.3 is Some && one_time_for(s, f.3) is None {
                r matches Err(ClientError::NoOneTimePreKey(id)) && id == f.3.unwrap()
            } else {
                exists|im: InitMessage, x: Result<SessionInit, CryptoError>| #[trigger]
                    began_with(s, f, im, x) && match x {
                        Ok(init) => r matches Ok(out) && out.0 == init && out.1 == signed_for(
                            s,
                            f.2,
                        ) && begins(s, env),
                        Err(e) => r matches Err(ClientError::Crypto(c)) && c == e,
                    }
            },
        },
    }
}

/// The X3DH completion of an init message with fields `f`.
pub open spec fn began_with(
    s: SessionState,
    f: (Seq<u8>, Seq<u8>, u32, Option<u32>, Option<Seq<u8>>),
    im: InitMessage,
    x: Result<SessionInit, CryptoError>,
) -> bool {
    let spk = signed_for(s, f.2);
    let otpk = one_time_for(s, f.3);
    &&& init_fields(im) == f
    &&& received(s.identity, spk, otpk, Some(s.pq_seed), im, x)
    &&& agrees_with_initiator(s.identity, spk, otpk, Some(s.pq_seed), im, x)
}

/// A message with the header fields and the ciphertext of an envelope.
pub open spec fn is_message_of(env: EncryptedEnvelope, m: Encrypted) -> bool {
    wire::header_fields_of(env.header@) == Ok::<_, CodecError>(header_fields(m.header)) && m.ciphertext@
        == env.ciphertext@
}

/// What decrypting a direct envelope with a ratchet gives.
pub open spec fn plaintext_of(
    rr: Result<Vec<u8>, CryptoError>,
    sender: [u8; 32],
    r: Result<(Vec<u8>, [u8; 32]), ClientError>,
) -> bool {
    match rr {
        Ok(p) => r matches Ok(out) && out.0@ == p@ && out.1 == sender,
        Err(e) => r matches Err(ClientError::Crypto(c)) && c == e,
    }
}

/// What receiving a direct envelope does. With a ratchet for the sender, the
/// ratchet decrypts. Without one, the init message must complete a session,
/// whose ratchet decrypts. An envelope that does not open changes nothing.
pub open spec fn direct_received(
    before: SessionState,
    env: EncryptedEnvelope,
    after: SessionState,
    r: Result<(Vec<u8>, [u8; 32]), ClientError>,
) -> bool {
    if before.ratchets.contains_key(env.sender) {
        if let Err(e) = wire::header_fields_of(env.header@) {
            after == before && (r matches Err(ClientError::Postcard(c)) && c == e)
        } else {
            exists|m: Encrypted, ra: RatchetState, rr: Result<Vec<u8>, CryptoError>| #[trigger]
                decrypted(before.ratchets[env.sender], m, ra, rr) && is_message_of(env, m)
                    && plaintext_of(rr, env.sender, r) && after == (if rr is Ok {
                    SessionState { ratchets: before.ratchets.insert(env.sender, ra), ..before }
                } else {
                    before
                })
        }
    } else {
        exists|b: Result<(SessionInit, SignedPreKey), ClientError>| #[trigger]
            began(before, env, b) && match b {
                Err(e) => after == before && r == Err::<(Vec<u8>, [u8; 32]), ClientError>(e),
                Ok(start) => first_received(before, env, start.0, start.1, after, r),
            }
    }
}

/// What receiving the first message of a completed session does.
pub open spec fn first_received(
    before: SessionState,
    env: EncryptedEnvelope,
    init: SessionInit,
    spk: SignedPreKey,
    after: SessionState,
    r: Result<(Vec<u8>, [u8; 32]), ClientError>,
) -> bool {
    if let Err(e) = wire::header_fields_of(env.header@) {
        after == before && (r matches Err(ClientError::Postcard(c)) && c == e)
    } else {
        exists|m: Encrypted, ra: RatchetState, rr: Result<Vec<u8>, CryptoError>| #[trigger]
            decrypted(bob_start(init, spk.priv_key@), m, ra, rr) && is_message_of(env, m)
                && plaintext_of(rr, env.sender, r) && after == (if rr is Ok {
                SessionState { ratchets: before.ratchets.insert(env.sender, ra), ..before }
            } else {
                before
            })
    }
}

/// What receiving a group envelope does. The sender that the envelope names
/// must be the one that the signed header names.
pub open spec fn group_envelope_received(
    before: SessionState,
    env: EncryptedEnvelope,
    after: SessionState,
    r: Result<(Vec<u8>, [u8; 32]), ClientError>,
) -> bool {
    match wire::group_header_fields_of(env.header@) {
        Err(e) => after == before && (r matches Err(ClientError::Postcard(c)) && c == e),
        Ok(f) => if !is_verifying_key(f.3) {
            after == before && r matches Err(ClientError::Postcard(CodecError::Custom))
        } else if env.signature@.len() != 64 {
            after == before && (r matches Err(ClientError::Store(s)) && s@ == "bad group signature"@)
        } else if f.1 != fingerprint_spec(env.sender@) {
            after == before && r matches Err(ClientError::GroupSenderMismatch)
        } else {
            exists|m: GroupEncrypted| #[trigger]
                is_group_message_of(env, m) && (if !before.groups.contains_key(m.header.group_id) {
                    after == before && (r matches Err(ClientError::NoGroupSession(s)) && s@
                        == hexadecimal::hex_chars(m.header.group_id@.take(4)))
                } else {
                    group_opened(before, env, m, after, r)
                })
        },
    }
}

/// A group message with the contents of an envelope.
pub open spec fn is_group_message_of(env: EncryptedEnvelope, m: GroupEncrypted) -> bool {
    &&& wire::group_header_fields_of(env.header@) == Ok::<_, CodecError>(group_header_fields(m.header))
    &&& m.ciphertext@ == env.ciphertext@
    &&& m.signature@ == env.signature@
}

/// What the group session makes of a group message.
pub open spec fn group_opened(
    before: SessionState,
    env: EncryptedEnvelope,
    m: GroupEncrypted,
    after: SessionState,
    r: Result<(Vec<u8>, [u8; 32]), ClientError>,
) -> bool {
    let gid = m.header.group_id;
    exists|ga: GroupState, rr: Result<Vec<u8>, CryptoError>| #[trigger]
        group_received(before.groups[gid], m, ga, rr) && plaintext_of(rr, env.sender, r) && after
            == (SessionState { groups: before.groups.insert(gid, ga), ..before })
}

/// Whether the receive counters have room for an envelope.
pub open spec fn receivable(s: SessionState, env: EncryptedEnvelope) -> bool {
    env.kind == MessageKind::Direct ==> (if s.ratchets.contains_key(env.sender) {
        forall|h: Header| #[trigger]
            header_fields(h) == wire::header_fields_of(env.header@).unwrap()
                && wire::header_fields_of(env.header@) is Ok ==> counter_fits(
                s.ratchets[env.sender],
                h,
            )
    } else {
        begins(s, env) && wire::header_fields_of(env.header@) is Ok ==> wire::header_fields_of(
            env.header@,
        ).unwrap().2 < u32::MAX
    })
}

/// What receiving an envelope does.
pub open spec fn envelope_received(
    before: SessionState,
    env: EncryptedEnvelope,
    after: SessionState,
    r: Result<(Vec<u8>, [u8; 32]), ClientError>,
) -> bool {
    match env.kind {
        MessageKind::Direct => direct_received(before, env, after, r),
        MessageKind::Group => group_envelope_received(before, env, after, r),
    }
}

// ---- Session ------------------------------------------------------------------------

/// The signed prekey gave way to one with the next id and is kept.
pub open spec fn rotated(before: SessionState, after: SessionState) -> bool {
    &&& after.signed.id == before.signed.id + 1
    &&& after == (SessionState {
        signed: after.signed,
        previous: before.previous.insert(before.signed.id, before.signed),
        ..before
    })
}

/// There are ids for so many more one-time prekeys.
pub open spec fn may_replenish(s: SessionState, count: u32) -> bool {
    highest_id(s.one_time) < u32::MAX && highest_id(s.one_time) + count <= u32::MAX
}

/// One-time prekeys with the ids behind the highest one joined those there.
pub open spec fn replenished(before: SessionState, count: u32, after: SessionState) -> bool {
    &&& after == (SessionState { one_time: after.one_time, ..before })
    &&& after.one_time.len() == before.one_time.len() + count
    &&& forall|i: int|
        #![trigger after.one_time[i]]
        0 <= i < after.one_time.len() ==> if i < before.one_time.len() {
            after.one_time[i] == before.one_time[i]
        } else {
            after.one_time[i].0 == highest_id(before.one_time) + 1 + (i - before.one_time.len())
        }
}

impl ClientSession {
    /// No key occurs twice in a map, and each entry's representation is
    /// consistent.
    pub closed spec fn rep_wf(&self) -> bool {
        &&& self.previous_signed_prekeys.wf()
        &&& self.one_time_prekeys.wf()
        &&& self.ratchets.wf()
        &&& self.groups.wf()
        &&& forall|k: [u8; 32]| #[trigger] self.groups@.contains_key(k) ==> self.groups@[k].wf()
    }

    /// The state and its representation are consistent.
    pub open spec fn wf(&self) -> bool {
        session_wf(self@) && self.rep_wf()
    }

    /// A fresh client: a new identity, a signed prekey with id 1 and one-time
    /// prekeys with the ids from 1 to `one_time_count`.
    pub fn generate(one_time_count: u32) -> (r: Self)
        ensures
            r.wf(),
            r@.signed.id == 1,
            r@.previous == Map::<u32, SignedPreKey>::empty(),
            r@.one_time.len() == one_time_count,
            forall|i: int|
                #![trigger r@.one_time[i]]
                0 <= i < one_time_count ==> r@.one_time[i].0 == i + 1,
            r@.ratchets == Map::<[u8; 32], RatchetState>::empty(),
            r@.groups == Map::<[u8; 32], GroupState>::empty(),
    {
        let identity = IdentityKey::generate();
        let signed_prekey = SignedPreKey::generate(1, &identity);
        let mut one_time_prekeys: KeyMap<u32, OneTimePreKey> = KeyMap::new();
        let mut i: u32 = 0;
        while i < one_time_count
            invariant
                i <= one_time_count,
                one_time_prekeys.wf(),
                one_time_prekeys.entries@.len() == i,
                forall|j: int|
                    #![trigger one_time_prekeys.entries@[j]]
                    0 <= j < i ==> one_time_prekeys.entries@[j].0 == j + 1
                        && one_time_prekeys.entries@[j].1.wf()
                        && one_time_prekeys.entries@[j].1.id == j + 1,
            decreases one_time_count - i,
        {
            i = i + 1;
            let key = OneTimePreKey::generate(i);
            one_time_prekeys.insert(i, key);
        }
        let (dk, _) = PqEncapsulationKey::generate_keypair();
        let s = ClientSession {
            identity,
            signed_prekey,
            previous_signed_prekeys: KeyMap::new(),
            one_time_prekeys,
            pq_decapsulation_key: dk,
            ratchets: KeyMap::new(),
            groups: KeyMap::new(),
        };
        assert(s@.ratchets =~= Map::<[u8; 32], RatchetState>::empty());
        assert(s@.groups =~= Map::<[u8; 32], GroupState>::empty());
        s
    }

    /// The identity public key.
    pub fn identity_pub(&self) -> (r: [u8; 32])
        ensures
            r == self@.identity.verifying.bytes,
    {
        self.identity.verifying.bytes
    }

    /// The fingerprint of the identity, for verification by hand.
    pub fn fingerprint(&self) -> (r: [u8; 32])
        ensures
            r@ == fingerprint_spec(self@.identity.verifying@),
    {
        self.identity.fingerprint()
    }

    /// The bundle to register with the relay. It carries the post-quantum
    /// key, and its signatures verify.
    pub fn registration_bundle(&self) -> (r: PreKeyBundle)
        requires
            self.wf(),
        ensures
            registers(self@, r),
            trustworthy(r),
            pq_shape(r),
    {
        let ek = match self.pq_decapsulation_key.derive_encapsulation_key() {
            Ok(k) => k,
            Err(_) => PqEncapsulationKey(Vec::new()),
        };
        let pq_sig = self.identity.sign(&ek.0);
        let mut one_time: Vec<(u32, [u8; 32])> = Vec::new();
        let ghost keys = self.one_time_prekeys.entries@;
        let mut i: usize = 0;
        while i < self.one_time_prekeys.entries.len()
            invariant
                keys == self.one_time_prekeys.entries@,
                0 <= i <= keys.len(),
                one_time@ == listed(keys).take(i as int),
            decreases keys.len() - i,
        {
            let key = self.one_time_prekeys.entries[i].1;
            one_time.push((key.id, key.pub_key.bytes));
            i = i + 1;
            assert(one_time@ =~= listed(keys).take(i as int));
        }
        assert(one_time@ =~= listed(keys));
        PreKeyBundle {
            identity_pub: self.identity.verifying.bytes,
            signed_prekey_id: self.signed_prekey.id,
            signed_prekey_pub: self.signed_prekey.pub_key.bytes,
            signed_prekey_sig: to_vec(&self.signed_prekey.signature.bytes),
            one_time_prekeys: one_time,
            pq_encapsulation_key: Some(ek.0),
            pq_encapsulation_key_sig: Some(to_vec(&pq_sig.bytes)),
        }
    }

    /// Replaces the signed prekey by a fresh one with the next id and keeps
    /// the old one, so that an initiation against a stale bundle still
    /// completes. Sessions are unaffected. Returns the new id.
    pub fn rotate_signed_prekey(&mut self) -> (r: u32)
        requires
            old(self).wf(),
            old(self)@.signed.id < u32::MAX,
        ensures
            final(self).wf(),
            r == old(self)@.signed.id + 1,
            rotated(old(self)@, final(self)@),
    {
        let new_id: u32 = self.signed_prekey.id + 1;
        let retired = self.signed_prekey;
        self.signed_prekey = SignedPreKey::generate(new_id, &self.identity);
        self.previous_signed_prekeys.insert(retired.id, retired);
        assert(rotated(old(self)@, self@));
        assert forall|k: [u8; 32]| #[trigger] self@.groups.contains_key(k) implies group_wf(
            self@,
            k,
        ) by {
            assert(group_wf(old(self)@, k));
        }
        new_id
    }

    /// Adds `count` fresh one-time prekeys with ids behind the highest one.
    /// The existing ones are kept. Returns the new ids.
    pub fn replenish_one_time_prekeys(&mut self, count: u32) -> (r: Vec<u32>)
        requires
            old(self).wf(),
            may_replenish(old(self)@, count),
        ensures
            final(self).wf(),
            r@ == Seq::new(
                count as nat,
                |i: int| (highest_id(old(self)@.one_time) + 1 + i) as u32,
            ),
            replenished(old(self)@, count, final(self)@),
    {
        let ghost start = self@.one_time;
        let highest: u32 = self.highest_one_time_id();
        proof {
            lemma_highest(start);
        }
        let mut ids: Vec<u32> = Vec::new();
        let mut i: u32 = 0;
        while i < count
            invariant
                i <= count,
                highest == highest_id(start),
                highest + count <= u32::MAX,
                forall|j: int| #![trigger start[j]] 0 <= j < start.len() ==> start[j].0 <= highest,
                self.wf(),
                self@ == (SessionState { one_time: self@.one_time, ..old(self)@ }),
                self@.one_time.len() == start.len() + i,
                ids@ == Seq::new(i as nat, |j: int| (highest + 1 + j) as u32),
                forall|j: int|
                    #![trigger self@.one_time[j]]
                    0 <= j < self@.one_time.len() ==> if j < start.len() {
                        self@.one_time[j] == start[j]
                    } else {
                        self@.one_time[j].0 == highest + 1 + (j - start.len())
                    },
            decreases count - i,
        {
            let id: u32 = highest + (i + 1);
            let key = OneTimePreKey::generate(id);
            let ghost prior = self@;
            let ghost held = self@.one_time;
            self.one_time_prekeys.insert(id, key);
            assert(self@.one_time == held.push((id, key)));
            assert forall|j: int|
                #![trigger self@.one_time[j]]
                0 <= j < self@.one_time.len() implies self@.one_time[j].1.wf()
                && self@.one_time[j].1.id == self@.one_time[j].0 by {
                if j < held.len() {
                    assert(self@.one_time[j] == held[j]);
                }
            }
            ids.push(id);
            i = i + 1;
            assert(self@ == (SessionState { one_time: self@.one_time, ..prior }));
            proof {
                lemma_one_time_put(prior, self@);
            }
        }
        ids
    }

    /// The highest id of a one-time prekey, or 0.
    fn highest_one_time_id(&self) -> (r: u32)
        ensures
            r == highest_id(self@.one_time),
    {
        let mut best: u32 = 0;
        let mut i: usize = 0;
        while i < self.one_time_prekeys.entries.len()
            invariant
                0 <= i <= self.one_time_prekeys.entries@.len(),
                best == highest_id(self.one_time_prekeys.entries@.take(i as int)),
            decreases self.one_time_prekeys.entries@.len() - i,
        {
            let id: u32 = self.one_time_prekeys.entries[i].0;
            proof {
                let next = self.one_time_prekeys.entries@.take(i + 1);
                assert(next.drop_last() =~= self.one_time_prekeys.entries@.take(i as int));
            }
            if id > best {
                best = id;
            }
            i = i + 1;
        }
        assert(self.one_time_prekeys.entries@.take(i as int) =~= self.one_time_prekeys.entries@);
        best
    }

    /// The number of one-time prekeys.
    pub fn one_time_prekey_count(&self) -> (r: usize)
        ensures
            r == self@.one_time.len(),
    {
        self.one_time_prekeys.len()
    }

    /// The id of the current signed prekey.
    pub fn signed_prekey_id(&self) -> (r: u32)
        ensures
            r == self@.signed.id,
    {
        self.signed_prekey.id
    }

    /// Whether a signed prekey with this id was rotated out.
    pub fn has_previous_signed_prekey(&self, id: u32) -> (r: bool)
        requires
            self.wf(),
        ensures
            r == self@.previous.contains_key(id),
    {
        self.previous_signed_prekeys.contains(&id)
    }

    /// Starts a one-to-one session with the owner of a bundle and encrypts
    /// the first message, which carries the X3DH init. The envelope's id is
    /// left to the relay. A bundle that cannot be used changes nothing.
    pub fn start_session(&mut self, peer_bundle: &PreKeyBundle, first_plaintext: &[u8]) -> (r: Result<
        EncryptedEnvelope,
        ClientError,
    >)
        requires
            old(self).wf(),
            first_plaintext@.len() < primitives::SEAL_LIMIT,
        ensures
            final(self).wf(),
            session_started(old(self)@, *peer_bundle, first_plaintext@, final(self)@, r),
    {
        let crypto_bundle = match Self::reconstruct_peer_bundle(peer_bundle) {
            Ok(b) => b,
            Err(e) => {
                return Err(e);
            },
        };
        let one_time_id = if peer_bundle.one_time_prekeys.len() > 0 {
            Some(peer_bundle.one_time_prekeys[0].0)
        } else {
            None
        };
        let (session_init, init_msg) = match x3dh::initiate(
            &self.identity,
            &crypto_bundle,
            one_time_id,
        ) {
            Ok(out) => out,
            Err(e) => {
                return Err(ClientError::Crypto(e));
            },
        };
        let mut ratchet = match RatchetSession::init_alice(&session_init) {
            Ok(s) => s,
            Err(e) => {
                return Err(ClientError::Crypto(e));
            },
        };
        let encrypted = match ratchet.encrypt(first_plaintext) {
            Ok(m) => m,
            Err(e) => {
                return Err(ClientError::Crypto(e));
            },
        };
        let peer_pub = peer_bundle.identity_pub;
        let ghost before = self@;
        let ghost state = ratchet@;
        self.ratchets.insert(peer_pub, ratchet);
        assert(self@.ratchets =~= before.ratchets.insert(peer_pub, state));
        let r = envelope_from_encrypted(
            0,
            self.identity.verifying.bytes,
            &encrypted,
            Some(&init_msg),
        );
        proof {
            let kem = choose|kem: Option<Seq<u8>>| #[trigger]
                initiated(
                    self.identity,
                    crypto_bundle,
                    one_time_id,
                    session_init.alice_ephemeral_priv@,
                    kem,
                    session_init,
                    init_msg,
                ) && kem_of_bundle(crypto_bundle, init_msg, kem);
            assert(started(
                before,
                *peer_bundle,
                first_plaintext@,
                self@,
                r.unwrap(),
                crypto_bundle,
                session_init,
                init_msg,
                kem,
                encrypted,
            ));
        }
        r
    }

    /// Encrypts a message to a peer with whom a session exists.
    pub fn send(&mut self, peer: &[u8; 32], plaintext: &[u8]) -> (r: Result<
        EncryptedEnvelope,
        ClientError,
    >)
        requires
            old(self).wf(),
            may_send(old(self)@, *peer),
            plaintext@.len() < primitives::SEAL_LIMIT,
        ensures
            final(self).wf(),
            direct_sent(old(self)@, *peer, plaintext@, final(self)@, r),
    {
        let ghost before = self@;
        let me = self.identity.verifying.bytes;
        let encrypted = match self.ratchets.get_mut(peer) {
            Some(ratchet) => {
                assert(before.ratchets.contains_key(*peer));
                assert(before.ratchets[*peer] == ratchet@);
                assert(state_wf(ratchet@));
                let out = ratchet.encrypt(plaintext);
                out
            },
            None => {
                return Err(ClientError::NoSession);
            },
        };
        assert(self@.ratchets =~= before.ratchets.insert(*peer, self@.ratchets[*peer]));
        assert(self@ == (SessionState { ratchets: self@.ratchets, ..before }));
        proof {
            lemma_ratchet_put(before, self@, *peer);
        }
        match encrypted {
            Ok(m) => {
                let r = envelope_from_encrypted(0, me, &m, None);
                assert(sent(
                    before.ratchets[*peer],
                    plaintext@,
                    self@.ratchets[*peer],
                    Ok::<Encrypted, CryptoError>(m),
                ));
                r
            },
            Err(e) => {
                assert(self@.ratchets =~= before.ratchets);
                Err(ClientError::Crypto(e))
            },
        }
    }

    // ---- Groups -------------------------------------------------------------------

    /// Creates a group session of the client's own, with a fresh chain.
    pub fn create_group(&mut self, group_id: [u8; 32]) -> (r: Result<(), ClientError>)
        requires
            old(self).wf(),
        ensures
            final(self).wf(),
            r is Ok,
            group_created(old(self)@, group_id, final(self)@),
    {
        let ghost before = self@;
        match GroupSession::new(group_id, &self.identity) {
            Ok(session) => {
                let ghost state = session@;
                self.groups.insert(group_id, session);
                assert(self@.groups =~= before.groups.insert(group_id, state));
                proof {
                    assert(self@ == (SessionState { groups: self@.groups, ..before }));
                    assert(group_wf(self@, group_id));
                    lemma_group_put(before, self@, group_id);
                }
                Ok(())
            },
            Err(e) => Err(ClientError::Crypto(e)),
        }
    }

    /// The client's own sender-key state of a group, to be handed to every
    /// other member over their one-to-one sessions.
    pub fn group_distribution(&self, group_id: &[u8; 32]) -> (r: Result<SenderKeyState, ClientError>)
        requires
            self.wf(),
        ensures
            match r {
                Ok(state) => self@.groups.contains_key(*group_id) && exports(
                    self@.groups[*group_id],
                    state,
                ) && follows(
                    PeerView {
                        chain_key: state.chain_key.0@,
                        generation: state.generation,
                        signing_pub: state.signing_pub@,
                    },
                    self@.groups[*group_id],
                ),
                Err(e) => !self@.groups.contains_key(*group_id) && is_no_group(e, *group_id),
            },
    {
        match self.groups.get(group_id) {
            Some(session) => Ok(session.export_self_state()),
            None => Err(ClientError::NoGroupSession(hex_id(group_id))),
        }
    }

    /// Records another member's sender-key state of a group.
    pub fn add_group_peer(&mut self, group_id: &[u8; 32], state: SenderKeyState) -> (r: Result<
        (),
        ClientError,
    >)
        requires
            old(self).wf(),
        ensures
            final(self).wf(),
            match r {
                Ok(_) => old(self)@.groups.contains_key(*group_id) && final(self)@ == (SessionState {
                    groups: old(self)@.groups.insert(
                        *group_id,
                        with_peer(old(self)@.groups[*group_id], state),
                    ),
                    ..old(self)@
                }),
                Err(e) => !old(self)@.groups.contains_key(*group_id) && final(self)@ == old(self)@
                    && is_no_group(e, *group_id),
            },
    {
        let ghost before = self@;
        match self.groups.get_mut(group_id) {
            Some(session) => {
                assert(before.groups[*group_id] == session@);
                let _ = session.add_peer(state);
            },
            None => {
                return Err(ClientError::NoGroupSession(hex_id(group_id)));
            },
        }
        assert(self@.groups =~= before.groups.insert(
            *group_id,
            with_peer(before.groups[*group_id], state),
        ));
        proof {
            assert(before.groups.contains_key(*group_id));
            assert(group_wf(before, *group_id));
            lemma_group_put(before, self@, *group_id);
        }
        Ok(())
    }

    /// Encrypts a message to a group. The caller sends the envelope to every
    /// member.
    pub fn send_group(&mut self, group_id: &[u8; 32], plaintext: &[u8]) -> (r: Result<
        EncryptedEnvelope,
        ClientError,
    >)
        requires
            old(self).wf(),
            may_send_group(old(self)@, *group_id),
            plaintext@.len() < primitives::SEAL_LIMIT,
        ensures
            final(self).wf(),
            group_message_sent(old(self)@, *group_id, plaintext@, final(self)@, r),
    {
        let ghost before = self@;
        let me = self.identity.verifying.bytes;
        let encrypted = match self.groups.get_mut(group_id) {
            Some(session) => {
                assert(before.groups[*group_id] == session@);
                let out = session.encrypt(plaintext);
                out
            },
            None => {
                return Err(ClientError::NoGroupSession(hex_id(group_id)));
            },
        };
        assert(self@.groups =~= before.groups.insert(*group_id, self@.groups[*group_id]));
        assert(self.groups@[*group_id].wf());
        assert(self@ == (SessionState { groups: self@.groups, ..before }));
        proof {
            assert(before.groups.contains_key(*group_id));
            assert(group_wf(before, *group_id));
            lemma_group_put(before, self@, *group_id);
        }
        match encrypted {
            Ok(m) => {
                assert(group_sent(
                    before.groups[*group_id],
                    plaintext@,
                    self@.groups[*group_id],
                    m,
                ));
                envelope_from_group_encrypted(0, me, &m)
            },
            Err(e) => Err(ClientError::Crypto(e)),
        }
    }

    /// Whether the client has a session of the group.
    pub fn has_group(&self, group_id: &[u8; 32]) -> (r: bool)
        requires
            self.wf(),
        ensures
            r == self@.groups.contains_key(*group_id),
    {
        self.groups.contains(group_id)
    }

    /// Whether the client has a one-to-one session with the peer.
    pub fn has_session(&self, peer: &[u8; 32]) -> (r: bool)
        requires
            self.wf(),
        ensures
            r == self@.ratchets.contains_key(*peer),
    {
        self.ratchets.contains(peer)
    }

    /// Whether the send counter of the session with a peer has room.
    pub fn can_send(&self, peer: &[u8; 32]) -> (r: bool)
        requires
            self.wf(),
        ensures
            r == may_send(self@, *peer),
    {
        match self.ratchets.get(peer) {
            Some(ratchet) => ratchet.sent_count() < u32::MAX,
            None => true,
        }
    }

    /// Whether the send counter of a group has room.
    pub fn can_send_group(&self, group_id: &[u8; 32]) -> (r: bool)
        requires
            self.wf(),
        ensures
            r == may_send_group(self@, *group_id),
    {
        match self.groups.get(group_id) {
            Some(group) => group.self_state.generation < u32::MAX,
            None => true,
        }
    }

    /// Whether there is an id for another signed prekey.
    pub fn can_rotate(&self) -> (r: bool)
        ensures
            r == (self@.signed.id < u32::MAX),
    {
        self.signed_prekey.id < u32::MAX
    }

    /// Whether there are ids for so many more one-time prekeys.
    pub fn can_replenish(&self, count: u32) -> (r: bool)
        ensures
            r == may_replenish(self@, count),
    {
        let highest: u32 = self.highest_one_time_id();
        highest < u32::MAX && highest as u64 + count as u64 <= u32::MAX as u64
    }

    // ---- Receiving -----------------------------------------------------------------

    /// Decrypts an envelope: a direct one with the sender's ratchet, which the
    /// init message of a first message sets up, a group one with the group's
    /// session. Returns the plaintext and the sender.
    pub fn receive(&mut self, envelope: &EncryptedEnvelope) -> (r: Result<
        (Vec<u8>, [u8; 32]),
        ClientError,
    >)
        requires
            old(self).wf(),
            receivable(old(self)@, *envelope),
        ensures
            final(self).wf(),
            envelope_received(old(self)@, *envelope, final(self)@, r),
    {
        match envelope.kind {
            MessageKind::Direct => self.receive_direct(envelope),
            MessageKind::Group => self.receive_group(envelope),
        }
    }

    /// Decrypts an envelope where the receive counters have room for it, and
    /// returns `None`, with nothing changed, where they do not.
    pub fn receive_checked(&mut self, envelope: &EncryptedEnvelope) -> (r: Option<
        Result<(Vec<u8>, [u8; 32]), ClientError>,
    >)
        requires
            old(self).wf(),
        ensures
            final(self).wf(),
            match r {
                Some(out) => receivable(old(self)@, *envelope) && envelope_received(
                    old(self)@,
                    *envelope,
                    final(self)@,
                    out,
                ),
                None => !receivable(old(self)@, *envelope) && final(self)@ == old(self)@,
            },
    {
        if self.has_room_for(envelope) {
            Some(self.receive(envelope))
        } else {
            None
        }
    }

    /// Whether the receive counters have room for an envelope.
    fn has_room_for(&self, envelope: &EncryptedEnvelope) -> (r: bool)
        requires
            self.wf(),
        ensures
            r == receivable(self@, *envelope),
    {
        match envelope.kind {
            MessageKind::Group => {
                return true;
            },
            MessageKind::Direct => {},
        }
        let header = match header_from_envelope(envelope) {
            Ok(h) => h,
            Err(_) => {
                return true;
            },
        };
        match self.ratchets.get(&envelope.sender) {
            Some(ratchet) => {
                assert(self@.ratchets.contains_key(envelope.sender));
                assert(self@.ratchets[envelope.sender] == ratchet@);
                let fits = ratchet.has_room_for(&header);
                proof {
                    let f = wire::header_fields_of(envelope.header@).unwrap();
                    assert forall|h: Header| #[trigger] header_fields(h) == f implies counter_fits(
                        self@.ratchets[envelope.sender],
                        h,
                    ) == fits by {
                        lemma_header_fields(h, header);
                    }
                    assert(header_fields(header) == f);
                }
                fits
            },
            None => {
                if header.n < u32::MAX {
                    return true;
                }
                match self.begin_session(envelope) {
                    Ok(_) => false,
                    Err(_) => {
                        assert(!begins(self@, *envelope));
                        true
                    },
                }
            },
        }
    }

    /// Completes the session that an envelope's init message starts, with the
    /// prekeys that it refers to.
    fn begin_session(&self, envelope: &EncryptedEnvelope) -> (r: Result<
        (SessionInit, SignedPreKey),
        ClientError,
    >)
        requires
            self.wf(),
        ensures
            began(self@, *envelope, r),
            r is Ok <==> begins(self@, *envelope),
            r matches Ok(out) ==> out.1 == signed_for(
                self@,
                wire::init_fields_of(envelope.init.unwrap()@).unwrap().2,
            ),
    {
        let init = match init_from_envelope(envelope) {
            Ok(Some(m)) => m,
            Ok(None) => {
                return Err(ClientError::NoSession);
            },
            Err(e) => {
                return Err(e);
            },
        };
        let ghost f = init_fields(init);
        let spk = match self.previous_signed_prekeys.get(&init.bob_signed_prekey_id) {
            Some(k) => *k,
            None => self.signed_prekey,
        };
        let otpk = match init.bob_one_time_prekey_id {
            Some(id) => match self.one_time_prekeys.get(&id) {
                Some(k) => {
                    proof {
                        let i = crate::keymap::key_place(self@.one_time, id);
                        assert(self@.one_time[i].0 == id);
                        lemma_key_place(self@.one_time, i);
                    }
                    Some(k)
                },
                None => {
                    return Err(ClientError::NoOneTimePreKey(id));
                },
            },
            None => None,
        };
        let x = x3dh::receive_hybrid(
            &self.identity,
            &spk,
            otpk,
            Some(&self.pq_decapsulation_key),
            &init,
        );
        assert(x3dh::option_of(otpk) == one_time_for(self@, f.3));
        assert(began_with(self@, f, init, x));
        match x {
            Ok(session_init) => Ok((session_init, spk)),
            Err(e) => Err(ClientError::Crypto(e)),
        }
    }

    /// Decrypts a direct envelope.
    fn receive_direct(&mut self, envelope: &EncryptedEnvelope) -> (r: Result<
        (Vec<u8>, [u8; 32]),
        ClientError,
    >)
        requires
            old(self).wf(),
            envelope.kind == MessageKind::Direct,
            receivable(old(self)@, *envelope),
        ensures
            final(self).wf(),
            direct_received(old(self)@, *envelope, final(self)@, r),
    {
        let ghost before = self@;
        let sender = envelope.sender;
        if !self.ratchets.contains(&sender) {
            let b = self.begin_session(envelope);
            let ghost begun = b;
            let (session_init, spk) = match b {
                Ok(out) => out,
                Err(e) => {
                    assert(began(before, *envelope, begun));
                    return Err(e);
                },
            };
            let mut ratchet = match RatchetSession::init_bob(&session_init, &spk.priv_key) {
                Ok(s) => s,
                Err(e) => {
                    return Err(ClientError::Crypto(e));
                },
            };
            let encrypted = match encrypted_from_envelope(envelope) {
                Ok(m) => m,
                Err(e) => {
                    assert(first_received(
                        before,
                        *envelope,
                        session_init,
                        spk,
                        self@,
                        Err::<(Vec<u8>, [u8; 32]), ClientError>(e),
                    ));
                    return Err(e);
                },
            };
            let opened = ratchet.decrypt(&encrypted);
            assert(decrypted(
                bob_start(session_init, spk.priv_key@),
                encrypted,
                ratchet@,
                opened,
            ));
            assert(is_message_of(*envelope, encrypted));
            match opened {
                Ok(plaintext) => {
                    let ghost state = ratchet@;
                    self.ratchets.insert(sender, ratchet);
                    assert(self@.ratchets =~= before.ratchets.insert(sender, state));
                    let r: Result<(Vec<u8>, [u8; 32]), ClientError> = Ok((plaintext, sender));
                    assert(first_received(before, *envelope, session_init, spk, self@, r));
                    assert(began(before, *envelope, begun));
                    r
                },
                Err(e) => {
                    let r: Result<(Vec<u8>, [u8; 32]), ClientError> = Err(ClientError::Crypto(e));
                    assert(first_received(before, *envelope, session_init, spk, self@, r));
                    assert(began(before, *envelope, begun));
                    r
                },
            }
        } else {
            let encrypted = match encrypted_from_envelope(envelope) {
                Ok(m) => m,
                Err(e) => {
                    return Err(e);
                },
            };
            assert(is_message_of(*envelope, encrypted));
            assert(header_fields(encrypted.header) == wire::header_fields_of(
                envelope.header@,
            ).unwrap());
            let opened = match self.ratchets.get_mut(&sender) {
                Some(ratchet) => {
                    assert(before.ratchets.contains_key(sender));
                    assert(before.ratchets[sender] == ratchet@);
                    assert(state_wf(ratchet@));
                    let out = ratchet.decrypt(&encrypted);
                    out
                },
                None => {
                    return Err(ClientError::NoSession);
                },
            };
            let ghost after = self@.ratchets[sender];
            assert(self@.ratchets =~= before.ratchets.insert(sender, after));
            assert(decrypted(before.ratchets[sender], encrypted, after, opened));
            proof {
                if opened is Err {
                    assert(before.ratchets.insert(sender, after) =~= before.ratchets);
                }
            }
            match opened {
                Ok(plaintext) => Ok((plaintext, sender)),
                Err(e) => Err(ClientError::Crypto(e)),
            }
        }
    }

    /// Decrypts a group envelope. The signature covers the header and the
    /// ciphertext but not the envelope's sender, so the sender is held
    /// against the header's sender id before anything is decrypted.
    fn receive_group(&mut self, envelope: &EncryptedEnvelope) -> (r: Result<
        (Vec<u8>, [u8; 32]),
        ClientError,
    >)
        requires
            old(self).wf(),
        ensures
            final(self).wf(),
            group_envelope_received(old(self)@, *envelope, final(self)@, r),
    {
        let ghost before = self@;
        let m = match group_encrypted_from_envelope(envelope) {
            Ok(m) => m,
            Err(e) => {
                return Err(e);
            },
        };
        assert(is_group_message_of(*envelope, m));
        let expected = fingerprint_of_pub(&envelope.sender);
        if !same32(&m.header.sender_id, &expected) {
            return Err(ClientError::GroupSenderMismatch);
        }
        let group_id = m.header.group_id;
        let opened = match self.groups.get_mut(&group_id) {
            Some(session) => {
                assert(before.groups[group_id] == session@);
                let out = session.decrypt(&m);
                out
            },
            None => {
                let r: Result<(Vec<u8>, [u8; 32]), ClientError> = Err(
                    ClientError::NoGroupSession(hex_id(&group_id)),
                );
                return r;
            },
        };
        let ghost after = self@.groups[group_id];
        assert(self@.groups =~= before.groups.insert(group_id, after));
        assert(group_received(before.groups[group_id], m, after, opened));
        proof {
            assert(before.groups.contains_key(group_id));
            assert(group_wf(before, group_id));
            lemma_group_put(before, self@, group_id);
        }
        let r: Result<(Vec<u8>, [u8; 32]), ClientError> = match opened {
            Ok(plaintext) => Ok((plaintext, envelope.sender)),
            Err(e) => Err(ClientError::Crypto(e)),
        };
        assert(group_opened(before, *envelope, m, self@, r));
        r
    }

    /// Reads the keys and signatures of a wire bundle.
    fn reconstruct_peer_bundle(bundle: &PreKeyBundle) -> (r: Result<CryptoBundle, ClientError>)
        ensures
            match r {
                Ok(c) => parses(*bundle) && parsed(*bundle, c) && (can_initiate(c) == trustworthy(
                    *bundle,
                )),
                Err(e) => !parses(*bundle) && bundle_refused(*bundle, e),
            },
    {
        let identity_pub = match VerifyingKey::from_bytes(&bundle.identity_pub) {
            Ok(k) => k,
            Err(_) => {
                return Err(ClientError::Store("bad peer identity pub".to_owned()));
            },
        };
        let signed_prekey_sig = match Signature::from_slice(&bundle.signed_prekey_sig) {
            Ok(s) => s,
            Err(_) => {
                return Err(ClientError::Store("bad peer signature".to_owned()));
            },
        };
        let pq_prekey = match (&bundle.pq_encapsulation_key, &bundle.pq_encapsulation_key_sig) {
            (Some(k), Some(sig)) => {
                let key = match PqEncapsulationKey::from_bytes(k) {
                    Ok(key) => key,
                    Err(e) => {
                        return Err(ClientError::Crypto(e));
                    },
                };
                match Signature::from_slice(sig) {
                    Ok(signature) => Some(PqPreKey { key, signature }),
                    Err(_) => {
                        return Err(ClientError::Crypto(CryptoError::MalformedBundle));
                    },
                }
            },
            (None, None) => None,
            _ => {
                return Err(ClientError::Crypto(CryptoError::MalformedBundle));
            },
        };
        let ghost goal = bundle.one_time_prekeys@.map_values(
            |p: (u32, [u8; 32])| (p.0, PublicKey { bytes: p.1 }),
        );
        let mut one_time_prekeys: Vec<(u32, PublicKey)> = Vec::new();
        let mut i: usize = 0;
        while i < bundle.one_time_prekeys.len()
            invariant
                0 <= i <= bundle.one_time_prekeys@.len(),
                goal == bundle.one_time_prekeys@.map_values(
                    |p: (u32, [u8; 32])| (p.0, PublicKey { bytes: p.1 }),
                ),
                one_time_prekeys@ == goal.take(i as int),
            decreases bundle.one_time_prekeys@.len() - i,
        {
            let (id, bytes) = bundle.one_time_prekeys[i];
            one_time_prekeys.push((id, PublicKey { bytes }));
            i = i + 1;
            assert(one_time_prekeys@ =~= goal.take(i as int));
        }
        assert(one_time_prekeys@ =~= goal);
        Ok(
            CryptoBundle {
                identity_pub,
                signed_prekey_id: bundle.signed_prekey_id,
                signed_prekey_pub: PublicKey { bytes: bundle.signed_prekey_pub },
                signed_prekey_sig,
                one_time_prekeys,
                pq_prekey,
            },
        )
    }
}

/// The send counter of the session with a peer has room.
pub open spec fn may_send(s: SessionState, peer: [u8; 32]) -> bool {
    s.ratchets.contains_key(peer) ==> s.ratchets[peer].ns < u32::MAX
}

/// The send counter of a group has room.
pub open spec fn may_send_group(s: SessionState, group_id: [u8; 32]) -> bool {
    s.groups.contains_key(group_id) ==> s.groups[group_id].generation < u32::MAX
}

/// What sending to a peer does: an error without a session, and the ratchet's
/// next message otherwise.
pub open spec fn direct_sent(
    before: SessionState,
    peer: [u8; 32],
    plaintext: Seq<u8>,
    after: SessionState,
    r: Result<EncryptedEnvelope, ClientError>,
) -> bool {
    if !before.ratchets.contains_key(peer) {
        after == before && r matches Err(ClientError::NoSession)
    } else if before.ratchets[peer].cks is None {
        after == before && (r matches Err(ClientError::Crypto(e)) && e == CryptoError::InvalidState)
    } else {
        &&& r matches Ok(env)
        &&& after == (SessionState {
            ratchets: before.ratchets.insert(peer, after.ratchets[peer]),
            ..before
        })
        &&& exists|m: Encrypted| #[trigger]
            sent(before.ratchets[peer], plaintext, after.ratchets[peer], Ok(m)) && carries(
                env,
                0,
                before.identity.verifying.bytes,
                m,
                None,
            )
    }
}

/// What sending to a group does: an error without a session of the group, and
/// the group session's next message otherwise.
pub open spec fn group_message_sent(
    before: SessionState,
    group_id: [u8; 32],
    plaintext: Seq<u8>,
    after: SessionState,
    r: Result<EncryptedEnvelope, ClientError>,
) -> bool {
    match r {
        Ok(env) => before.groups.contains_key(group_id) && exists|m: GroupEncrypted| #[trigger]
            group_sent(before.groups[group_id], plaintext, after.groups[group_id], m)
                && carries_group(env, 0, before.identity.verifying.bytes, m) && after
                == (SessionState {
                groups: before.groups.insert(group_id, after.groups[group_id]),
                ..before
            }),
        Err(e) => !before.groups.contains_key(group_id) && after == before && is_no_group(
            e,
            group_id,
        ),
    }
}

/// A fresh session of a group, the client as its member.
pub open spec fn group_created(before: SessionState, group_id: [u8; 32], after: SessionState) -> bool {
    let g = after.groups[group_id];
    &&& after.groups.contains_key(group_id)
    &&& after == (SessionState { groups: before.groups.insert(group_id, g), ..before })
    &&& g.group_id == group_id
    &&& g.member_id@ == fingerprint_spec(before.identity.verifying@)
    &&& g.generation == 0
    &&& g.peers == Map::<[u8; 32], PeerView>::empty()
}

/// The error that names a group by the first four bytes of its id.
pub open spec fn is_no_group(e: ClientError, group_id: [u8; 32]) -> bool {
    e matches ClientError::NoGroupSession(s) && s@ == hexadecimal::hex_chars(group_id@.take(4))
}

/// A distributed state is a group session's own state.
pub open spec fn exports(g: GroupState, state: SenderKeyState) -> bool {
    &&& state.member_id == g.member_id
    &&& state.chain_key.0@ == g.chain_key
    &&& state.signing_priv@ == g.signing
    &&& state.signing_pub@ == g.signing_pub
    &&& state.generation == g.generation
}

/// A group session with a member's state recorded.
pub open spec fn with_peer(g: GroupState, state: SenderKeyState) -> GroupState {
    GroupState {
        peers: g.peers.insert(
            state.member_id,
            PeerView {
                chain_key: state.chain_key.0@,
                generation: state.generation,
                signing_pub: state.signing_pub@,
            },
        ),
        ..g
    }
}

/// The first four bytes of an id as eight digits.
pub fn hex_id(id: &[u8; 32]) -> (r: String)
    ensures
        r@ == hexadecimal::hex_chars(id@.take(4)),
{
    let head: [u8; 4] = [id[0], id[1], id[2], id[3]];
    assert(head@ =~= id@.take(4));
    hexadecimal::encode(&head)
}

/// A well-formed ratchet put in place of another keeps the state consistent.
proof fn lemma_ratchet_put(before: SessionState, after: SessionState, k: [u8; 32])
    requires
        session_wf(before),
        after == (SessionState { ratchets: after.ratchets, ..before }),
        after.ratchets == before.ratchets.insert(k, after.ratchets[k]),
        state_wf(after.ratchets[k]),
    ensures
        session_wf(after),
{
    assert forall|q: [u8; 32]| #[trigger] after.ratchets.contains_key(q) implies state_wf(
        after.ratchets[q],
    ) by {
        if q != k {
            assert(before.ratchets.contains_key(q));
        }
    }
}

/// Well-formed one-time prekeys in place of others keep the state consistent.
proof fn lemma_one_time_put(before: SessionState, after: SessionState)
    requires
        session_wf(before),
        after == (SessionState { one_time: after.one_time, ..before }),
        keys_distinct(after.one_time),
        forall|i: int|
            #![trigger after.one_time[i]]
            0 <= i < after.one_time.len() ==> after.one_time[i].1.wf() && after.one_time[i].1.id
                == after.one_time[i].0,
    ensures
        session_wf(after),
{
}

/// A well-formed group session put in place of another keeps the state
/// consistent.
proof fn lemma_group_put(before: SessionState, after: SessionState, k: [u8; 32])
    requires
        session_wf(before),
        after == (SessionState { groups: after.groups, ..before }),
        after.groups == before.groups.insert(k, after.groups[k]),
        group_wf(after, k),
    ensures
        session_wf(after),
{
    assert forall|q: [u8; 32]| #[trigger] after.groups.contains_key(q) implies group_wf(after, q) by {
        if q != k {
            assert(before.groups.contains_key(q));
            assert(group_wf(before, q));
        }
    }
}

/// The highest id bounds every id.
pub proof fn lemma_highest(keys: Seq<(u32, OneTimePreKey)>)
    ensures
        forall|j: int|
            #![trigger keys[j]]
            0 <= j < keys.len() ==> keys[j].0 <= highest_id(keys),
    decreases keys.len(),
{
    if keys.len() > 0 {
        lemma_highest(keys.drop_last());
        assert forall|j: int| #![trigger keys[j]] 0 <= j < keys.len() implies keys[j].0 <= highest_id(
            keys,
        ) by {
            if j < keys.len() - 1 {
                assert(keys.drop_last()[j] == keys[j]);
            }
        }
    }
}

// ---- Laws ---------------------------------------------------------------------------

/// What a bundle registered in state `then` offers is still served in state
/// `now`: the identity and the KEM key are the same, and the prekeys that the
/// bundle lists are found under their ids.
pub open spec fn still_serves(then: SessionState, now: SessionState) -> bool {
    &&& now.identity == then.identity
    &&& now.pq_seed == then.pq_seed
    &&& signed_for(now, then.signed.id) == then.signed
    &&& forall|id: u32| #[trigger]
        pairs_map(then.one_time).contains_key(id) ==> pairs_map(now.one_time).contains_key(id)
            && pairs_map(now.one_time)[id] == pairs_map(then.one_time)[id]
}

/// Rotating the signed prekey leaves a bundle registered before it in
/// service.
pub proof fn lemma_rotation_serves(before: SessionState, after: SessionState)
    requires
        after == (SessionState {
            signed: after.signed,
            previous: before.previous.insert(before.signed.id, before.signed),
            ..before
        }),
    ensures
        still_serves(before, after),
{
}

/// Adding one-time prekeys leaves a bundle registered before it in service,
/// as long as no signed prekey was rotated out under the current id.
pub proof fn lemma_replenishing_serves(before: SessionState, after: SessionState)
    requires
        session_wf(before),
        session_wf(after),
        after == (SessionState { one_time: after.one_time, ..before }),
        after.one_time.len() >= before.one_time.len(),
        forall|i: int|
            #![trigger after.one_time[i]]
            0 <= i < before.one_time.len() ==> after.one_time[i] == before.one_time[i],
        !before.previous.contains_key(before.signed.id),
    ensures
        still_serves(before, after),
{
    assert forall|id: u32| #[trigger] pairs_map(before.one_time).contains_key(id) implies pairs_map(
        after.one_time,
    ).contains_key(id) && pairs_map(after.one_time)[id] == pairs_map(before.one_time)[id] by {
        let i = crate::keymap::key_place(before.one_time, id);
        assert(0 <= i < before.one_time.len() && before.one_time[i].0 == id);
        assert(after.one_time[i] == before.one_time[i]);
        lemma_key_place(before.one_time, i);
        lemma_key_place(after.one_time, i);
    }
}

/// The first message of a session is delivered. Alice starts a session
/// against a bundle that Bob registered in state `then`; Bob, who still
/// serves it and has no session with Alice, receives the envelope and gets
/// Alice's plaintext, with Alice as the sender; afterwards Bob is in step
/// with Alice's ratchet. The KEM's part is an assumption: Bob's key recovers
/// the secret that Alice encapsulated.
pub proof fn lemma_first_message(
    alice: SessionState,
    then: SessionState,
    bob: SessionState,
    bundle: PreKeyBundle,
    plaintext: Seq<u8>,
    alice_after: SessionState,
    env: EncryptedEnvelope,
    c: CryptoBundle,
    init: SessionInit,
    im: InitMessage,
    kem: Option<Seq<u8>>,
    m: Encrypted,
    bob_after: SessionState,
    r: Result<(Vec<u8>, [u8; 32]), ClientError>,
)
    requires
        session_wf(alice),
        session_wf(then),
        session_wf(bob),
        registers(then, bundle),
        still_serves(then, bob),
        started(alice, bundle, plaintext, alice_after, env, c, init, im, kem, m),
        direct_received(bob, env, bob_after, r),
        !bob.ratchets.contains_key(alice.identity.verifying.bytes),
        kem == recovered_kem(Some(bob.pq_seed), im.pq_ciphertext),
    ensures
        r matches Ok(out) && out.0@ == plaintext && out.1 == alice.identity.verifying.bytes,
        bob_after.ratchets.contains_key(alice.identity.verifying.bytes),
        linked(
            alice_after.ratchets[bundle.identity_pub],
            bob_after.ratchets[alice.identity.verifying.bytes],
        ),
{
    let f = init_fields(im);
    let keys = c.one_time_prekeys@;
    let spk = then.signed;
    assert(signed_for(bob, f.2) == spk);
    // The one-time prekey that Alice chose is the first one that Bob listed.
    if then.one_time.len() > 0 {
        let first = then.one_time[0];
        assert(listed(then.one_time)[0] == (first.1.id, first.1.pub_key.bytes));
        assert(keys[0] == (first.1.id, first.1.pub_key));
        assert(x3dh::position_of_id(keys, first.0, 0) == Some(0int));
        lemma_key_place(then.one_time, 0);
        assert(pairs_map(bob.one_time)[first.0] == first.1);
        assert(one_time_for(bob, f.3) == Some(first.1));
    } else {
        assert(keys.len() == 0);
        assert(f.3 is None);
    }
    let b = choose|b: Result<(SessionInit, SignedPreKey), ClientError>| #[trigger]
        began(bob, env, b) && match b {
            Err(e) => bob_after == bob && r == Err::<(Vec<u8>, [u8; 32]), ClientError>(e),
            Ok(start) => first_received(bob, env, start.0, start.1, bob_after, r),
        };
    let (im2, x) = choose|im2: InitMessage, x: Result<SessionInit, CryptoError>| #[trigger]
        began_with(bob, f, im2, x) && match x {
            Ok(s) => b matches Ok(out) && out.0 == s && out.1 == signed_for(bob, f.2) && begins(
                bob,
                env,
            ),
            Err(e) => b matches Err(ClientError::Crypto(c)) && c == e,
        };
    assert(began_with(bob, f, im2, x));
    assert(recovered_kem(Some(bob.pq_seed), im2.pq_ciphertext) == kem);
    assert(x is Ok);
    let s = x.unwrap();
    // Both sides derive the same root key.
    assert(im2.alice_identity_pub@ == primitives::ed25519_public_of(alice.identity.signing@));
    assert(im2.alice_ephemeral_pub@ == primitives::x25519_public_of(init.alice_ephemeral_priv@));
    assert(bundle.identity_pub@ == primitives::ed25519_public_of(then.identity.signing@));
    assert(s.root_key@ == init.root_key@);
    let dh = alice_after.ratchets[bundle.identity_pub].dh_priv;
    lemma_start_linked(init, s, dh, spk.priv_key@);
    // Bob's ratchet decrypts what Alice's encrypted.
    let (m2, ra, rr) = choose|m2: Encrypted, ra: RatchetState, rr: Result<Vec<u8>, CryptoError>|
        #[trigger]
        decrypted(bob_start(s, spk.priv_key@), m2, ra, rr) && is_message_of(env, m2)
            && plaintext_of(rr, env.sender, r) && bob_after == (if rr is Ok {
            SessionState { ratchets: bob.ratchets.insert(env.sender, ra), ..bob }
        } else {
            bob
        });
    lemma_header_fields(m2.header, m.header);
    assert(sent(
        alice_start(init, dh),
        plaintext,
        alice_after.ratchets[bundle.identity_pub],
        Ok::<Encrypted, CryptoError>(m2),
    ));
    lemma_delivery(
        alice_start(init, dh),
        bob_start(s, spk.priv_key@),
        plaintext,
        alice_after.ratchets[bundle.identity_pub],
        m2,
        ra,
        rr,
    );
}

/// A follow-up message is delivered: where Bob's ratchet is in step with
/// Alice's and has not cached the message's key, Bob gets Alice's plaintext,
/// and they stay in step; where Bob's ratchet moved on to a key that Alice
/// does not know yet, Alice is in step with Bob's replies.
pub proof fn lemma_follow_up(
    alice: SessionState,
    bob: SessionState,
    plaintext: Seq<u8>,
    alice_after: SessionState,
    env: EncryptedEnvelope,
    bob_after: SessionState,
    r: Result<(Vec<u8>, [u8; 32]), ClientError>,
)
    requires
        direct_sent(
            alice,
            bob.identity.verifying.bytes,
            plaintext,
            alice_after,
            Ok(env),
        ),
        direct_received(bob, env, bob_after, r),
        bob.ratchets.contains_key(alice.identity.verifying.bytes),
        ({
            let a = alice.ratchets[bob.identity.verifying.bytes];
            let b = bob.ratchets[alice.identity.verifying.bytes];
            linked(a, b) && !cached(b.skipped, a.dh_pub, a.ns)
        }),
    ensures
        r matches Ok(out) && out.0@ == plaintext && out.1 == alice.identity.verifying.bytes,
        ({
            let a = alice.ratchets[bob.identity.verifying.bytes];
            let b = bob.ratchets[alice.identity.verifying.bytes];
            let a2 = alice_after.ratchets[bob.identity.verifying.bytes];
            let b2 = bob_after.ratchets[alice.identity.verifying.bytes];
            &&& linked(a2, b2)
            &&& awaits_ratchet(a, b) && a.peer_dh_pub != Some(b2.dh_pub) ==> linked(b2, a2)
        }),
{
    let ka = bob.identity.verifying.bytes;
    let kb = alice.identity.verifying.bytes;
    let m = choose|m: Encrypted| #[trigger]
        sent(alice.ratchets[ka], plaintext, alice_after.ratchets[ka], Ok(m)) && carries(
            env,
            0,
            kb,
            m,
            None,
        );
    let (m2, ra, rr) = choose|m2: Encrypted, ra: RatchetState, rr: Result<Vec<u8>, CryptoError>|
        #[trigger]
        decrypted(bob.ratchets[env.sender], m2, ra, rr) && is_message_of(env, m2)
            && plaintext_of(rr, env.sender, r) && bob_after == (if rr is Ok {
            SessionState { ratchets: bob.ratchets.insert(env.sender, ra), ..bob }
        } else {
            bob
        });
    lemma_header_fields(m2.header, m.header);
    assert(sent(
        alice.ratchets[ka],
        plaintext,
        alice_after.ratchets[ka],
        Ok::<Encrypted, CryptoError>(m2),
    ));
    lemma_delivery(
        alice.ratchets[ka],
        bob.ratchets[kb],
        plaintext,
        alice_after.ratchets[ka],
        m2,
        ra,
        rr,
    );
}

/// A direct envelope that does not open is dropped: it leaves every session as
/// it was, whatever is wrong with it.
pub proof fn lemma_bad_envelope_dropped(
    before: SessionState,
    env: EncryptedEnvelope,
    after: SessionState,
    r: Result<(Vec<u8>, [u8; 32]), ClientError>,
)
    requires
        direct_received(before, env, after, r),
        r is Err,
    ensures
        after == before,
{
}

/// A group message is delivered: a member whose session follows Alice's chain
/// gets Alice's plaintext, with Alice as the sender, and follows the chain
/// afterwards.
pub proof fn lemma_group_message(
    alice: SessionState,
    bob: SessionState,
    gid: [u8; 32],
    plaintext: Seq<u8>,
    alice_after: GroupState,
    m: GroupEncrypted,
    env: EncryptedEnvelope,
    bob_after: SessionState,
    r: Result<(Vec<u8>, [u8; 32]), ClientError>,
)
    requires
        session_wf(alice),
        alice.groups.contains_key(gid),
        alice.groups[gid].generation < u32::MAX,
        group_sent(alice.groups[gid], plaintext, alice_after, m),
        carries_group(env, 0, alice.identity.verifying.bytes, m),
        group_envelope_received(bob, env, bob_after, r),
        bob.groups.contains_key(gid),
        bob.groups[gid].peers.contains_key(alice.groups[gid].member_id),
        follows(bob.groups[gid].peers[alice.groups[gid].member_id], alice.groups[gid]),
    ensures
        r matches Ok(out) && out.0@ == plaintext && out.1 == alice.identity.verifying.bytes,
        follows(bob_after.groups[gid].peers[alice.groups[gid].member_id], alice_after),
{
    assert(group_wf(alice, gid));
    let m2 = choose|m2: GroupEncrypted| #[trigger]
        is_group_message_of(env, m2) && (if !bob.groups.contains_key(m2.header.group_id) {
            bob_after == bob && (r matches Err(ClientError::NoGroupSession(s)) && s@
                == hexadecimal::hex_chars(m2.header.group_id@.take(4)))
        } else {
            group_opened(bob, env, m2, bob_after, r)
        });
    lemma_group_header_fields(m2.header, m.header);
    let (ga, rr) = choose|ga: GroupState, rr: Result<Vec<u8>, CryptoError>| #[trigger]
        group_received(bob.groups[gid], m2, ga, rr) && plaintext_of(rr, env.sender, r) && bob_after
            == (SessionState { groups: bob.groups.insert(gid, ga), ..bob });
    assert(group_sent(alice.groups[gid], plaintext, alice_after, m2));
    lemma_group_delivery(alice.groups[gid], bob.groups[gid], plaintext, alice_after, m2, ga, rr);
}

/// A member who adds the state that another distributes follows the other.
pub proof fn lemma_distribution_follows(alice: GroupState, bob: GroupState, state: SenderKeyState)
    requires
        exports(alice, state),
        follows(
            PeerView {
                chain_key: state.chain_key.0@,
                generation: state.generation,
                signing_pub: state.signing_pub@,
            },
            alice,
        ),
    ensures
        with_peer(bob, state).peers.contains_key(alice.member_id),
        follows(with_peer(bob, state).peers[alice.member_id], alice),
{
}

/// A group message whose envelope names another sender than its signed header
/// is refused, and nothing changes.
pub proof fn lemma_spoofed_sender_refused(
    before: SessionState,
    env: EncryptedEnvelope,
    after: SessionState,
    r: Result<(Vec<u8>, [u8; 32]), ClientError>,
    f: (Seq<u8>, Seq<u8>, u32, Seq<u8>, Seq<u8>),
)
    requires
        group_envelope_received(before, env, after, r),
        wire::group_header_fields_of(env.header@) == Ok::<_, CodecError>(f),
        f.1 != fingerprint_spec(env.sender@),
    ensures
        r is Err,
        after == before,
{
}

/// A registered bundle offers the client's own keys: its identity, its current
/// signed prekey under its id with its signature, every one-time prekey by its id
/// and public half, in order, and the post-quantum key of its seed, signed by the
/// identity.
pub proof fn lemma_registered(s: SessionState, b: PreKeyBundle, i: int)
    requires
        registers(s, b),
    ensures
        b.identity_pub == s.identity.verifying.bytes,
        b.signed_prekey_id == s.signed.id,
        b.signed_prekey_pub == s.signed.pub_key.bytes,
        b.signed_prekey_sig@ == s.signed.signature@,
        b.one_time_prekeys@.len() == s.one_time.len(),
        0 <= i < s.one_time.len() ==> b.one_time_prekeys@[i].0 == s.one_time[i].1.id
            && b.one_time_prekeys@[i].1 == s.one_time[i].1.pub_key.bytes,
        b.pq_encapsulation_key matches Some(k) && k@ == primitives::mlkem_public_of(s.pq_seed),
        b.pq_encapsulation_key_sig matches Some(sig) && sig@ == primitives::ed25519_signature_of(
            s.identity.signing@,
            b.pq_encapsulation_key.unwrap()@,
        ),
{
}

/// A bundle is read whole: the identity, the signed prekey with its id and
/// signature, every one-time prekey under its id, in order, and the post-quantum
/// key with its signature where there is one.
pub proof fn lemma_parsed(b: PreKeyBundle, c: CryptoBundle, i: int)
    requires
        parsed(b, c),
    ensures
        c.identity_pub.bytes == b.identity_pub,
        c.signed_prekey_id == b.signed_prekey_id,
        c.signed_prekey_pub.bytes == b.signed_prekey_pub,
        c.signed_prekey_sig@ == b.signed_prekey_sig@,
        c.one_time_prekeys@.len() == b.one_time_prekeys@.len(),
        0 <= i < b.one_time_prekeys@.len() ==> c.one_time_prekeys@[i].0 == b.one_time_prekeys@[i].0
            && c.one_time_prekeys@[i].1.bytes == b.one_time_prekeys@[i].1,
        c.pq_prekey is Some <==> b.pq_encapsulation_key is Some,
        c.pq_prekey matches Some(pq) ==> (b.pq_encapsulation_key matches Some(k) && pq.key@ == k@)
            && (b.pq_encapsulation_key_sig matches Some(sig) && pq.signature@ == sig@),
{
}

/// A session is started only against a bundle of keys and signatures whose
/// identity signed the signed prekey and the post-quantum key; of any other the
/// first thing wrong with it is told, and nothing changes.
pub proof fn lemma_bundle_checked(
    before: SessionState,
    b: PreKeyBundle,
    plaintext: Seq<u8>,
    after: SessionState,
    r: Result<EncryptedEnvelope, ClientError>,
)
    requires
        session_started(before, b, plaintext, after, r),
    ensures
        r is Ok ==> primitives::ed25519_point(b.identity_pub@) && primitives::ed25519_accepts(
            b.identity_pub@,
            b.signed_prekey_pub@,
            b.signed_prekey_sig@,
        ),
        r is Ok && b.pq_encapsulation_key is Some ==> (b.pq_encapsulation_key_sig matches Some(sig)
            && primitives::ed25519_accepts(b.identity_pub@, b.pq_encapsulation_key.unwrap()@, sig@)),
        r is Ok ==> b.pq_encapsulation_key is Some == b.pq_encapsulation_key_sig is Some,
        r is Ok && b.pq_encapsulation_key is Some ==> primitives::mlkem_accepts(
            b.pq_encapsulation_key.unwrap()@,
        ),
        primitives::ed25519_point(b.identity_pub@) && b.signed_prekey_sig@.len() == 64
            && primitives::ed25519_accepts(
            b.identity_pub@,
            b.signed_prekey_pub@,
            b.signed_prekey_sig@,
        ) && b.pq_encapsulation_key is None && b.pq_encapsulation_key_sig is None ==> r is Ok,
        r is Err ==> after == before,
        !primitives::ed25519_point(b.identity_pub@) ==> (r matches Err(ClientError::Store(s)) && s@
            == "bad peer identity pub"@),
        primitives::ed25519_point(b.identity_pub@) && b.signed_prekey_sig@.len() != 64 ==> (
        r matches Err(ClientError::Store(s)) && s@ == "bad peer signature"@),
        r is Err && primitives::ed25519_point(b.identity_pub@) && b.signed_prekey_sig@.len() == 64
            ==> (r matches Err(ClientError::Crypto(c)) && c == CryptoError::MalformedBundle),
{
}

/// A started session is with the owner of the bundle and with nobody else. It
/// takes up the bundle's first one-time prekey where there is one, whose agreement
/// enters the root key, and the envelope goes out in the client's name with the
/// init message.
pub proof fn lemma_started(
    before: SessionState,
    b: PreKeyBundle,
    plaintext: Seq<u8>,
    after: SessionState,
    env: EncryptedEnvelope,
    c: CryptoBundle,
    init: SessionInit,
    im: InitMessage,
    kem: Option<Seq<u8>>,
    m: Encrypted,
    other: [u8; 32],
)
    requires
        started(before, b, plaintext, after, env, c, init, im, kem, m),
        other != b.identity_pub,
    ensures
        after.ratchets.contains_key(b.identity_pub),
        after.ratchets.contains_key(other) == before.ratchets.contains_key(other),
        after.ratchets[other] == before.ratchets[other],
        after == (SessionState { ratchets: after.ratchets, ..before }),
        env.sender == before.identity.verifying.bytes,
        env.kind is Direct,
        env.init is Some,
        b.one_time_prekeys@.len() > 0 ==> {
            &&& im.bob_one_time_prekey_id == Some(b.one_time_prekeys@[0].0)
            &&& init.root_key@ == x3dh::initiator_root(
                before.identity.signing@,
                init.alice_ephemeral_priv@,
                primitives::montgomery_of(b.identity_pub@).unwrap(),
                b.signed_prekey_pub@,
                Some(b.one_time_prekeys@[0].1@),
                kem,
            )
        },
        b.one_time_prekeys@.len() == 0 ==> {
            &&& im.bob_one_time_prekey_id is None
            &&& init.root_key@ == x3dh::initiator_root(
                before.identity.signing@,
                init.alice_ephemeral_priv@,
                primitives::montgomery_of(b.identity_pub@).unwrap(),
                b.signed_prekey_pub@,
                None,
                kem,
            )
        },
        im.bob_signed_prekey_id == b.signed_prekey_id,
        im.alice_identity_pub == before.identity.verifying,
        kem is Some <==> b.pq_encapsulation_key is Some,
        b.pq_encapsulation_key matches Some(k) ==> (im.pq_ciphertext matches Some(ct) && exists|
            seed: Seq<u8>,
        |
            seed.len() == 32 && #[trigger] primitives::mlkem_encapsulated_of(k@, seed) == (
                ct@,
                kem.unwrap(),
            )),
        sent(
            alice_start(init, after.ratchets[b.identity_pub].dh_priv),
            plaintext,
            after.ratchets[b.identity_pub],
            Ok(m),
        ),
        env.ciphertext@ == m.ciphertext@,
{
    if b.pq_encapsulation_key is Some {
        x3dh::lemma_kem_of_bundle(c, im, kem);
    }
    lemma_parsed(b, c, 0);
    let keys = c.one_time_prekeys@;
    if b.one_time_prekeys@.len() > 0 {
        assert(keys[0].0 == b.one_time_prekeys@[0].0);
        assert(x3dh::position_of_id(keys, keys[0].0, 0) == Some(0int));
    }
}

/// An initiation is completed with the signed prekey of the id that it names as
/// far as that was rotated out, else with the current one, and with the one-time
/// prekey of the id that it names.
pub proof fn lemma_prekeys_found(s: SessionState, id: u32, i: int)
    requires
        keys_distinct(s.one_time),
    ensures
        s.previous.contains_key(id) ==> signed_for(s, id) == s.previous[id],
        !s.previous.contains_key(id) ==> signed_for(s, id) == s.signed,
        one_time_for(s, None) is None,
        0 <= i < s.one_time.len() ==> one_time_for(s, Some(s.one_time[i].0)) == Some(
            s.one_time[i].1,
        ),
        (forall|j: int| 0 <= j < s.one_time.len() ==> (#[trigger] s.one_time[j]).0 != id)
            ==> one_time_for(s, Some(id)) is None,
{
    if 0 <= i < s.one_time.len() {
        lemma_key_place(s.one_time, i);
    }
}

/// Rotating takes up a signed prekey under the next id, keeps the one before
/// under its own, and touches nothing else.
pub proof fn lemma_rotated(before: SessionState, after: SessionState, id: u32)
    requires
        rotated(before, after),
        id != before.signed.id,
    ensures
        after.signed.id == before.signed.id + 1,
        after.previous.contains_key(before.signed.id),
        after.previous[before.signed.id] == before.signed,
        after.previous.contains_key(id) == before.previous.contains_key(id),
        after.previous[id] == before.previous[id],
        after.identity == before.identity,
        after.one_time == before.one_time,
        after.pq_seed == before.pq_seed,
        after.ratchets == before.ratchets,
        after.groups == before.groups,
{
}

/// Replenishing adds so many one-time prekeys with ids that none had, keeps all
/// that were there, and touches nothing else.
pub proof fn lemma_replenished(before: SessionState, count: u32, after: SessionState, i: int, j: int)
    requires
        replenished(before, count, after),
        may_replenish(before, count),
    ensures
        after.one_time.len() == before.one_time.len() + count,
        0 <= i < before.one_time.len() ==> after.one_time[i] == before.one_time[i],
        0 <= i < before.one_time.len() <= j < after.one_time.len() ==> after.one_time[i].0
            < after.one_time[j].0,
        before.one_time.len() <= i < j < after.one_time.len() ==> after.one_time[j].0
            == after.one_time[i].0 + (j - i),
        count > 0 ==> after.one_time[before.one_time.len() as int].0 == highest_id(before.one_time)
            + 1,
        after.identity == before.identity,
        after.signed == before.signed,
        after.previous == before.previous,
        after.pq_seed == before.pq_seed,
        after.ratchets == before.ratchets,
        after.groups == before.groups,
{
    lemma_highest(before.one_time);
    let n = before.one_time.len() as int;
    if count > 0 {
        let w = after.one_time[n];
    }
    if 0 <= i < after.one_time.len() {
        let x = after.one_time[i];
    }
    if 0 <= j < after.one_time.len() {
        let y = after.one_time[j];
    }
    if 0 <= i < before.one_time.len() {
        let z = before.one_time[i];
    }
}

/// The highest id is that of a one-time prekey, or 0 where there is none.
pub proof fn lemma_highest_held(keys: Seq<(u32, OneTimePreKey)>)
    ensures
        highest_id(keys) == 0 || exists|i: int|
            0 <= i < keys.len() && (#[trigger] keys[i]).0 == highest_id(keys),
    decreases keys.len(),
{
    if keys.len() > 0 {
        let rest = keys.drop_last();
        let n = keys.len() - 1;
        lemma_highest_held(rest);
        if keys[n].0 > highest_id(rest) {
            assert(keys[n].0 == highest_id(keys));
        } else if highest_id(rest) != 0 {
            let i = choose|i: int| 0 <= i < rest.len() && (#[trigger] rest[i]).0 == highest_id(rest);
            assert(keys[i].0 == highest_id(keys));
        }
    }
}

/// Sending to a peer takes the session with that peer, moves it on by one message
/// and touches no other session; without a session it fails. The envelope goes
/// out in the client's name, without an init message.
pub proof fn lemma_direct_sent(
    before: SessionState,
    peer: [u8; 32],
    plaintext: Seq<u8>,
    after: SessionState,
    r: Result<EncryptedEnvelope, ClientError>,
    other: [u8; 32],
)
    requires
        direct_sent(before, peer, plaintext, after, r),
        may_send(before, peer),
        other != peer,
    ensures
        !before.ratchets.contains_key(peer) ==> r matches Err(ClientError::NoSession),
        r is Ok <==> before.ratchets.contains_key(peer) && before.ratchets[peer].cks is Some,
        r is Err ==> after == before,
        after.ratchets.contains_key(other) == before.ratchets.contains_key(other),
        after.ratchets[other] == before.ratchets[other],
        after == (SessionState { ratchets: after.ratchets, ..before }),
        r is Ok ==> after.ratchets[peer].ns == before.ratchets[peer].ns + 1,
        r matches Ok(env) ==> env.sender == before.identity.verifying.bytes && env.kind is Direct
            && env.init is None,
{
}

/// Sending to a group takes the session of that group, moves it on by one message
/// and touches no other session; without one it fails. The envelope goes out in
/// the client's name.
pub proof fn lemma_group_message_sent(
    before: SessionState,
    group_id: [u8; 32],
    plaintext: Seq<u8>,
    after: SessionState,
    r: Result<EncryptedEnvelope, ClientError>,
    other: [u8; 32],
)
    requires
        group_message_sent(before, group_id, plaintext, after, r),
        may_send_group(before, group_id),
        other != group_id,
    ensures
        r is Ok <==> before.groups.contains_key(group_id),
        r is Err ==> after == before,
        r matches Err(e) ==> (e matches ClientError::NoGroupSession(s) && s@
            == hexadecimal::hex_chars(group_id@.take(4))),
        after.groups.contains_key(other) == before.groups.contains_key(other),
        after.groups[other] == before.groups[other],
        after == (SessionState { groups: after.groups, ..before }),
        r is Ok ==> after.groups[group_id].generation == before.groups[group_id].generation + 1,
        r matches Ok(env) ==> env.sender == before.identity.verifying.bytes && env.kind is Group,
{
}

/// An envelope that comes in touches the session with its sender alone, or that
/// of its group, and what comes out is said by the sender that it names.
pub proof fn lemma_receiving_touches_one(
    before: SessionState,
    env: EncryptedEnvelope,
    after: SessionState,
    r: Result<(Vec<u8>, [u8; 32]), ClientError>,
    other: [u8; 32],
)
    requires
        envelope_received(before, env, after, r),
    ensures
        r matches Ok(out) ==> out.1 == env.sender,
        env.kind is Direct ==> after == (SessionState { ratchets: after.ratchets, ..before }),
        env.kind is Group ==> after == (SessionState { groups: after.groups, ..before }),
        other != env.sender ==> after.ratchets.contains_key(other) == before.ratchets.contains_key(
            other,
        ) && after.ratchets[other] == before.ratchets[other],
        env.kind is Direct && r is Err ==> after == before,
        env.kind is Direct && r is Ok ==> after.ratchets.contains_key(env.sender),
        env.kind is Direct && !before.ratchets.contains_key(env.sender) && env.init is None ==> (
        r matches Err(ClientError::NoSession)),
{
}

/// A session of a group begins with the client as its member, under the client's
/// fingerprint, at generation 0 and with no other member; other groups keep
/// theirs.
pub proof fn lemma_group_created(
    before: SessionState,
    group_id: [u8; 32],
    after: SessionState,
    other: [u8; 32],
)
    requires
        group_created(before, group_id, after),
        other != group_id,
    ensures
        after.groups.contains_key(group_id),
        after.groups[group_id].group_id == group_id,
        after.groups[group_id].member_id@ == primitives::sha256_of(before.identity.verifying@),
        after.groups[group_id].generation == 0,
        forall|k: [u8; 32]| !after.groups[group_id].peers.contains_key(k),
        after.groups.contains_key(other) == before.groups.contains_key(other),
        after.groups[other] == before.groups[other],
        after == (SessionState { groups: after.groups, ..before }),
{
}

/// A member's recorded state is the one that was handed over, under that member's
/// id; the other members' stay, and so does the own chain.
pub proof fn lemma_with_peer(g: GroupState, state: SenderKeyState, other: [u8; 32])
    requires
        other != state.member_id,
    ensures
        with_peer(g, state).peers.contains_key(state.member_id),
        with_peer(g, state).peers[state.member_id].chain_key == state.chain_key.0@,
        with_peer(g, state).peers[state.member_id].generation == state.generation,
        with_peer(g, state).peers[state.member_id].signing_pub == state.signing_pub@,
        with_peer(g, state).peers.contains_key(other) == g.peers.contains_key(other),
        with_peer(g, state).peers[other] == g.peers[other],
        with_peer(g, state) == (GroupState { peers: with_peer(g, state).peers, ..g }),
{
}

/// What is handed over is the own chain as it stands: the member's id, the chain
/// key, both signing keys and the generation.
pub proof fn lemma_exports(g: GroupState, state: SenderKeyState)
    requires
        exports(g, state),
    ensures
        state.member_id == g.member_id,
        state.chain_key.0@ == g.chain_key,
        state.signing_priv@ == g.signing,
        state.signing_pub@ == g.signing_pub,
        state.generation == g.generation,
{
}

/// A consistent state holds whole keys: its identity, its signed prekey, which the
/// identity signed, those rotated out, and its one-time prekeys, each under its
/// own id and none twice; and its groups are listed under their ids with the
/// client as their member.
pub proof fn lemma_consistent(s: SessionState, i: int, j: int, id: u32, k: [u8; 32])
    requires
        session_wf(s),
    ensures
        s.identity.verifying@ == primitives::ed25519_public_of(s.identity.signing@),
        s.signed.pub_key@ == primitives::x25519_public_of(s.signed.priv_key@),
        primitives::ed25519_accepts(s.identity.verifying@, s.signed.pub_key@, s.signed.signature@),
        s.previous.contains_key(id) ==> s.previous[id].pub_key@ == primitives::x25519_public_of(
            s.previous[id].priv_key@,
        ),
        0 <= i < s.one_time.len() ==> s.one_time[i].1.id == s.one_time[i].0
            && s.one_time[i].1.pub_key@ == primitives::x25519_public_of(s.one_time[i].1.priv_key@),
        0 <= i < j < s.one_time.len() ==> s.one_time[i].0 != s.one_time[j].0,
        s.groups.contains_key(k) ==> s.groups[k].group_id == k && s.groups[k].member_id@
            == primitives::sha256_of(s.identity.verifying@) && s.groups[k].signing_pub
            == primitives::ed25519_public_of(s.groups[k].signing),
{
    if 0 <= i < s.one_time.len() {
        let x = s.one_time[i];
    }
    if s.groups.contains_key(k) {
        assert(group_wf(s, k));
    }
}

/// The first envelope of a peer is refused for what is wrong with it: no init
/// message, bytes that are none, a key that is none, or a one-time prekey that is
/// not at hand, which is named.
pub proof fn lemma_began(
    s: SessionState,
    env: EncryptedEnvelope,
    r: Result<(SessionInit, SignedPreKey), ClientError>,
)
    requires
        began(s, env, r),
    ensures
        env.init is None ==> (r matches Err(ClientError::NoSession)),
        r is Ok ==> env.init is Some && (wire::init_fields_of(env.init.unwrap()@) matches Ok(f)
            && is_verifying_key(f.0) && (f.3 is Some ==> one_time_for(s, f.3) is Some)),
        env.init matches Some(bytes) ==> (wire::init_fields_of(bytes@) matches Ok(f) ==> (
        is_verifying_key(f.0) && f.3 is Some && one_time_for(s, f.3) is None ==> (r matches Err(
            ClientError::NoOneTimePreKey(id),
        ) && Some(id) == f.3))),
        r matches Ok(out) ==> (wire::init_fields_of(env.init.unwrap()@) matches Ok(f) && out.1
            == signed_for(s, f.2)),
{
}

/// A group envelope is refused, and nothing changes, where its header or its
/// signature is none, where it names another sender than its header, and where
/// there is no session of its group.
pub proof fn lemma_group_envelope_refused(
    before: SessionState,
    env: EncryptedEnvelope,
    after: SessionState,
    r: Result<(Vec<u8>, [u8; 32]), ClientError>,
)
    requires
        group_envelope_received(before, env, after, r),
    ensures
        wire::group_header_fields_of(env.header@) is Err ==> r is Err && after == before,
        env.signature@.len() != 64 ==> r is Err && after == before,
        r is Ok ==> (wire::group_header_fields_of(env.header@) matches Ok(f) && is_verifying_key(f.3)
            && f.1 == primitives::sha256_of(env.sender@) && exists|g: [u8; 32]|
            before.groups.contains_key(g) && #[trigger] g@ == f.0),
{
    if r is Ok {
        let m = choose|m: GroupEncrypted| #[trigger]
            is_group_message_of(env, m) && (if !before.groups.contains_key(m.header.group_id) {
                after == before && (r matches Err(ClientError::NoGroupSession(s)) && s@
                    == hexadecimal::hex_chars(m.header.group_id@.take(4)))
            } else {
                group_opened(before, env, m, after, r)
            });
        assert(before.groups.contains_key(m.header.group_id));
        assert(m.header.group_id@ == wire::group_header_fields_of(env.header@).unwrap().0);
    }
}

/// The counters have room for every group envelope, and for a direct one unless a
/// counter or the number of the message is the largest there is.
pub proof fn lemma_receivable(s: SessionState, env: EncryptedEnvelope)
    ensures
        env.kind is Group ==> receivable(s, env),
        env.kind is Direct && wire::header_fields_of(env.header@) is Err ==> receivable(s, env),
        wire::header_fields_of(env.header@) matches Ok(f) ==> (f.2 < u32::MAX && (
        s.ratchets.contains_key(env.sender) ==> s.ratchets[env.sender].nr < u32::MAX) ==> receivable(
            s,
            env,
        )),
{
}

/// The counter of a session or group has room while it is below the largest
/// number; without a session nothing is counted.
pub proof fn lemma_may_send(s: SessionState, k: [u8; 32])
    ensures
        !s.ratchets.contains_key(k) ==> may_send(s, k),
        s.ratchets.contains_key(k) ==> (may_send(s, k) <==> s.ratchets[k].ns < u32::MAX),
        !s.groups.contains_key(k) ==> may_send_group(s, k),
        s.groups.contains_key(k) ==> (may_send_group(s, k) <==> s.groups[k].generation < u32::MAX),
{
}

} // verus!
