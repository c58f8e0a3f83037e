//! Sender Keys for group messages.
//!
//! Each member has a symmetric chain and a signing key of their own and hands
//! both, over one-to-one sessions, to the other members, who follow the chain
//! with every message.
use crate::bytes::{append, append_le32, array32, le32, lemma_le32, to_vec};
use crate::crypto::aead::{
    chain_after, chain_message_key, kdf_chain, next_chain_key, open, random_nonce, seal,
    unsealed,
};
use crate::crypto::error::CryptoError;
use crate::crypto::identity::{fingerprint_spec, IdentityKey};
use crate::crypto::keys::{Signature, SigningKey, VerifyingKey};
use crate::keymap::KeyMap;
use crate::primitives;
use crate::wire;
use vstd::prelude::*;

verus! {

/// A member's id: the fingerprint of their identity.
pub type MemberId = [u8; 32];

/// The chain key of a member's sending chain.
#[derive(Clone, Copy)]
pub struct SenderChainKey(pub [u8; 32]);

impl SenderChainKey {
    /// A chain that starts at `seed`.
    pub fn new(seed: [u8; 32]) -> (r: Self)
        ensures
            r.0 == seed,
    {
        SenderChainKey(seed)
    }

    /// Moves the chain on by one message and returns that message's key.
    pub fn ratchet(&mut self) -> (r: [u8; 32])
        ensures
            r@ == chain_message_key(old(self).0@),
            final(self).0@ == next_chain_key(old(self).0@),
    {
        let (new_ck, mk) = kdf_chain(&self.0);
        self.0 = new_ck;
        mk
    }
}

/// A member's own sender-key state, as it is handed to the others.
#[derive(Clone, Copy)]
pub struct SenderKeyState {
    pub member_id: MemberId,
    pub chain_key: SenderChainKey,
    pub signing_priv: SigningKey,
    pub signing_pub: VerifyingKey,
    pub generation: u32,
}

/// What travels in the clear with a group message.
#[derive(Clone, Copy, Debug)]
pub struct GroupHeader {
    pub group_id: [u8; 32],
    pub sender_id: MemberId,
    pub generation: u32,
    pub signing_pub: VerifyingKey,
    pub nonce: [u8; 24],
}

/// An encrypted and signed group message.
#[derive(Debug)]
pub struct GroupEncrypted {
    pub header: GroupHeader,
    pub ciphertext: Vec<u8>,
    pub signature: Signature,
}

/// What a member knows of another member's chain: the chain key after the
/// last message, that message's generation, and the signing key.
#[derive(Clone, Copy)]
pub struct PeerState {
    pub chain_key: SenderChainKey,
    pub generation: u32,
    pub signing_pub: VerifyingKey,
}

/// One member's end of a group conversation.
pub struct GroupSession {
    pub group_id: [u8; 32],
    pub self_state: SenderKeyState,
    pub peer_states: KeyMap<MemberId, PeerState>,
}

/// The contents of a [`PeerState`].
pub struct PeerView {
    pub chain_key: Seq<u8>,
    pub generation: u32,
    pub signing_pub: Seq<u8>,
}

impl View for PeerState {
    type V = PeerView;

    open spec fn view(&self) -> PeerView {
        PeerView {
            chain_key: self.chain_key.0@,
            generation: self.generation,
            signing_pub: self.signing_pub@,
        }
    }
}

/// The state of a group session.
pub struct GroupState {
    pub group_id: [u8; 32],
    pub member_id: MemberId,
    pub chain_key: Seq<u8>,
    pub signing: Seq<u8>,
    pub signing_pub: Seq<u8>,
    pub generation: u32,
    pub peers: Map<MemberId, PeerView>,
}

impl View for GroupSession {
    type V = GroupState;

    open spec fn view(&self) -> GroupState {
        GroupState {
            group_id: self.group_id,
            member_id: self.self_state.member_id,
            chain_key: self.self_state.chain_key.0@,
            signing: self.self_state.signing_priv@,
            signing_pub: self.self_state.signing_pub@,
            generation: self.self_state.generation,
            peers: self.peer_states@.map_values(|p: PeerState| p@),
        }
    }
}

/// The bytes of a group header that tag and signature cover.
pub open spec fn group_aad_of(h: GroupHeader) -> Seq<u8> {
    h.group_id@ + h.sender_id@ + le32(h.generation) + h.signing_pub@ + h.nonce@
}

/// The state after a message is sent.
pub open spec fn group_send_step(s: GroupState) -> GroupState {
    GroupState {
        chain_key: next_chain_key(s.chain_key),
        generation: (s.generation + 1) as u32,
        ..s
    }
}

/// The key of the message of generation `generation` of a peer's chain.
pub open spec fn peer_message_key(p: PeerView, generation: u32) -> Seq<u8> {
    chain_message_key(chain_after(p.chain_key, (generation - p.generation - 1) as nat))
}

/// A peer's chain after the message of generation `generation`.
pub open spec fn peer_after(p: PeerView, generation: u32) -> PeerView {
    PeerView {
        chain_key: chain_after(p.chain_key, (generation - p.generation) as nat),
        generation,
        ..p
    }
}

/// Whether a message is accepted before decryption, and the error where not:
/// its sender must be known, its signature must verify under the sender's
/// signing key, and it must be newer than the last one seen.
pub open spec fn group_refusal(s: GroupState, m: GroupEncrypted) -> Option<CryptoError> {
    if !s.peers.contains_key(m.header.sender_id) {
        Some(CryptoError::MissingPreKey)
    } else if !primitives::ed25519_accepts(
        s.peers[m.header.sender_id].signing_pub,
        group_aad_of(m.header) + m.ciphertext@,
        m.signature@,
    ) {
        Some(CryptoError::InvalidSignature)
    } else if m.header.generation <= s.peers[m.header.sender_id].generation {
        Some(CryptoError::DecryptionFailed)
    } else {
        None
    }
}

/// What decrypting a group message does. A refused message changes nothing;
/// an accepted one moves the sender's chain to its generation, whether or not
/// its tag verifies.
pub open spec fn group_received(
    before: GroupState,
    m: GroupEncrypted,
    after: GroupState,
    r: Result<Vec<u8>, CryptoError>,
) -> bool {
    match group_refusal(before, m) {
        Some(e) => after == before && r == Err::<Vec<u8>, CryptoError>(e),
        None => {
            let peer = before.peers[m.header.sender_id];
            &&& after == GroupState {
                peers: before.peers.insert(
                    m.header.sender_id,
                    peer_after(peer, m.header.generation),
                ),
                ..before
            }
            &&& match unsealed(
                peer_message_key(peer, m.header.generation),
                m.header.nonce@,
                group_aad_of(m.header),
                m.ciphertext@,
            ) {
                Some(p) => r matches Ok(v) && v@ == p,
                None => r == Err::<Vec<u8>, CryptoError>(CryptoError::DecryptionFailed),
            }
        },
    }
}

/// What encrypting a group message does.
pub open spec fn group_sent(
    before: GroupState,
    plaintext: Seq<u8>,
    after: GroupState,
    m: GroupEncrypted,
) -> bool {
    let key = chain_message_key(before.chain_key);
    &&& after == group_send_step(before)
    &&& m.header.group_id == before.group_id
    &&& m.header.sender_id == before.member_id
    &&& m.header.generation == before.generation + 1
    &&& m.header.signing_pub@ == before.signing_pub
    &&& m.ciphertext@ == primitives::sealed_of(
        key,
        m.header.nonce@,
        group_aad_of(m.header),
        plaintext,
    )
    &&& m.ciphertext@.len() == plaintext.len() + 16
    &&& unsealed(key, m.header.nonce@, group_aad_of(m.header), m.ciphertext@) == Some(
        plaintext,
    )
    &&& m.signature@ == primitives::ed25519_signature_of(
        before.signing,
        group_aad_of(m.header) + m.ciphertext@,
    )
    &&& primitives::ed25519_accepts(
        primitives::ed25519_public_of(before.signing),
        group_aad_of(m.header) + m.ciphertext@,
        m.signature@,
    )
}

/// A peer's record of a member is in step with the member's own state: the
/// member reached their chain key from the recorded one.
pub open spec fn follows(p: PeerView, a: GroupState) -> bool {
    &&& p.generation <= a.generation
    &&& a.chain_key == chain_after(p.chain_key, (a.generation - p.generation) as nat)
    &&& p.signing_pub == primitives::ed25519_public_of(a.signing)
}

/// A member who follows another decrypts the other's next message, also when
/// messages in between were lost, and follows them afterwards.
pub proof fn lemma_group_delivery(
    a: GroupState,
    b: GroupState,
    plaintext: Seq<u8>,
    a_after: GroupState,
    m: GroupEncrypted,
    b_after: GroupState,
    r: Result<Vec<u8>, CryptoError>,
)
    requires
        group_sent(a, plaintext, a_after, m),
        group_received(b, m, b_after, r),
        b.peers.contains_key(a.member_id),
        follows(b.peers[a.member_id], a),
        a.generation < u32::MAX,
    ensures
        r matches Ok(v) && v@ == plaintext,
        follows(b_after.peers[a.member_id], a_after),
{
    let p = b.peers[a.member_id];
    let k = (a.generation - p.generation) as nat;
    assert(chain_after(p.chain_key, k + 1) == next_chain_key(chain_after(p.chain_key, k)));
    let after = b_after.peers[a.member_id];
    assert(after.chain_key == a_after.chain_key);
    assert(chain_after(after.chain_key, 0) == after.chain_key);
}

/// A message whose generation was already reached is refused: no group
/// message is decrypted twice.
pub proof fn lemma_group_no_replay(
    b: GroupState,
    m: GroupEncrypted,
    b_after: GroupState,
    r: Result<Vec<u8>, CryptoError>,
)
    requires
        group_received(b, m, b_after, r),
        group_refusal(b, m) is None,
    ensures
        group_refusal(b_after, m) == Some(CryptoError::DecryptionFailed),
{
}

/// The bytes of a group header that tag and signature cover.
fn group_header_aad(h: &GroupHeader) -> (r: Vec<u8>)
    ensures
        r@ == group_aad_of(*h),
{
    let mut aad: Vec<u8> = Vec::new();
    append(&mut aad, &h.group_id);
    append(&mut aad, &h.sender_id);
    append_le32(&mut aad, h.generation);
    append(&mut aad, &h.signing_pub.bytes);
    append(&mut aad, &h.nonce);
    assert(aad@ =~= group_aad_of(*h));
    aad
}

impl GroupSession {
    /// The own signing keys belong together, and no peer is listed twice.
    pub open spec fn wf(&self) -> bool {
        &&& self.peer_states.wf()
        &&& self.self_state.signing_pub@ == primitives::ed25519_public_of(
            self.self_state.signing_priv@,
        )
        &&& primitives::ed25519_point(self.self_state.signing_pub@)
    }

    /// A session with a fresh chain and a fresh signing key.
    pub fn new(group_id: [u8; 32], self_identity: &IdentityKey) -> (r: Result<Self, CryptoError>)
        ensures
            r matches Ok(s) && s.wf() && s.group_id == group_id && s.self_state.member_id@
                == fingerprint_spec(self_identity.verifying@) && s.self_state.generation == 0
                && s@.peers == Map::<MemberId, PeerView>::empty(),
    {
        Self::new_with(
            group_id,
            self_identity,
            primitives::os_random::<32>(),
            SigningKey::random(),
        )
    }

    /// A session whose chain starts at `seed`, with the signing key
    /// `signing_priv`.
    pub fn new_with(
        group_id: [u8; 32],
        self_identity: &IdentityKey,
        seed: [u8; 32],
        signing_priv: SigningKey,
    ) -> (r: Result<Self, CryptoError>)
        ensures
            r matches Ok(s) && s.wf() && s.group_id == group_id && s.self_state.member_id@
                == fingerprint_spec(self_identity.verifying@) && s.self_state.chain_key.0 == seed
                && s.self_state.signing_priv == signing_priv && s.self_state.generation == 0
                && s@.peers == Map::<MemberId, PeerView>::empty(),
    {
        let self_state = SenderKeyState {
            member_id: self_identity.fingerprint(),
            chain_key: SenderChainKey::new(seed),
            signing_priv,
            signing_pub: signing_priv.verifying_key(),
            generation: 0,
        };
        let s = GroupSession { group_id, self_state, peer_states: KeyMap::new() };
        assert(s@.peers =~= Map::<MemberId, PeerView>::empty());
        Ok(s)
    }

    /// Encrypts and signs the next message of the own chain.
    pub fn encrypt(&mut self, plaintext: &[u8]) -> (r: Result<GroupEncrypted, CryptoError>)
        requires
            old(self).wf(),
            old(self)@.generation < u32::MAX,
            plaintext@.len() < primitives::SEAL_LIMIT,
        ensures
            final(self).wf(),
            final(self).peer_states == old(self).peer_states,
            r matches Ok(m) && group_sent(old(self)@, plaintext@, final(self)@, m),
    {
        self.encrypt_with(plaintext, random_nonce())
    }

    /// Encrypts and signs the next message under a given nonce.
    pub fn encrypt_with(&mut self, plaintext: &[u8], nonce: [u8; 24]) -> (r: Result<
        GroupEncrypted,
        CryptoError,
    >)
        requires
            old(self).wf(),
            old(self)@.generation < u32::MAX,
            plaintext@.len() < primitives::SEAL_LIMIT,
        ensures
            final(self).wf(),
            final(self).peer_states == old(self).peer_states,
            r matches Ok(m) && group_sent(old(self)@, plaintext@, final(self)@, m)
                && m.header.nonce == nonce,
    {
        let msg_key = self.self_state.chain_key.ratchet();
        self.self_state.generation = self.self_state.generation + 1;
        let header = GroupHeader {
            group_id: self.group_id,
            sender_id: self.self_state.member_id,
            generation: self.self_state.generation,
            signing_pub: self.self_state.signing_pub,
            nonce,
        };
        let aad = group_header_aad(&header);
        let ciphertext = seal(&msg_key, &nonce, &aad, plaintext);
        let mut signed = to_vec(&aad);
        append(&mut signed, &ciphertext);
        let signature = self.self_state.signing_priv.sign(&signed);
        Ok(GroupEncrypted { header, ciphertext, signature })
    }

    /// Decrypts a group message. Keys of messages that were overtaken are
    /// discarded.
    pub fn decrypt(&mut self, message: &GroupEncrypted) -> (r: Result<Vec<u8>, CryptoError>)
        requires
            old(self).wf(),
        ensures
            final(self).wf(),
            final(self).self_state == old(self).self_state,
            group_received(old(self)@, *message, final(self)@, r),
    {
        let ghost before = *self;
        let sender = message.header.sender_id;
        let peer = match self.peer_states.get(&sender) {
            Some(p) => *p,
            None => {
                return Err(CryptoError::MissingPreKey);
            },
        };
        assert(before@.peers[sender] == peer@);
        let aad = group_header_aad(&message.header);
        let mut signed = to_vec(&aad);
        append(&mut signed, &message.ciphertext);
        match peer.signing_pub.verify(&signed, &message.signature) {
            Ok(_) => {},
            Err(_) => {
                return Err(CryptoError::InvalidSignature);
            },
        }
        if message.header.generation <= peer.generation {
            return Err(CryptoError::DecryptionFailed);
        }
        let mut chain_key = peer.chain_key;
        let mut generation: u32 = peer.generation;
        while generation + 1 < message.header.generation
            invariant
                peer.generation <= generation < message.header.generation,
                chain_key.0@ == chain_after(
                    peer.chain_key.0@,
                    (generation - peer.generation) as nat,
                ),
            decreases message.header.generation - generation,
        {
            chain_key.ratchet();
            generation = generation + 1;
        }
        let msg_key = chain_key.ratchet();
        generation = generation + 1;
        let updated = PeerState { chain_key, generation, signing_pub: peer.signing_pub };
        self.peer_states.insert(sender, updated);
        proof {
            assert(updated@ == peer_after(peer@, message.header.generation));
            assert(self@.peers =~= before@.peers.insert(sender, updated@));
        }
        open(&msg_key, &message.header.nonce, &aad, &message.ciphertext)
    }

    /// Records a member's distributed state, in place of an earlier one.
    pub fn add_peer(&mut self, state: SenderKeyState) -> (r: Result<(), CryptoError>)
        requires
            old(self).wf(),
        ensures
            final(self).wf(),
            r is Ok,
            final(self)@ == (GroupState {
                peers: old(self)@.peers.insert(
                    state.member_id,
                    PeerView {
                        chain_key: state.chain_key.0@,
                        generation: state.generation,
                        signing_pub: state.signing_pub@,
                    },
                ),
                ..old(self)@
            }),
    {
        let ghost before = self@.peers;
        let peer = PeerState {
            chain_key: state.chain_key,
            generation: state.generation,
            signing_pub: state.signing_pub,
        };
        self.peer_states.insert(state.member_id, peer);
        assert(self@.peers =~= before.insert(state.member_id, peer@));
        Ok(())
    }

    /// The own state, to be handed to the other members. A member who adds it
    /// follows this one.
    pub fn export_self_state(&self) -> (r: SenderKeyState)
        ensures
            r == self.self_state,
            self.wf() ==> follows(
                PeerView {
                    chain_key: r.chain_key.0@,
                    generation: r.generation,
                    signing_pub: r.signing_pub@,
                },
                self@,
            ),
    {
        assert(chain_after(self.self_state.chain_key.0@, 0) == self.self_state.chain_key.0@);
        self.self_state
    }
}

/// A distributed state together with the group it belongs to.
pub struct DistributionPayload {
    pub group_id: [u8; 32],
    pub state: SenderKeyState,
}

/// The state that decoded distribution fields stand for: both keys must have
/// 32 bytes and the public one must be a curve point.
pub open spec fn distribution_valid(f: (Seq<u8>, Seq<u8>, Seq<u8>, Seq<u8>, Seq<u8>, u32)) -> bool {
    f.3.len() == 32 && f.4.len() == 32 && primitives::ed25519_point(f.4)
}

/// Whether a state has the contents of decoded distribution fields.
pub open spec fn distribution_holds(
    f: (Seq<u8>, Seq<u8>, Seq<u8>, Seq<u8>, Seq<u8>, u32),
    state: SenderKeyState,
    group_id: [u8; 32],
) -> bool {
    &&& group_id@ == f.0
    &&& state.member_id@ == f.1
    &&& state.chain_key.0@ == f.2
    &&& state.signing_priv@ == f.3
    &&& state.signing_pub@ == f.4
    &&& state.generation == f.5
}

/// Encodes a state for distribution. The bytes decode to the same state.
pub fn encode_distribution(state: &SenderKeyState, group_id: [u8; 32]) -> (r: Result<
    Vec<u8>,
    CryptoError,
>)
    ensures
        r matches Ok(bytes) && bytes@ == wire::distribution_bytes_of(
            group_id@,
            state.member_id@,
            state.chain_key.0@,
            state.signing_priv@,
            state.signing_pub@,
            state.generation,
        ) && (wire::distribution_fields_of(bytes@) matches Some(f) && distribution_holds(
            f,
            *state,
            group_id,
        )),
{
    Ok(
        wire::encode_distribution_fields(
            &group_id,
            &state.member_id,
            &state.chain_key.0,
            &state.signing_priv.bytes,
            &state.signing_pub.bytes,
            state.generation,
        ),
    )
}

/// Decodes a distributed state.
pub fn decode_distribution(bytes: &[u8]) -> (r: Result<(SenderKeyState, [u8; 32]), CryptoError>)
    ensures
        match wire::distribution_fields_of(bytes@) {
            Some(f) => if distribution_valid(f) {
                r matches Ok(out) && distribution_holds(f, out.0, out.1)
            } else {
                r matches Err(e) && e == CryptoError::MalformedBundle
            },
            None => r matches Err(e) && e == CryptoError::MalformedBundle,
        },
{
    let (group_id, member_id, chain_key, signing, signing_pub, generation) =
        match wire::decode_distribution_fields(bytes) {
        Some(f) => f,
        None => {
            return Err(CryptoError::MalformedBundle);
        },
    };
    if signing.len() != 32 || signing_pub.len() != 32 {
        return Err(CryptoError::MalformedBundle);
    }
    let signing_pub = match VerifyingKey::from_bytes(&array32(&signing_pub)) {
        Ok(k) => k,
        Err(_) => {
            return Err(CryptoError::MalformedBundle);
        },
    };
    let state = SenderKeyState {
        member_id,
        chain_key: SenderChainKey(chain_key),
        signing_priv: SigningKey { bytes: array32(&signing) },
        signing_pub,
        generation,
    };
    Ok((state, group_id))
}

// ---- Laws -------------------------------------------------------------------------------

/// Tag and signature of a group message cover every field of its header: the
/// group, the sender, the generation, the signing key and the nonce stand in what
/// is covered, and headers that differ in any of them are covered differently.
pub proof fn lemma_group_header_covered(a: GroupHeader, b: GroupHeader)
    ensures
        group_aad_of(a).len() == 124,
        group_aad_of(a).subrange(0, 32) == a.group_id@,
        group_aad_of(a).subrange(32, 64) == a.sender_id@,
        group_aad_of(a).subrange(64, 68) == le32(a.generation),
        group_aad_of(a).subrange(68, 100) == a.signing_pub@,
        group_aad_of(a).subrange(100, 124) == a.nonce@,
        group_aad_of(a) == group_aad_of(b) ==> a.group_id@ == b.group_id@ && a.sender_id@
            == b.sender_id@ && a.generation == b.generation && a.signing_pub@ == b.signing_pub@
            && a.nonce@ == b.nonce@,
{
    let (x, y) = (group_aad_of(a), group_aad_of(b));
    assert(x.subrange(0, 32) =~= a.group_id@);
    assert(x.subrange(32, 64) =~= a.sender_id@);
    assert(x.subrange(64, 68) =~= le32(a.generation));
    assert(x.subrange(68, 100) =~= a.signing_pub@);
    assert(x.subrange(100, 124) =~= a.nonce@);
    if x == y {
        assert(y.subrange(0, 32) =~= b.group_id@);
        assert(y.subrange(32, 64) =~= b.sender_id@);
        assert(y.subrange(64, 68) =~= le32(b.generation));
        assert(y.subrange(68, 100) =~= b.signing_pub@);
        assert(y.subrange(100, 124) =~= b.nonce@);
        lemma_le32(a.generation, b.generation);
    }
}

/// A group message goes out in the name of the member, of its group, under the
/// next generation, sealed under the chain's message key and signed together with
/// its header; the own chain moves on by one and nothing else changes.
pub proof fn lemma_group_sent(before: GroupState, plaintext: Seq<u8>, after: GroupState, m: GroupEncrypted)
    requires
        group_sent(before, plaintext, after, m),
        before.generation < u32::MAX,
    ensures
        m.header.group_id == before.group_id,
        m.header.sender_id == before.member_id,
        m.header.generation == before.generation + 1,
        m.header.signing_pub@ == before.signing_pub,
        m.ciphertext@ == primitives::sealed_of(
            primitives::hmac_sha256_of(before.chain_key, seq![1u8]),
            m.header.nonce@,
            group_aad_of(m.header),
            plaintext,
        ),
        m.signature@ == primitives::ed25519_signature_of(
            before.signing,
            group_aad_of(m.header) + m.ciphertext@,
        ),
        after.generation == before.generation + 1,
        after.chain_key == primitives::hmac_sha256_of(before.chain_key, seq![2u8]),
        after == (GroupState {
            generation: after.generation,
            chain_key: after.chain_key,
            ..before
        }),
{
}

/// A group message is refused unless its sender is a known member, their signing
/// key accepts its signature over header and ciphertext, and it is newer than
/// what was seen of them; then nothing changes.
pub proof fn lemma_group_refused(
    before: GroupState,
    m: GroupEncrypted,
    after: GroupState,
    r: Result<Vec<u8>, CryptoError>,
)
    requires
        group_received(before, m, after, r),
    ensures
        ({
            let known = before.peers.contains_key(m.header.sender_id);
            let peer = before.peers[m.header.sender_id];
            let signed = primitives::ed25519_accepts(
                peer.signing_pub,
                group_aad_of(m.header) + m.ciphertext@,
                m.signature@,
            );
            let fresh = m.header.generation > peer.generation;
            &&& r is Ok ==> known && signed && fresh
            &&& !known ==> r == Err::<Vec<u8>, CryptoError>(CryptoError::MissingPreKey)
            &&& known && !signed ==> r == Err::<Vec<u8>, CryptoError>(CryptoError::InvalidSignature)
            &&& known && signed && !fresh ==> r == Err::<Vec<u8>, CryptoError>(
                CryptoError::DecryptionFailed,
            )
            &&& !(known && signed && fresh) ==> after == before
        }),
{
}

/// An accepted group message moves its sender's chain on to its generation and
/// touches no other member's, nor the own chain; the sender's signing key stays.
pub proof fn lemma_group_accepted(
    before: GroupState,
    m: GroupEncrypted,
    after: GroupState,
    r: Result<Vec<u8>, CryptoError>,
    other: MemberId,
)
    requires
        group_received(before, m, after, r),
        group_refusal(before, m) is None,
        other != m.header.sender_id,
    ensures
        ({
            let peer = before.peers[m.header.sender_id];
            let steps = m.header.generation - peer.generation;
            let moved = after.peers[m.header.sender_id];
            &&& after.peers.contains_key(m.header.sender_id)
            &&& moved.generation == m.header.generation
            &&& moved.signing_pub == peer.signing_pub
            &&& moved.chain_key == chain_after(peer.chain_key, steps as nat)
            &&& after.peers.contains_key(other) == before.peers.contains_key(other)
            &&& after.peers[other] == before.peers[other]
            &&& after == (GroupState { peers: after.peers, ..before })
            &&& match unsealed(
                chain_message_key(chain_after(peer.chain_key, (steps - 1) as nat)),
                m.header.nonce@,
                group_aad_of(m.header),
                m.ciphertext@,
            ) {
                Some(p) => r matches Ok(v) && v@ == p,
                None => r is Err,
            }
        }),
{
}

/// A distributed state is read as it was written, every part of it.
pub proof fn lemma_distribution_holds(
    f: (Seq<u8>, Seq<u8>, Seq<u8>, Seq<u8>, Seq<u8>, u32),
    state: SenderKeyState,
    group_id: [u8; 32],
)
    requires
        distribution_holds(f, state, group_id),
    ensures
        f == (
            group_id@,
            state.member_id@,
            state.chain_key.0@,
            state.signing_priv@,
            state.signing_pub@,
            state.generation,
        ),
{
}

/// Decoded fields are a state only where both keys have 32 bytes and the public
/// one is a point of the curve.
pub proof fn lemma_distribution_valid(f: (Seq<u8>, Seq<u8>, Seq<u8>, Seq<u8>, Seq<u8>, u32))
    ensures
        distribution_valid(f) <==> f.3.len() == 32 && f.4.len() == 32 && primitives::ed25519_point(
            f.4,
        ),
{
}

} // verus!
