//! Between typed cryptographic objects and the opaque bytes of the wire
//! protocol.
use crate::bytes::{array32, lemma_array24_ext, lemma_array32_ext, to_vec};
use crate::client::error::ClientError;
use crate::crypto::double_ratchet::{Encrypted, Header};
use crate::crypto::kem::PqCiphertext;
use crate::crypto::keys::{PublicKey, Signature, VerifyingKey};
use crate::crypto::sender_keys::{GroupEncrypted, GroupHeader};
use crate::crypto::x3dh::InitMessage;
use crate::primitives;
use crate::protocol::message::{EncryptedEnvelope, MessageKind};
use crate::wire;
use crate::wire::CodecError;
use vstd::prelude::*;

verus! {

/// The fields of a ratchet header.
pub open spec fn header_fields(h: Header) -> (Seq<u8>, u32, u32, Seq<u8>) {
    (h.dh_pub@, h.pn, h.n, h.nonce@)
}

/// The fields of a group header.
pub open spec fn group_header_fields(h: GroupHeader) -> (Seq<u8>, Seq<u8>, u32, Seq<u8>, Seq<u8>) {
    (h.group_id@, h.sender_id@, h.generation, h.signing_pub@, h.nonce@)
}

/// The fields of an init message.
pub open spec fn init_fields(m: InitMessage) -> (
    Seq<u8>,
    Seq<u8>,
    u32,
    Option<u32>,
    Option<Seq<u8>>,
) {
    (
        m.alice_identity_pub@,
        m.alice_ephemeral_pub@,
        m.bob_signed_prekey_id,
        m.bob_one_time_prekey_id,
        ciphertext_view(m.pq_ciphertext),
    )
}

/// The contents of an optional KEM ciphertext.
pub open spec fn ciphertext_view(ct: Option<PqCiphertext>) -> Option<Seq<u8>> {
    match ct {
        Some(c) => Some(c@),
        None => None,
    }
}

/// Decoded bytes are a public key: 32 bytes that encode a curve point.
pub open spec fn is_verifying_key(bytes: Seq<u8>) -> bool {
    bytes.len() == 32 && primitives::ed25519_point(bytes)
}

/// An envelope carries a ratchet message.
pub open spec fn carries(
    env: EncryptedEnvelope,
    id: u64,
    sender: [u8; 32],
    m: Encrypted,
    init: Option<InitMessage>,
) -> bool {
    &&& env.id == id
    &&& env.sender == sender
    &&& env.kind == MessageKind::Direct
    &&& env.header@ == wire::header_bytes_of(
        m.header.dh_pub@,
        m.header.pn,
        m.header.n,
        m.header.nonce@,
    )
    &&& wire::header_fields_of(env.header@) == Ok::<_, CodecError>(header_fields(m.header))
    &&& env.ciphertext@ == m.ciphertext@
    &&& env.signature@ == Seq::<u8>::empty()
    &&& match init {
        Some(im) => {
            let f = init_fields(im);
            &&& env.init matches Some(bytes)
            &&& bytes@ == wire::init_bytes_of(f.0, f.1, f.2, f.3, f.4)
            &&& wire::init_fields_of(bytes@) == Ok::<_, CodecError>(f)
        },
        None => env.init is None,
    }
}

/// An envelope carries a group message.
pub open spec fn carries_group(
    env: EncryptedEnvelope,
    id: u64,
    sender: [u8; 32],
    m: GroupEncrypted,
) -> bool {
    let f = group_header_fields(m.header);
    &&& env.id == id
    &&& env.sender == sender
    &&& env.kind == MessageKind::Group
    &&& env.header@ == wire::group_header_bytes_of(f.0, f.1, f.2, f.3, f.4)
    &&& wire::group_header_fields_of(env.header@) == Ok::<_, CodecError>(f)
    &&& env.init is None
    &&& env.ciphertext@ == m.ciphertext@
    &&& env.signature@ == m.signature@
}

/// The value behind an optional reference.
pub open spec fn init_of(o: Option<&InitMessage>) -> Option<InitMessage> {
    match o {
        Some(m) => Some(*m),
        None => None,
    }
}

/// Wraps a ratchet message, with the init message on the first one.
pub fn envelope_from_encrypted(
    id: u64,
    sender: [u8; 32],
    encrypted: &Encrypted,
    init: Option<&InitMessage>,
) -> (r: Result<EncryptedEnvelope, ClientError>)
    ensures
        r matches Ok(env) && carries(env, id, sender, *encrypted, init_of(init)),
{
    let h = &encrypted.header;
    let header = wire::encode_header(&h.dh_pub.bytes, h.pn, h.n, &h.nonce);
    let init_bytes = match init {
        Some(m) => {
            let kem = match &m.pq_ciphertext {
                Some(ct) => Some(&ct.0),
                None => None,
            };
            Some(
                wire::encode_init(
                    &m.alice_identity_pub.bytes,
                    &m.alice_ephemeral_pub.bytes,
                    m.bob_signed_prekey_id,
                    m.bob_one_time_prekey_id,
                    kem,
                ),
            )
        },
        None => None,
    };
    Ok(
        EncryptedEnvelope {
            id,
            sender,
            kind: MessageKind::Direct,
            header,
            init: init_bytes,
            ciphertext: to_vec(&encrypted.ciphertext),
            signature: Vec::new(),
        },
    )
}

/// Wraps a group message.
pub fn envelope_from_group_encrypted(id: u64, sender: [u8; 32], group: &GroupEncrypted) -> (r: Result<
    EncryptedEnvelope,
    ClientError,
>)
    ensures
        r matches Ok(env) && carries_group(env, id, sender, *group),
{
    let h = &group.header;
    let header = wire::encode_group_header(
        &h.group_id,
        &h.sender_id,
        h.generation,
        &h.signing_pub.bytes,
        &h.nonce,
    );
    Ok(
        EncryptedEnvelope {
            id,
            sender,
            kind: MessageKind::Group,
            header,
            init: None,
            ciphertext: to_vec(&group.ciphertext),
            signature: to_vec(&group.signature.bytes),
        },
    )
}

/// Reads the ratchet header of an envelope.
pub fn header_from_envelope(env: &EncryptedEnvelope) -> (r: Result<Header, ClientError>)
    ensures
        match wire::header_fields_of(env.header@) {
            Ok(f) => r matches Ok(h) && header_fields(h) == f,
            Err(e) => r matches Err(ClientError::Postcard(c)) && c == e,
        },
{
    match wire::decode_header(&env.header) {
        Ok((dh_pub, pn, n, nonce)) => Ok(
            Header { dh_pub: PublicKey { bytes: dh_pub }, pn, n, nonce },
        ),
        Err(e) => Err(ClientError::Postcard(e)),
    }
}

/// Reads the group header of an envelope.
pub fn group_header_from_envelope(env: &EncryptedEnvelope) -> (r: Result<GroupHeader, ClientError>)
    ensures
        match wire::group_header_fields_of(env.header@) {
            Ok(f) => if is_verifying_key(f.3) {
                r matches Ok(h) && group_header_fields(h) == f
            } else {
                r matches Err(ClientError::Postcard(CodecError::Custom))
            },
            Err(e) => r matches Err(ClientError::Postcard(c)) && c == e,
        },
{
    match wire::decode_group_header(&env.header) {
        Ok((group_id, sender_id, generation, signing_pub, nonce)) => {
            if signing_pub.len() != 32 {
                return Err(ClientError::Postcard(CodecError::Custom));
            }
            match VerifyingKey::from_bytes(&array32(&signing_pub)) {
                Ok(signing_pub) => Ok(
                    GroupHeader { group_id, sender_id, generation, signing_pub, nonce },
                ),
                Err(_) => Err(ClientError::Postcard(CodecError::Custom)),
            }
        },
        Err(e) => Err(ClientError::Postcard(e)),
    }
}

/// Reads the init message of an envelope, where it has one.
pub fn init_from_envelope(env: &EncryptedEnvelope) -> (r: Result<Option<InitMessage>, ClientError>)
    ensures
        match env.init {
            None => r matches Ok(None),
            Some(bytes) => match wire::init_fields_of(bytes@) {
                Ok(f) => if is_verifying_key(f.0) {
                    r matches Ok(Some(m)) && init_fields(m) == f
                } else {
                    r matches Err(ClientError::Postcard(CodecError::Custom))
                },
                Err(e) => r matches Err(ClientError::Postcard(c)) && c == e,
            },
        },
{
    let bytes = match &env.init {
        Some(b) => b,
        None => {
            return Ok(None);
        },
    };
    match wire::decode_init(bytes) {
        Ok((identity, ephemeral, signed_id, one_time_id, kem)) => {
            if identity.len() != 32 {
                return Err(ClientError::Postcard(CodecError::Custom));
            }
            let pq_ciphertext = match kem {
                Some(ct) => Some(PqCiphertext(ct)),
                None => None,
            };
            match VerifyingKey::from_bytes(&array32(&identity)) {
                Ok(alice_identity_pub) => Ok(
                    Some(
                        InitMessage {
                            alice_identity_pub,
                            alice_ephemeral_pub: PublicKey { bytes: ephemeral },
                            bob_signed_prekey_id: signed_id,
                            bob_one_time_prekey_id: one_time_id,
                            pq_ciphertext,
                        },
                    ),
                ),
                Err(_) => Err(ClientError::Postcard(CodecError::Custom)),
            }
        },
        Err(e) => Err(ClientError::Postcard(e)),
    }
}

/// Reads the ratchet message of an envelope.
pub fn encrypted_from_envelope(env: &EncryptedEnvelope) -> (r: Result<Encrypted, ClientError>)
    ensures
        match wire::header_fields_of(env.header@) {
            Ok(f) => r matches Ok(m) && header_fields(m.header) == f && m.ciphertext@
                == env.ciphertext@,
            Err(e) => r matches Err(ClientError::Postcard(c)) && c == e,
        },
{
    match header_from_envelope(env) {
        Ok(header) => Ok(Encrypted { header, ciphertext: to_vec(&env.ciphertext) }),
        Err(e) => Err(e),
    }
}

/// Reads the group message of an envelope.
pub fn group_encrypted_from_envelope(env: &EncryptedEnvelope) -> (r: Result<
    GroupEncrypted,
    ClientError,
>)
    ensures
        match wire::group_header_fields_of(env.header@) {
            Ok(f) => if !is_verifying_key(f.3) {
                r matches Err(ClientError::Postcard(CodecError::Custom))
            } else if env.signature@.len() != 64 {
                r matches Err(ClientError::Store(s)) && s@ == "bad group signature"@
            } else {
                r matches Ok(m) && group_header_fields(m.header) == f && m.ciphertext@
                    == env.ciphertext@ && m.signature@ == env.signature@
            },
            Err(e) => r matches Err(ClientError::Postcard(c)) && c == e,
        },
{
    let header = match group_header_from_envelope(env) {
        Ok(h) => h,
        Err(e) => {
            return Err(e);
        },
    };
    match Signature::from_slice(&env.signature) {
        Ok(signature) => Ok(
            GroupEncrypted { header, ciphertext: to_vec(&env.ciphertext), signature },
        ),
        Err(_) => Err(ClientError::Store("bad group signature".to_owned())),
    }
}

/// Headers with the same fields are the same header.
pub proof fn lemma_header_fields(a: Header, b: Header)
    requires
        header_fields(a) == header_fields(b),
    ensures
        a == b,
{
    lemma_array32_ext(a.dh_pub.bytes, b.dh_pub.bytes);
    lemma_array24_ext(a.nonce, b.nonce);
}

/// Group headers with the same fields are the same header.
pub proof fn lemma_group_header_fields(a: GroupHeader, b: GroupHeader)
    requires
        group_header_fields(a) == group_header_fields(b),
    ensures
        a == b,
{
    lemma_array32_ext(a.group_id, b.group_id);
    lemma_array32_ext(a.sender_id, b.sender_id);
    lemma_array32_ext(a.signing_pub.bytes, b.signing_pub.bytes);
    lemma_array24_ext(a.nonce, b.nonce);
}

/// What was wrapped is read back: the header of an envelope that carries a
/// message is the message's header.
pub proof fn lemma_envelope_round_trip(
    env: EncryptedEnvelope,
    id: u64,
    sender: [u8; 32],
    m: Encrypted,
    init: Option<InitMessage>,
    h: Header,
)
    requires
        carries(env, id, sender, m, init),
        wire::header_fields_of(env.header@) == Ok::<_, CodecError>(header_fields(h)),
    ensures
        h == m.header,
{
    lemma_header_fields(h, m.header);
}

/// An envelope that carries a direct message names its sender, its kind, and
/// holds header and ciphertext of the message and, on the first one, the init
/// message; it is not signed.
pub proof fn lemma_carries(
    env: EncryptedEnvelope,
    id: u64,
    sender: [u8; 32],
    m: Encrypted,
    init: Option<InitMessage>,
)
    requires
        carries(env, id, sender, m, init),
    ensures
        env.id == id,
        env.sender == sender,
        env.kind is Direct,
        env.ciphertext@ == m.ciphertext@,
        env.signature@.len() == 0,
        env.init is Some <==> init is Some,
        wire::header_fields_of(env.header@) == Ok::<_, CodecError>(
            (m.header.dh_pub@, m.header.pn, m.header.n, m.header.nonce@),
        ),
        init matches Some(im) ==> wire::init_fields_of(env.init.unwrap()@) == Ok::<_, CodecError>(
            (
                im.alice_identity_pub@,
                im.alice_ephemeral_pub@,
                im.bob_signed_prekey_id,
                im.bob_one_time_prekey_id,
                match im.pq_ciphertext {
                    Some(ct) => Some(ct@),
                    None => None,
                },
            ),
        ),
{
}

/// An envelope that carries a group message names its sender, its kind, and holds
/// header, ciphertext and signature of the message.
pub proof fn lemma_carries_group(
    env: EncryptedEnvelope,
    id: u64,
    sender: [u8; 32],
    m: GroupEncrypted,
)
    requires
        carries_group(env, id, sender, m),
    ensures
        env.id == id,
        env.sender == sender,
        env.kind is Group,
        env.ciphertext@ == m.ciphertext@,
        env.signature@ == m.signature@,
        env.init is None,
        wire::group_header_fields_of(env.header@) == Ok::<_, CodecError>(
            (
                m.header.group_id@,
                m.header.sender_id@,
                m.header.generation,
                m.header.signing_pub@,
                m.header.nonce@,
            ),
        ),
{
}

} // verus!
