//! Trusted access to the postcard encoding, on tuples of plain values.
//!
//! postcard writes a struct as its fields in order, so each tuple here has
//! the wire form of the message part it is named after: arrays as their bytes,
//! byte strings and texts behind their lengths, options behind a byte that says
//! whether there is a value, numbers of more than one byte as varints. The
//! allocating serializer has no failing path on such tuples; decoding ignores
//! bytes behind the value. The two directions of one tuple type are inverse:
//! what was encoded decodes to the same fields.
use vstd::prelude::*;
use vstd::utf8::encode_utf8;

verus! {

// ---- Errors ------------------------------------------------------------------------

/// Why a value cannot be encoded, or bytes cannot be decoded.
#[derive(Debug, Clone, Copy, PartialEq, Eq, Structural)]
pub enum CodecError {
    /// The bytes end too early.
    UnexpectedEnd,
    /// A number has no end.
    BadVarint,
    /// A truth value is neither 0 nor 1.
    BadBool,
    /// A text is no UTF-8.
    BadUtf8,
    /// An option is neither there nor missing.
    BadOption,
    /// A variant has a number out of range.
    BadEnum,
    /// A value is refused by its type.
    Custom,
    /// Any other error.
    Unlisted,
}

impl CodecError {
    /// The error in words, those of postcard.
    pub open spec fn message(self) -> Seq<char> {
        match self {
            CodecError::UnexpectedEnd => "Hit the end of buffer, expected more data"@,
            CodecError::BadVarint =>
                "Found a varint that didn't terminate. Is the usize too big for this platform?"@,
            CodecError::BadBool => "Found a bool that wasn't 0 or 1"@,
            CodecError::BadUtf8 => "Tried to parse invalid utf-8"@,
            CodecError::BadOption => "Found an Option discriminant that wasn't 0 or 1"@,
            CodecError::BadEnum => "Found an enum discriminant that was > u32::max_value()"@,
            CodecError::Custom => "Serde Deserialization Error"@,
            CodecError::Unlisted => "unlisted error"@,
        }
    }

    /// Describes the error in words.
    pub fn to_string(&self) -> (r: String)
        ensures
            r@ == self.message(),
    {
        match self {
            CodecError::UnexpectedEnd => "Hit the end of buffer, expected more data".to_owned(),
            CodecError::BadVarint =>
                "Found a varint that didn't terminate. Is the usize too big for this platform?".to_owned(),
            CodecError::BadBool => "Found a bool that wasn't 0 or 1".to_owned(),
            CodecError::BadUtf8 => "Tried to parse invalid utf-8".to_owned(),
            CodecError::BadOption => "Found an Option discriminant that wasn't 0 or 1".to_owned(),
            CodecError::BadEnum =>
                "Found an enum discriminant that was > u32::max_value()".to_owned(),
            CodecError::Custom => "Serde Deserialization Error".to_owned(),
            CodecError::Unlisted => "unlisted error".to_owned(),
        }
    }
}

/// Decoding gave these fields.
pub open spec fn decodes_to<T>(r: Result<T, CodecError>, fields: T) -> bool {
    r matches Ok(f) && f == fields
}

// ---- Fields ----------------------------------------------------------------------

/// A number in groups of seven bits, the lowest first, each byte but the last
/// with the high bit set.
pub open spec fn varint(n: nat) -> Seq<u8>
    decreases n,
{
    if n < 128 {
        seq![n as u8]
    } else {
        seq![(n % 128 + 128) as u8] + varint(n / 128)
    }
}

/// The numbers below a power of 128 take no more bytes than its exponent.
proof fn lemma_varint_len(n: nat, k: nat)
    requires
        k > 0,
        n < power_of_128(k),
    ensures
        1 <= varint(n).len() <= k,
    decreases k,
{
    if n >= 128 {
        reveal_with_fuel(power_of_128, 2);
        assert(k > 1);
        assert(n / 128 < power_of_128((k - 1) as nat));
        lemma_varint_len(n / 128, (k - 1) as nat);
    }
}

/// A power of 128.
spec fn power_of_128(k: nat) -> nat
    decreases k,
{
    if k == 0 {
        1
    } else {
        128 * power_of_128((k - 1) as nat)
    }
}

/// Bytes of any number: the number, then the bytes.
pub open spec fn bytes_field(bytes: Seq<u8>) -> Seq<u8> {
    varint(bytes.len()) + bytes
}

// ---- Ratchet header ------------------------------------------------------------

/// The encoding of a ratchet header.
#[verifier::opaque]
pub open spec fn header_bytes_of(dh_pub: Seq<u8>, pn: u32, n: u32, nonce: Seq<u8>) -> Seq<u8> {
    dh_pub + varint(pn as nat) + varint(n as nat) + nonce
}

/// The fields that bytes decode to as a ratchet header.
pub uninterp spec fn header_fields_of(bytes: Seq<u8>) -> Result<
    (Seq<u8>, u32, u32, Seq<u8>),
    CodecError,
>;

/// The contents of a decoded ratchet header.
pub open spec fn header_fields_view(
    r: Result<([u8; 32], u32, u32, [u8; 24]), CodecError>,
) -> Result<(Seq<u8>, u32, u32, Seq<u8>), CodecError> {
    match r {
        Ok(f) => Ok((f.0@, f.1, f.2, f.3@)),
        Err(e) => Err(e),
    }
}

/// `postcard::to_allocvec` on the fields of a ratchet header.
#[verifier::external_body]
pub(crate) fn encode_header(dh_pub: &[u8; 32], pn: u32, n: u32, nonce: &[u8; 24]) -> (r: Vec<u8>)
    ensures
        r@ == header_bytes_of(dh_pub@, pn, n, nonce@),
        decodes_to(header_fields_of(r@), (dh_pub@, pn, n, nonce@)),
{
    postcard::to_allocvec(&(dh_pub, pn, n, nonce)).expect("no failing path")
}

/// `postcard::from_bytes` to the fields of a ratchet header.
#[verifier::external_body]
pub(crate) fn decode_header(bytes: &[u8]) -> (r: Result<
    ([u8; 32], u32, u32, [u8; 24]),
    CodecError,
>)
    ensures
        header_fields_view(r) == header_fields_of(bytes@),
{
    match postcard::from_bytes(bytes) {
        Ok(fields) => Ok(fields),
        Err(postcard::Error::DeserializeUnexpectedEnd) => Err(CodecError::UnexpectedEnd),
        Err(postcard::Error::DeserializeBadVarint) => Err(CodecError::BadVarint),
        Err(_) => Err(CodecError::Unlisted),
    }
}

// ---- X3DH init message -----------------------------------------------------------

/// The encoding of an init message.
#[verifier::opaque]
pub open spec fn init_bytes_of(
    identity: Seq<u8>,
    ephemeral: Seq<u8>,
    signed_id: u32,
    one_time_id: Option<u32>,
    kem: Option<Seq<u8>>,
) -> Seq<u8> {
    bytes_field(identity) + ephemeral + varint(signed_id as nat) + (match one_time_id {
        Some(id) => seq![1u8] + varint(id as nat),
        None => seq![0u8],
    }) + (match kem {
        Some(ct) => seq![1u8] + bytes_field(ct),
        None => seq![0u8],
    })
}

/// The fields that bytes decode to as an init message.
pub uninterp spec fn init_fields_of(bytes: Seq<u8>) -> Result<
    (Seq<u8>, Seq<u8>, u32, Option<u32>, Option<Seq<u8>>),
    CodecError,
>;

/// The contents of a decoded init message.
pub open spec fn init_fields_view(
    r: Result<(Vec<u8>, [u8; 32], u32, Option<u32>, Option<Vec<u8>>), CodecError>,
) -> Result<(Seq<u8>, Seq<u8>, u32, Option<u32>, Option<Seq<u8>>), CodecError> {
    match r {
        Ok(f) => Ok((f.0@, f.1@, f.2, f.3, crate::primitives::view_of(f.4))),
        Err(e) => Err(e),
    }
}

/// The contents behind an optional reference.
pub open spec fn view_of_ref(o: Option<&Vec<u8>>) -> Option<Seq<u8>> {
    match o {
        Some(v) => Some(v@),
        None => None,
    }
}

/// `postcard::to_allocvec` on the fields of an init message.
#[verifier::external_body]
pub(crate) fn encode_init(
    identity: &[u8],
    ephemeral: &[u8; 32],
    signed_id: u32,
    one_time_id: Option<u32>,
    kem: Option<&Vec<u8>>,
) -> (r: Vec<u8>)
    ensures
        r@ == init_bytes_of(identity@, ephemeral@, signed_id, one_time_id, view_of_ref(kem)),
        decodes_to(
            init_fields_of(r@),
            (identity@, ephemeral@, signed_id, one_time_id, view_of_ref(kem)),
        ),
{
    postcard::to_allocvec(&(identity, ephemeral, signed_id, one_time_id, kem)).expect("no failing path")
}

/// `postcard::from_bytes` to the fields of an init message.
#[verifier::external_body]
pub(crate) fn decode_init(bytes: &[u8]) -> (r: Result<
    (Vec<u8>, [u8; 32], u32, Option<u32>, Option<Vec<u8>>),
    CodecError,
>)
    ensures
        init_fields_view(r) == init_fields_of(bytes@),
{
    match postcard::from_bytes(bytes) {
        Ok(fields) => Ok(fields),
        Err(postcard::Error::DeserializeUnexpectedEnd) => Err(CodecError::UnexpectedEnd),
        Err(postcard::Error::DeserializeBadVarint) => Err(CodecError::BadVarint),
        Err(postcard::Error::DeserializeBadOption) => Err(CodecError::BadOption),
        Err(_) => Err(CodecError::Unlisted),
    }
}

// ---- Group header ------------------------------------------------------------------

/// The encoding of a group header.
#[verifier::opaque]
pub open spec fn group_header_bytes_of(
    group_id: Seq<u8>,
    sender_id: Seq<u8>,
    generation: u32,
    signing_pub: Seq<u8>,
    nonce: Seq<u8>,
) -> Seq<u8> {
    group_id + sender_id + varint(generation as nat) + bytes_field(signing_pub) + nonce
}

/// The fields that bytes decode to as a group header.
pub uninterp spec fn group_header_fields_of(bytes: Seq<u8>) -> Result<
    (Seq<u8>, Seq<u8>, u32, Seq<u8>, Seq<u8>),
    CodecError,
>;

/// The contents of a decoded group header.
pub open spec fn group_header_fields_view(
    r: Result<([u8; 32], [u8; 32], u32, Vec<u8>, [u8; 24]), CodecError>,
) -> Result<(Seq<u8>, Seq<u8>, u32, Seq<u8>, Seq<u8>), CodecError> {
    match r {
        Ok(f) => Ok((f.0@, f.1@, f.2, f.3@, f.4@)),
        Err(e) => Err(e),
    }
}

/// `postcard::to_allocvec` on the fields of a group header.
#[verifier::external_body]
pub(crate) fn encode_group_header(
    group_id: &[u8; 32],
    sender_id: &[u8; 32],
    generation: u32,
    signing_pub: &[u8],
    nonce: &[u8; 24],
) -> (r: Vec<u8>)
    ensures
        r@ == group_header_bytes_of(group_id@, sender_id@, generation, signing_pub@, nonce@),
        decodes_to(
            group_header_fields_of(r@),
            (group_id@, sender_id@, generation, signing_pub@, nonce@),
        ),
{
    postcard::to_allocvec(&(group_id, sender_id, generation, signing_pub, nonce)).expect("no failing path")
}

/// `postcard::from_bytes` to the fields of a group header.
#[verifier::external_body]
pub(crate) fn decode_group_header(bytes: &[u8]) -> (r: Result<
    ([u8; 32], [u8; 32], u32, Vec<u8>, [u8; 24]),
    CodecError,
>)
    ensures
        group_header_fields_view(r) == group_header_fields_of(bytes@),
{
    match postcard::from_bytes(bytes) {
        Ok(fields) => Ok(fields),
        Err(postcard::Error::DeserializeUnexpectedEnd) => Err(CodecError::UnexpectedEnd),
        Err(postcard::Error::DeserializeBadVarint) => Err(CodecError::BadVarint),
        Err(_) => Err(CodecError::Unlisted),
    }
}

// ---- Sender-key distribution ----------------------------------------------------------

/// The encoding of a sender-key distribution: group id, member id, chain key,
/// signing seed, signing public key, generation.
#[verifier::opaque]
pub open spec fn distribution_bytes_of(
    group_id: Seq<u8>,
    member_id: Seq<u8>,
    chain_key: Seq<u8>,
    signing: Seq<u8>,
    signing_pub: Seq<u8>,
    generation: u32,
) -> Seq<u8> {
    group_id + member_id + chain_key + bytes_field(signing) + bytes_field(signing_pub) + varint(
        generation as nat,
    )
}

/// The fields that bytes decode to as a sender-key distribution.
pub uninterp spec fn distribution_fields_of(bytes: Seq<u8>) -> Option<
    (Seq<u8>, Seq<u8>, Seq<u8>, Seq<u8>, Seq<u8>, u32),
>;

/// The contents of a decoded distribution.
pub open spec fn distribution_fields_view(
    r: Option<([u8; 32], [u8; 32], [u8; 32], Vec<u8>, Vec<u8>, u32)>,
) -> Option<(Seq<u8>, Seq<u8>, Seq<u8>, Seq<u8>, Seq<u8>, u32)> {
    match r {
        Some(f) => Some((f.0@, f.1@, f.2@, f.3@, f.4@, f.5)),
        None => None,
    }
}

/// `postcard::to_allocvec` on the fields of a sender-key distribution.
#[verifier::external_body]
pub(crate) fn encode_distribution_fields(
    group_id: &[u8; 32],
    member_id: &[u8; 32],
    chain_key: &[u8; 32],
    signing: &[u8],
    signing_pub: &[u8],
    generation: u32,
) -> (r: Vec<u8>)
    ensures
        r@ == distribution_bytes_of(
            group_id@,
            member_id@,
            chain_key@,
            signing@,
            signing_pub@,
            generation,
        ),
        distribution_fields_of(r@) == Some(
            (group_id@, member_id@, chain_key@, signing@, signing_pub@, generation),
        ),
{
    let fields = (group_id, member_id, chain_key, signing, signing_pub, generation);
    postcard::to_allocvec(&fields).expect("no failing path")
}

/// `postcard::from_bytes` to the fields of a sender-key distribution.
#[verifier::external_body]
pub(crate) fn decode_distribution_fields(bytes: &[u8]) -> (r: Option<
    ([u8; 32], [u8; 32], [u8; 32], Vec<u8>, Vec<u8>, u32),
>)
    ensures
        distribution_fields_view(r) == distribution_fields_of(bytes@),
{
    postcard::from_bytes(bytes).ok()
}

// ---- Stored messages ------------------------------------------------------------------

/// The encoding of a stored message: text and status.
#[verifier::opaque]
pub open spec fn stored_bytes_of(text: Seq<char>, status: u8) -> Seq<u8> {
    bytes_field(encode_utf8(text)) + seq![status]
}

/// The fields that bytes decode to as a stored message.
pub uninterp spec fn stored_fields_of(bytes: Seq<u8>) -> Option<(Seq<char>, u8)>;

/// The contents of a decoded stored message.
pub open spec fn stored_fields_view(r: Option<(String, u8)>) -> Option<(Seq<char>, u8)> {
    match r {
        Some(f) => Some((f.0@, f.1)),
        None => None,
    }
}

/// `postcard::to_allocvec` on the fields of a stored message.
#[verifier::external_body]
pub(crate) fn encode_stored(text: &str, status: u8) -> (r: Vec<u8>)
    ensures
        r@ == stored_bytes_of(text@, status),
        stored_fields_of(r@) == Some((text@, status)),
{
    postcard::to_allocvec(&(text, status)).expect("no failing path")
}

/// `postcard::from_bytes` to the fields of a stored message.
#[verifier::external_body]
pub(crate) fn decode_stored(bytes: &[u8]) -> (r: Option<(String, u8)>)
    ensures
        stored_fields_view(r) == stored_fields_of(bytes@),
{
    postcard::from_bytes(bytes).ok()
}

// ---- Contents of one-to-one messages -----------------------------------------------------
//
// A one-to-one message between bridges is an enum of two variants. postcard
// writes the variant's number, then its fields.

/// The number that bytes start with.
pub uninterp spec fn variant_of(bytes: Seq<u8>) -> Option<u32>;

/// The encoding of a chat message: variant 0 and the text.
#[verifier::opaque]
pub open spec fn chat_bytes_of(text: Seq<char>) -> Seq<u8> {
    varint(0) + bytes_field(encode_utf8(text))
}

/// The number and the text that bytes decode to as a chat message.
pub uninterp spec fn chat_fields_of(bytes: Seq<u8>) -> Option<(u32, Seq<char>)>;

/// The contents of a decoded chat message.
pub open spec fn chat_fields_view(r: Option<(u32, String)>) -> Option<(u32, Seq<char>)> {
    match r {
        Some(f) => Some((f.0, f.1@)),
        None => None,
    }
}

/// The encoding of a group invitation: variant 1, the group's id and name, and
/// the sender-key state (member id, chain key, signing seed, signing public
/// key, generation).
#[verifier::opaque]
pub open spec fn invite_bytes_of(
    group: Seq<u8>,
    name: Seq<char>,
    member_id: Seq<u8>,
    chain_key: Seq<u8>,
    signing: Seq<u8>,
    signing_pub: Seq<u8>,
    generation: u32,
) -> Seq<u8> {
    varint(1) + group + bytes_field(encode_utf8(name)) + member_id + chain_key + bytes_field(signing)
        + bytes_field(signing_pub) + varint(generation as nat)
}

/// The number and the fields that bytes decode to as a group invitation.
pub uninterp spec fn invite_fields_of(bytes: Seq<u8>) -> Option<
    (u32, Seq<u8>, Seq<char>, Seq<u8>, Seq<u8>, Seq<u8>, Seq<u8>, u32),
>;

/// The contents of a decoded group invitation.
pub open spec fn invite_fields_view(
    r: Option<(u32, [u8; 32], String, [u8; 32], [u8; 32], Vec<u8>, Vec<u8>, u32)>,
) -> Option<(u32, Seq<u8>, Seq<char>, Seq<u8>, Seq<u8>, Seq<u8>, Seq<u8>, u32)> {
    match r {
        Some(f) => Some((f.0, f.1@, f.2@, f.3@, f.4@, f.5@, f.6@, f.7)),
        None => None,
    }
}

/// `postcard::from_bytes` to a number.
#[verifier::external_body]
pub(crate) fn decode_variant(bytes: &[u8]) -> (r: Option<u32>)
    ensures
        r == variant_of(bytes@),
{
    postcard::from_bytes(bytes).ok()
}

/// Beside the text's bytes a chat message has the variant, in one byte, and
/// their number, in ten at most.
pub proof fn lemma_chat_len(text: Seq<char>)
    requires
        encode_utf8(text).len() <= u64::MAX,
    ensures
        chat_bytes_of(text).len() <= encode_utf8(text).len() + 11,
{
    reveal(chat_bytes_of);
    reveal_with_fuel(power_of_128, 11);
    lemma_varint_len(encode_utf8(text).len(), 10);
}

/// Beside the name's bytes an invitation has the variant and the generation,
/// the number of those bytes, and fields of known length.
pub proof fn lemma_invite_len(
    group: Seq<u8>,
    name: Seq<char>,
    member_id: Seq<u8>,
    chain_key: Seq<u8>,
    signing: Seq<u8>,
    signing_pub: Seq<u8>,
    generation: u32,
)
    requires
        encode_utf8(name).len() <= u64::MAX,
        group.len() == 32,
        member_id.len() == 32,
        chain_key.len() == 32,
        signing.len() == 32,
        signing_pub.len() == 32,
    ensures
        invite_bytes_of(
            group,
            name,
            member_id,
            chain_key,
            signing,
            signing_pub,
            generation,
        ).len() <= encode_utf8(name).len() + 178,
{
    reveal(invite_bytes_of);
    reveal_with_fuel(power_of_128, 11);
    lemma_varint_len(encode_utf8(name).len(), 10);
    lemma_varint_len(generation as nat, 5);
}

/// `postcard::to_allocvec` on a chat message.
#[verifier::external_body]
pub(crate) fn encode_chat(text: &str) -> (r: Vec<u8>)
    ensures
        r@ == chat_bytes_of(text@),
        variant_of(r@) == Some(0u32),
        chat_fields_of(r@) == Some((0u32, text@)),
{
    postcard::to_allocvec(&(0u32, text)).expect("no failing path")
}

/// `postcard::from_bytes` to a chat message.
#[verifier::external_body]
pub(crate) fn decode_chat(bytes: &[u8]) -> (r: Option<(u32, String)>)
    ensures
        chat_fields_view(r) == chat_fields_of(bytes@),
{
    postcard::from_bytes(bytes).ok()
}

/// `postcard::to_allocvec` on a group invitation.
#[verifier::external_body]
pub(crate) fn encode_invite(
    group: &[u8; 32],
    name: &str,
    member_id: &[u8; 32],
    chain_key: &[u8; 32],
    signing: &[u8],
    signing_pub: &[u8],
    generation: u32,
) -> (r: Vec<u8>)
    ensures
        r@ == invite_bytes_of(
            group@,
            name@,
            member_id@,
            chain_key@,
            signing@,
            signing_pub@,
            generation,
        ),
        variant_of(r@) == Some(1u32),
        invite_fields_of(r@) == Some(
            (1u32, group@, name@, member_id@, chain_key@, signing@, signing_pub@, generation),
        ),
{
    let fields = (1u32, group, name, member_id, chain_key, signing, signing_pub, generation);
    postcard::to_allocvec(&fields).expect("no failing path")
}

/// `postcard::from_bytes` to a group invitation.
#[verifier::external_body]
pub(crate) fn decode_invite(bytes: &[u8]) -> (r: Option<
    (u32, [u8; 32], String, [u8; 32], [u8; 32], Vec<u8>, Vec<u8>, u32),
>)
    ensures
        invite_fields_view(r) == invite_fields_of(bytes@),
{
    postcard::from_bytes(bytes).ok()
}

} // verus!
