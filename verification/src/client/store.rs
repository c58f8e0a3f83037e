//! The encrypted local store: keys derived from a passphrase, sealed values
//! and messages, and what rows of the database stand for. Reading and writing
//! the database itself is left to the caller.
use crate::bytes::{
    append, append_be64, array16, array24_at, array32, be64, lemma_be64, tail_from, to_vec,
};
use crate::client::error::ClientError;
use crate::crypto::aead;
use crate::crypto::aead::unsealed;
use crate::primitives;
use crate::wire;
use vstd::prelude::*;
use vstd::utf8::encode_utf8;

verus! {

/// Argon2id memory cost in KiB: 64 MiB.
pub const ARGON_M_KIB: u32 = 65536;

/// Argon2id time cost.
pub const ARGON_T: u32 = 3;

/// Argon2id parallelism.
pub const ARGON_P: u32 = 4;

/// What the canary's blob is bound to: `store_canary`.
pub const CANARY_AAD: [u8; 12] = [
    0x73, 0x74, 0x6f, 0x72, 0x65, 0x5f, 0x63, 0x61, 0x6e, 0x61, 0x72, 0x79,
];

/// What the canary's blob holds: `um-store-ok`.
pub const CANARY_TEXT: [u8; 11] = [
    0x75, 0x6d, 0x2d, 0x73, 0x74, 0x6f, 0x72, 0x65, 0x2d, 0x6f, 0x6b,
];

/// A store error with a given text.
pub open spec fn is_store_error(e: ClientError, text: Seq<char>) -> bool {
    e matches ClientError::Store(s) && s@ == text
}

/// A store error with a given text.
fn store_error(text: &str) -> (r: ClientError)
    ensures
        is_store_error(r, text@),
{
    ClientError::Store(text.to_owned())
}

// ---- Sealing ------------------------------------------------------------------------

/// A sealed blob: the nonce, then the ciphertext.
pub open spec fn blob_of(key: Seq<u8>, nonce: Seq<u8>, aad: Seq<u8>, plaintext: Seq<u8>) -> Seq<u8> {
    nonce + primitives::sealed_of(key, nonce, aad, plaintext)
}

/// What a sealed blob holds, `None` where it does not open.
pub open spec fn opened_blob(key: Seq<u8>, aad: Seq<u8>, blob: Seq<u8>) -> Option<Seq<u8>> {
    if blob.len() < 24 {
        None
    } else {
        unsealed(key, blob.take(24), aad, blob.subrange(24, blob.len() as int))
    }
}

/// Seals `plaintext` under `key`, bound to `aad`, with the given nonce.
pub fn seal_with(key: &[u8; 32], nonce: &[u8; 24], aad: &[u8], plaintext: &[u8]) -> (r: Result<
    Vec<u8>,
    ClientError,
>)
    ensures
        match r {
            Ok(blob) => plaintext@.len() < primitives::SEAL_LIMIT && blob@ == blob_of(
                key@,
                nonce@,
                aad@,
                plaintext@,
            ) && opened_blob(key@, aad@, blob@) == Some(plaintext@),
            Err(e) => plaintext@.len() >= primitives::SEAL_LIMIT && is_store_error(
                e,
                "seal: aead::Error"@,
            ),
        },
{
    if plaintext.len() as u64 >= primitives::SEAL_LIMIT {
        return Err(store_error("seal: aead::Error"));
    }
    let ct: Vec<u8> = aead::seal(key, nonce, aad, plaintext);
    let mut out: Vec<u8> = to_vec(nonce);
    append(&mut out, &ct);
    proof {
        assert(out@.take(24) =~= nonce@);
        assert(out@.subrange(24, out@.len() as int) =~= ct@);
    }
    Ok(out)
}

/// Seals `plaintext` under `key`, bound to `aad`, with a random nonce.
pub fn seal(key: &[u8; 32], aad: &[u8], plaintext: &[u8]) -> (r: Result<Vec<u8>, ClientError>)
    ensures
        match r {
            Ok(blob) => plaintext@.len() < primitives::SEAL_LIMIT && blob@.len() >= 24 && blob@
                == blob_of(key@, blob@.take(24), aad@, plaintext@) && opened_blob(
                key@,
                aad@,
                blob@,
            ) == Some(plaintext@),
            Err(e) => plaintext@.len() >= primitives::SEAL_LIMIT && is_store_error(
                e,
                "seal: aead::Error"@,
            ),
        },
{
    let nonce: [u8; 24] = primitives::os_random();
    let r = seal_with(key, &nonce, aad, plaintext);
    proof {
        if r is Ok {
            assert(r.unwrap()@.take(24) =~= nonce@);
        }
    }
    r
}

/// Opens a sealed blob.
pub fn open(key: &[u8; 32], aad: &[u8], blob: &[u8]) -> (r: Result<Vec<u8>, ClientError>)
    ensures
        match r {
            Ok(p) => opened_blob(key@, aad@, blob@) == Some(p@),
            Err(e) => opened_blob(key@, aad@, blob@) is None && is_store_error(
                e,
                if blob@.len() < 24 {
                    "sealed blob too short"@
                } else {
                    "open failed (wrong passphrase or corrupt)"@
                },
            ),
        },
{
    if blob.len() < 24 {
        return Err(store_error("sealed blob too short"));
    }
    let nonce: [u8; 24] = array24_at(blob, 0);
    let ct: Vec<u8> = tail_from(blob, 24);
    assert(nonce@ =~= blob@.take(24));
    match aead::open(key, &nonce, aad, &ct) {
        Ok(p) => Ok(p),
        Err(_) => Err(store_error("open failed (wrong passphrase or corrupt)")),
    }
}

// ---- Keys ---------------------------------------------------------------------------

/// The key of a store, with the salt with which it was derived from the
/// passphrase. The salt is kept in the store, the key is not.
pub struct StoreKey {
    key: [u8; 32],
    salt: [u8; 16],
}

/// The key of a passphrase and a salt.
pub open spec fn key_of(passphrase: Seq<char>, salt: Seq<u8>) -> Seq<u8> {
    primitives::argon2id_of(encode_utf8(passphrase), salt, ARGON_M_KIB, ARGON_T, ARGON_P)
}

/// The error of a failed derivation: the reason, in the words of the key
/// derivation, behind a fixed start.
pub open spec fn is_derive_error(e: ClientError) -> bool {
    e matches ClientError::Store(s) && exists|reason: Seq<char>|
        s@ == #[trigger] ("argon2 derive: "@ + reason)
}

/// The key that a derivation gave, or the error of one that failed.
pub fn derived_key(outcome: Result<[u8; 32], String>) -> (r: Result<[u8; 32], ClientError>)
    ensures
        match outcome {
            Ok(k) => r == Ok::<[u8; 32], ClientError>(k),
            Err(reason) => r matches Err(e) && is_store_error(e, "argon2 derive: "@ + reason@),
        },
{
    match outcome {
        Ok(k) => Ok(k),
        Err(reason) => {
            let mut s: String = "argon2 derive: ".to_owned();
            s.append(reason.as_str());
            Err(ClientError::Store(s))
        },
    }
}

/// Derives the key of a passphrase and a salt. That it succeeds is not stated:
/// the derivation takes memory that may not be at hand.
fn derive_key(passphrase: &str, salt: &[u8; 16]) -> (r: Result<[u8; 32], ClientError>)
    ensures
        match r {
            Ok(k) => k@ == key_of(passphrase@, salt@),
            Err(e) => is_derive_error(e),
        },
{
    derived_key(
        primitives::argon2id(passphrase.as_bytes(), salt, ARGON_M_KIB, ARGON_T, ARGON_P),
    )
}

impl StoreKey {
    /// The bytes of the key.
    pub closed spec fn key_bytes(&self) -> Seq<u8> {
        self.key@
    }

    /// The bytes of the salt.
    pub closed spec fn salt_bytes(&self) -> Seq<u8> {
        self.salt@
    }

    /// Derives a key with a random salt, for a new store. That it succeeds is
    /// not stated: the derivation takes memory that may not be at hand.
    pub fn derive_new(passphrase: &str) -> (r: Result<Self, ClientError>)
        ensures
            match r {
                Ok(k) => is_derived(k, passphrase@, k.salt_bytes()) && k.salt_bytes().len() == 16,
                Err(e) => is_derive_error(e),
            },
    {
        let salt: [u8; 16] = primitives::os_random();
        Self::derive_with(passphrase, &salt)
    }

    /// Derives the key with the salt of an existing store. That it succeeds is
    /// not stated: the derivation takes memory that may not be at hand.
    pub fn derive_with(passphrase: &str, salt: &[u8; 16]) -> (r: Result<Self, ClientError>)
        ensures
            match r {
                Ok(k) => is_derived(k, passphrase@, salt@),
                Err(e) => is_derive_error(e),
            },
    {
        match derive_key(passphrase, salt) {
            Ok(key) => Ok(StoreKey { key, salt: *salt }),
            Err(e) => Err(e),
        }
    }

    /// The salt.
    pub fn salt(&self) -> (r: [u8; 16])
        ensures
            r@ == self.salt_bytes(),
    {
        self.salt
    }

    /// The canary of a new store: a known text under the key, by which a wrong
    /// passphrase is found out.
    pub fn canary(&self) -> (r: Vec<u8>)
        ensures
            is_canary(self.key_bytes(), r@),
    {
        match seal(&self.key, &CANARY_AAD, &CANARY_TEXT) {
            Ok(blob) => blob,
            Err(_) => {
                assert(false);
                Vec::new()
            },
        }
    }

    /// Opens an existing store from what it holds: the salt, and the canary
    /// where there is one.
    pub fn unlock(salt: Option<Vec<u8>>, canary: Option<Vec<u8>>, passphrase: &str) -> (r: Result<
        Self,
        ClientError,
    >)
        ensures
            unlocked(salt, canary, passphrase@, r),
    {
        let salt: Vec<u8> = match salt {
            Some(s) => s,
            None => {
                return Err(store_error("no store salt (not initialized)"));
            },
        };
        if salt.len() != 16 {
            return Err(store_error("corrupt salt"));
        }
        let key = match StoreKey::derive_with(passphrase, &array16(&salt)) {
            Ok(k) => k,
            Err(e) => {
                return Err(e);
            },
        };
        key.checked_by(&canary)
    }

    /// The key, where it is the one of the store with this canary.
    pub fn checked_by(self, canary: &Option<Vec<u8>>) -> (r: Result<Self, ClientError>)
        ensures
            if canary_fits(self.key_bytes(), *canary) {
                r == Ok::<Self, ClientError>(self)
            } else {
                r matches Err(e) && is_store_error(e, "wrong passphrase"@)
            },
    {
        if let Some(c) = canary {
            if open(&self.key, &CANARY_AAD, c).is_err() {
                return Err(store_error("wrong passphrase"));
            }
        }
        Ok(self)
    }

    /// Seals the bytes of a value for the slot with a name.
    pub fn seal_value(&self, name: &str, bytes: &[u8]) -> (r: Result<Vec<u8>, ClientError>)
        ensures
            value_sealed(self.key_bytes(), name@, bytes@, r),
    {
        seal(&self.key, name.as_bytes(), bytes)
    }

    /// Opens the blob in the slot with a name.
    pub fn open_value(&self, name: &str, blob: &[u8]) -> (r: Result<Vec<u8>, ClientError>)
        ensures
            value_opened(self.key_bytes(), name@, blob@, r),
    {
        open(&self.key, name.as_bytes(), blob)
    }

    /// Seals a message for a row of the message table, bound to the chat, the
    /// direction and the time.
    pub fn seal_message(
        &self,
        peer: &[u8; 32],
        direction: i64,
        timestamp: i64,
        msg: &StoredMessage,
    ) -> (r: Result<Vec<u8>, ClientError>)
        ensures
            ({
                let bytes = wire::stored_bytes_of(msg.text@, msg.status);
                match r {
                    Ok(blob) => bytes.len() < primitives::SEAL_LIMIT && opened_blob(
                        self.key_bytes(),
                        message_aad(peer@, direction, timestamp),
                        blob@,
                    ) == Some(bytes) && wire::stored_fields_of(bytes) == Some(
                        (msg.text@, msg.status),
                    ),
                    Err(e) => bytes.len() >= primitives::SEAL_LIMIT && is_store_error(
                        e,
                        "seal: aead::Error"@,
                    ),
                }
            }),
    {
        let bytes: Vec<u8> = wire::encode_stored(msg.text.as_str(), msg.status);
        let aad: Vec<u8> = make_message_aad(peer, direction, timestamp);
        seal(&self.key, &aad, &bytes)
    }

    /// Decodes rows of the message table of one chat, in their order. A row
    /// that does not open or decode is left out; a sender that is no key is an
    /// error.
    pub fn decode_message_rows(&self, peer: &[u8; 32], rows: &[RawMessageRow]) -> (r: Result<
        Vec<StoredMessageRow>,
        ClientError,
    >)
        ensures
            match decoded_rows(self.key_bytes(), peer@, rows@) {
                Some(out) => r matches Ok(v) && rows_model(v@) == out,
                None => r matches Err(e) && is_store_error(e, "corrupt sender in message row"@),
            },
    {
        let mut out: Vec<StoredMessageRow> = Vec::new();
        let mut i: usize = 0;
        assert(rows@.take(0) =~= Seq::<RawMessageRow>::empty());
        assert(rows_model(out@) =~= Seq::<RowModel>::empty());
        while i < rows.len()
            invariant
                0 <= i <= rows@.len(),
                decoded_rows(self.key_bytes(), peer@, rows@.take(i as int)) == Some(
                    rows_model(out@),
                ),
            decreases rows@.len() - i,
        {
            let raw: &RawMessageRow = &rows[i];
            let ghost before = out@;
            proof {
                let next = rows@.take(i + 1);
                assert(next.drop_last() =~= rows@.take(i as int));
                assert(next.last() == rows@[i as int]);
            }
            let aad: Vec<u8> = make_message_aad(peer, raw.direction, raw.timestamp);
            if let Ok(bytes) = open(&self.key, &aad, &raw.sealed) {
                if let Some((text, status)) = wire::decode_stored(&bytes) {
                    let sender: Option<[u8; 32]> = match &raw.sender {
                        None => None,
                        Some(s) => if s.len() == 32 {
                            Some(array32(s))
                        } else {
                            proof {
                                lemma_bad_row(self.key_bytes(), peer@, rows@, i + 1);
                            }
                            return Err(store_error("corrupt sender in message row"));
                        },
                    };
                    out.push(
                        StoredMessageRow {
                            id: raw.id,
                            direction: raw.direction,
                            timestamp: raw.timestamp,
                            sender,
                            msg: StoredMessage { text, status },
                        },
                    );
                    assert(rows_model(out@) =~= rows_model(before).push(out@.last()@));
                }
            }
            i = i + 1;
        }
        assert(rows@.take(i as int) =~= rows@);
        Ok(out)
    }

    /// One page of a chat from rows that the database gave newest first: at
    /// most `limit` of them, oldest first, and whether there were more. A sender
    /// that is no key is an error in a row beyond the limit too.
    pub fn messages_page(&self, peer: &[u8; 32], rows: Vec<RawMessageRow>, limit: usize) -> (r: Result<
        MessagePage,
        ClientError,
    >)
        ensures
            match page_rows(self.key_bytes(), peer@, rows@, limit as int) {
                Some(out) => r matches Ok(page) && rows_model(page.rows@) == out && page.has_more
                    == (rows@.len() > limit),
                None => r matches Err(e) && is_store_error(e, "corrupt sender in message row"@),
            },
    {
        let ghost all = rows@;
        let has_more: bool = rows.len() > limit;
        let mut rows: Vec<RawMessageRow> = rows;
        if has_more {
            let beyond: Vec<RawMessageRow> = rows.split_off(limit);
            proof {
                assert(all =~= rows@ + beyond@);
                lemma_decoded_append(self.key_bytes(), peer@, rows@, beyond@);
            }
            if let Err(e) = self.decode_message_rows(peer, &beyond) {
                return Err(e);
            }
        }
        assert(rows@ =~= all.take(
            if all.len() > limit {
                limit as int
            } else {
                all.len() as int
            },
        ));
        let newest_first: Vec<StoredMessageRow> = match self.decode_message_rows(peer, &rows) {
            Ok(v) => v,
            Err(e) => {
                return Err(e);
            },
        };
        let out: Vec<StoredMessageRow> = reversed(newest_first);
        Ok(MessagePage { rows: out, has_more })
    }
}

/// A key is the one that a passphrase and a salt give.
pub open spec fn is_derived(k: StoreKey, passphrase: Seq<char>, salt: Seq<u8>) -> bool {
    k.key_bytes() == key_of(passphrase, salt) && k.salt_bytes() == salt
}

/// A passphrase and a salt give one key: a store that is opened again with its
/// passphrase and salt has the key that it was made with.
pub proof fn lemma_same_salt_same_key(made: StoreKey, again: StoreKey, passphrase: Seq<char>)
    requires
        is_derived(made, passphrase, made.salt_bytes()),
        is_derived(again, passphrase, made.salt_bytes()),
    ensures
        again.key_bytes() == made.key_bytes(),
        again.salt_bytes() == made.salt_bytes(),
{
}

/// A canary opens under a key; a store without one is taken as it is.
pub open spec fn canary_fits(key: Seq<u8>, canary: Option<Vec<u8>>) -> bool {
    match canary {
        Some(c) => opened_blob(key, CANARY_AAD@, c@) is Some,
        None => true,
    }
}

/// A blob is the canary of a key.
pub open spec fn is_canary(key: Seq<u8>, blob: Seq<u8>) -> bool {
    opened_blob(key, CANARY_AAD@, blob) == Some(CANARY_TEXT@)
}

/// What opening an existing store gives: its key, unless it holds no salt of the
/// right length, the derivation fails, or the canary does not open.
pub open spec fn unlocked(
    salt: Option<Vec<u8>>,
    canary: Option<Vec<u8>>,
    passphrase: Seq<char>,
    r: Result<StoreKey, ClientError>,
) -> bool {
    match salt {
        None => r matches Err(e) && is_store_error(e, "no store salt (not initialized)"@),
        Some(s) => if s@.len() != 16 {
            r matches Err(e) && is_store_error(e, "corrupt salt"@)
        } else {
            match r {
                Ok(k) => is_derived(k, passphrase, s@) && canary_fits(
                    key_of(passphrase, s@),
                    canary,
                ),
                Err(e) => is_derive_error(e) || (is_store_error(e, "wrong passphrase"@)
                    && !canary_fits(key_of(passphrase, s@), canary)),
            }
        },
    }
}

/// What sealing a value for the slot with a name gives: a blob that holds it,
/// unless it is too long.
pub open spec fn value_sealed(
    key: Seq<u8>,
    name: Seq<char>,
    bytes: Seq<u8>,
    r: Result<Vec<u8>, ClientError>,
) -> bool {
    match r {
        Ok(blob) => bytes.len() < primitives::SEAL_LIMIT && opened_blob(
            key,
            encode_utf8(name),
            blob@,
        ) == Some(bytes),
        Err(e) => bytes.len() >= primitives::SEAL_LIMIT && is_store_error(
            e,
            "seal: aead::Error"@,
        ),
    }
}

/// What opening the blob in the slot with a name gives.
pub open spec fn value_opened(
    key: Seq<u8>,
    name: Seq<char>,
    blob: Seq<u8>,
    r: Result<Vec<u8>, ClientError>,
) -> bool {
    match r {
        Ok(p) => opened_blob(key, encode_utf8(name), blob) == Some(p@),
        Err(e) => opened_blob(key, encode_utf8(name), blob) is None && is_store_error(
            e,
            if blob.len() < 24 {
                "sealed blob too short"@
            } else {
                "open failed (wrong passphrase or corrupt)"@
            },
        ),
    }
}

/// A store that is opened again with its passphrase gives its values back: its
/// salt and its canary are no reason to refuse, only the derivation may fail, and
/// what was put in a slot is read from it.
pub proof fn lemma_reopened_store(
    made: StoreKey,
    passphrase: Seq<char>,
    salt: Vec<u8>,
    canary: Vec<u8>,
    reopened: Result<StoreKey, ClientError>,
    name: Seq<char>,
    bytes: Seq<u8>,
    blob: Vec<u8>,
    read: Result<Vec<u8>, ClientError>,
)
    requires
        is_derived(made, passphrase, made.salt_bytes()),
        made.salt_bytes().len() == 16,
        salt@ == made.salt_bytes(),
        is_canary(made.key_bytes(), canary@),
        unlocked(Some(salt), Some(canary), passphrase, reopened),
        value_sealed(made.key_bytes(), name, bytes, Ok(blob)),
        reopened matches Ok(t) ==> value_opened(t.key_bytes(), name, blob@, read),
    ensures
        reopened matches Err(e) ==> is_derive_error(e),
        reopened matches Ok(t) ==> t.key_bytes() == made.key_bytes() && (read matches Ok(v) && v@
            == bytes),
{
}

/// A passphrase under whose key the canary does not open is refused, however
/// often it is tried.
pub proof fn lemma_other_key_refused(
    salt: Vec<u8>,
    canary: Vec<u8>,
    other: Seq<char>,
    r: Result<StoreKey, ClientError>,
)
    requires
        unlocked(Some(salt), Some(canary), other, r),
        opened_blob(key_of(other, salt@), CANARY_AAD@, canary@) is None,
    ensures
        r is Err,
{
}

/// Whether a store may be made at a place where a file is, or is not, and has
/// so many bytes.
pub fn check_vacant(exists: bool, len: u64) -> (r: Result<(), ClientError>)
    ensures
        match r {
            Ok(_) => !(exists && len > 0),
            Err(e) => exists && len > 0 && is_store_error(e, "store already exists"@),
        },
{
    if exists && len > 0 {
        Err(store_error("store already exists"))
    } else {
        Ok(())
    }
}

// ---- Messages -------------------------------------------------------------------------

/// A stored message: the text and the number of its status.
#[derive(Debug)]
pub struct StoredMessage {
    pub text: String,
    pub status: u8,
}

/// A decoded row: `direction` is 0 for an outgoing message and 1 for an
/// incoming one, `sender` the author of an incoming group message.
#[derive(Debug)]
pub struct StoredMessageRow {
    pub id: i64,
    pub direction: i64,
    pub timestamp: i64,
    pub sender: Option<[u8; 32]>,
    pub msg: StoredMessage,
}

/// A row as it is in the database.
#[derive(Debug)]
pub struct RawMessageRow {
    pub id: i64,
    pub direction: i64,
    pub sealed: Vec<u8>,
    pub timestamp: i64,
    pub sender: Option<Vec<u8>>,
}

/// A page of a chat, oldest message first; `has_more` where older rows exist.
#[derive(Debug)]
pub struct MessagePage {
    pub rows: Vec<StoredMessageRow>,
    pub has_more: bool,
}

/// The contents of a [`StoredMessageRow`].
pub struct RowModel {
    pub id: i64,
    pub direction: i64,
    pub timestamp: i64,
    pub sender: Option<Seq<u8>>,
    pub text: Seq<char>,
    pub status: u8,
}

impl View for StoredMessageRow {
    type V = RowModel;

    open spec fn view(&self) -> RowModel {
        RowModel {
            id: self.id,
            direction: self.direction,
            timestamp: self.timestamp,
            sender: primitives::view_of32(self.sender),
            text: self.msg.text@,
            status: self.msg.status,
        }
    }
}

/// The contents of a list of rows.
pub open spec fn rows_model(s: Seq<StoredMessageRow>) -> Seq<RowModel> {
    s.map_values(|r: StoredMessageRow| r@)
}

/// What a message's blob is bound to: the chat, the direction and the time.
pub open spec fn message_aad(peer: Seq<u8>, direction: i64, timestamp: i64) -> Seq<u8> {
    peer.push(direction as u8) + be64(timestamp as u64)
}

/// What a message's blob is bound to.
fn make_message_aad(peer: &[u8; 32], direction: i64, timestamp: i64) -> (r: Vec<u8>)
    ensures
        r@ == message_aad(peer@, direction, timestamp),
{
    let mut aad: Vec<u8> = to_vec(peer);
    aad.push(direction as u8);
    append_be64(&mut aad, timestamp as u64);
    aad
}

/// What a raw row holds, `None` where it does not open or decode.
pub open spec fn row_text(key: Seq<u8>, peer: Seq<u8>, raw: RawMessageRow) -> Option<(Seq<char>, u8)> {
    match opened_blob(key, message_aad(peer, raw.direction, raw.timestamp), raw.sealed@) {
        Some(bytes) => wire::stored_fields_of(bytes),
        None => None,
    }
}

/// The rows that raw rows stand for: those that open and decode, in order;
/// `None` where one of them has a sender that is no key.
pub open spec fn decoded_rows(key: Seq<u8>, peer: Seq<u8>, raws: Seq<RawMessageRow>) -> Option<
    Seq<RowModel>,
>
    decreases raws.len(),
{
    if raws.len() == 0 {
        Some(Seq::empty())
    } else {
        let raw = raws.last();
        match decoded_rows(key, peer, raws.drop_last()) {
            None => None,
            Some(before) => match row_text(key, peer, raw) {
                None => Some(before),
                Some((text, status)) => if raw.sender matches Some(s) && s@.len() != 32 {
                    None
                } else {
                    Some(
                        before.push(
                            RowModel {
                                id: raw.id,
                                direction: raw.direction,
                                timestamp: raw.timestamp,
                                sender: match raw.sender {
                                    Some(s) => Some(s@),
                                    None => None,
                                },
                                text,
                                status,
                            },
                        ),
                    )
                },
            },
        }
    }
}

/// Rows with a prefix that is refused are refused.
proof fn lemma_bad_row(key: Seq<u8>, peer: Seq<u8>, raws: Seq<RawMessageRow>, k: int)
    requires
        0 <= k <= raws.len(),
        decoded_rows(key, peer, raws.take(k)) is None,
    ensures
        decoded_rows(key, peer, raws) is None,
    decreases raws.len() - k,
{
    if k == raws.len() {
        assert(raws.take(k) =~= raws);
    } else {
        assert(raws.take(k + 1).drop_last() =~= raws.take(k));
        lemma_bad_row(key, peer, raws, k + 1);
    }
}

/// A page from raw rows, newest first: the first `limit` of them, decoded and
/// turned round; `None` where one of all the rows has a sender that is no key.
pub open spec fn page_rows(
    key: Seq<u8>,
    peer: Seq<u8>,
    raws: Seq<RawMessageRow>,
    limit: int,
) -> Option<Seq<RowModel>> {
    let head = raws.take(
        if raws.len() > limit {
            limit
        } else {
            raws.len() as int
        },
    );
    match (decoded_rows(key, peer, raws), decoded_rows(key, peer, head)) {
        (Some(_), Some(rows)) => Some(rows.reverse()),
        _ => None,
    }
}

/// The rows in the other order.
fn reversed(rows: Vec<StoredMessageRow>) -> (r: Vec<StoredMessageRow>)
    ensures
        rows_model(r@) == rows_model(rows@).reverse(),
{
    let ghost all = rows@;
    let mut rest: Vec<StoredMessageRow> = rows;
    let mut out: Vec<StoredMessageRow> = Vec::new();
    while rest.len() > 0
        invariant
            rest@.len() + out@.len() == all.len(),
            rest@ == all.take(rest@.len() as int),
            forall|j: int| 0 <= j < out@.len() ==> #[trigger] out@[j] == all[all.len() - 1 - j],
        decreases rest@.len(),
    {
        let ghost before = rest@;
        match rest.pop() {
            Some(row) => {
                out.push(row);
                assert(rest@ =~= all.take(rest@.len() as int));
            },
            None => {},
        }
    }
    assert(rows_model(out@) =~= rows_model(all).reverse());
    out
}

/// How many rows to ask the database for, to learn whether there are more than
/// `limit`.
pub fn fetch_count(limit: usize) -> (r: i64)
    ensures
        r == (if limit == usize::MAX {
            limit as int
        } else {
            limit + 1
        }) as i64,
{
    let count: usize = if limit == usize::MAX {
        limit
    } else {
        limit + 1
    };
    count as i64
}

/// A thread with an older page in front, and the row before which the next
/// page is to be asked for; `None` where there is no more, or where the page
/// was empty and so gives no row to go on from.
pub fn extend_thread(thread: Vec<StoredMessageRow>, page: MessagePage) -> (r: (
    Vec<StoredMessageRow>,
    Option<i64>,
))
    ensures
        rows_model(r.0@) == rows_model(page.rows@) + rows_model(thread@),
        r.1 == (if page.has_more && page.rows@.len() > 0 {
            Some(page.rows@[0].id)
        } else {
            None
        }),
{
    let next: Option<i64> = if page.has_more && page.rows.len() > 0 {
        Some(page.rows[0].id)
    } else {
        None
    };
    let mut out: Vec<StoredMessageRow> = page.rows;
    let mut tail: Vec<StoredMessageRow> = thread;
    let ghost a = out@;
    let ghost b = tail@;
    out.append(&mut tail);
    assert(rows_model(out@) =~= rows_model(a) + rows_model(b));
    (out, next)
}

/// Rows decode one by one.
pub proof fn lemma_decoded_append(
    key: Seq<u8>,
    peer: Seq<u8>,
    a: Seq<RawMessageRow>,
    b: Seq<RawMessageRow>,
)
    ensures
        decoded_rows(key, peer, a + b) == (match (
            decoded_rows(key, peer, a),
            decoded_rows(key, peer, b),
        ) {
            (Some(x), Some(y)) => Some(x + y),
            _ => None,
        }),
    decreases b.len(),
{
    if b.len() == 0 {
        assert(a + b =~= a);
        match decoded_rows(key, peer, a) {
            Some(x) => {
                assert(x + Seq::<RowModel>::empty() =~= x);
            },
            None => {},
        }
    } else {
        lemma_decoded_append(key, peer, a, b.drop_last());
        assert((a + b).drop_last() =~= a + b.drop_last());
        assert((a + b).last() == b.last());
        match (decoded_rows(key, peer, a), decoded_rows(key, peer, b)) {
            (Some(x), Some(y)) => {
                assert(decoded_rows(key, peer, a + b).unwrap() =~= x + y);
            },
            _ => {},
        }
    }
}

/// Page after page, put in front of what was loaded, makes up the whole thread:
/// the older page of `limit` rows and the newer one together are what all the
/// rows would give at once.
pub proof fn lemma_pages_make_up_thread(
    key: Seq<u8>,
    peer: Seq<u8>,
    newest_first: Seq<RawMessageRow>,
    limit: int,
)
    requires
        0 <= limit <= newest_first.len(),
        decoded_rows(key, peer, newest_first) is Some,
    ensures
        ({
            let rest = newest_first.subrange(limit, newest_first.len() as int);
            let whole = page_rows(key, peer, newest_first, newest_first.len() as int);
            let newest = page_rows(key, peer, newest_first, limit);
            let older = page_rows(key, peer, rest, rest.len() as int);
            &&& whole is Some && newest is Some && older is Some
            &&& older.unwrap() + newest.unwrap() == whole.unwrap()
        }),
{
    let n = newest_first.len() as int;
    let head = newest_first.take(limit);
    let rest = newest_first.subrange(limit, n);
    assert(newest_first =~= head + rest);
    assert(newest_first.take(n) =~= newest_first);
    assert(rest.take(rest.len() as int) =~= rest);
    lemma_decoded_append(key, peer, head, rest);
    let x = decoded_rows(key, peer, head).unwrap();
    let y = decoded_rows(key, peer, rest).unwrap();
    assert((x + y).reverse() =~= y.reverse() + x.reverse());
}

/// What is sealed as a message of a chat is decoded to that message, with the
/// direction, time and sender of its row.
pub proof fn lemma_message_round_trip(
    key: Seq<u8>,
    peer: Seq<u8>,
    raw: RawMessageRow,
    text: Seq<char>,
    status: u8,
)
    requires
        opened_blob(key, message_aad(peer, raw.direction, raw.timestamp), raw.sealed@) == Some(
            wire::stored_bytes_of(text, status),
        ),
        wire::stored_fields_of(wire::stored_bytes_of(text, status)) == Some((text, status)),
        raw.sender matches Some(s) ==> s@.len() == 32,
    ensures
        decoded_rows(key, peer, seq![raw]) == Some(
            seq![
                RowModel {
                    id: raw.id,
                    direction: raw.direction,
                    timestamp: raw.timestamp,
                    sender: match raw.sender {
                        Some(s) => Some(s@),
                        None => None,
                    },
                    text,
                    status,
                },
            ],
        ),
{
    assert(seq![raw].drop_last() =~= Seq::<RawMessageRow>::empty());
    assert(decoded_rows(key, peer, Seq::<RawMessageRow>::empty()) == Some(Seq::<RowModel>::empty()));
    assert(decoded_rows(key, peer, seq![raw]).unwrap() =~= seq![
        RowModel {
            id: raw.id,
            direction: raw.direction,
            timestamp: raw.timestamp,
            sender: match raw.sender {
                Some(s) => Some(s@),
                None => None,
            },
            text,
            status,
        },
    ]);
}

// ---- Contacts, groups and counts ---------------------------------------------------------

/// A contact of the store.
#[derive(Debug)]
pub struct Contact {
    pub identity_pub: [u8; 32],
    pub nickname: String,
    pub fingerprint: [u8; 32],
    pub verified: bool,
}

/// A group of the store.
#[derive(Debug)]
pub struct StoredGroup {
    pub group_id: [u8; 32],
    pub name: String,
}

/// The contact of a row.
pub fn contact_of_row(identity_pub: &[u8], nickname: String, fingerprint: &[u8], verified: i64) -> (r: Result<
    Contact,
    ClientError,
>)
    ensures
        match r {
            Ok(c) => c.identity_pub@ == identity_pub@ && c.nickname@ == nickname@ && c.fingerprint@
                == fingerprint@ && c.verified == (verified != 0),
            Err(e) => (identity_pub@.len() != 32 || fingerprint@.len() != 32) && is_store_error(
                e,
                "corrupt contact row"@,
            ),
        },
{
    if identity_pub.len() != 32 || fingerprint.len() != 32 {
        return Err(store_error("corrupt contact row"));
    }
    Ok(
        Contact {
            identity_pub: array32(identity_pub),
            nickname,
            fingerprint: array32(fingerprint),
            verified: verified != 0,
        },
    )
}

/// The group of a row.
pub fn group_of_row(group_id: &[u8], name: String) -> (r: Result<StoredGroup, ClientError>)
    ensures
        match r {
            Ok(g) => g.group_id@ == group_id@ && g.name@ == name@,
            Err(e) => group_id@.len() != 32 && is_store_error(e, "corrupt group row"@),
        },
{
    if group_id.len() != 32 {
        return Err(store_error("corrupt group row"));
    }
    Ok(StoredGroup { group_id: array32(group_id), name })
}

/// The member of a row.
pub fn member_of_row(identity_pub: &[u8]) -> (r: Result<[u8; 32], ClientError>)
    ensures
        match r {
            Ok(k) => k@ == identity_pub@,
            Err(e) => identity_pub@.len() != 32 && is_store_error(e, "corrupt group member row"@),
        },
{
    if identity_pub.len() != 32 {
        return Err(store_error("corrupt group member row"));
    }
    Ok(array32(identity_pub))
}

/// The unread counts of rows: rows without a key are left out, and a negative
/// count is 0.
pub open spec fn counts_of_rows(rows: Seq<(Vec<u8>, i64)>) -> Seq<(Seq<u8>, u32)>
    decreases rows.len(),
{
    if rows.len() == 0 {
        Seq::empty()
    } else {
        let before = counts_of_rows(rows.drop_last());
        let (peer, count) = rows.last();
        if peer@.len() != 32 {
            before
        } else {
            before.push(
                (
                    peer@,
                    (if count < 0 {
                        0
                    } else {
                        count
                    }) as u32,
                ),
            )
        }
    }
}

/// The contents of a list of counts.
pub open spec fn counts_model(s: Seq<([u8; 32], u32)>) -> Seq<(Seq<u8>, u32)> {
    s.map_values(|p: ([u8; 32], u32)| (p.0@, p.1))
}

/// The unread counts of rows.
pub fn unread_counts(rows: &[(Vec<u8>, i64)]) -> (r: Vec<([u8; 32], u32)>)
    ensures
        counts_model(r@) == counts_of_rows(rows@),
{
    let mut out: Vec<([u8; 32], u32)> = Vec::new();
    let mut i: usize = 0;
    assert(rows@.take(0) =~= Seq::<(Vec<u8>, i64)>::empty());
    assert(counts_model(out@) =~= Seq::<(Seq<u8>, u32)>::empty());
    while i < rows.len()
        invariant
            0 <= i <= rows@.len(),
            counts_model(out@) == counts_of_rows(rows@.take(i as int)),
        decreases rows@.len() - i,
    {
        let ghost before = out@;
        proof {
            let next = rows@.take(i + 1);
            assert(next.drop_last() =~= rows@.take(i as int));
            assert(next.last() == rows@[i as int]);
        }
        if rows[i].0.len() == 32 {
            let count: i64 = if rows[i].1 < 0 {
                0
            } else {
                rows[i].1
            };
            out.push((array32(&rows[i].0), count as u32));
            assert(counts_model(out@) =~= counts_model(before).push(
                (out@.last().0@, out@.last().1),
            ));
        }
        i = i + 1;
    }
    assert(rows@.take(i as int) =~= rows@);
    out
}

/// What to do with the row of a chat's unread count.
#[derive(Debug, Clone, Copy, PartialEq, Eq, Structural)]
pub enum UnreadWrite {
    /// Take it away: nothing is unread.
    Delete,
    /// Make it the count.
    Replace(u32),
}

/// What storing an unread count does.
pub fn unread_write(count: u32) -> (r: UnreadWrite)
    ensures
        r == (if count == 0 {
            UnreadWrite::Delete
        } else {
            UnreadWrite::Replace(count)
        }),
{
    if count == 0 {
        UnreadWrite::Delete
    } else {
        UnreadWrite::Replace(count)
    }
}

// ---- Laws ---------------------------------------------------------------------------------

/// The fixed texts of a store, and what a key derivation costs: 64 MiB, three
/// passes, four lanes.
pub proof fn lemma_store_constants(passphrase: Seq<char>, salt: Seq<u8>)
    ensures
        CANARY_AAD@.len() == "store_canary"@.len(),
        forall|i: int|
            0 <= i < CANARY_AAD@.len() ==> (#[trigger] CANARY_AAD@[i]) as char == "store_canary"@[i],
        CANARY_TEXT@.len() == "um-store-ok"@.len(),
        forall|i: int|
            0 <= i < CANARY_TEXT@.len() ==> (#[trigger] CANARY_TEXT@[i]) as char == "um-store-ok"@[i],
        key_of(passphrase, salt) == primitives::argon2id_of(
            encode_utf8(passphrase),
            salt,
            65536,
            3,
            4,
        ),
{
    reveal_strlit("store_canary");
    reveal_strlit("um-store-ok");
}

/// A blob is the nonce of 24 bytes and the ciphertext behind it, and it opens
/// as that ciphertext does under that nonce; what is shorter opens as nothing.
pub proof fn lemma_blobs(
    key: Seq<u8>,
    nonce: Seq<u8>,
    aad: Seq<u8>,
    plaintext: Seq<u8>,
    ct: Seq<u8>,
    short: Seq<u8>,
)
    requires
        nonce.len() == 24,
        short.len() < 24,
    ensures
        blob_of(key, nonce, aad, plaintext).take(24) == nonce,
        blob_of(key, nonce, aad, plaintext).skip(24) == primitives::sealed_of(
            key,
            nonce,
            aad,
            plaintext,
        ),
        opened_blob(key, aad, nonce + ct) == unsealed(key, nonce, aad, ct),
        opened_blob(key, aad, short) is None,
{
    let blob = blob_of(key, nonce, aad, plaintext);
    assert(blob.take(24) =~= nonce);
    assert(blob.skip(24) =~= primitives::sealed_of(key, nonce, aad, plaintext));
    let other = nonce + ct;
    assert(other.take(24) =~= nonce);
    assert(other.subrange(24, other.len() as int) =~= ct);
}

/// What a message is bound to tells the chat, the direction and the time: it is
/// the chat's 32 bytes, one byte of direction and eight of time, and agrees only
/// where all three do.
pub proof fn lemma_message_binding(
    peer: Seq<u8>,
    direction: i64,
    timestamp: i64,
    peer2: Seq<u8>,
    direction2: i64,
    timestamp2: i64,
)
    requires
        peer.len() == 32,
        peer2.len() == 32,
        0 <= direction <= 1,
        0 <= direction2 <= 1,
        0 <= timestamp,
        0 <= timestamp2,
    ensures
        message_aad(peer, direction, timestamp).len() == 41,
        message_aad(peer, direction, timestamp).take(32) == peer,
        message_aad(peer, direction, timestamp)[32] == direction,
        message_aad(peer, direction, timestamp).skip(33) == be64(timestamp as u64),
        message_aad(peer, direction, timestamp) == message_aad(peer2, direction2, timestamp2)
            ==> peer == peer2 && direction == direction2 && timestamp == timestamp2,
{
    let (a, b) = (
        message_aad(peer, direction, timestamp),
        message_aad(peer2, direction2, timestamp2),
    );
    assert(a.take(32) =~= peer);
    assert(b.take(32) =~= peer2);
    assert(a.skip(33) =~= be64(timestamp as u64));
    assert(b.skip(33) =~= be64(timestamp2 as u64));
    assert(a[32] == direction as u8);
    assert(b[32] == direction2 as u8);
    if a == b {
        lemma_be64(timestamp as u64, timestamp2 as u64);
    }
}

/// A raw row is read under what it is bound to: the chat, and its own direction
/// and time.
pub proof fn lemma_row_text(key: Seq<u8>, peer: Seq<u8>, raw: RawMessageRow)
    ensures
        row_text(key, peer, raw) == (match opened_blob(
            key,
            peer.push(raw.direction as u8) + be64(raw.timestamp as u64),
            raw.sealed@,
        ) {
            Some(bytes) => wire::stored_fields_of(bytes),
            None => None,
        }),
{
}

/// A row that does not open or decode is left out; one that does is kept with
/// all that it says, unless its sender is no key, which refuses the whole.
pub proof fn lemma_one_row(key: Seq<u8>, peer: Seq<u8>, raw: RawMessageRow)
    ensures
        decoded_rows(key, peer, Seq::<RawMessageRow>::empty()) == Some(Seq::<RowModel>::empty()),
        ({
            let rows = decoded_rows(key, peer, seq![raw]);
            match row_text(key, peer, raw) {
                None => rows == Some(Seq::<RowModel>::empty()),
                Some((text, status)) => if raw.sender matches Some(s) && s@.len() != 32 {
                    rows is None
                } else {
                    &&& rows is Some
                    &&& rows.unwrap().len() == 1
                    &&& rows.unwrap()[0].id == raw.id
                    &&& rows.unwrap()[0].direction == raw.direction
                    &&& rows.unwrap()[0].timestamp == raw.timestamp
                    &&& rows.unwrap()[0].text == text
                    &&& rows.unwrap()[0].status == status
                    &&& rows.unwrap()[0].sender is Some == raw.sender is Some
                    &&& raw.sender matches Some(s) ==> rows.unwrap()[0].sender == Some(s@)
                },
            }
        }),
{
    assert(seq![raw].drop_last() =~= Seq::<RawMessageRow>::empty());
    assert(decoded_rows(key, peer, Seq::<RawMessageRow>::empty()) == Some(Seq::<RowModel>::empty()));
}

/// A row was read from a raw row: it has its id, direction, time and sender, and
/// the text and status that it holds.
pub open spec fn is_row_of(key: Seq<u8>, peer: Seq<u8>, raw: RawMessageRow, row: RowModel) -> bool {
    &&& row.id == raw.id
    &&& row.direction == raw.direction
    &&& row.timestamp == raw.timestamp
    &&& row.sender is Some == raw.sender is Some
    &&& raw.sender matches Some(s) ==> row.sender == Some(s@)
    &&& row_text(key, peer, raw) == Some((row.text, row.status))
}

/// Where all raw rows can be read, a page holds the newest of them, as many as
/// asked for at most, the oldest of those first, each as it is stored.
pub proof fn lemma_page(key: Seq<u8>, peer: Seq<u8>, raws: Seq<RawMessageRow>, limit: int)
    requires
        0 <= limit,
        forall|i: int|
            0 <= i < raws.len() ==> row_text(key, peer, #[trigger] raws[i]) is Some && (
            raws[i].sender matches Some(s) ==> s@.len() == 32),
    ensures
        ({
            let n = if raws.len() > limit {
                limit
            } else {
                raws.len() as int
            };
            let page = page_rows(key, peer, raws, limit);
            &&& page is Some
            &&& page.unwrap().len() == n
            &&& forall|k: int|
                0 <= k < n ==> is_row_of(
                    key,
                    peer,
                    raws[n - 1 - k],
                    #[trigger] page.unwrap()[k],
                )
        }),
{
    let n = if raws.len() > limit {
        limit
    } else {
        raws.len() as int
    };
    let head = raws.take(n);
    lemma_all_decoded(key, peer, raws);
    assert forall|i: int| 0 <= i < head.len() implies row_text(key, peer, #[trigger] head[i]) is Some && (
    head[i].sender matches Some(s) ==> s@.len() == 32) by {
        assert(head[i] == raws[i]);
    }
    lemma_all_decoded(key, peer, head);
    let rows = decoded_rows(key, peer, head).unwrap();
    let page = page_rows(key, peer, raws, limit).unwrap();
    assert forall|k: int| 0 <= k < n implies is_row_of(key, peer, raws[n - 1 - k], #[trigger] page[k]) by {
        assert(page[k] == rows[n - 1 - k]);
        assert(is_row_of(key, peer, head[n - 1 - k], rows[n - 1 - k]));
    }
}

/// Raw rows that can all be read are all read, in their order.
proof fn lemma_all_decoded(key: Seq<u8>, peer: Seq<u8>, raws: Seq<RawMessageRow>)
    requires
        forall|i: int|
            0 <= i < raws.len() ==> row_text(key, peer, #[trigger] raws[i]) is Some && (
            raws[i].sender matches Some(s) ==> s@.len() == 32),
    ensures
        decoded_rows(key, peer, raws) matches Some(rows) && rows.len() == raws.len() && (forall|i: int|
            0 <= i < raws.len() ==> is_row_of(key, peer, raws[i], #[trigger] rows[i])),
    decreases raws.len(),
{
    if raws.len() > 0 {
        let rest = raws.drop_last();
        assert forall|i: int| 0 <= i < rest.len() implies row_text(
            key,
            peer,
            #[trigger] rest[i],
        ) is Some && (rest[i].sender matches Some(s) ==> s@.len() == 32) by {
            assert(rest[i] == raws[i]);
        }
        lemma_all_decoded(key, peer, rest);
        let n = raws.len() - 1;
        assert(row_text(key, peer, raws[n]) is Some);
        let before = decoded_rows(key, peer, rest).unwrap();
        let rows = decoded_rows(key, peer, raws).unwrap();
        assert forall|i: int| 0 <= i < raws.len() implies is_row_of(key, peer, raws[i], #[trigger] rows[i]) by {
            if i < n {
                assert(rows[i] == before[i]);
                assert(is_row_of(key, peer, rest[i], before[i]));
            }
        }
    }
}

/// A store is opened only with a salt of 16 bytes and only where the canary, if
/// there is one, opens under the key of the passphrase, which is the key then.
pub proof fn lemma_unlocked(
    salt: Option<Vec<u8>>,
    canary: Option<Vec<u8>>,
    passphrase: Seq<char>,
    k: StoreKey,
)
    requires
        unlocked(salt, canary, passphrase, Ok(k)),
    ensures
        salt matches Some(s) && s@.len() == 16 && k.salt_bytes() == s@ && k.key_bytes() == key_of(
            passphrase,
            s@,
        ),
        canary matches Some(c) ==> opened_blob(k.key_bytes(), CANARY_AAD@, c@) is Some,
{
}

/// Counts are read row by row: a row without a key gives nothing, any other its
/// key with its count, a negative one as 0.
pub proof fn lemma_counts_of_rows(
    a: Seq<(Vec<u8>, i64)>,
    b: Seq<(Vec<u8>, i64)>,
    row: (Vec<u8>, i64),
)
    ensures
        counts_of_rows(a + b) == counts_of_rows(a) + counts_of_rows(b),
        row.0@.len() != 32 ==> counts_of_rows(seq![row]).len() == 0,
        row.0@.len() == 32 ==> counts_of_rows(seq![row]).len() == 1 && counts_of_rows(seq![row])[0].0
            == row.0@,
        row.0@.len() == 32 && 0 <= row.1 <= u32::MAX ==> counts_of_rows(seq![row])[0].1 == row.1,
        row.0@.len() == 32 && row.1 < 0 ==> counts_of_rows(seq![row])[0].1 == 0,
    decreases b.len(),
{
    assert(seq![row].drop_last() =~= Seq::<(Vec<u8>, i64)>::empty());
    assert(counts_of_rows(Seq::<(Vec<u8>, i64)>::empty()).len() == 0);
    if b.len() == 0 {
        assert(a + b =~= a);
        assert(counts_of_rows(a) + counts_of_rows(b) =~= counts_of_rows(a));
    } else {
        lemma_counts_of_rows(a, b.drop_last(), row);
        assert((a + b).drop_last() =~= a + b.drop_last());
        assert(counts_of_rows(a + b) =~= counts_of_rows(a) + counts_of_rows(b));
    }
}

/// A value is bound to its slot: what is sealed for a slot opens under the slot's
/// name, and what a slot gives is what opens under its name.
pub proof fn lemma_slots(
    key: Seq<u8>,
    name: Seq<char>,
    bytes: Seq<u8>,
    blob: Vec<u8>,
    read: Seq<u8>,
    r: Result<Vec<u8>, ClientError>,
)
    ensures
        value_sealed(key, name, bytes, Ok(blob)) ==> opened_blob(key, encode_utf8(name), blob@)
            == Some(bytes),
        value_opened(key, name, read, r) && r is Ok ==> opened_blob(key, encode_utf8(name), read)
            == Some(r.unwrap()@),
        value_opened(key, name, read, r) && r is Err ==> opened_blob(
            key,
            encode_utf8(name),
            read,
        ) is None,
        is_canary(key, read) ==> opened_blob(key, CANARY_AAD@, read) == Some(CANARY_TEXT@),
{
}

/// An error of the store has its text, and one of the key derivation starts with
/// what it is one of.
pub proof fn lemma_store_error_texts(e: ClientError, text: Seq<char>)
    ensures
        is_store_error(e, text) <==> (e matches ClientError::Store(t) && t@ == text),
        is_derive_error(e) ==> (e matches ClientError::Store(t) && t@.len()
            >= "argon2 derive: "@.len() && t@.take("argon2 derive: "@.len() as int)
            == "argon2 derive: "@),
{
    if is_derive_error(e) {
        let t = e->Store_0;
        let reason = choose|reason: Seq<char>| t@ == #[trigger] ("argon2 derive: "@ + reason);
        assert(t@.take("argon2 derive: "@.len() as int) =~= "argon2 derive: "@);
    }
}

/// A store without a salt, or with one of another length, is not opened, and says
/// so; a passphrase is called wrong only where the canary does not open under its
/// key.
pub proof fn lemma_not_unlocked(
    salt: Option<Vec<u8>>,
    canary: Option<Vec<u8>>,
    passphrase: Seq<char>,
    r: Result<StoreKey, ClientError>,
)
    requires
        unlocked(salt, canary, passphrase, r),
    ensures
        salt is None ==> (r matches Err(e) && is_store_error(
            e,
            "no store salt (not initialized)"@,
        )),
        salt matches Some(s) ==> (s@.len() != 16 ==> (r matches Err(e) && is_store_error(
            e,
            "corrupt salt"@,
        ))),
        salt matches Some(s) ==> (s@.len() == 16 && (r matches Err(e) && !is_derive_error(e)) ==> (
        canary matches Some(c) && opened_blob(
            primitives::argon2id_of(encode_utf8(passphrase), s@, 65536, 3, 4),
            CANARY_AAD@,
            c@,
        ) is None)),
{
}

} // verus!
