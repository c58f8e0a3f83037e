//! Trusted access to the cryptographic crates and to the system's random
//! source. Each function here makes one outside call; its contract is
//! believed, not proved. A result that is a function of the arguments alone
//! has a name (a spec function without a body), and contracts elsewhere speak
//! of that name.
use chacha20poly1305::aead::{Aead, KeyInit, Payload};
use ed25519_dalek::{Signer, Verifier};
use hmac::Mac;
use ml_kem::kem::{Decapsulate, Encapsulate};
use ml_kem::{Kem, KeyExport, TryKeyInit};
use rand_core::RngCore;
use sha2::Digest;
use vstd::prelude::*;

verus! {

/// The first 32 bytes of a string of 64.
pub open spec fn first_half(s: Seq<u8>) -> Seq<u8> {
    Seq::new(32, |i: int| s[i])
}

/// The contents of an optional array.
pub open spec fn view_of32(o: Option<[u8; 32]>) -> Option<Seq<u8>> {
    match o {
        Some(a) => Some(a@),
        None => None,
    }
}

/// The contents of an optional vector.
pub open spec fn view_of(o: Option<Vec<u8>>) -> Option<Seq<u8>> {
    match o {
        Some(v) => Some(v@),
        None => None,
    }
}

// ---- Random source ---------------------------------------------------------

/// `rand_core::OsRng::fill_bytes` on an array of `N` bytes. Nothing is
/// claimed of the bytes.
#[verifier::external_body]
pub(crate) fn os_random<const N: usize>() -> (r: [u8; N])
{
    let mut out = [0u8; N];
    rand_core::OsRng.fill_bytes(&mut out);
    out
}

// ---- Hashes and key derivation ----------------------------------------------

/// What `Sha256::digest` returns on `data`.
pub uninterp spec fn sha256_of(data: Seq<u8>) -> Seq<u8>;

/// `sha2::Sha256::digest`.
#[verifier::external_body]
pub(crate) fn sha256(data: &[u8]) -> (r: [u8; 32])
    ensures
        r@ == sha256_of(data@),
{
    sha2::Sha256::digest(data).into()
}

/// What `Sha512::digest` returns on `data`.
pub uninterp spec fn sha512_of(data: Seq<u8>) -> Seq<u8>;

/// `sha2::Sha512::digest`.
#[verifier::external_body]
pub(crate) fn sha512(data: &[u8]) -> (r: [u8; 64])
    ensures
        r@ == sha512_of(data@),
{
    sha2::Sha512::digest(data).into()
}

/// The HMAC-SHA256 tag of `data` under `key`.
pub uninterp spec fn hmac_sha256_of(key: Seq<u8>, data: Seq<u8>) -> Seq<u8>;

/// `hmac::Hmac<Sha256>`: `new_from_slice` (which accepts a key of any
/// length), one `update`, `finalize`.
#[verifier::external_body]
pub(crate) fn hmac_sha256(key: &[u8; 32], data: &[u8]) -> (r: [u8; 32])
    ensures
        r@ == hmac_sha256_of(key@, data@),
{
    let mut mac = <hmac::Hmac<sha2::Sha256> as hmac::KeyInit>::new_from_slice(key).expect("any key length");
    mac.update(data);
    mac.finalize().into_bytes().into()
}

/// The pseudo-random key that HKDF-SHA256 extracts from `ikm` with `salt`.
pub uninterp spec fn hkdf_extract_of(salt: Seq<u8>, ikm: Seq<u8>) -> Seq<u8>;

/// `hkdf::Hkdf::<Sha256>::extract`.
#[verifier::external_body]
pub(crate) fn hkdf_sha256_extract(salt: &[u8], ikm: &[u8]) -> (r: [u8; 32])
    ensures
        r@ == hkdf_extract_of(salt@, ikm@),
{
    let (prk, _) = hkdf::Hkdf::<sha2::Sha256>::extract(Some(salt), ikm);
    prk.into()
}

/// The first `len` bytes that HKDF-SHA256 expands from `prk` with `info`.
pub uninterp spec fn hkdf_expand_of(prk: Seq<u8>, info: Seq<u8>, len: nat) -> Seq<u8>;

/// `hkdf::Hkdf::<Sha256>::expand`, which fills a buffer of the asked length
/// and fails when that is more than 255 hash outputs.
#[verifier::external_body]
pub(crate) fn hkdf_sha256_expand(prk: &[u8; 32], info: &[u8], len: usize) -> (r: Vec<u8>)
    requires
        len <= 8160,
    ensures
        r@ == hkdf_expand_of(prk@, info@, len as nat),
        r@.len() == len,
{
    let mut okm = vec![0u8; len];
    let hk = hkdf::Hkdf::<sha2::Sha256>::from_prk(prk).expect("32 bytes");
    hk.expand(info, &mut okm).expect("within 255 outputs");
    okm
}

/// The 32-byte Argon2id (version 0x13) hash of `password` with `salt`.
pub uninterp spec fn argon2id_of(
    password: Seq<u8>,
    salt: Seq<u8>,
    m_kib: u32,
    t_cost: u32,
    p_cost: u32,
) -> Seq<u8>;

/// `argon2::Argon2::hash_password_into` with `Params::new(m, t, p, Some(32))`.
/// It fails on parameters that the crate does not take, on a password of more
/// than 2^32 - 1 bytes, and where memory runs out; the error is the crate's
/// own text. That it succeeds otherwise is not stated, since it depends on the
/// memory at hand.
#[verifier::external_body]
pub(crate) fn argon2id(password: &[u8], salt: &[u8; 16], m_kib: u32, t_cost: u32, p_cost: u32) -> (r:
    Result<[u8; 32], String>)
    ensures
        r matches Ok(key) ==> key@ == argon2id_of(password@, salt@, m_kib, t_cost, p_cost),
        r is Ok ==> password@.len() <= 0xffff_ffff,
{
    let params = argon2::Params::new(m_kib, t_cost, p_cost, Some(32)).map_err(|e| format!("{e}"))?;
    let argon = argon2::Argon2::new(argon2::Algorithm::Argon2id, argon2::Version::V0x13, params);
    let mut out = [0u8; 32];
    argon.hash_password_into(password, salt, &mut out).map_err(|e| format!("{e}"))?;
    Ok(out)
}

// ---- XChaCha20-Poly1305 -------------------------------------------------------

/// The number of plaintext bytes at which the cipher's block counter runs out:
/// the payload starts at block 1 of 2^32 - 1, so 2^32 - 2 blocks of 64 bytes are
/// the most.
pub const SEAL_LIMIT: u64 = 274_877_906_817;

/// The most bytes that a ciphertext has: those of the longest plaintext and the
/// tag.
pub const OPEN_LIMIT: u64 = 274_877_906_832;

/// The XChaCha20-Poly1305 ciphertext (tag at the end) of `plaintext`.
pub uninterp spec fn sealed_of(key: Seq<u8>, nonce: Seq<u8>, aad: Seq<u8>, plaintext: Seq<u8>) -> Seq<u8>;

/// The plaintext of `ciphertext`, or `None` where its tag does not verify.
pub uninterp spec fn opened_of(key: Seq<u8>, nonce: Seq<u8>, aad: Seq<u8>, ciphertext: Seq<u8>) -> Option<
    Seq<u8>,
>;

/// `XChaCha20Poly1305::encrypt`, which neither fails nor panics on a plaintext of
/// fewer than [`SEAL_LIMIT`] bytes. The ciphertext is 16 bytes longer than the
/// plaintext, and decrypting it under the same key, nonce and associated data
/// gives the plaintext back.
#[verifier::external_body]
pub(crate) fn xchacha_seal(key: &[u8; 32], nonce: &[u8; 24], aad: &[u8], plaintext: &[u8]) -> (r: Vec<u8>)
    requires
        plaintext@.len() < SEAL_LIMIT,
    ensures
        r@ == sealed_of(key@, nonce@, aad@, plaintext@),
        r@.len() == plaintext@.len() + 16,
        opened_of(key@, nonce@, aad@, r@) == Some(plaintext@),
{
    let cipher = chacha20poly1305::XChaCha20Poly1305::new(key.into());
    cipher.encrypt(nonce.into(), Payload { msg: plaintext, aad }).expect("below the counter limit")
}

/// `XChaCha20Poly1305::decrypt`, which does not panic on a ciphertext of at most
/// [`OPEN_LIMIT`] bytes; a plaintext is 16 bytes shorter than its ciphertext.
#[verifier::external_body]
pub(crate) fn xchacha_open(key: &[u8; 32], nonce: &[u8; 24], aad: &[u8], ciphertext: &[u8]) -> (r: Option<
    Vec<u8>,
>)
    requires
        ciphertext@.len() <= OPEN_LIMIT,
    ensures
        view_of(r) == opened_of(key@, nonce@, aad@, ciphertext@),
        r matches Some(p) ==> p@.len() + 16 == ciphertext@.len(),
{
    let cipher = chacha20poly1305::XChaCha20Poly1305::new(key.into());
    cipher.decrypt(nonce.into(), Payload { msg: ciphertext, aad }).ok()
}

// ---- X25519 -------------------------------------------------------------------

/// The X25519 public key of the secret `secret`.
pub uninterp spec fn x25519_public_of(secret: Seq<u8>) -> Seq<u8>;

/// The X25519 shared secret of `secret` and the public key `public`.
pub uninterp spec fn x25519_shared_of(secret: Seq<u8>, public: Seq<u8>) -> Seq<u8>;

/// `x25519_dalek::PublicKey::from(&StaticSecret)`.
#[verifier::external_body]
pub(crate) fn x25519_public(secret: &[u8; 32]) -> (r: [u8; 32])
    ensures
        r@ == x25519_public_of(secret@),
{
    x25519_dalek::PublicKey::from(&x25519_dalek::StaticSecret::from(*secret)).to_bytes()
}

/// `x25519_dalek::StaticSecret::diffie_hellman`. Both are multiplications of
/// curve points by clamped scalars, so where `public` is the public key of a
/// secret `s`, `s` reaches the same value from the public key of `secret`.
#[verifier::external_body]
pub(crate) fn x25519_shared(secret: &[u8; 32], public: &[u8; 32]) -> (r: [u8; 32])
    ensures
        r@ == x25519_shared_of(secret@, public@),
        forall|s: Seq<u8>|
            s.len() == 32 && public@ == #[trigger] x25519_public_of(s) ==> r@ == x25519_shared_of(
                s,
                x25519_public_of(secret@),
            ),
{
    let public = x25519_dalek::PublicKey::from(*public);
    x25519_dalek::StaticSecret::from(*secret).diffie_hellman(&public).to_bytes()
}

// ---- Ed25519 --------------------------------------------------------------------

/// The Ed25519 public key of the signing key with seed `seed`.
pub uninterp spec fn ed25519_public_of(seed: Seq<u8>) -> Seq<u8>;

/// Whether 32 bytes are the encoding of a curve point.
pub uninterp spec fn ed25519_point(public: Seq<u8>) -> bool;

/// The signature of `msg` under the signing key with seed `seed`.
pub uninterp spec fn ed25519_signature_of(seed: Seq<u8>, msg: Seq<u8>) -> Seq<u8>;

/// Whether `public` accepts `sig` as a signature of `msg`.
pub uninterp spec fn ed25519_accepts(public: Seq<u8>, msg: Seq<u8>, sig: Seq<u8>) -> bool;

/// The Montgomery u-coordinate of the curve point that `public` encodes, or
/// `None` where it encodes none.
pub uninterp spec fn montgomery_of(public: Seq<u8>) -> Option<Seq<u8>>;

/// `ed25519_dalek::SigningKey::verifying_key`; the key is a curve point.
#[verifier::external_body]
pub(crate) fn ed25519_public(seed: &[u8; 32]) -> (r: [u8; 32])
    ensures
        r@ == ed25519_public_of(seed@),
        ed25519_point(r@),
{
    ed25519_dalek::SigningKey::from_bytes(seed).verifying_key().to_bytes()
}

/// `ed25519_dalek::SigningKey::sign`; the signature verifies under the
/// signing key's public key.
#[verifier::external_body]
pub(crate) fn ed25519_sign(seed: &[u8; 32], msg: &[u8]) -> (r: [u8; 64])
    ensures
        r@ == ed25519_signature_of(seed@, msg@),
        ed25519_accepts(ed25519_public_of(seed@), msg@, r@),
{
    ed25519_dalek::SigningKey::from_bytes(seed).sign(msg).to_bytes()
}

/// `ed25519_dalek::VerifyingKey::from_bytes`, which accepts exactly the
/// encodings of curve points.
#[verifier::external_body]
pub(crate) fn ed25519_is_point(public: &[u8; 32]) -> (r: bool)
    ensures
        r == ed25519_point(public@),
{
    ed25519_dalek::VerifyingKey::from_bytes(public).is_ok()
}

/// `ed25519_dalek::VerifyingKey::verify`; bytes that are no public key verify
/// nothing.
#[verifier::external_body]
pub(crate) fn ed25519_verify(public: &[u8; 32], msg: &[u8], sig: &[u8; 64]) -> (r: bool)
    ensures
        r == ed25519_accepts(public@, msg@, sig@),
        r ==> ed25519_point(public@),
{
    match ed25519_dalek::VerifyingKey::from_bytes(public) {
        Ok(key) => key.verify(msg, &ed25519_dalek::Signature::from_bytes(sig)).is_ok(),
        Err(_) => false,
    }
}

/// `curve25519_dalek::edwards::CompressedEdwardsY::decompress` and
/// `to_montgomery`. Bytes decompress exactly when they encode a curve point.
/// An Ed25519 public key is the base point times the clamped lower half of
/// the seed's SHA-512, so its u-coordinate is the X25519 public key of that
/// half.
#[verifier::external_body]
pub(crate) fn edwards_to_montgomery(public: &[u8; 32]) -> (r: Option<[u8; 32]>)
    ensures
        view_of32(r) == montgomery_of(public@),
        r is Some <==> ed25519_point(public@),
        forall|seed: Seq<u8>|
            seed.len() == 32 && public@ == #[trigger] ed25519_public_of(seed) ==> view_of32(r) == Some(
                x25519_public_of(first_half(sha512_of(seed))),
            ),
{
    match curve25519_dalek::edwards::CompressedEdwardsY(*public).decompress() {
        Some(point) => Some(point.to_montgomery().to_bytes()),
        None => None,
    }
}

// ---- ML-KEM-768 -------------------------------------------------------------------

/// The encapsulation key of the decapsulation key with seed `seed`.
pub uninterp spec fn mlkem_public_of(seed: Seq<u8>) -> Seq<u8>;

/// The coefficient at a place of an encapsulation key: twelve bits, two
/// coefficients in three bytes, the lower bits first.
pub open spec fn mlkem_coefficient(key: Seq<u8>, i: int) -> int {
    let at = i / 2 * 3;
    if i % 2 == 0 {
        key[at] + key[at + 1] % 16 * 256
    } else {
        key[at + 1] / 16 + key[at + 2] * 16
    }
}

/// Whether `key` is an encapsulation key that ML-KEM-768 accepts: 768
/// coefficients below the modulus and 32 bytes.
pub open spec fn mlkem_accepts(key: Seq<u8>) -> bool {
    &&& key.len() == 1184
    &&& forall|i: int| 0 <= i < 768 ==> #[trigger] mlkem_coefficient(key, i) < 3329
}

/// The shared secret that the decapsulation key with seed `seed` recovers
/// from `ciphertext`.
pub uninterp spec fn mlkem_shared_of(seed: Seq<u8>, ciphertext: Seq<u8>) -> Seq<u8>;

/// The ciphertext and the shared secret that encapsulating to `key` with the
/// 32 random bytes `m` gives.
pub uninterp spec fn mlkem_encapsulated_of(key: Seq<u8>, m: Seq<u8>) -> (Seq<u8>, Seq<u8>);

/// `ml_kem::MlKem768::generate_keypair`: a fresh seed with its encapsulation
/// key.
#[verifier::external_body]
pub(crate) fn mlkem_generate() -> (r: (Vec<u8>, Vec<u8>))
    ensures
        r.0@.len() == 64,
        r.1@.len() == 1184,
        r.1@ == mlkem_public_of(r.0@),
        mlkem_accepts(r.1@),
{
    let (dk, ek) = ml_kem::MlKem768::generate_keypair();
    (dk.to_bytes().as_slice().to_vec(), ek.to_bytes().as_slice().to_vec())
}

/// `ml_kem::DecapsulationKey768::from_seed` and `encapsulation_key`.
#[verifier::external_body]
pub(crate) fn mlkem_public(seed: &[u8; 64]) -> (r: Vec<u8>)
    ensures
        r@ == mlkem_public_of(seed@),
        r@.len() == 1184,
        mlkem_accepts(r@),
{
    let dk = ml_kem::ml_kem_768::DecapsulationKey::from_seed(ml_kem::Seed::from(*seed));
    dk.encapsulation_key().to_bytes().as_slice().to_vec()
}

/// `ml_kem::EncapsulationKey768::new_from_slice` and `encapsulate`: a
/// ciphertext of 1088 bytes and a shared secret, or `None` where the key is
/// refused for its length or for a coefficient out of range. Both come from the key and
/// 32 random bytes, of which nothing is claimed. That decapsulating gives the
/// secret back is left unsaid: it does but for a negligible failure rate.
#[verifier::external_body]
pub(crate) fn mlkem_encapsulate(key: &[u8]) -> (r: Option<(Vec<u8>, [u8; 32])>)
    ensures
        r is Some <==> mlkem_accepts(key@),
        r matches Some(out) ==> out.0@.len() == 1088,
        r matches Some(out) ==> exists|m: Seq<u8>|
            m.len() == 32 && #[trigger] mlkem_encapsulated_of(key@, m) == (out.0@, out.1@),
{
    let ek = ml_kem::ml_kem_768::EncapsulationKey::new_from_slice(key).ok()?;
    let (ct, shared) = ek.encapsulate();
    Some((ct.as_slice().to_vec(), shared.into()))
}

/// `ml_kem::DecapsulationKey768::from_seed` and `decapsulate`.
#[verifier::external_body]
pub(crate) fn mlkem_decapsulate(seed: &[u8; 64], ciphertext: &[u8]) -> (r: [u8; 32])
    requires
        ciphertext@.len() == 1088,
    ensures
        r@ == mlkem_shared_of(seed@, ciphertext@),
{
    let dk = ml_kem::ml_kem_768::DecapsulationKey::from_seed(ml_kem::Seed::from(*seed));
    let ct = ml_kem::kem::Ciphertext::<ml_kem::MlKem768>::try_from(ciphertext).expect("1088 bytes");
    dk.decapsulate(&ct).into()
}

/// The first half of 64 bytes is their first 32.
pub proof fn lemma_first_half(a: Seq<u8>, b: Seq<u8>)
    requires
        a.len() == 32,
    ensures
        first_half(a + b) == a,
{
    assert(first_half(a + b) =~= a);
}

} // verus!
