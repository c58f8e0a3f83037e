//! Authenticated encryption and the key-derivation steps built on HMAC and
//! HKDF.
use crate::bytes::array32_at;
use crate::crypto::error::CryptoError;
use crate::primitives;
use vstd::prelude::*;

verus! {

/// Salt of the X3DH key extraction: `UM-X3DH-v1`.
pub const X3DH_SALT: [u8; 10] = [0x55, 0x4d, 0x2d, 0x58, 0x33, 0x44, 0x48, 0x2d, 0x76, 0x31];

/// Context of the root-chain expansion: `UM-root-chain-v1`.
pub const ROOT_CHAIN_INFO: [u8; 16] = [
    0x55, 0x4d, 0x2d, 0x72, 0x6f, 0x6f, 0x74, 0x2d, 0x63, 0x68, 0x61, 0x69, 0x6e, 0x2d, 0x76, 0x31,
];

/// Context of attachment keys: `UM-attach-v1`.
pub const ATTACH_INFO: [u8; 12] = [
    0x55, 0x4d, 0x2d, 0x61, 0x74, 0x74, 0x61, 0x63, 0x68, 0x2d, 0x76, 0x31,
];

/// The chain key that follows `ck`.
pub open spec fn next_chain_key(ck: Seq<u8>) -> Seq<u8> {
    primitives::hmac_sha256_of(ck, seq![2u8])
}

/// The message key that the chain key `ck` yields.
pub open spec fn chain_message_key(ck: Seq<u8>) -> Seq<u8> {
    primitives::hmac_sha256_of(ck, seq![1u8])
}

/// The chain key `n` steps after `ck`.
pub open spec fn chain_after(ck: Seq<u8>, n: nat) -> Seq<u8>
    decreases n,
{
    if n == 0 {
        ck
    } else {
        next_chain_key(chain_after(ck, (n - 1) as nat))
    }
}

/// Steps of a chain add up.
pub proof fn lemma_chain_after_add(ck: Seq<u8>, m: nat, n: nat)
    ensures
        chain_after(chain_after(ck, m), n) == chain_after(ck, m + n),
    decreases n,
{
    if n > 0 {
        lemma_chain_after_add(ck, m, (n - 1) as nat);
    }
}

/// The 64 bytes that a root key and a Diffie-Hellman output expand to.
pub open spec fn root_material(root_key: Seq<u8>, dh_output: Seq<u8>) -> Seq<u8> {
    primitives::hkdf_expand_of(
        primitives::hkdf_extract_of(root_key, dh_output),
        ROOT_CHAIN_INFO@,
        64,
    )
}

/// The root key that follows `root_key` once `dh_output` is mixed in.
pub open spec fn next_root_key(root_key: Seq<u8>, dh_output: Seq<u8>) -> Seq<u8> {
    root_material(root_key, dh_output).subrange(0, 32)
}

/// The chain key that starts when `dh_output` is mixed into `root_key`.
pub open spec fn fresh_chain_key(root_key: Seq<u8>, dh_output: Seq<u8>) -> Seq<u8> {
    root_material(root_key, dh_output).subrange(32, 64)
}

/// The plaintext of `ciphertext`, or `None` where it is longer than any
/// ciphertext or its tag does not verify.
pub open spec fn unsealed(key: Seq<u8>, nonce: Seq<u8>, aad: Seq<u8>, ciphertext: Seq<u8>) -> Option<
    Seq<u8>,
> {
    if ciphertext.len() > primitives::OPEN_LIMIT {
        None
    } else {
        primitives::opened_of(key, nonce, aad, ciphertext)
    }
}

/// Encrypts `plaintext` and authenticates it together with `aad`. Opening the
/// result under the same key, nonce and `aad` gives `plaintext` back.
pub fn seal(key: &[u8; 32], nonce: &[u8; 24], aad: &[u8], plaintext: &[u8]) -> (r: Vec<u8>)
    requires
        plaintext@.len() < primitives::SEAL_LIMIT,
    ensures
        r@ == primitives::sealed_of(key@, nonce@, aad@, plaintext@),
        r@.len() == plaintext@.len() + 16,
        unsealed(key@, nonce@, aad@, r@) == Some(plaintext@),
{
    primitives::xchacha_seal(key, nonce, aad, plaintext)
}

/// Decrypts `ciphertext`, or fails where it is too long or its tag does not
/// verify.
pub fn open(key: &[u8; 32], nonce: &[u8; 24], aad: &[u8], ciphertext: &[u8]) -> (r: Result<
    Vec<u8>,
    CryptoError,
>)
    ensures
        match unsealed(key@, nonce@, aad@, ciphertext@) {
            Some(p) => r matches Ok(v) && v@ == p && v@.len() + 16 == ciphertext@.len(),
            None => r == Err::<Vec<u8>, CryptoError>(CryptoError::DecryptionFailed),
        },
{
    if ciphertext.len() as u64 > primitives::OPEN_LIMIT {
        return Err(CryptoError::DecryptionFailed);
    }
    match primitives::xchacha_open(key, nonce, aad, ciphertext) {
        Some(plaintext) => Ok(plaintext),
        None => Err(CryptoError::DecryptionFailed),
    }
}

/// A fresh nonce from the system's random source. Nothing is stated of its
/// bytes.
pub fn random_nonce() -> [u8; 24] {
    primitives::os_random::<24>()
}

/// HKDF-SHA256 extraction.
pub fn hkdf_extract(salt: &[u8], ikm: &[u8]) -> (r: [u8; 32])
    ensures
        r@ == primitives::hkdf_extract_of(salt@, ikm@),
{
    primitives::hkdf_sha256_extract(salt, ikm)
}

/// HKDF-SHA256 expansion to `len` bytes, at most 255 hash outputs.
pub fn hkdf_expand(prk: &[u8; 32], info: &[u8], len: usize) -> (r: Vec<u8>)
    requires
        len <= 8160,
    ensures
        r@ == primitives::hkdf_expand_of(prk@, info@, len as nat),
        r@.len() == len,
{
    primitives::hkdf_sha256_expand(prk, info, len)
}

/// One step of a symmetric chain: the next chain key and the message key.
pub fn kdf_chain(ck: &[u8; 32]) -> (r: ([u8; 32], [u8; 32]))
    ensures
        r.0@ == next_chain_key(ck@),
        r.1@ == chain_message_key(ck@),
{
    let one: [u8; 1] = [1u8];
    let two: [u8; 1] = [2u8];
    assert(one@ =~= seq![1u8]);
    assert(two@ =~= seq![2u8]);
    let mk = primitives::hmac_sha256(ck, &one);
    let nck = primitives::hmac_sha256(ck, &two);
    (nck, mk)
}

/// One step of the root chain: mixes `dh_output` into `root_key` and returns
/// the next root key and a fresh chain key.
pub fn kdf_root_dh(root_key: &[u8; 32], dh_output: &[u8; 32]) -> (r: ([u8; 32], [u8; 32]))
    ensures
        r.0@ == next_root_key(root_key@, dh_output@),
        r.1@ == fresh_chain_key(root_key@, dh_output@),
{
    let prk = hkdf_extract(root_key, dh_output);
    let okm = hkdf_expand(&prk, &ROOT_CHAIN_INFO, 64);
    (array32_at(&okm, 0), array32_at(&okm, 32))
}

// ---- Laws ---------------------------------------------------------------------------------

/// The contexts of the derivations are the texts that they are named after.
pub proof fn lemma_contexts()
    ensures
        ROOT_CHAIN_INFO@.len() == "UM-root-chain-v1"@.len(),
        forall|i: int|
            0 <= i < ROOT_CHAIN_INFO@.len() ==> (#[trigger] ROOT_CHAIN_INFO@[i]) as char
                == "UM-root-chain-v1"@[i],
        ATTACH_INFO@.len() == "UM-attach-v1"@.len(),
        forall|i: int|
            0 <= i < ATTACH_INFO@.len() ==> (#[trigger] ATTACH_INFO@[i]) as char
                == "UM-attach-v1"@[i],
{
    reveal_strlit("UM-root-chain-v1");
    reveal_strlit("UM-attach-v1");
}

/// A chain key yields its message key and its successor by different inputs of
/// the same function: the byte 1 and the byte 2.
pub proof fn lemma_chain_step(ck: Seq<u8>)
    ensures
        exists|mk: Seq<u8>, next: Seq<u8>|
            mk.len() == 1 && next.len() == 1 && mk[0] == 1 && next[0] == 2 && chain_message_key(ck)
                == #[trigger] primitives::hmac_sha256_of(ck, mk) && next_chain_key(ck)
                == #[trigger] primitives::hmac_sha256_of(ck, next),
        chain_after(ck, 0) == ck,
        chain_after(ck, 1) == next_chain_key(ck),
{
    let (one, two) = (seq![1u8], seq![2u8]);
    assert(chain_message_key(ck) == primitives::hmac_sha256_of(ck, one));
    assert(next_chain_key(ck) == primitives::hmac_sha256_of(ck, two));
    reveal_with_fuel(chain_after, 2);
}

/// A step of the root chain expands the key that is extracted from the output
/// under the root key, in its context, to 64 bytes: the first half is the next
/// root key, the second the fresh chain key, and neither is left out.
pub proof fn lemma_root_step(root_key: Seq<u8>, dh_output: Seq<u8>)
    ensures
        ({
            let okm = primitives::hkdf_expand_of(
                primitives::hkdf_extract_of(root_key, dh_output),
                ROOT_CHAIN_INFO@,
                64,
            );
            okm.len() == 64 ==> {
                &&& next_root_key(root_key, dh_output).len() == 32
                &&& fresh_chain_key(root_key, dh_output).len() == 32
                &&& next_root_key(root_key, dh_output) + fresh_chain_key(root_key, dh_output) == okm
            }
        }),
{
    let okm = root_material(root_key, dh_output);
    if okm.len() == 64 {
        assert(okm.subrange(0, 32) + okm.subrange(32, 64) =~= okm);
    }
}

/// Opening is what the cipher gives, but for what is longer than any ciphertext.
pub proof fn lemma_unsealed(key: Seq<u8>, nonce: Seq<u8>, aad: Seq<u8>, ct: Seq<u8>)
    ensures
        ct.len() <= primitives::OPEN_LIMIT ==> unsealed(key, nonce, aad, ct)
            == primitives::opened_of(key, nonce, aad, ct),
        ct.len() > primitives::OPEN_LIMIT ==> unsealed(key, nonce, aad, ct) is None,
{
}

} // verus!
