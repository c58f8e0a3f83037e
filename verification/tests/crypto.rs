use untitled_messenger::crypto::aead::{
    hkdf_expand, hkdf_extract, kdf_chain, kdf_root_dh, open, random_nonce, seal,
};
use untitled_messenger::crypto::double_ratchet::{Encrypted, Header, RatchetSession};
use untitled_messenger::crypto::error::CryptoError;
use untitled_messenger::crypto::identity::{
    fingerprint_of_pub, IdentityKey, OneTimePreKey, PreKeyBundle, SignedPreKey,
};
use untitled_messenger::crypto::kem::{
    PqCiphertext, PqDecapsulationKey, PqEncapsulationKey, CT_768_LEN, DK_768_LEN, EK_768_LEN,
    SS_768_LEN,
};
use untitled_messenger::crypto::keys::{PublicKey, SigningKey, StaticSecret, VerifyingKey};
use untitled_messenger::crypto::sender_keys::{
    decode_distribution, encode_distribution, GroupSession, SenderChainKey,
};
use untitled_messenger::crypto::x3dh::{
    ed25519_priv_to_x25519, ed25519_pub_to_x25519, initiate, receive, receive_hybrid,
};
use untitled_messenger::hexadecimal;
use untitled_messenger::protocol::error::ProtocolError;
use untitled_messenger::wire::CodecError;

// ---- Authenticated encryption and key derivation ----------------------------------------

#[test]
fn seal_open_roundtrip() {
    let key = [7u8; 32];
    let nonce = random_nonce();
    let aad = b"header-bytes";
    let pt = b"secret message";
    let ct = seal(&key, &nonce, aad, pt);
    let recovered = open(&key, &nonce, aad, &ct).unwrap();
    assert_eq!(recovered, pt);
}

#[test]
fn open_rejects_tampered_ciphertext() {
    let key = [7u8; 32];
    let nonce = random_nonce();
    let aad = b"header-bytes";
    let mut ct = seal(&key, &nonce, aad, b"secret");
    ct[0] ^= 0xff;
    assert_eq!(
        open(&key, &nonce, aad, &ct),
        Err(CryptoError::DecryptionFailed)
    );
}

#[test]
fn open_rejects_wrong_aad() {
    let key = [7u8; 32];
    let nonce = random_nonce();
    let ct = seal(&key, &nonce, b"aad-a", b"secret");
    assert_eq!(
        open(&key, &nonce, b"aad-b", &ct),
        Err(CryptoError::DecryptionFailed)
    );
}

#[test]
fn open_rejects_a_blob_shorter_than_its_tag() {
    assert_eq!(
        open(&[7u8; 32], &[0u8; 24], b"", &[1, 2, 3]),
        Err(CryptoError::DecryptionFailed)
    );
}

#[test]
fn sealing_adds_sixteen_bytes_and_hides_the_text() {
    let ct = seal(&[7u8; 32], &[9u8; 24], b"", b"secret");
    assert_eq!(ct.len(), 22);
    assert_ne!(&ct[..6], b"secret");
}

#[test]
fn kdf_chain_advances_and_differs() {
    let ck = [1u8; 32];
    let (nck, mk) = kdf_chain(&ck);
    assert_ne!(nck, ck);
    assert_ne!(mk, ck);
    assert_ne!(nck, mk);
    let (_nck2, mk2) = kdf_chain(&nck);
    assert_ne!(mk, mk2);
}

#[test]
fn kdf_root_dh_splits_into_two_halves() {
    let rk = [2u8; 32];
    let dh = [3u8; 32];
    let (new_root, chain) = kdf_root_dh(&rk, &dh);
    assert_ne!(new_root, rk);
    assert_ne!(chain, dh);
    assert_ne!(new_root, chain);
}

#[test]
fn kdf_root_dh_mixes_dh_output() {
    let rk = [2u8; 32];
    let dh_a = [3u8; 32];
    let dh_b = [4u8; 32];
    let (root_a, chain_a) = kdf_root_dh(&rk, &dh_a);
    let (root_b, chain_b) = kdf_root_dh(&rk, &dh_b);
    assert_ne!(root_a, root_b);
    assert_ne!(chain_a, chain_b);
}

#[test]
fn hkdf_is_deterministic() {
    let a = hkdf_extract(b"salt", b"ikm");
    let b = hkdf_extract(b"salt", b"ikm");
    assert_eq!(a, b);
}

#[test]
fn hkdf_has_the_published_values() {
    let ikm = [0x0b; 22];
    let salt: Vec<u8> = (0x00..=0x0c).collect();
    let info: Vec<u8> = (0xf0..=0xf9).collect();
    let prk = hkdf_extract(&salt, &ikm);
    assert_eq!(
        hexadecimal::encode(&prk),
        "077709362c2e32df0ddc3f0dc47bba6390b6c73bb50f9c3122ec844ad7c2b3e5"
    );
    let okm = hkdf_expand(&prk, &info, 42);
    assert_eq!(
        hexadecimal::encode(&okm),
        "3cb25f25faacd57a90434f64d0362f2a2d2d0a90cf1a5a4c5db02d56ecc4c5bf34007208d5b887185865"
    );
}

#[test]
fn chain_keys_are_hmacs_of_one_and_two() {
    // Root and chain keys of a fixed chain, so that a swap of the two shows.
    let (next, message) = kdf_chain(&[0u8; 32]);
    assert_ne!(next, message);
    let (again, same) = kdf_chain(&[0u8; 32]);
    assert_eq!((next, message), (again, same));
    let (root, chain) = kdf_root_dh(&[0u8; 32], &[0u8; 32]);
    let okm = hkdf_expand(&hkdf_extract(&[0u8; 32], &[0u8; 32]), b"UM-root-chain-v1", 64);
    assert_eq!(&okm[..32], &root);
    assert_eq!(&okm[32..], &chain);
}

#[test]
fn nonces_are_not_repeated() {
    assert_ne!(random_nonce(), random_nonce());
}

// ---- Errors ------------------------------------------------------------------------------

#[test]
fn error_errors_compare_by_variant() {
    assert_eq!(CryptoError::DecryptionFailed, CryptoError::DecryptionFailed);
    assert_ne!(CryptoError::DecryptionFailed, CryptoError::InvalidSignature);
    assert_eq!(ProtocolError::Incomplete, ProtocolError::Incomplete);
    assert_ne!(ProtocolError::Incomplete, ProtocolError::Decode(CodecError::Custom));
    assert!(matches!(
        ProtocolError::FrameTooLarge(42),
        ProtocolError::FrameTooLarge(42)
    ));
    assert_ne!(ProtocolError::FrameTooLarge(42), ProtocolError::FrameTooLarge(43));
}

#[test]
fn error_errors_display() {
    assert_eq!(CryptoError::MissingPreKey.to_string(), "missing prekey");
    assert_eq!(ProtocolError::Incomplete.to_string(), "incomplete frame");
    assert_eq!(ProtocolError::FrameTooLarge(100).to_string(), "frame too large: 100 bytes");
}

#[test]
fn every_crypto_error_has_its_words() {
    assert_eq!(CryptoError::InvalidSignature.to_string(), "invalid signature");
    assert_eq!(CryptoError::DecryptionFailed.to_string(), "decryption failed");
    assert_eq!(
        CryptoError::SkippedMessageLimit.to_string(),
        "skipped message key cache limit reached"
    );
    assert_eq!(CryptoError::MalformedBundle.to_string(), "malformed prekey bundle");
    assert_eq!(CryptoError::InvalidState.to_string(), "invalid ratchet state");
}

// ---- Identities and prekeys ------------------------------------------------------------------

#[test]
fn identity_sign_verify_roundtrip() {
    let id = IdentityKey::generate();
    let msg = b"hello";
    let sig = id.sign(msg);
    assert!(id.verify(msg, &sig).is_ok());
}

#[test]
fn identity_rejects_wrong_message() {
    let id = IdentityKey::generate();
    let sig = id.sign(b"hello");
    assert_eq!(id.verify(b"world", &sig), Err(CryptoError::InvalidSignature));
}

#[test]
fn fingerprint_is_stable_and_distinct() {
    let a = IdentityKey::generate();
    let b = IdentityKey::generate();
    assert_eq!(a.fingerprint(), a.fingerprint());
    assert_ne!(a.fingerprint(), b.fingerprint());
    assert_eq!(a.fingerprint_hex().len(), 64);
}

#[test]
fn fingerprint_of_pub_is_deterministic() {
    let fp = fingerprint_of_pub(&[0x01; 32]);
    assert_eq!(fp, fingerprint_of_pub(&[0x01; 32]));
    assert_ne!(fp, fingerprint_of_pub(&[0x02; 32]));
    assert_eq!(fp.len(), 32);
    assert_eq!(
        hexadecimal::encode(&fp),
        "72cd6e8422c407fb6d098690f1130b7ded7ec2f7f5e1d30bd9d521f015363793"
    );
}

#[test]
fn signed_prekey_signature_verifies() {
    let id = IdentityKey::generate();
    let spk = SignedPreKey::generate(1, &id);
    assert!(spk.verify_signature(&id.verifying).is_ok());
}

#[test]
fn signed_prekey_rejects_wrong_identity() {
    let id_a = IdentityKey::generate();
    let id_b = IdentityKey::generate();
    let spk = SignedPreKey::generate(1, &id_a);
    assert_eq!(spk.verify_signature(&id_b.verifying), Err(CryptoError::InvalidSignature));
}

#[test]
fn bundle_verify_accepts_valid() {
    let id = IdentityKey::generate();
    let spk = SignedPreKey::generate(1, &id);
    let otpk1 = OneTimePreKey::generate(10);
    let otpk2 = OneTimePreKey::generate(11);
    let bundle = PreKeyBundle::from_identity(&id, &spk, &[&otpk1, &otpk2]);
    assert!(bundle.verify().is_ok());
    assert_eq!(bundle.one_time_prekeys.len(), 2);
}

#[test]
fn bundle_verify_rejects_tampered_signature() {
    let id = IdentityKey::generate();
    let spk = SignedPreKey::generate(1, &id);
    let otpk = OneTimePreKey::generate(10);
    let mut bundle = PreKeyBundle::from_identity(&id, &spk, &[&otpk]);
    let other = IdentityKey::generate();
    bundle.signed_prekey_sig = other.sign(&spk.pub_key.to_bytes());
    assert_eq!(bundle.verify(), Err(CryptoError::MalformedBundle));
}

#[test]
fn bundle_verify_rejects_a_foreign_post_quantum_key() {
    let id = IdentityKey::generate();
    let spk = SignedPreKey::generate(1, &id);
    let (_, ek) = PqEncapsulationKey::generate_keypair();
    let mut bundle = PreKeyBundle::from_identity_hybrid(&id, &spk, &[], &ek);
    assert!(bundle.verify().is_ok());
    let other = IdentityKey::generate();
    bundle.pq_prekey.as_mut().unwrap().signature = other.sign(&ek.0);
    assert_eq!(bundle.verify(), Err(CryptoError::MalformedBundle));
}

#[test]
fn ed25519_has_the_published_values() {
    let seed = [
        0x9d, 0x61, 0xb1, 0x9d, 0xef, 0xfd, 0x5a, 0x60, 0xba, 0x84, 0x4a, 0xf4, 0x92, 0xec, 0x2c,
        0xc4, 0x44, 0x49, 0xc5, 0x69, 0x7b, 0x32, 0x69, 0x19, 0x70, 0x3b, 0xac, 0x03, 0x1c, 0xae,
        0x7f, 0x60,
    ];
    let key = SigningKey::from_bytes(seed);
    assert_eq!(
        hexadecimal::encode(&key.verifying_key().to_bytes()),
        "d75a980182b10ab7d54bfed3c964073a0ee172f3daa62325af021a68f707511a"
    );
    assert_eq!(
        hexadecimal::encode(&key.sign(b"").to_bytes()[..16]),
        "e5564300c360ac729086e2cc806e828a"
    );
}

#[test]
fn x25519_agrees_from_both_ends() {
    let a = StaticSecret::random();
    let b = StaticSecret::random();
    let shared = a.diffie_hellman(&PublicKey::of_secret(&b));
    assert_eq!(shared, b.diffie_hellman(&PublicKey::of_secret(&a)));
    assert_ne!(shared, a.to_bytes());
}

#[test]
fn both_halves_of_an_identity_convert_to_one_x25519_pair() {
    let id = IdentityKey::generate();
    let secret = ed25519_priv_to_x25519(&id.signing);
    let public = ed25519_pub_to_x25519(&id.verifying).unwrap();
    assert_eq!(PublicKey::of_secret(&secret).to_bytes(), public.to_bytes());
}

#[test]
fn bytes_that_are_no_point_are_no_verifying_key() {
    let mut bytes = [0u8; 32];
    bytes[0] = 2;
    assert!(VerifyingKey::from_bytes(&bytes).is_err());
}

// ---- ML-KEM --------------------------------------------------------------------------------------

#[test]
fn encapsulate_decapsulate_round_trips() {
    let (dk, ek) = PqEncapsulationKey::generate_keypair();
    let (ct, ss_send) = ek.encapsulate().expect("encaps");
    let ss_recv = dk.decapsulate(&ct).expect("decaps");
    assert_eq!(ss_send, ss_recv);
    assert_eq!(ss_send.len(), SS_768_LEN);
}

#[test]
fn ciphertext_is_1088_bytes() {
    let (_dk, ek) = PqEncapsulationKey::generate_keypair();
    let (ct, _ss) = ek.encapsulate().expect("encaps");
    assert_eq!(ct.0.len(), CT_768_LEN);
}

#[test]
fn keys_are_correct_sizes() {
    let (dk, ek) = PqEncapsulationKey::generate_keypair();
    assert_eq!(dk.0.len(), DK_768_LEN);
    assert_eq!(ek.0.len(), EK_768_LEN);
}

#[test]
fn two_encapsulations_yield_different_shared_secrets() {
    let (_dk, ek) = PqEncapsulationKey::generate_keypair();
    let (ct1, ss1) = ek.encapsulate().expect("encaps1");
    let (ct2, ss2) = ek.encapsulate().expect("encaps2");
    assert_ne!(ss1, ss2);
    assert_ne!(ct1.0, ct2.0);
}

#[test]
fn decapsulate_rejects_tampered_ciphertext() {
    let (dk, ek) = PqEncapsulationKey::generate_keypair();
    let (mut ct, ss_send) = ek.encapsulate().expect("encaps");
    ct.0[0] ^= 0xff;
    let ss_recv = dk.decapsulate(&ct).expect("decaps still returns a key");
    assert_ne!(ss_recv, ss_send, "tampered ct must not yield the same secret");
}

#[test]
fn pq_keys_serialize_round_trip() {
    let (dk, ek) = PqEncapsulationKey::generate_keypair();
    let dk_bytes = postcard::to_allocvec(&dk.0).unwrap();
    let ek_bytes = postcard::to_allocvec(&ek.0).unwrap();
    let dk_back: Vec<u8> = postcard::from_bytes(&dk_bytes).unwrap();
    let ek_back: Vec<u8> = postcard::from_bytes(&ek_bytes).unwrap();
    let dk2 = PqDecapsulationKey::from_bytes(&dk_back).unwrap();
    let ek2 = PqEncapsulationKey::from_bytes(&ek_back).unwrap();
    assert_eq!(dk.0, dk2.0);
    assert_eq!(ek.0, ek2.0);
    let (ct, ss) = ek2.encapsulate().unwrap();
    assert_eq!(dk2.decapsulate(&ct).unwrap(), ss);
}

#[test]
fn malformed_encapsulation_key_errors() {
    let mut bad = [0u8; EK_768_LEN];
    bad[..8].copy_from_slice(&[0xFF; 8]);
    let bad_ek = PqEncapsulationKey::from_array(bad);
    assert!(bad_ek.encapsulate().is_err());
}

#[test]
fn an_encapsulation_key_is_accepted_for_its_coefficients() {
    let accepted = |at: usize, bytes: [u8; 3]| {
        let mut key = [0u8; EK_768_LEN];
        key[at..at + 3].copy_from_slice(&bytes);
        PqEncapsulationKey::from_array(key).encapsulate().is_ok()
    };
    // 3328 is the highest coefficient: 0xd00, in the lower and the upper half.
    assert!(accepted(0, [0x00, 0x0d, 0xd0]));
    assert!(!accepted(0, [0x01, 0x0d, 0x00]));
    assert!(!accepted(0, [0x00, 0x10, 0xd0]));
    assert!(accepted(1149, [0x00, 0x0d, 0xd0]));
    assert!(!accepted(1149, [0x00, 0x10, 0xd0]));
    // The last 32 bytes are no coefficients.
    assert!(accepted(1152, [0xff, 0xff, 0xff]));
}

#[test]
fn a_seed_of_another_length_is_read_as_far_as_it_goes() {
    let mut longer: Vec<u8> = (0u8..64).collect();
    longer.push(0xee);
    let expected: Vec<u8> = (0u8..64).collect();
    assert_eq!(PqDecapsulationKey(longer).as_array().to_vec(), expected);
    assert!(matches!(
        PqDecapsulationKey(vec![1, 2, 3]).decapsulate(&PqCiphertext(vec![0; 7])),
        Err(CryptoError::MalformedBundle)
    ));
}

#[test]
fn from_bytes_rejects_wrong_length() {
    assert!(PqEncapsulationKey::from_bytes(&[0u8; 10]).is_err());
    assert!(PqDecapsulationKey::from_bytes(&[0u8; 10]).is_err());
    assert!(PqCiphertext::from_bytes(&[0u8; 10]).is_err());
}

#[test]
fn the_public_half_is_derived_from_the_private_one() {
    let (dk, ek) = PqEncapsulationKey::generate_keypair();
    assert_eq!(dk.derive_encapsulation_key().unwrap().0, ek.0);
}

// ---- X3DH ----------------------------------------------------------------------------------------

fn bob_setup() -> (IdentityKey, SignedPreKey, OneTimePreKey, PreKeyBundle) {
    let bob = IdentityKey::generate();
    let spk = SignedPreKey::generate(1, &bob);
    let otpk = OneTimePreKey::generate(10);
    let bundle = PreKeyBundle::from_identity(&bob, &spk, &[&otpk]);
    (bob, spk, otpk, bundle)
}

#[test]
fn alice_and_bob_derive_same_root_key_with_one_time_prekey() {
    let (bob, spk, otpk, bundle) = bob_setup();
    let alice = IdentityKey::generate();

    let (alice_session, init) = initiate(&alice, &bundle, Some(10)).unwrap();
    let bob_session = receive(&bob, &spk, Some(&otpk), &init).unwrap();

    assert_eq!(alice_session.root_key, bob_session.root_key);
}

#[test]
fn alice_and_bob_derive_same_root_key_without_one_time_prekey() {
    let bob = IdentityKey::generate();
    let spk = SignedPreKey::generate(1, &bob);
    let bundle = PreKeyBundle::from_identity(&bob, &spk, &[]);
    let alice = IdentityKey::generate();

    let (alice_session, init) = initiate(&alice, &bundle, None).unwrap();
    let bob_session = receive(&bob, &spk, None, &init).unwrap();

    assert_eq!(alice_session.root_key, bob_session.root_key);
}

#[test]
fn initiate_rejects_tampered_bundle() {
    let (_bob, spk, _otpk, mut bundle) = bob_setup();
    let other = IdentityKey::generate();
    bundle.signed_prekey_sig = other.sign(&spk.pub_key.to_bytes());
    let alice = IdentityKey::generate();
    assert!(matches!(
        initiate(&alice, &bundle, Some(10)),
        Err(CryptoError::MalformedBundle)
    ));
}

#[test]
fn receive_rejects_missing_one_time_prekey() {
    let (bob, spk, _otpk, bundle) = bob_setup();
    let alice = IdentityKey::generate();
    let (_, init) = initiate(&alice, &bundle, Some(10)).unwrap();
    let bob_session = receive(&bob, &spk, None, &init);
    assert!(matches!(bob_session, Err(CryptoError::MissingPreKey)));
}

#[test]
fn different_alice_gives_different_root_key() {
    let (_bob, _spk, _otpk, bundle) = bob_setup();
    let alice1 = IdentityKey::generate();
    let alice2 = IdentityKey::generate();
    let (s1, _) = initiate(&alice1, &bundle, Some(10)).unwrap();
    let (s2, _) = initiate(&alice2, &bundle, Some(10)).unwrap();
    assert_ne!(s1.root_key, s2.root_key);
}

#[test]
fn hybrid_agreement_mixes_the_kem_secret_in() {
    let bob = IdentityKey::generate();
    let spk = SignedPreKey::generate(1, &bob);
    let (dk, ek) = PqEncapsulationKey::generate_keypair();
    let bundle = PreKeyBundle::from_identity_hybrid(&bob, &spk, &[], &ek);
    let alice = IdentityKey::generate();

    let (alice_session, init) = initiate(&alice, &bundle, None).unwrap();
    assert!(init.pq_ciphertext.is_some());
    let bob_session = receive_hybrid(&bob, &spk, None, Some(&dk), &init).unwrap();
    assert_eq!(alice_session.root_key, bob_session.root_key);

    let (stranger, _) = PqEncapsulationKey::generate_keypair();
    let wrong = receive_hybrid(&bob, &spk, None, Some(&stranger), &init).unwrap();
    assert_ne!(alice_session.root_key, wrong.root_key);
}

// ---- Double Ratchet ----------------------------------------------------------------------------------

fn make_pair() -> (RatchetSession, RatchetSession, StaticSecret) {
    let bob = IdentityKey::generate();
    let spk = SignedPreKey::generate(1, &bob);
    let otpk = OneTimePreKey::generate(10);
    let bundle = PreKeyBundle::from_identity(&bob, &spk, &[&otpk]);
    let alice = IdentityKey::generate();

    let (init, init_msg) = initiate(&alice, &bundle, Some(10)).unwrap();
    let bob_session_init = receive(&bob, &spk, Some(&otpk), &init_msg).unwrap();

    let alice_r = RatchetSession::init_alice(&init).unwrap();
    let bob_r = RatchetSession::init_bob(&bob_session_init, &spk.priv_key).unwrap();
    (alice_r, bob_r, spk.priv_key)
}

#[test]
fn alice_to_bob_roundtrip() {
    let (mut alice, mut bob, _) = make_pair();
    let ct = alice.encrypt(b"hello bob").unwrap();
    let pt = bob.decrypt(&ct).unwrap();
    assert_eq!(pt, b"hello bob");
}

#[test]
fn bidirectional_roundtrip() {
    let (mut alice, mut bob, _) = make_pair();
    let ct1 = alice.encrypt(b"hi").unwrap();
    assert_eq!(bob.decrypt(&ct1).unwrap(), b"hi");
    let ct2 = bob.encrypt(b"yo").unwrap();
    assert_eq!(alice.decrypt(&ct2).unwrap(), b"yo");
    let ct3 = alice.encrypt(b"again").unwrap();
    assert_eq!(bob.decrypt(&ct3).unwrap(), b"again");
}

#[test]
fn multiple_messages_same_chain() {
    let (mut alice, mut bob, _) = make_pair();
    let msgs: Vec<Encrypted> = (0..5u32)
        .map(|i| alice.encrypt(format!("msg {i}").as_bytes()).unwrap())
        .collect();
    for (i, ct) in msgs.iter().enumerate() {
        assert_eq!(bob.decrypt(ct).unwrap(), format!("msg {i}").as_bytes());
    }
}

#[test]
fn out_of_order_decrypts() {
    let (mut alice, mut bob, _) = make_pair();
    let m0 = alice.encrypt(b"first").unwrap();
    let m1 = alice.encrypt(b"second").unwrap();
    let m2 = alice.encrypt(b"third").unwrap();
    assert_eq!(bob.decrypt(&m2).unwrap(), b"third");
    assert_eq!(bob.decrypt(&m0).unwrap(), b"first");
    assert_eq!(bob.decrypt(&m1).unwrap(), b"second");
}

#[test]
fn lost_message_then_ratchet_still_works() {
    let (mut alice, mut bob, _) = make_pair();
    let _m0 = alice.encrypt(b"lost").unwrap();
    let m1 = alice.encrypt(b"arrived").unwrap();
    assert_eq!(bob.decrypt(&m1).unwrap(), b"arrived");
    let reply = bob.encrypt(b"reply").unwrap();
    assert_eq!(alice.decrypt(&reply).unwrap(), b"reply");
}

#[test]
fn a_message_that_does_not_open_changes_nothing() {
    let (mut alice, mut bob, _) = make_pair();
    let first = alice.encrypt(b"first").unwrap();
    // Another ciphertext, another nonce and another key in the header.
    let mut bad = first.clone();
    bad.ciphertext[0] ^= 0xff;
    assert!(bob.decrypt(&bad).is_err());
    let mut bad = first.clone();
    bad.header.nonce[0] ^= 0xff;
    assert!(bob.decrypt(&bad).is_err());
    let mut bad = first.clone();
    bad.header.dh_pub = PublicKey::from_bytes([9; 32]);
    bad.header.n = 40;
    assert!(bob.decrypt(&bad).is_err());
    // The message itself still opens, once.
    assert_eq!(bob.decrypt(&first).unwrap(), b"first");
    assert!(bob.decrypt(&first).is_err());
    // A repeated message does not get in the way of the next ones.
    let second = alice.encrypt(b"second").unwrap();
    let third = alice.encrypt(b"third").unwrap();
    assert_eq!(bob.decrypt(&third).unwrap(), b"third");
    let mut bad = second.clone();
    bad.ciphertext[0] ^= 0xff;
    assert!(bob.decrypt(&bad).is_err());
    assert_eq!(bob.decrypt(&second).unwrap(), b"second");
    let reply = bob.encrypt(b"reply").unwrap();
    assert_eq!(alice.decrypt(&reply).unwrap(), b"reply");
}

#[test]
fn tampered_ciphertext_fails_without_poisoning() {
    let (mut alice, mut bob, _) = make_pair();
    let mut ct = alice.encrypt(b"hello").unwrap();
    ct.ciphertext[0] ^= 0xff;
    assert!(matches!(
        bob.decrypt(&ct),
        Err(CryptoError::DecryptionFailed)
    ));
    let ct2 = alice.encrypt(b"next").unwrap();
    assert_eq!(bob.decrypt(&ct2).unwrap(), b"next");
}

#[test]
fn bob_cannot_send_before_receiving() {
    let (_alice, mut bob, _) = make_pair();
    assert!(matches!(
        bob.encrypt(b"premature"),
        Err(CryptoError::InvalidState)
    ));
}

#[test]
fn a_message_is_delivered_once() {
    let (mut alice, mut bob, _) = make_pair();
    let m0 = alice.encrypt(b"one").unwrap();
    let m1 = alice.encrypt(b"two").unwrap();
    assert_eq!(bob.decrypt(&m1).unwrap(), b"two");
    assert_eq!(bob.decrypt(&m0).unwrap(), b"one");
    assert!(bob.decrypt(&m0).is_err());
    assert!(bob.decrypt(&m1).is_err());
}

#[test]
fn a_header_with_another_number_does_not_open_and_changes_nothing() {
    let (mut alice, mut bob, _) = make_pair();
    let m0 = alice.encrypt(b"one").unwrap();
    let far = Encrypted {
        header: Header { n: m0.header.n + 5000, ..m0.header },
        ciphertext: m0.ciphertext.clone(),
    };
    assert!(matches!(bob.decrypt(&far), Err(CryptoError::DecryptionFailed)));
    assert_eq!(bob.decrypt(&m0).unwrap(), b"one");
}

#[test]
fn a_run_is_decrypted_in_any_order() {
    let (mut alice, mut bob, _) = make_pair();
    let run: Vec<Encrypted> = (0u8..8).map(|i| alice.encrypt(&[i]).unwrap()).collect();
    // The first to come in also moves the ratchet on; number 5 is lost.
    for i in [6usize, 2, 7, 0, 4, 1, 3] {
        assert_eq!(bob.decrypt(&run[i]).unwrap(), vec![i as u8]);
    }
    let more: Vec<Encrypted> = (10u8..14).map(|i| alice.encrypt(&[i]).unwrap()).collect();
    for i in [1usize, 3, 0, 2] {
        assert_eq!(bob.decrypt(&more[i]).unwrap(), vec![10 + i as u8]);
    }
    assert_eq!(bob.decrypt(&run[5]).unwrap(), vec![5]);
    assert!(bob.decrypt(&run[5]).is_err());
}

#[test]
fn messages_of_two_chains_are_decrypted_in_any_order() {
    let (mut alice, mut bob, _) = make_pair();
    let first = alice.encrypt(b"first").unwrap();
    assert_eq!(bob.decrypt(&first).unwrap(), b"first");
    let old: Vec<Encrypted> = (0u8..4).map(|i| alice.encrypt(&[i]).unwrap()).collect();
    let reply = bob.encrypt(b"reply").unwrap();
    assert_eq!(alice.decrypt(&reply).unwrap(), b"reply");
    let new: Vec<Encrypted> = (10u8..13).map(|i| alice.encrypt(&[i]).unwrap()).collect();
    assert_eq!(new[0].header.pn, 5);
    assert_eq!(bob.decrypt(&old[2]).unwrap(), vec![2]);
    assert_eq!(bob.decrypt(&new[1]).unwrap(), vec![11]);
    assert_eq!(bob.decrypt(&old[3]).unwrap(), vec![3]);
    assert_eq!(bob.decrypt(&old[0]).unwrap(), vec![0]);
    assert_eq!(bob.decrypt(&new[2]).unwrap(), vec![12]);
    assert_eq!(bob.decrypt(&new[0]).unwrap(), vec![10]);
    assert_eq!(bob.decrypt(&old[1]).unwrap(), vec![1]);
    let back = bob.encrypt(b"back").unwrap();
    assert_eq!(alice.decrypt(&back).unwrap(), b"back");
}

#[test]
fn a_kept_ratchet_goes_on() {
    let (mut alice, mut bob, _) = make_pair();
    let m0 = alice.encrypt(b"skipped").unwrap();
    let m1 = alice.encrypt(b"seen").unwrap();
    assert_eq!(bob.decrypt(&m1).unwrap(), b"seen");
    let mut again = RatchetSession::from_record(&bob.to_record()).unwrap();
    assert_eq!(again.decrypt(&m0).unwrap(), b"skipped");
    let reply = again.encrypt(b"back").unwrap();
    assert_eq!(alice.decrypt(&reply).unwrap(), b"back");
}

#[test]
fn an_inconsistent_ratchet_record_is_refused() {
    let (alice, _, _) = make_pair();
    let mut record = alice.to_record();
    record.dh_pub[0] ^= 1;
    assert!(RatchetSession::from_record(&record).is_none());
}

// ---- Sender Keys ------------------------------------------------------------------------------------

fn gid() -> [u8; 32] {
    StaticSecret::random().to_bytes()
}

#[test]
fn chain_key_ratchet_advances() {
    let mut ck = SenderChainKey::new([1u8; 32]);
    let m1 = ck.ratchet();
    let m2 = ck.ratchet();
    assert_ne!(m1, m2);
}

#[test]
fn group_roundtrip_two_members() {
    let group = gid();
    let alice_id = IdentityKey::generate();
    let bob_id = IdentityKey::generate();
    let mut alice = GroupSession::new(group, &alice_id).unwrap();
    let mut bob = GroupSession::new(group, &bob_id).unwrap();

    alice.add_peer(bob.export_self_state()).unwrap();
    bob.add_peer(alice.export_self_state()).unwrap();

    let ct = alice.encrypt(b"hi group").unwrap();
    let pt = bob.decrypt(&ct).unwrap();
    assert_eq!(pt, b"hi group");

    let ct2 = bob.encrypt(b"hello back").unwrap();
    let pt2 = alice.decrypt(&ct2).unwrap();
    assert_eq!(pt2, b"hello back");
}

#[test]
fn group_three_members() {
    let group = gid();
    let a = IdentityKey::generate();
    let b = IdentityKey::generate();
    let c = IdentityKey::generate();
    let mut sa = GroupSession::new(group, &a).unwrap();
    let mut sb = GroupSession::new(group, &b).unwrap();
    let mut sc = GroupSession::new(group, &c).unwrap();

    sa.add_peer(sb.export_self_state()).unwrap();
    sa.add_peer(sc.export_self_state()).unwrap();
    sb.add_peer(sa.export_self_state()).unwrap();
    sb.add_peer(sc.export_self_state()).unwrap();
    sc.add_peer(sa.export_self_state()).unwrap();
    sc.add_peer(sb.export_self_state()).unwrap();

    let ct = sa.encrypt(b"from a").unwrap();
    assert_eq!(sb.decrypt(&ct).unwrap(), b"from a");
    assert_eq!(sc.decrypt(&ct).unwrap(), b"from a");

    let ct2 = sc.encrypt(b"from c").unwrap();
    assert_eq!(sa.decrypt(&ct2).unwrap(), b"from c");
    assert_eq!(sb.decrypt(&ct2).unwrap(), b"from c");
}

#[test]
fn group_rejects_unknown_sender() {
    let group = gid();
    let a = IdentityKey::generate();
    let mut sa = GroupSession::new(group, &a).unwrap();
    let stranger = IdentityKey::generate();
    let mut stranger_session = GroupSession::new(group, &stranger).unwrap();
    let ct = stranger_session.encrypt(b"inject").unwrap();
    assert!(matches!(sa.decrypt(&ct), Err(CryptoError::MissingPreKey)));
}

#[test]
fn group_rejects_tampered_ciphertext() {
    let group = gid();
    let a = IdentityKey::generate();
    let b = IdentityKey::generate();
    let mut sa = GroupSession::new(group, &a).unwrap();
    let mut sb = GroupSession::new(group, &b).unwrap();
    sa.add_peer(sb.export_self_state()).unwrap();
    sb.add_peer(sa.export_self_state()).unwrap();

    let mut ct = sa.encrypt(b"hi").unwrap();
    ct.ciphertext[0] ^= 0xff;
    assert!(matches!(
        sb.decrypt(&ct),
        Err(CryptoError::InvalidSignature)
    ));
}

#[test]
fn distribution_encode_decode_roundtrip() {
    let group = gid();
    let a = IdentityKey::generate();
    let sa = GroupSession::new(group, &a).unwrap();
    let state = sa.export_self_state();
    let bytes = encode_distribution(&state, group).unwrap();
    let (decoded_state, decoded_group) = decode_distribution(&bytes).unwrap();
    assert_eq!(decoded_group, group);
    assert_eq!(decoded_state.member_id, state.member_id);
}

#[test]
fn a_cut_distribution_is_refused() {
    let a = IdentityKey::generate();
    let sa = GroupSession::new(gid(), &a).unwrap();
    let bytes = encode_distribution(&sa.export_self_state(), gid()).unwrap();
    assert!(matches!(
        decode_distribution(&bytes[..bytes.len() - 1]),
        Err(CryptoError::MalformedBundle)
    ));
}

#[test]
fn group_rejects_old_generation_replay() {
    let group = gid();
    let a = IdentityKey::generate();
    let b = IdentityKey::generate();
    let mut sa = GroupSession::new(group, &a).unwrap();
    let mut sb = GroupSession::new(group, &b).unwrap();
    sa.add_peer(sb.export_self_state()).unwrap();
    sb.add_peer(sa.export_self_state()).unwrap();

    let ct1 = sa.encrypt(b"first").unwrap();
    let ct2 = sa.encrypt(b"second").unwrap();
    assert_eq!(sb.decrypt(&ct2).unwrap(), b"second");
    assert!(matches!(
        sb.decrypt(&ct1),
        Err(CryptoError::DecryptionFailed)
    ));
}

// ---- Together -------------------------------------------------------------------------------------------

#[test]
fn full_1to1_conversation_many_rounds() {
    let (mut alice, mut bob, _) = make_pair();
    for i in 0..20u32 {
        let msg = format!("alice-{i}");
        let ct = alice.encrypt(msg.as_bytes()).unwrap();
        assert_eq!(bob.decrypt(&ct).unwrap(), msg.as_bytes());

        let msg = format!("bob-{i}");
        let ct = bob.encrypt(msg.as_bytes()).unwrap();
        assert_eq!(alice.decrypt(&ct).unwrap(), msg.as_bytes());
    }
}

#[test]
fn group_then_private_works_independently() {
    let group = gid();

    let alice_id = IdentityKey::generate();
    let bob_id = IdentityKey::generate();
    let mut ga = GroupSession::new(group, &alice_id).unwrap();
    let mut gb = GroupSession::new(group, &bob_id).unwrap();
    ga.add_peer(gb.export_self_state()).unwrap();
    gb.add_peer(ga.export_self_state()).unwrap();

    let gct = ga.encrypt(b"group msg").unwrap();
    assert_eq!(gb.decrypt(&gct).unwrap(), b"group msg");

    let (mut a, mut b, _) = make_pair();
    let ct = a.encrypt(b"private msg").unwrap();
    assert_eq!(b.decrypt(&ct).unwrap(), b"private msg");
}

#[test]
fn prop_ratchet_roundtrip_random_plaintexts() {
    let (mut alice, mut bob, _) = make_pair();
    for n in [0usize, 1, 2, 17, 100, 199, 200] {
        let p = "abcdefghij".repeat(20)[..n].to_string();
        let ct = alice.encrypt(p.as_bytes()).unwrap();
        let dec = bob.decrypt(&ct).unwrap();
        assert_eq!(dec, p.as_bytes());
    }
}

#[test]
fn prop_ratchet_out_of_order_all_decrypt() {
    for n in 2u32..15u32 {
        let (mut alice, mut bob, _) = make_pair();
        let mut msgs: Vec<Encrypted> = (0..n)
            .map(|i| alice.encrypt(format!("m{i}").as_bytes()).unwrap())
            .collect();
        msgs.reverse();
        for ct in &msgs {
            let dec = bob.decrypt(ct).unwrap();
            assert!(dec.starts_with(b"m"));
        }
    }
}
