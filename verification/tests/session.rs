use untitled_messenger::client::crypto_bridge::{
    encrypted_from_envelope, envelope_from_encrypted, group_encrypted_from_envelope,
    init_from_envelope,
};
use untitled_messenger::client::error::ClientError;
use untitled_messenger::client::session::{hex_id, ClientSession};
use untitled_messenger::crypto::double_ratchet::RatchetSession;
use untitled_messenger::crypto::error::CryptoError;
use untitled_messenger::crypto::identity::{
    IdentityKey, OneTimePreKey, PreKeyBundle, SignedPreKey,
};
use untitled_messenger::crypto::keys::{Signature, VerifyingKey};
use untitled_messenger::crypto::x3dh;
use untitled_messenger::protocol::error::ProtocolError;
use untitled_messenger::wire::CodecError;
use untitled_messenger::protocol::message::{EncryptedEnvelope, MessageKind};

// ---- Between messages and envelopes ---------------------------------------------------------------

#[test]
fn envelope_round_trips_through_bridge() {
    let bob = IdentityKey::generate();
    let bob_spk = SignedPreKey::generate(1, &bob);
    let bob_otpk = OneTimePreKey::generate(10);
    let bob_bundle = PreKeyBundle::from_identity(&bob, &bob_spk, &[&bob_otpk]);

    let alice = IdentityKey::generate();
    let (session_init, init_msg) =
        x3dh::initiate(&alice, &bob_bundle, Some(10)).expect("x3dh initiate");
    let mut alice_ratchet = RatchetSession::init_alice(&session_init).expect("init_alice");

    let encrypted = alice_ratchet.encrypt(b"hello bob").expect("encrypt");
    let alice_pub = alice.verifying.to_bytes();
    let envelope = envelope_from_encrypted(1, alice_pub, &encrypted, Some(&init_msg))
        .expect("bridge to envelope");

    let recovered = encrypted_from_envelope(&envelope).expect("bridge from envelope");
    let recovered_init = init_from_envelope(&envelope).expect("init from envelope");
    assert!(recovered_init.is_some());

    let bob_session = x3dh::receive(
        &bob,
        &bob_spk,
        Some(&bob_otpk),
        recovered_init.as_ref().unwrap(),
    )
    .expect("x3dh receive");
    let mut bob_ratchet =
        RatchetSession::init_bob(&bob_session, &bob_spk.priv_key).expect("init_bob");

    let plaintext = bob_ratchet.decrypt(&recovered).expect("decrypt");
    assert_eq!(plaintext, b"hello bob");
}

#[test]
fn follow_up_message_has_no_init() {
    let bob = IdentityKey::generate();
    let bob_spk = SignedPreKey::generate(1, &bob);
    let bob_otpk = OneTimePreKey::generate(10);
    let bob_bundle = PreKeyBundle::from_identity(&bob, &bob_spk, &[&bob_otpk]);
    let alice = IdentityKey::generate();
    let (session_init, _init_msg) =
        x3dh::initiate(&alice, &bob_bundle, Some(10)).expect("x3dh initiate");
    let mut alice_ratchet = RatchetSession::init_alice(&session_init).expect("init_alice");

    let encrypted = alice_ratchet.encrypt(b"follow up").expect("encrypt");
    let envelope = envelope_from_encrypted(2, alice.verifying.to_bytes(), &encrypted, None)
        .expect("bridge");
    assert!(envelope.init.is_none());
    assert!(init_from_envelope(&envelope).expect("init").is_none());
}

#[test]
fn broken_headers_and_signatures_are_errors() {
    let mut stranger = ClientSession::generate(1);
    stranger.create_group([1; 32]).unwrap();
    let good = stranger.send_group(&[1; 32], b"x").unwrap();
    let mut cut = good.clone();
    cut.header.pop();
    assert!(matches!(
        group_encrypted_from_envelope(&cut),
        Err(ClientError::Postcard(CodecError::UnexpectedEnd))
    ));
    let mut unsigned = good.clone();
    unsigned.signature.pop();
    assert!(matches!(
        group_encrypted_from_envelope(&unsigned),
        Err(ClientError::Store(_))
    ));
    assert!(group_encrypted_from_envelope(&good).is_ok());
    cut.header = vec![1, 2, 3];
    assert!(matches!(
        encrypted_from_envelope(&cut),
        Err(ClientError::Postcard(CodecError::UnexpectedEnd))
    ));
    // A number without an end, behind the 32 bytes of a key.
    cut.header = vec![0xff; 60];
    assert!(matches!(
        encrypted_from_envelope(&cut),
        Err(ClientError::Postcard(CodecError::BadVarint))
    ));
    // An init message whose option is neither there nor missing, and one whose
    // identity is no key.
    let mut init = vec![32u8];
    init.extend([0u8; 64]);
    init.extend([1, 2]);
    cut.init = Some(init);
    assert!(matches!(
        init_from_envelope(&cut),
        Err(ClientError::Postcard(CodecError::BadOption))
    ));
    let mut init = vec![1u8, 9];
    init.extend([0u8; 32]);
    init.extend([1, 0, 0]);
    cut.init = Some(init);
    assert!(matches!(
        init_from_envelope(&cut),
        Err(ClientError::Postcard(CodecError::Custom))
    ));
}

#[test]
fn a_missing_one_time_prekey_is_named() {
    let mut alice = ClientSession::generate(1);
    let mut bob = ClientSession::generate(1);
    let mut bundle = bob.registration_bundle();
    bundle.one_time_prekeys[0].0 = 77;
    let env = alice.start_session(&bundle, b"hi").unwrap();
    assert!(matches!(
        bob.receive(&env),
        Err(ClientError::NoOneTimePreKey(77))
    ));
}

// ---- One to one -------------------------------------------------------------------------------------

#[test]
fn first_message_and_follow_up_decrypt() {
    let mut alice = ClientSession::generate(5);
    let mut bob = ClientSession::generate(5);
    let bob_bundle = bob.registration_bundle();

    let env1 = alice
        .start_session(&bob_bundle, b"hi")
        .expect("alice start");
    assert!(env1.init.is_some());

    let (pt1, sender) = bob.receive(&env1).expect("bob receive");
    assert_eq!(pt1, b"hi");
    assert_eq!(sender, alice.identity_pub());

    let env2 = alice
        .send(&bob.identity_pub(), b"second")
        .expect("alice send");
    assert!(env2.init.is_none());
    let (pt2, _) = bob.receive(&env2).expect("bob receive 2");
    assert_eq!(pt2, b"second");
}

#[test]
fn registration_bundle_is_self_consistent() {
    let alice = ClientSession::generate(3);
    let bundle = alice.registration_bundle();
    assert_eq!(bundle.identity_pub, alice.identity_pub());
    assert_eq!(bundle.one_time_prekeys.len(), 3);
    let vk = VerifyingKey::from_bytes(&bundle.identity_pub).unwrap();
    let sig = Signature::from_slice(&bundle.signed_prekey_sig).unwrap();
    assert!(vk.verify(&bundle.signed_prekey_pub, &sig).is_ok());
}

#[test]
fn send_without_session_errors() {
    let mut alice = ClientSession::generate(1);
    let err = alice.send(&[0xFF; 32], b"hi").unwrap_err();
    assert!(matches!(err, ClientError::NoSession));
}

#[test]
fn receive_without_init_and_no_session_errors() {
    let mut alice = ClientSession::generate(1);
    let env = EncryptedEnvelope {
        id: 1,
        sender: [0x77; 32],
        kind: MessageKind::Direct,
        header: vec![1, 2, 3],
        init: None,
        ciphertext: vec![0xAA; 8],
        signature: vec![],
    };
    let err = alice.receive(&env).unwrap_err();
    assert!(matches!(err, ClientError::NoSession));
}

#[test]
fn bidirectional_exchange() {
    let mut alice = ClientSession::generate(5);
    let mut bob = ClientSession::generate(5);
    let bob_bundle = bob.registration_bundle();

    let env_a = alice.start_session(&bob_bundle, b"hello").unwrap();
    let (pt, _) = bob.receive(&env_a).unwrap();
    assert_eq!(pt, b"hello");

    let env_b = bob.send(&alice.identity_pub(), b"world").unwrap();
    let (pt, _) = alice.receive(&env_b).unwrap();
    assert_eq!(pt, b"world");
}

#[test]
fn hybrid_sessions_agree_over_their_envelopes() {
    let mut alice = ClientSession::generate(2);
    let mut bob = ClientSession::generate(2);
    let bundle = bob.registration_bundle();
    assert!(bundle.pq_encapsulation_key.is_some());
    assert!(bundle.pq_encapsulation_key_sig.is_some());
    let env = alice.start_session(&bundle, b"post-quantum").unwrap();
    assert!(init_from_envelope(&env).unwrap().unwrap().pq_ciphertext.is_some());
    assert_eq!(bob.receive(&env).unwrap().0, b"post-quantum");
}

#[test]
fn a_classical_bundle_still_starts_a_session() {
    let mut alice = ClientSession::generate(2);
    let mut bob = ClientSession::generate(2);
    let mut bundle = bob.registration_bundle();
    bundle.pq_encapsulation_key = None;
    bundle.pq_encapsulation_key_sig = None;
    let env = alice.start_session(&bundle, b"classical").unwrap();
    assert!(init_from_envelope(&env).unwrap().unwrap().pq_ciphertext.is_none());
    assert_eq!(bob.receive(&env).unwrap().0, b"classical");
}

#[test]
fn a_bundle_with_a_foreign_signature_is_refused() {
    let mut alice = ClientSession::generate(1);
    let bob = ClientSession::generate(1);
    let eve = ClientSession::generate(1);
    let mut bundle = bob.registration_bundle();
    bundle.signed_prekey_sig = eve.registration_bundle().signed_prekey_sig;
    assert!(alice.start_session(&bundle, b"hi").is_err());
    assert!(!alice.has_session(&bob.identity_pub()));
}

#[test]
fn an_initiation_leaves_the_one_time_prekeys_in_place() {
    let mut alice = ClientSession::generate(1);
    let mut bob = ClientSession::generate(2);
    let env = alice.start_session(&bob.registration_bundle(), b"hi").unwrap();
    assert_eq!(bob.one_time_prekey_count(), 2);
    bob.receive(&env).unwrap();
    assert_eq!(bob.one_time_prekey_count(), 2);
}

#[test]
fn a_session_receives_where_there_is_room() {
    let mut alice = ClientSession::generate(1);
    let mut bob = ClientSession::generate(1);
    let env = alice.start_session(&bob.registration_bundle(), b"hi").unwrap();
    let (plaintext, _) = bob.receive_checked(&env).unwrap().unwrap();
    assert_eq!(plaintext, b"hi");
    assert!(bob.can_send(&alice.identity_pub()));
    assert!(alice.can_rotate());
    assert!(alice.can_replenish(5));
}

// ---- Groups ------------------------------------------------------------------------------------------

#[test]
fn group_two_members_round_trip() {
    let mut alice = ClientSession::generate(1);
    let mut bob = ClientSession::generate(1);
    let gid = [0xAA; 32];

    alice.create_group(gid).unwrap();
    bob.create_group(gid).unwrap();

    let alice_state = alice.group_distribution(&gid).unwrap();
    let bob_state = bob.group_distribution(&gid).unwrap();
    alice.add_group_peer(&gid, bob_state).unwrap();
    bob.add_group_peer(&gid, alice_state).unwrap();

    let env = alice.send_group(&gid, b"hi group").unwrap();
    assert_eq!(env.kind, MessageKind::Group);
    assert!(env.init.is_none());
    assert!(
        !env.signature.is_empty(),
        "group env must carry a signature"
    );
    let (pt, sender) = bob.receive(&env).unwrap();
    assert_eq!(pt, b"hi group");
    assert_eq!(sender, alice.identity_pub());

    let env2 = bob.send_group(&gid, b"hello back").unwrap();
    let (pt2, _) = alice.receive(&env2).unwrap();
    assert_eq!(pt2, b"hello back");
}

#[test]
fn group_three_members_all_decrypt() {
    let mut a = ClientSession::generate(1);
    let mut b = ClientSession::generate(1);
    let mut c = ClientSession::generate(1);
    let gid = [0xBB; 32];

    for s in [&mut a, &mut b, &mut c] {
        s.create_group(gid).unwrap();
    }
    let a_state = a.group_distribution(&gid).unwrap();
    let b_state = b.group_distribution(&gid).unwrap();
    let c_state = c.group_distribution(&gid).unwrap();
    b.add_group_peer(&gid, a_state.clone()).unwrap();
    c.add_group_peer(&gid, a_state).unwrap();
    a.add_group_peer(&gid, b_state.clone()).unwrap();
    c.add_group_peer(&gid, b_state).unwrap();
    a.add_group_peer(&gid, c_state.clone()).unwrap();
    b.add_group_peer(&gid, c_state).unwrap();

    let env = a.send_group(&gid, b"from a").unwrap();
    assert_eq!(b.receive(&env).unwrap().0, b"from a");
    assert_eq!(c.receive(&env).unwrap().0, b"from a");

    let env2 = c.send_group(&gid, b"from c").unwrap();
    assert_eq!(a.receive(&env2).unwrap().0, b"from c");
    assert_eq!(b.receive(&env2).unwrap().0, b"from c");
}

#[test]
fn group_receive_without_session_errors() {
    let mut alice = ClientSession::generate(1);
    let mut stranger = ClientSession::generate(1);
    let gid = [0x77; 32];
    stranger.create_group(gid).unwrap();
    let env = stranger.send_group(&gid, b"injected").unwrap();
    let err = alice.receive(&env).unwrap_err();
    assert!(matches!(err, ClientError::NoGroupSession(_)));
}

#[test]
fn send_group_without_session_errors() {
    let mut alice = ClientSession::generate(1);
    let err = alice.send_group(&[0x99; 32], b"hi").unwrap_err();
    assert!(matches!(err, ClientError::NoGroupSession(_)));
}

#[test]
fn group_receive_rejects_spoofed_sender() {
    let mut alice = ClientSession::generate(1);
    let mut bob = ClientSession::generate(1);
    let gid = [0xCC; 32];
    alice.create_group(gid).unwrap();
    bob.create_group(gid).unwrap();
    let alice_state = alice.group_distribution(&gid).unwrap();
    let bob_state = bob.group_distribution(&gid).unwrap();
    alice.add_group_peer(&gid, bob_state).unwrap();
    bob.add_group_peer(&gid, alice_state).unwrap();

    let mut env = alice.send_group(&gid, b"from alice").unwrap();
    assert_eq!(bob.receive(&env).unwrap().0, b"from alice");

    env.sender = bob.identity_pub();
    let err = bob.receive(&env).unwrap_err();
    assert!(
        matches!(err, ClientError::GroupSenderMismatch),
        "spoofed sender must be rejected, got {err:?}"
    );
}

#[test]
fn a_group_is_named_by_its_first_bytes_in_errors() {
    assert_eq!(hex_id(&[0xab; 32]), "abababab");
    let mut alice = ClientSession::generate(1);
    let err = alice.send_group(&[0x9a; 32], b"hi").unwrap_err();
    assert!(matches!(err, ClientError::NoGroupSession(s) if s == "9a9a9a9a"));
}

// ---- Prekeys -------------------------------------------------------------------------------------------

#[test]
fn rotate_signed_prekey_bumps_id_and_keeps_signature_valid() {
    let mut alice = ClientSession::generate(1);
    let old_id = alice.signed_prekey_id();
    let old_bundle = alice.registration_bundle();
    let new_id = alice.rotate_signed_prekey();
    assert_eq!(new_id, old_id + 1);
    assert_eq!(alice.signed_prekey_id(), new_id);
    let new_bundle = alice.registration_bundle();
    assert_ne!(old_bundle.signed_prekey_pub, new_bundle.signed_prekey_pub);
    let vk = VerifyingKey::from_bytes(&new_bundle.identity_pub).unwrap();
    let sig = Signature::from_slice(&new_bundle.signed_prekey_sig).unwrap();
    assert!(vk.verify(&new_bundle.signed_prekey_pub, &sig).is_ok());
}

#[test]
fn replenish_one_time_prekeys_adds_past_max_and_keeps_old() {
    let mut alice = ClientSession::generate(3);
    assert_eq!(alice.one_time_prekey_count(), 3);
    let added = alice.replenish_one_time_prekeys(2);
    assert_eq!(added, vec![4, 5]);
    assert_eq!(alice.one_time_prekey_count(), 5);
    let bundle = alice.registration_bundle();
    let ids: Vec<u32> = bundle.one_time_prekeys.iter().map(|(id, _)| *id).collect();
    assert!(ids.contains(&1) && ids.contains(&4) && ids.contains(&5));
}

#[test]
fn stale_bundle_initiation_decrypts_after_rotation() {
    let mut alice = ClientSession::generate(2);
    let mut bob = ClientSession::generate(2);
    let stale_bundle = bob.registration_bundle();
    bob.rotate_signed_prekey();
    let env = alice
        .start_session(&stale_bundle, b"hi after rotation")
        .expect("alice start against stale bundle");
    let (pt, sender) = bob.receive(&env).expect("bob decrypt stale initiation");
    assert_eq!(pt, b"hi after rotation");
    assert_eq!(sender, alice.identity_pub());
}

#[test]
fn fresh_bundle_initiation_decrypts_after_rotation() {
    let mut alice = ClientSession::generate(2);
    let mut bob = ClientSession::generate(2);
    bob.rotate_signed_prekey();
    let fresh_bundle = bob.registration_bundle();
    let env = alice
        .start_session(&fresh_bundle, b"hi fresh")
        .expect("alice start against fresh bundle");
    let (pt, _) = bob.receive(&env).expect("bob decrypt fresh initiation");
    assert_eq!(pt, b"hi fresh");
}

#[test]
fn existing_ratchet_survives_signed_prekey_rotation() {
    let mut alice = ClientSession::generate(2);
    let mut bob = ClientSession::generate(2);
    let bob_bundle = bob.registration_bundle();
    let env1 = alice.start_session(&bob_bundle, b"first").unwrap();
    let _ = bob.receive(&env1).unwrap();
    bob.rotate_signed_prekey();
    let env2 = alice.send(&bob.identity_pub(), b"second").unwrap();
    let (pt, _) = bob.receive(&env2).unwrap();
    assert_eq!(pt, b"second");
}

#[test]
fn session_with_rotated_prekey_serializes() {
    let mut alice = ClientSession::generate(1);
    alice.rotate_signed_prekey();
    alice.replenish_one_time_prekeys(2);
    let record = alice.to_record();
    let back = ClientSession::from_record(&record).expect("a record of a session");
    assert_eq!(back.signed_prekey_id(), alice.signed_prekey_id());
    assert_eq!(back.one_time_prekey_count(), alice.one_time_prekey_count());
    assert!(back.has_previous_signed_prekey(1));
}

#[test]
fn a_kept_session_goes_on_where_it_was() {
    let mut alice = ClientSession::generate(2);
    let mut bob = ClientSession::generate(2);
    let env = alice.start_session(&bob.registration_bundle(), b"one").unwrap();
    bob.receive(&env).unwrap();
    bob.create_group([5; 32]).unwrap();
    let mut kept = ClientSession::from_record(&bob.to_record()).unwrap();
    assert!(kept.has_group(&[5; 32]));
    let env = kept.send(&alice.identity_pub(), b"two").unwrap();
    assert_eq!(alice.receive(&env).unwrap().0, b"two");
}

#[test]
fn a_record_with_a_key_twice_is_no_session() {
    let alice = ClientSession::generate(2);
    let mut record = alice.to_record();
    record.previous_signed_prekeys.push((9, record.signed_prekey.clone()));
    record.previous_signed_prekeys.push((9, record.signed_prekey.clone()));
    assert!(ClientSession::from_record(&record).is_none());
}

// ---- Errors ----------------------------------------------------------------------------------------------

#[test]
fn every_client_error_has_its_words() {
    let words = [
        (ClientError::Crypto(CryptoError::InvalidState), "crypto error: invalid ratchet state"),
        (ClientError::Protocol(ProtocolError::Incomplete), "protocol error: incomplete frame"),
        (
            ClientError::Postcard(CodecError::UnexpectedEnd),
            "postcard error: Hit the end of buffer, expected more data",
        ),
        (ClientError::NoSession, "no session with peer"),
        (ClientError::NotConnected, "not connected"),
        (ClientError::Store("x".into()), "store error: x"),
        (ClientError::Io("x".into()), "io error: x"),
        (ClientError::Sqlite("x".into()), "sqlite error: x"),
        (ClientError::NoGroupSession("ab".into()), "no group session with id ab"),
        (
            ClientError::GroupSenderMismatch,
            "group sender_id does not match envelope.sender",
        ),
        (ClientError::NoOneTimePreKey(7), "no one-time prekey with id 7"),
    ];
    for (e, text) in words {
        assert_eq!(e.to_string(), text);
    }
}
