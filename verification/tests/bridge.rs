use std::time::Duration;
use untitled_messenger::client::error::ClientError;
use untitled_messenger::client::session::ClientSession;
use untitled_messenger::client::store::{
    Contact, MessagePage, StoredGroup, StoredMessage, StoredMessageRow,
};
use untitled_messenger::crypto::error::CryptoError;
use untitled_messenger::crypto::sender_keys::SenderKeyState;
use untitled_messenger::gui::bridge::{
    acknowledged, contact_added, contacts_to_views, decode_payload, delivered_chat,
    delivered_events, encode_payload, fingerprint_compared, group_id, heartbeat_decision,
    history_event, humanize, link_step, next_delay, note_delivered, now_secs, on_fetch_frame, on_frame,
    on_register_frame, on_subscribe_frame, reached, seconds_or_zero, sent_event, server_error_text,
    server_id, shows_life, AwaitStep, Bridge, DistStep, FrameStep, HeartbeatAction, InviteStep,
    LinkNews, P2pPayload, Stored, Taken, Written,
};
use untitled_messenger::gui::config::Config;
use untitled_messenger::gui::event::Event;
use untitled_messenger::gui::types::{ChatId, Direction, Status};
use untitled_messenger::hexadecimal;
use untitled_messenger::protocol::error::ProtocolError;
use untitled_messenger::protocol::message::{
    EncryptedEnvelope, MessageKind, ServerError, ServerMessage,
};
use untitled_messenger::wire::CodecError;

// ---- Small decisions ---------------------------------------------------------------------------------

#[test]
fn group_id_is_deterministic_and_input_sensitive() {
    let founder = [0xAB; 32];
    let m1 = [0x01; 32];
    let m2 = [0x02; 32];
    let g = group_id("team", &[m1, m2], &founder);
    assert_eq!(g, group_id("team", &[m1, m2], &founder));
    assert_ne!(g, group_id("squad", &[m1, m2], &founder));
    assert_ne!(g, group_id("team", &[m1], &founder));
    assert_ne!(g, group_id("team", &[m1, m2], &[0xCD; 32]));
}

#[test]
fn a_group_id_has_this_value() {
    assert_eq!(
        hexadecimal::encode(&group_id("team", &[[1; 32], [2; 32]], &[0xab; 32])),
        "306a30d3a0c837e2e9c81c0b574d2eeb91587c6d10b26fa13d6143bdbdf36299"
    );
}

#[test]
fn humanize_maps_known_variants() {
    assert_eq!(
        humanize(&ClientError::NoSession),
        "no secure session with this contact yet"
    );
    assert_eq!(
        humanize(&ClientError::NotConnected),
        "not connected to server"
    );
    assert_eq!(
        humanize(&ClientError::Store("wrong passphrase".into())),
        "wrong passphrase"
    );
}

#[test]
fn every_error_is_put_in_words() {
    let words = [
        (ClientError::NoGroupSession("ab".into()), "no group session for this group"),
        (
            ClientError::GroupSenderMismatch,
            "group message sender does not match its claimed author",
        ),
        (ClientError::NoOneTimePreKey(1), "missing one-time prekey"),
        (
            ClientError::Store("store already exists".into()),
            "a store already exists for this identity",
        ),
        (ClientError::Store("other".into()), "other"),
        (ClientError::Io("x".into()), "network error"),
        (ClientError::Timeout, "connection timed out"),
        (ClientError::Crypto(CryptoError::InvalidState), "cryptographic error"),
        (ClientError::Protocol(ProtocolError::Decode(CodecError::BadEnum)), "protocol error"),
        (ClientError::Postcard(CodecError::BadBool), "encoding error"),
        (ClientError::Sqlite("x".into()), "local store error"),
    ];
    for (e, text) in words {
        assert_eq!(humanize(&e), text);
    }
    assert_eq!(server_error_text(ServerError::TooLarge), "server: TooLarge");
}

#[test]
fn now_secs_is_monotonic_ish() {
    let a = now_secs();
    let b = now_secs();
    assert!(b >= a);
    assert!(a > 0);
}

#[test]
fn a_clock_before_the_epoch_reads_zero() {
    assert_eq!(seconds_or_zero(None), 0);
    assert_eq!(seconds_or_zero(Some(7)), 7);
}

#[test]
fn heartbeat_decision_pings_within_grace() {
    let grace = Duration::from_secs(90).as_nanos();
    assert_eq!(
        heartbeat_decision(Duration::from_secs(30).as_nanos(), grace),
        HeartbeatAction::Ping,
    );
    assert_eq!(heartbeat_decision(grace, grace), HeartbeatAction::Ping);
}

#[test]
fn heartbeat_decision_disconnects_when_grace_expired() {
    let grace = Duration::from_secs(90).as_nanos();
    assert_eq!(
        heartbeat_decision(Duration::from_secs(91).as_nanos(), grace),
        HeartbeatAction::Disconnect,
    );
    assert_eq!(
        heartbeat_decision(Duration::from_secs(600).as_nanos(), grace),
        HeartbeatAction::Disconnect,
    );
}

#[test]
fn heartbeat_decision_respects_shrunk_test_grace() {
    let grace = Duration::from_millis(200).as_nanos();
    assert_eq!(
        heartbeat_decision(Duration::from_millis(50).as_nanos(), grace),
        HeartbeatAction::Ping,
    );
    assert_eq!(
        heartbeat_decision(Duration::from_millis(250).as_nanos(), grace),
        HeartbeatAction::Disconnect,
    );
}

#[test]
fn a_heartbeat_needs_a_connection() {
    let bridge = Bridge::new(ClientSession::generate(1), Config::default())
        .with_heartbeat_params(Duration::from_millis(50).as_nanos(), 200);
    assert_eq!(bridge.heartbeat(false, Some(300)), None);
    assert_eq!(bridge.heartbeat(true, None), None);
    assert_eq!(bridge.heartbeat(true, Some(200)), Some(HeartbeatAction::Ping));
    assert_eq!(bridge.heartbeat(true, Some(201)), Some(HeartbeatAction::Disconnect));
}

#[test]
fn attempts_to_connect_grow_apart_up_to_a_limit() {
    let mut delay = 1;
    let mut seen = vec![delay];
    for _ in 0..6 {
        delay = next_delay(delay);
        seen.push(delay);
    }
    assert_eq!(seen, vec![1, 2, 4, 8, 16, 30, 30]);
}

#[test]
fn a_lost_connection_is_told_and_tried_again() {
    let lost = link_step(LinkNews::Lost);
    assert!(matches!(
        lost.told,
        Some(Event::Disconnected { reason }) if reason == "connection closed"
    ));
    assert_eq!(lost.retry_after, Some(1));
    let mut waited = 1;
    let mut seen = vec![waited];
    for _ in 0..6 {
        let step = link_step(LinkNews::StillDown { waited });
        assert!(step.told.is_none());
        waited = step.retry_after.unwrap();
        seen.push(waited);
    }
    assert_eq!(seen, vec![1, 2, 4, 8, 16, 30, 30]);
    let back = link_step(LinkNews::Back);
    assert!(matches!(back.told, Some(Event::Connected)));
    assert_eq!(back.retry_after, None);
    let other = link_step(LinkNews::AlreadyBack);
    assert!(other.told.is_none());
    assert_eq!(other.retry_after, None);
}

#[test]
fn any_frame_shows_life() {
    assert!(shows_life(&Some(ServerMessage::Error(ServerError::NotRegistered))));
    assert!(shows_life(&Some(ServerMessage::AckOk)));
    assert!(!shows_life(&None));
    assert!(matches!(
        on_frame(Some(ServerMessage::Error(ServerError::NotRegistered))),
        FrameStep::Show(Event::Error(e)) if e == "server: NotRegistered"
    ));
    assert!(matches!(on_fetch_frame(Some(ServerMessage::AckOk)), AwaitStep::Alive));
    assert!(matches!(on_fetch_frame(Some(ServerMessage::Pong)), AwaitStep::Alive));
}

#[test]
fn frames_lead_to_what_the_bridge_does() {
    assert!(matches!(on_frame(Some(ServerMessage::Pong)), FrameStep::Alive));
    assert!(matches!(on_frame(None), FrameStep::Disconnect));
    assert!(matches!(
        on_frame(Some(ServerMessage::Delivered(vec![]))),
        FrameStep::Deliver(_)
    ));
    assert!(matches!(
        on_register_frame(Some(ServerMessage::AckOk)),
        AwaitStep::Done
    ));
    assert!(matches!(
        on_subscribe_frame(Some(ServerMessage::Error(ServerError::NotRegistered))),
        AwaitStep::Fail(_)
    ));
    assert!(matches!(
        on_fetch_frame(Some(ServerMessage::Bundle(None))),
        AwaitStep::Fetched(None)
    ));
}

#[test]
fn ids_too_large_for_the_store_are_left_out() {
    assert_eq!(server_id(7), Some(7));
    assert_eq!(server_id(i64::MAX as u64), Some(i64::MAX));
    assert_eq!(server_id(i64::MAX as u64 + 1), None);
}

// ---- What is shown -------------------------------------------------------------------------------------

fn row(id: i64, direction: i64, status: u8) -> StoredMessageRow {
    StoredMessageRow {
        id,
        direction,
        timestamp: 5,
        sender: None,
        msg: StoredMessage { text: format!("m{id}"), status },
    }
}

#[test]
fn pages_of_the_store_become_events() {
    let chat = ChatId::Peer([1; 32]);
    let page = MessagePage { rows: vec![row(1, 0, 1), row(2, 1, 2)], has_more: true };
    match history_event(chat, Some(page), false) {
        Event::HistoryLoaded { chat: c, msgs, has_more } => {
            assert_eq!(c, chat);
            assert!(has_more);
            assert_eq!(msgs[0].dir, Direction::Out);
            assert_eq!(msgs[0].status, Status::Sent);
            assert_eq!(msgs[1].dir, Direction::In);
            assert_eq!(msgs[1].local_id, 2);
            assert_eq!(msgs[1].text, "m2");
        }
        other => panic!("unexpected {other:?}"),
    }
    match history_event(chat, None, true) {
        Event::OlderHistoryLoaded { msgs, has_more, .. } => {
            assert!(msgs.is_empty());
            assert!(!has_more);
        }
        other => panic!("unexpected {other:?}"),
    }
}

#[test]
fn contacts_of_the_store_are_shown() {
    let views = contacts_to_views(vec![Contact {
        identity_pub: [1; 32],
        nickname: "bob".into(),
        fingerprint: [2; 32],
        verified: true,
    }]);
    assert_eq!(views.len(), 1);
    assert_eq!(views[0].nickname, "bob");
    assert!(views[0].verified);
}

#[test]
fn writes_of_contacts_are_told() {
    assert!(matches!(
        contact_added(&Written::NoStore, vec![]),
        Event::Error(e) if e == "store not unlocked"
    ));
    assert!(matches!(contact_added(&Written::Done, vec![]), Event::ContactsLoaded(_)));
    let failed = Written::Failed(ClientError::Sqlite("x".into()));
    assert!(matches!(
        contact_added(&failed, vec![]),
        Event::Error(e) if e == "local store error"
    ));
    assert!(matches!(
        &fingerprint_compared([1; 32], &failed, vec![])[..],
        [Event::Error(e)] if e == "local store error"
    ));
    assert!(matches!(
        &fingerprint_compared([1; 32], &Written::NoStore, vec![])[..],
        [Event::FingerprintVerified { identity_pub }, Event::ContactsLoaded(_)]
            if *identity_pub == [1; 32]
    ));
}

#[test]
fn attempts_to_connect_are_told() {
    assert!(matches!(reached(Ok(())), Event::Connected));
    assert!(matches!(reached(Err("no".into())), Event::Error(e) if e == "no"));
}

#[test]
fn an_open_store_is_told_as_far_as_it_holds_something() {
    let mut b = bridge();
    assert!(b.started(vec![], vec![]).is_empty());
    let group = StoredGroup { group_id: [5; 32], name: "team".into() };
    let told = b.started(vec![(group, vec![[6; 32]])], vec![([9; 32], 4)]);
    assert!(matches!(
        &told[..],
        [Event::GroupsLoaded(g), Event::UnreadLoaded(u)]
            if g[0].members == 2 && u[..] == [([9; 32], 4)]
    ));
    assert_eq!(b.group_rosters.len(), 1);
}

#[test]
fn a_sent_message_is_told_with_its_status() {
    match sent_event(ChatId::Peer([1; 32]), "hi".into(), 7, 60) {
        Event::Sent { local_id, msg, .. } => {
            assert_eq!(local_id, 7);
            assert_eq!(msg.status, Status::Sent);
            assert_eq!(msg.dir, Direction::Out);
            assert_eq!(msg.timestamp, 60);
        }
        other => panic!("unexpected {other:?}"),
    }
}

#[test]
fn a_stored_message_is_told_once() {
    let chat = ChatId::Peer([1; 32]);
    let fresh = delivered_events(chat, 9, "hi".into(), None, 60, Stored::Fresh);
    assert!(matches!(&fresh[..], [Event::Decrypted { .. }]));
    assert!(delivered_events(chat, 9, "hi".into(), None, 60, Stored::Duplicate).is_empty());
    let failed = delivered_events(
        chat,
        9,
        "hi".into(),
        None,
        60,
        Stored::Failed(ClientError::Sqlite("x".into())),
    );
    assert!(matches!(
        &failed[..],
        [Event::Error(e), Event::Decrypted { .. }] if e == "store: local store error"
    ));
    let unstored = delivered_events(chat, 9, "hi".into(), None, 60, Stored::NoStore);
    assert_eq!(unstored.len(), 1);
}

// ---- Payloads ----------------------------------------------------------------------------------------------

#[test]
fn payloads_come_back_as_they_were() {
    let bytes = encode_payload(&P2pPayload::Chat("héllo".into()));
    assert!(matches!(decode_payload(&bytes), Some(P2pPayload::Chat(t)) if t == "héllo"));
    let mut session = ClientSession::generate(1);
    session.create_group([3; 32]).unwrap();
    let state: SenderKeyState = session.group_distribution(&[3; 32]).unwrap();
    let bytes = encode_payload(&P2pPayload::GroupDist {
        group: [3; 32],
        name: "team".into(),
        state,
    });
    match decode_payload(&bytes) {
        Some(P2pPayload::GroupDist { group, name, state: s }) => {
            assert_eq!(group, [3; 32]);
            assert_eq!(name, "team");
            assert_eq!(s.member_id, state.member_id);
            assert_eq!(s.chain_key.0, state.chain_key.0);
            assert_eq!(s.signing_pub.to_bytes(), state.signing_pub.to_bytes());
            assert_eq!(s.generation, state.generation);
        }
        _ => panic!("no invitation"),
    }
    assert!(decode_payload(&[9, 9, 9]).is_none());
    // The bytes themselves: the variant, the length, the text.
    assert_eq!(encode_payload(&P2pPayload::Chat("hi".into())), vec![0, 2, b'h', b'i']);
    let long = encode_payload(&P2pPayload::Chat("x".repeat(300)));
    assert_eq!(&long[..4], &[0, 0xac, 0x02, b'x']);
    assert_eq!(long.len(), 303);
    assert!(decode_payload(&[]).is_none());
}

// ---- Bridges that talk -----------------------------------------------------------------------------------------

fn bridge() -> Bridge {
    Bridge::new(ClientSession::generate(3), Config::default())
}

fn delivered(mut env: EncryptedEnvelope, id: u64) -> EncryptedEnvelope {
    env.id = id;
    env
}

/// Alice and Bob with a session between them.
fn acquainted() -> (Bridge, Bridge) {
    let mut alice = bridge();
    let mut bob = bridge();
    let bob_key = bob.session.identity_pub();
    let bundle = bob.session.registration_bundle();
    let env = alice.compose_first(bob_key, "hi".into(), 1, Some(bundle)).unwrap();
    let taken = bob.take_delivered(&delivered(env, 1), false);
    assert!(matches!(&taken, Taken::Chat { text, sender: None, .. } if text == "hi"));
    let alice_key = alice.session.identity_pub();
    let env = bob.compose(alice_key, "yo".into(), 1).unwrap();
    let taken = alice.take_delivered(&delivered(env, 1), false);
    assert!(matches!(&taken, Taken::Chat { chat, text, .. }
        if *chat == ChatId::Peer(bob_key) && text == "yo"));
    (alice, bob)
}

#[test]
fn messages_go_both_ways() {
    let (mut alice, mut bob) = acquainted();
    let bob_key = bob.session.identity_pub();
    for i in 2..5u64 {
        let env = alice.compose(bob_key, format!("m{i}"), i).unwrap();
        let taken = bob.take_delivered(&delivered(env, i), false);
        assert!(acknowledged(&taken));
        assert_eq!(note_delivered(vec![1], i, &taken), vec![1, i]);
        assert!(matches!(taken, Taken::Chat { text, .. } if text == format!("m{i}")));
    }
    assert_eq!(bob.last_delivered_id, 4);
}

#[test]
fn known_and_broken_envelopes_are_told_apart() {
    let (mut alice, mut bob) = acquainted();
    let env = alice.compose(bob.session.identity_pub(), "x".into(), 2).unwrap();
    let env = delivered(env, 5);
    assert!(matches!(bob.take_delivered(&env, true), Taken::Known));
    assert_eq!(bob.last_delivered_id, 5);
    let mut broken = env.clone();
    broken.ciphertext[0] ^= 1;
    let taken = bob.take_delivered(&broken, false);
    assert!(!acknowledged(&taken));
    assert_eq!(note_delivered(vec![1], 5, &taken), vec![1]);
    match taken {
        Taken::Refused(Event::Error(e)) => assert_eq!(
            e,
            format!(
                "failed to decrypt message from {}: cryptographic error",
                hexadecimal::encode(&alice.session.identity_pub())
            )
        ),
        _ => panic!("opened"),
    }
}

#[test]
fn a_peer_without_a_bundle_or_session_is_a_failed_send() {
    let mut alice = bridge();
    match alice.compose_first([9; 32], "hi".into(), 3, None) {
        Err(Event::SendFailed { local_id: 3, reason, .. }) => {
            assert_eq!(reason, "contact not registered or offline")
        }
        _ => panic!("sent"),
    }
    match alice.compose([9; 32], "hi".into(), 4) {
        Err(Event::SendFailed { local_id: 4, reason, .. }) => {
            assert_eq!(reason, "no secure session with this contact yet")
        }
        _ => panic!("sent"),
    }
    match alice.compose_group([9; 32], "hi", 5) {
        Err(Event::SendFailed { local_id: 5, reason, .. }) => {
            assert_eq!(reason, "no group session for this group")
        }
        _ => panic!("sent"),
    }
}

#[test]
fn a_group_is_made_joined_and_talked_in() {
    let (mut alice, mut bob) = acquainted();
    let alice_key = alice.session.identity_pub();
    let bob_key = bob.session.identity_pub();
    let (group, payload) = alice.create_group("team".into(), vec![bob_key]).unwrap();
    assert_eq!(group, group_id("team", &[bob_key], &alice_key));
    let invite = match alice.invite(group, bob_key, &payload) {
        InviteStep::Send(env) => env,
        InviteStep::Failed(e) => panic!("{e:?}"),
    };
    let made = Bridge::group_made(group, "team".into(), 1, 0);
    assert!(matches!(&made[..], [Event::GroupCreated { members: 2, .. }]));

    // Bob joins, and answers with his own state.
    let (g, name, state) = match bob.take_delivered(&delivered(invite, 7), false) {
        Taken::Invite { group, name, state } => (group, name, state),
        _ => panic!("no invitation"),
    };
    assert_eq!((g, name.as_str()), (group, "team"));
    let answer = match bob.take_distribution(alice_key, g, name, state) {
        DistStep::Answer(env) => env,
        _ => panic!("no answer"),
    };
    let (roster, name, event) = bob.settle_distribution(alice_key, g);
    assert_eq!(roster, vec![alice_key]);
    assert_eq!(name, "team");
    assert!(matches!(event, Event::GroupInvited { members: 2, .. }));

    // Alice takes the answer in; she has sent hers, so the exchange ends.
    let (g, name, state) = match alice.take_delivered(&delivered(answer, 8), false) {
        Taken::Invite { group, name, state } => (group, name, state),
        _ => panic!("no invitation"),
    };
    assert!(matches!(
        alice.take_distribution(bob_key, g, name, state),
        DistStep::Settled
    ));
    let (roster, _, _) = alice.settle_distribution(bob_key, g);
    assert_eq!(roster, vec![bob_key], "a member is listed once");

    let (recipients, env) = alice.compose_group(group, "hello all", 9).unwrap();
    assert_eq!(recipients, vec![bob_key]);
    assert_eq!(env.kind, MessageKind::Group);
    assert_eq!(delivered_chat(&env), ChatId::Group(group));
    match bob.take_delivered(&delivered(env, 9), false) {
        Taken::Chat { chat, text, sender } => {
            assert_eq!(chat, ChatId::Group(group));
            assert_eq!(text, "hello all");
            assert_eq!(sender, Some(alice_key));
        }
        _ => panic!("no message"),
    }
}

/// The bridge with every send and receive counter at its end.
fn worn_out(bridge: Bridge) -> Bridge {
    let mut record = bridge.session.to_record();
    for (_, ratchet) in record.ratchets.iter_mut() {
        ratchet.ns = u32::MAX;
        ratchet.nr = u32::MAX;
    }
    for (_, group) in record.groups.iter_mut() {
        group.self_state.generation = u32::MAX;
    }
    record.signed_prekey.id = u32::MAX;
    Bridge::new(ClientSession::from_record(&record).unwrap(), Config::default())
}

#[test]
fn a_used_up_counter_is_told_and_changes_nothing() {
    let (mut alice, mut bob) = acquainted();
    let alice_key = alice.session.identity_pub();
    let bob_key = bob.session.identity_pub();
    let (group, payload) = alice.create_group("team".into(), vec![bob_key]).unwrap();
    let first = alice.compose(bob_key, "x".into(), 2).unwrap();
    assert!(acknowledged(&bob.take_delivered(&delivered(first, 8), false)));
    let env = alice.compose(bob_key, "y".into(), 2).unwrap();
    let mut alice = worn_out(alice);
    let mut bob = worn_out(bob);
    assert!(matches!(
        alice.compose(bob_key, "hi".into(), 3),
        Err(Event::SendFailed { local_id: 3, reason, .. }) if reason == "message counter used up"
    ));
    assert!(matches!(
        alice.compose_group(group, "hi", 4),
        Err(Event::SendFailed { local_id: 4, reason, .. }) if reason == "message counter used up"
    ));
    let told = format!(
        "group invite to {} failed: message counter used up",
        hexadecimal::encode(&bob_key)
    );
    assert!(matches!(
        alice.invite(group, bob_key, &payload),
        InviteStep::Failed(Event::Error(e)) if e == told
    ));
    let told = format!(
        "failed to decrypt message from {}: receive counter used up",
        hexadecimal::encode(&alice_key)
    );
    let taken = bob.take_delivered(&delivered(env, 9), false);
    assert!(!acknowledged(&taken));
    assert!(matches!(taken, Taken::Refused(Event::Error(e)) if e == told));
    assert!(matches!(
        alice.rotate_prekey(),
        Err(Event::Error(e)) if e == "signed prekey ids used up"
    ));
    assert!(matches!(
        alice.replenish_prekeys(u32::MAX),
        Err(Event::Error(e)) if e == "one-time prekey ids used up"
    ));
    assert!(alice.replenish_prekeys(2).is_ok());
    assert!(bridge().rotate_prekey().is_ok());
}

#[test]
fn an_answer_that_cannot_be_sent_is_told() {
    let (alice, bob) = acquainted();
    let bob_key = bob.session.identity_pub();
    let mut alice = worn_out(alice);
    let mut session = ClientSession::generate(1);
    session.create_group([3; 32]).unwrap();
    let state: SenderKeyState = session.group_distribution(&[3; 32]).unwrap();
    let told = format!(
        "could not ack group dist to {}: message counter used up",
        hexadecimal::encode(&bob_key)
    );
    assert!(matches!(
        alice.take_distribution(bob_key, [3; 32], "team".into(), state),
        DistStep::Failed(Event::Error(e)) if e == told
    ));
}

#[test]
fn a_member_without_a_session_cannot_be_invited() {
    let mut alice = bridge();
    let stranger = [9; 32];
    let (group, payload) = alice.create_group("team".into(), vec![stranger]).unwrap();
    match alice.invite(group, stranger, &payload) {
        InviteStep::Failed(Event::Error(e)) => assert_eq!(
            e,
            format!(
                "cannot invite {}: no 1:1 session yet (send them a message first)",
                "09".repeat(32)
            )
        ),
        _ => panic!("invited"),
    }
    let made = Bridge::group_made(group, "team".into(), 1, 1);
    assert!(matches!(
        &made[..],
        [Event::GroupCreated { .. }, Event::Error(e)]
            if e == "1 member(s) could not be invited; group created locally"
    ));
}

#[test]
fn an_identity_is_set_up_unlocked_and_logged_out() {
    let mut alice = bridge();
    assert!(matches!(
        alice.unlock_target(),
        Err(Event::Error(e)) if e == "no stored identity to unlock"
    ));
    let key = alice.session.identity_pub();
    match alice.set_up() {
        Event::Ready { identity_pub, identity_fingerprint } => {
            assert_eq!(identity_pub, key);
            assert_eq!(identity_fingerprint, alice.session.fingerprint());
        }
        other => panic!("unexpected {other:?}"),
    }
    assert_eq!(alice.store_name(), hexadecimal::encode(&key));
    assert_eq!(alice.unlock_target().unwrap(), alice.store_name());
    alice.set_server("1.2.3.4:5".into());
    assert_eq!(alice.config.server_addr, "1.2.3.4:5");

    let mut other = bridge();
    let kept = ClientSession::from_record(&alice.session.to_record());
    let group = StoredGroup { group_id: [5; 32], name: "team".into() };
    let told = other.unlocked(kept, vec![], vec![(group, vec![[6; 32], [7; 32]])], vec![]);
    assert!(matches!(
        &told[..],
        [
            Event::Ready { .. },
            Event::ContactsLoaded(_),
            Event::GroupsLoaded(g),
            Event::UnreadLoaded(_),
        ] if g[0].members == 3
    ));
    assert_eq!(other.session.identity_pub(), key);
    assert!(matches!(
        &other.unlocked(None, vec![], vec![], vec![])[..],
        [Event::Error(e)] if e == "store has no session (corrupt?)"
    ));
    assert!(matches!(
        other.log_out(),
        Event::Disconnected { reason } if reason == "logged out"
    ));
    assert_eq!(other.group_rosters.len(), 0);
    assert_eq!(other.group_names.len(), 0);
}
