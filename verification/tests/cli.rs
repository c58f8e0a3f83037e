use untitled_messenger::client::cli::{
    first_message, handle_incoming, hex_encode, next_message, on_fetch_frame, on_frame,
    on_register_frame, on_subscribe_frame, parse_line, parse_pub, read_line, server_addr_from,
    split_two, Line, Step, DEFAULT_ADDR,
};
use untitled_messenger::client::error::ClientError;
use untitled_messenger::client::net::{ack_message, note_ack};
use untitled_messenger::client::session::ClientSession;
use untitled_messenger::protocol::message::{
    ClientMessage, EncryptedEnvelope, MessageKind, ServerError, ServerMessage,
};

#[test]
fn hex_encode_round_trips_32_bytes() {
    let v = [0xAB; 32];
    let s = hex_encode(&v);
    assert_eq!(s.len(), 64);
    assert_eq!(parse_pub(&s).unwrap(), v);
}

#[test]
fn parse_pub_accepts_mixed_case() {
    let s = "DeAdBeEf".to_string() + &"00".repeat(28);
    let got = parse_pub(&s).unwrap();
    assert_eq!(got[0], 0xDE);
    assert_eq!(got[1], 0xAD);
    assert_eq!(got[2], 0xBE);
    assert_eq!(got[3], 0xEF);
}

#[test]
fn parse_pub_rejects_short_input() {
    assert!(parse_pub("ab").is_err());
}

#[test]
fn parse_pub_rejects_bad_digit() {
    let bad = "zz".to_string() + &"00".repeat(31);
    assert!(parse_pub(&bad).is_err());
}

#[test]
fn split_two_preserves_internal_whitespace() {
    let (a, b) = split_two("deadbeef  hello world").unwrap();
    assert_eq!(a, "deadbeef");
    assert_eq!(b, "hello world");
}

#[test]
fn split_two_missing_value_errors() {
    assert!(split_two("onlyone").is_err());
    assert!(split_two("   ").is_err());
}

/// The addresses that arguments stand for, where `addr` is the only one.
fn parsed(args: &[String], addr: &str) -> Vec<Option<String>> {
    args.iter().map(|a| if a == addr { Some(a.clone()) } else { None }).collect()
}

#[test]
fn server_addr_from_flag_wins_over_env() {
    let args = vec!["--server".to_string(), "1.2.3.4:99".to_string()];
    let env = Some("5.6.7.8:1".to_string());
    assert_eq!(
        server_addr_from(&args, &parsed(&args, "1.2.3.4:99"), env),
        "1.2.3.4:99"
    );
}

#[test]
fn server_addr_from_env_when_no_flag() {
    let env = Some("9.9.9.9:1".to_string());
    assert_eq!(server_addr_from(&vec![], &vec![], env), "9.9.9.9:1");
}

#[test]
fn server_addr_from_default_when_nothing_given() {
    assert_eq!(server_addr_from(&vec![], &vec![], None), "127.0.0.1:7000");
    assert_eq!(DEFAULT_ADDR, "127.0.0.1:7000");
}

#[test]
fn server_addr_from_ignores_unknown_flag() {
    let args = vec!["--verbose".to_string(), "1.2.3.4:99".to_string()];
    assert_eq!(
        server_addr_from(&args, &parsed(&args, "1.2.3.4:99"), None),
        "127.0.0.1:7000"
    );
}

#[test]
fn a_flag_without_an_address_is_passed_over() {
    let args: Vec<String> =
        ["--server", "x", "--server", "1.2.3.4:99", "--server"].iter().map(|s| s.to_string()).collect();
    assert_eq!(
        server_addr_from(&args, &parsed(&args, "1.2.3.4:99"), None),
        "1.2.3.4:99"
    );
    let args = vec!["--server".to_string()];
    assert_eq!(server_addr_from(&args, &vec![None], None), DEFAULT_ADDR);
}

#[test]
fn lines_are_commands() {
    let key = "ab".repeat(32);
    assert!(matches!(read_line("   "), Ok(Line::Nothing)));
    assert!(matches!(read_line(" /quit "), Ok(Line::Quit)));
    assert!(matches!(read_line("/exit"), Ok(Line::Quit)));
    assert!(matches!(read_line("/help"), Ok(Line::Help)));
    assert!(matches!(read_line("/whoami"), Ok(Line::WhoAmI)));
    assert!(matches!(read_line("/contacts\n"), Ok(Line::Contacts)));
    assert!(matches!(
        read_line(&format!("/add {key}  Bob B.")),
        Ok(Line::Add { identity_pub, nickname }) if identity_pub == [0xab; 32] && nickname == "Bob B."
    ));
    assert!(matches!(
        parse_line(&format!("/msg {key} hi there")),
        Ok(Line::Msg { peer, text }) if peer == [0xab; 32] && text == "hi there"
    ));
    assert!(matches!(read_line("/nope x"), Ok(Line::Unknown(c)) if c == "/nope"));
    assert!(matches!(
        read_line("/msg abc hi"),
        Err(ClientError::Store(s)) if s == "expected 64 hex chars (32 bytes)"
    ));
    assert!(matches!(
        read_line(&format!("/add {} bob", "zz".repeat(32))),
        Err(ClientError::Store(s)) if s == "bad hex digit"
    ));
    assert!(matches!(
        read_line("/add"),
        Err(ClientError::Store(s)) if s == "expected <arg> <value>"
    ));
}

#[test]
fn frames_lead_to_steps() {
    assert!(matches!(on_register_frame(Some(ServerMessage::AckOk)), Step::Done));
    assert!(matches!(
        on_register_frame(Some(ServerMessage::Delivered(vec![]))),
        Step::Discard(0)
    ));
    assert!(matches!(
        on_register_frame(Some(ServerMessage::Error(ServerError::InvalidSignature))),
        Step::Fail(ClientError::Store(s)) if s == "server: InvalidSignature"
    ));
    assert!(matches!(
        on_register_frame(None),
        Step::Fail(ClientError::NotConnected)
    ));
    assert!(matches!(
        on_subscribe_frame(Some(ServerMessage::Delivered(vec![]))),
        Step::Deliver(_)
    ));
    assert!(matches!(on_subscribe_frame(Some(ServerMessage::Pong)), Step::Wait));
    assert!(matches!(
        on_fetch_frame(Some(ServerMessage::Bundle(None))),
        Step::Fetched(None)
    ));
    assert!(matches!(
        on_frame(Some(ServerMessage::Error(ServerError::NotRegistered))),
        Step::Print(s) if s == "server error: NotRegistered"
    ));
    assert!(matches!(on_frame(None), Step::Gone));
}

#[test]
fn messages_are_printed_with_their_sender() {
    let mut alice = ClientSession::generate(1);
    let mut bob = ClientSession::generate(1);
    assert!(matches!(
        first_message(&mut alice, None, b"hi"),
        Err(ClientError::Store(s)) if s == "peer not registered"
    ));
    let bundle = bob.registration_bundle();
    let env = first_message(&mut alice, Some(bundle), &[b'h', 0xff, b'i']).unwrap();
    let (line, ack) = handle_incoming(&env, &mut bob);
    assert!(ack);
    assert_eq!(line, format!("<- {}: h\u{fffd}i", hex_encode(&alice.identity_pub())));

    let stray = EncryptedEnvelope {
        id: 1,
        sender: [0x77; 32],
        kind: MessageKind::Direct,
        header: vec![1, 2, 3],
        init: None,
        ciphertext: vec![],
        signature: vec![],
    };
    let (line, ack) = handle_incoming(&stray, &mut bob);
    assert!(!ack);
    assert_eq!(
        line,
        format!("<- failed to decrypt from {}: no session with peer", "77".repeat(32))
    );
}

#[test]
fn a_used_up_counter_is_printed_and_not_acknowledged() {
    let mut alice = ClientSession::generate(1);
    let mut bob = ClientSession::generate(1);
    let bob_key = bob.identity_pub();
    let env = first_message(&mut alice, Some(bob.registration_bundle()), b"one").unwrap();
    assert!(handle_incoming(&env, &mut bob).1);
    let env = next_message(&mut alice, &bob_key, b"two").unwrap();
    let mut record = bob.to_record();
    record.ratchets[0].1.nr = u32::MAX;
    let mut bob = ClientSession::from_record(&record).unwrap();
    assert_eq!(
        handle_incoming(&env, &mut bob),
        (
            format!(
                "<- failed to decrypt from {}: receive counter used up",
                hex_encode(&alice.identity_pub())
            ),
            false
        )
    );
    let mut record = alice.to_record();
    record.ratchets[0].1.ns = u32::MAX;
    let mut alice = ClientSession::from_record(&record).unwrap();
    assert!(matches!(
        next_message(&mut alice, &bob_key, b"three"),
        Err(ClientError::Store(s)) if s == "message counter used up"
    ));
    assert!(matches!(
        next_message(&mut alice, &[9; 32], b"three"),
        Err(ClientError::NoSession)
    ));
}

#[test]
fn a_batch_is_acknowledged_once_in_its_order() {
    let mut ids = Vec::new();
    for (id, ack) in [(5u64, true), (3, false), (9, true), (4, true)] {
        ids = note_ack(ids, id, ack);
    }
    assert_eq!(
        ack_message(ids),
        Some(ClientMessage::Ack { envelope_ids: vec![5, 9, 4] })
    );
    assert_eq!(ack_message(note_ack(Vec::new(), 1, false)), None);
}
