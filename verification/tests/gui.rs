use untitled_messenger::gui::app::{handle_event, update, Message, UmApp};
use untitled_messenger::gui::config::{config_path, store_path, Config, DEFAULT_SERVER_ADDR};
use untitled_messenger::gui::event::Event;
use untitled_messenger::gui::panels::{
    history_top_hint, identity_label, passphrase_notice, sender_label, sidebar, thread_panel,
    TopHint,
};
use untitled_messenger::gui::screen::View;
use untitled_messenger::gui::theme::ACCENT;
use untitled_messenger::gui::types::{
    ChatId, ContactView, Direction, GroupView, MessageView, Status,
};
use untitled_messenger::gui::views::{
    format_time, hex32, highlighted_name, match_range, matches_query, order_by_rank, parse_key,
    parse_pubkey_hex, query_rank, query_rank_checked, route_after_event, short_hex, KeyTextError,
};
use untitled_messenger::hexadecimal;

// ---- Types -----------------------------------------------------------------------------------

#[test]
fn chat_id_key_and_is_peer() {
    let peer = ChatId::Peer([0x11; 32]);
    let group = ChatId::Group([0x22; 32]);
    assert_eq!(peer.key(), [0x11; 32]);
    assert_eq!(group.key(), [0x22; 32]);
    assert!(peer.is_peer());
    assert!(!group.is_peer());
    assert_ne!(peer, group);
}

#[test]
fn chats_of_one_key_differ_by_what_they_are() {
    assert_ne!(ChatId::Peer([0x11; 32]), ChatId::Group([0x11; 32]));
    assert_eq!(ChatId::Group([0x11; 32]), ChatId::Group([0x11; 32]));
}

#[test]
fn group_view_equality() {
    let g = GroupView {
        id: [0x55; 32],
        name: "team".into(),
        members: 3,
    };
    assert_eq!(g, g.clone());
    assert_ne!(
        g,
        GroupView {
            id: [0x56; 32],
            ..g.clone()
        }
    );
    assert_ne!(
        g,
        GroupView {
            name: "squad".into(),
            ..g.clone()
        }
    );
    assert_ne!(
        g,
        GroupView {
            members: 4,
            ..g.clone()
        }
    );
}

#[test]
fn status_round_trips_through_u8() {
    for s in [
        Status::Sending,
        Status::Sent,
        Status::Delivered,
        Status::Failed,
    ] {
        assert_eq!(Status::from_u8(s.as_u8()), s);
    }
}

#[test]
fn status_from_unknown_u8_defaults_to_sending() {
    assert_eq!(Status::from_u8(255), Status::Sending);
}

#[test]
fn status_codes_are_fixed() {
    assert_eq!(Status::Sending.as_u8(), 0);
    assert_eq!(Status::Sent.as_u8(), 1);
    assert_eq!(Status::Delivered.as_u8(), 2);
    assert_eq!(Status::Failed.as_u8(), 3);
}

// ---- Config and theme --------------------------------------------------------------------------

#[test]
fn default_config_uses_default_server() {
    let cfg = Config::default();
    assert_eq!(cfg.server_addr, DEFAULT_SERVER_ADDR);
    assert_eq!(
        cfg.server_socket_addr(Some(DEFAULT_SERVER_ADDR.to_string())),
        DEFAULT_SERVER_ADDR
    );
    assert!(cfg.last_identity_pub.is_empty());
}

#[test]
fn bad_server_addr_falls_back_to_default() {
    let cfg = Config {
        server_addr: "not an addr".to_string(),
        last_identity_pub: String::new(),
    };
    assert_eq!(cfg.server_socket_addr(None), DEFAULT_SERVER_ADDR);
}

#[test]
fn store_path_keyed_by_identity_hex() {
    let p = store_path("deadbeef");
    assert!(p.join("/").ends_with("deadbeef.db"));
    assert_eq!(p, vec!["um", "deadbeef.db"]);
    assert_eq!(config_path(), vec!["um", "config.toml"]);
}

#[test]
fn accent_is_purple() {
    let c = ACCENT;
    let r = c[0] as f32 / 255.0;
    let g = c[1] as f32 / 255.0;
    let b = c[2] as f32 / 255.0;
    assert!(r > 0.7 && b > 0.9 && g < 0.7);
}

// ---- Keys as text --------------------------------------------------------------------------------

#[test]
fn parse_pubkey_hex_round_trips() {
    let v = [0xAB; 32];
    let s = hexadecimal::encode(&v);
    assert_eq!(s, hex::encode(v));
    assert_eq!(parse_pubkey_hex(&s).unwrap(), v);
}

#[test]
fn parse_pubkey_hex_rejects_short() {
    assert!(parse_pubkey_hex("ab").is_err());
}

#[test]
fn parse_pubkey_hex_rejects_bad_digit() {
    let bad = "zz".to_string() + &"00".repeat(31);
    assert!(parse_pubkey_hex(&bad).is_err());
}

#[test]
fn every_byte_is_written_as_the_hex_crate_writes_it() {
    let all: Vec<u8> = (0..=255).collect();
    assert_eq!(hexadecimal::encode(&all), hex::encode(&all));
}

#[test]
fn a_key_is_read_with_white_space_around_it() {
    let text = format!("  {}\n", "0F".repeat(32));
    assert_eq!(parse_key(&text), Ok([0x0f; 32]));
    assert_eq!(parse_key("0f"), Err(KeyTextError::Length));
    assert_eq!(parse_key(&"0g".repeat(32)), Err(KeyTextError::Digit));
}

#[test]
fn short_hex_is_short() {
    assert_eq!(short_hex(&[0xAB; 32]), "abababab…");
}

// ---- Routes ---------------------------------------------------------------------------------------

#[test]
fn route_after_event_ready_goes_to_contact_list() {
    let ev = Event::Ready {
        identity_pub: [0x11; 32],
        identity_fingerprint: [0xAB; 32],
    };
    assert_eq!(
        route_after_event(&ev, &View::Login),
        Some(View::ContactList)
    );
}

#[test]
fn route_after_event_group_created_opens_group_chat() {
    let gid = [0x22; 32];
    let ev = Event::GroupCreated {
        group: gid,
        name: "team".into(),
        members: 2,
    };
    assert_eq!(
        route_after_event(&ev, &View::ContactList),
        Some(View::GroupChat(gid))
    );
}

#[test]
fn route_after_event_decrypted_no_view_change() {
    let ev = Event::Decrypted {
        chat: ChatId::Peer([0x33; 32]),
        msg: MessageView {
            local_id: 1,
            text: "hi".into(),
            dir: Direction::In,
            timestamp: 0,
            status: Status::Delivered,
            sender: None,
        },
    };
    assert_eq!(route_after_event(&ev, &View::ChatThread([0x33; 32])), None);
}

// ---- Times ------------------------------------------------------------------------------------------

#[test]
fn format_time_epoch_zero_is_empty() {
    assert_eq!(format_time(0), "");
}

#[test]
fn format_time_known_stamp() {
    assert_eq!(format_time(1_782_961_800), "2026-07-02 03:10");
}

#[test]
fn format_time_is_utc_not_local() {
    let a = format_time(1_782_961_800);
    assert_eq!(a, format_time(1_782_961_800));
    assert!(a.starts_with("2026-07-02"));
}

#[test]
fn leap_days_and_turns_of_the_year_are_dates() {
    assert_eq!(format_time(1), "1970-01-01 00:00");
    assert_eq!(format_time(951_782_399), "2000-02-28 23:59");
    assert_eq!(format_time(951_782_400), "2000-02-29 00:00");
    assert_eq!(format_time(951_868_800), "2000-03-01 00:00");
    assert_eq!(format_time(1_704_067_199), "2023-12-31 23:59");
    assert_eq!(format_time(1_704_067_200), "2024-01-01 00:00");
    assert_eq!(format_time(4_107_542_400), "2100-03-01 00:00");
}

// ---- Search -------------------------------------------------------------------------------------------

#[test]
fn matches_query_empty_shows_all() {
    assert!(matches_query("", &["bob"]));
    assert!(matches_query("   ", &["bob"]));
}

#[test]
fn matches_query_substring_case_insensitive() {
    assert!(matches_query("BO", &["bob", "deadbeef…"]));
    assert!(matches_query("bob", &["Bob", "deadbeef…"]));
    assert!(matches_query("dead", &["Bob", "deadbeef…"]));
}

#[test]
fn matches_query_no_match() {
    assert!(!matches_query("zzz", &["bob", "deadbeef…"]));
}

#[test]
fn matches_query_matches_hex_id() {
    let id_hex = hex32(&[0xAB; 32]);
    assert!(matches_query("ababab", &[&id_hex]));
    assert!(!matches_query("cdcdcd", &[&id_hex]));
}

#[test]
fn matches_query_ignores_surrounding_whitespace() {
    assert!(matches_query("  bob  ", &["bob"]));
}

#[test]
fn query_rank_empty_is_zero() {
    assert_eq!(query_rank("", &["bob"]), Some(0));
    assert_eq!(query_rank("   ", &["bob"]), Some(0));
}

#[test]
fn query_rank_no_match_is_none() {
    assert_eq!(query_rank("zzz", &["bob", "deadbeef…"]), None);
}

#[test]
fn query_rank_exact_beats_prefix_beats_substring() {
    let exact = query_rank("bob", &["bob"]).unwrap();
    let prefix = query_rank("bob", &["bobby"]).unwrap();
    let substr = query_rank("bob", &["barboba"]).unwrap();
    assert!(exact < prefix, "{exact} should beat {prefix}");
    assert!(prefix < substr, "{prefix} should beat {substr}");
}

#[test]
fn query_rank_earlier_position_beats_later_within_tier() {
    let early = query_rank("al", &["alice"]).unwrap();
    let late = query_rank("al", &["real"]).unwrap();
    assert!(
        early < late,
        "earlier match ({early}) should beat later ({late})"
    );
}

#[test]
fn query_rank_name_beats_hex_id_for_same_query() {
    let name = query_rank("ab", &["ab"]).unwrap();
    let id = query_rank("ab", &["abababababababab"]).unwrap();
    assert!(name < id, "name ({name}) should beat hex id ({id})");
}

#[test]
fn query_rank_takes_min_across_haystacks() {
    let id_hex = hex32(&[0xAB; 32]);
    let rank = query_rank("bob", &["bob", &id_hex]).unwrap();
    assert_eq!(rank, 0, "exact nickname match → tier 0, score 0");
}

#[test]
fn query_rank_short_hex_is_treated_as_id() {
    let name_prefix = query_rank("ab", &["abbot"]).unwrap();
    let short = query_rank("ab", &["abababab…"]).unwrap();
    assert!(
        name_prefix < short,
        "name prefix ({name_prefix}) should beat short-hex ({short})"
    );
}

#[test]
fn ranks_have_these_values() {
    assert_eq!(query_rank("bob", &["Bob"]), Some(0));
    assert_eq!(query_rank("bob", &["bobby"]), Some(1000));
    assert_eq!(query_rank("bob", &["xbob"]), Some(2001));
    assert_eq!(query_rank("ab", &["abababab…"]), Some(1500));
    assert_eq!(query_rank("ba", &["abababab…"]), Some(2501));
    assert_eq!(query_rank_checked("bob", &["xbob"]), Some(Some(2001)));
    assert_eq!(query_rank_checked("zzz", &["xbob"]), Some(None));
}

#[test]
fn lower_case_is_that_of_std() {
    assert!(matches_query("straSSE", &["Strasse"]));
    assert!(matches_query("ΣΟΦΙΑ", &["σοφια"]));
    assert!(matches_query("İ", &["i\u{307}x"]));
}

#[test]
fn match_range_empty_query_is_none() {
    assert_eq!(match_range("", "bob"), None);
    assert_eq!(match_range("   ", "bob"), None);
}

#[test]
fn match_range_no_match_is_none() {
    assert_eq!(match_range("zzz", "bob"), None);
}

#[test]
fn match_range_substring_case_insensitive() {
    assert_eq!(match_range("BO", "bob"), Some((0, 2)));
    assert_eq!(match_range("ob", "Bob"), Some((1, 3)));
}

#[test]
fn match_range_returns_first_occurrence() {
    assert_eq!(match_range("ab", "abab"), Some((0, 2)));
}

#[test]
fn match_range_trims_query() {
    assert_eq!(match_range("  bob  ", "bob"), Some((0, 3)));
}

#[test]
fn match_range_preserves_original_case_range() {
    let (s, e) = match_range("ob", "Bob").unwrap();
    assert_eq!(&"Bob"[s..e], "ob");
}

#[test]
fn a_marked_range_is_one_of_the_name_itself() {
    // The small form of the first letter is longer than the letter.
    assert_eq!(match_range("ab", "İab"), Some((2, 4)));
    assert_eq!(&"İab"[2..4], "ab");
    assert_eq!(match_range("é", "İé"), Some((2, 4)));
    // The match ends inside the small form of one letter.
    assert_eq!(match_range("i", "xİy"), Some((1, 3)));
    assert_eq!(match_range("xi", "xİy"), Some((0, 3)));
    // The last letter of a word has a small form of its own.
    assert_eq!(match_range("ΑΣ", "xΑΣ"), Some((1, 5)));
    assert_eq!(match_range("ας", "ΑΣΑ"), None);
    assert_eq!(match_range("ς", "ΑΣ"), Some((2, 4)));
    assert_eq!(match_range("σ", "ΑΣΑ"), Some((2, 4)));
    assert_eq!(match_range("ας", "ΑΣΑ ΑΣ"), Some((7, 11)));
}

#[test]
fn a_query_marks_what_the_filter_shows() {
    for query in ["", "  ", "ab", "i", "ΑΣ", "ας", "zzz", "i\u{307}"] {
        for name in ["", "İab", "abab", "ΑΣΑ", "xΑΣ", "xİy", "Strasse"] {
            assert_eq!(
                match_range(query, name).is_some(),
                !query.trim().is_empty() && matches_query(query, &[name]),
                "{query:?} in {name:?}"
            );
            let text: String = highlighted_name(query, name)
                .into_iter()
                .map(|(piece, _)| piece)
                .collect();
            assert_eq!(text, name);
        }
    }
}

#[test]
fn a_highlighted_name_keeps_its_letters() {
    assert_eq!(
        highlighted_name("OB", "Bobby"),
        vec![
            ("B".to_string(), false),
            ("ob".to_string(), true),
            ("by".to_string(), false),
        ]
    );
    assert_eq!(highlighted_name("", "Bobby"), vec![("Bobby".to_string(), false)]);
    assert_eq!(
        highlighted_name("é", "Zoé"),
        vec![("Zo".to_string(), false), ("é".to_string(), true)]
    );
    assert_eq!(
        highlighted_name("é", "İé"),
        vec![("İ".to_string(), false), ("é".to_string(), true)]
    );
}

#[test]
fn a_rank_is_the_better_of_two_parts() {
    let whole = query_rank("bob", &["xbob", "bobby"]);
    assert_eq!(whole, Some(1000));
    assert_eq!(
        whole,
        query_rank("bob", &["xbob"]).min(query_rank("bob", &["bobby"]))
    );
    assert_eq!(query_rank("bob", &["zoe", "bobby"]), Some(1000));
    assert_eq!(query_rank("bob", &["zoe"]), None);
}

#[test]
fn capitals_and_space_around_a_key_do_not_matter() {
    let key: [u8; 32] = [0xAB; 32];
    let text = hex32(&key);
    assert_eq!(parse_key(&text.to_uppercase()), Ok(key));
    assert_eq!(parse_key(&format!("\t {}\n", text.to_uppercase())), Ok(key));
    assert_eq!(parse_key(&format!("aB{}", &text[2..])), Ok(key));
    assert_eq!(parse_key(&format!("{} {}", &text[..32], &text[32..])), Err(KeyTextError::Length));
}

#[test]
fn later_times_have_later_texts() {
    let times: [u64; 8] = [
        1,
        60,
        86_399,
        86_400,
        951_782_400,
        951_868_800,
        1_700_000_000,
        253_402_300_799,
    ];
    for pair in times.windows(2) {
        let (a, b) = (format_time(pair[0]), format_time(pair[1]));
        assert_eq!(a.len(), 16);
        assert!(a < b, "{a} before {b}");
    }
    assert_eq!(format_time(60), format_time(119));
    assert_eq!(format_time(253_402_300_799), "9999-12-31 23:59");
    assert_eq!(format_time(951_782_400), "2000-02-29 00:00");
    assert_eq!(format_time(0), "");
}

#[test]
fn rows_come_by_rank_and_then_by_place() {
    assert_eq!(
        order_by_rank(&vec![Some(5), None, Some(1), Some(5), Some(0)]),
        vec![4, 2, 0, 3]
    );
}

// ---- Panels ---------------------------------------------------------------------------------------------

fn contact(pub_: [u8; 32], nick: &str) -> ContactView {
    ContactView {
        identity_pub: pub_,
        nickname: nick.into(),
        fingerprint: [0; 32],
        verified: false,
    }
}

fn test_app() -> UmApp {
    UmApp::new(View::ContactList, Config::default(), None)
}

fn message(dir: Direction, status: Status, sender: Option<[u8; 32]>) -> MessageView {
    MessageView { local_id: 1, text: "hi".into(), dir, timestamp: 60, status, sender }
}

#[test]
fn sender_label_uses_known_nickname() {
    let pub_ = [0x11; 32];
    let contacts = vec![contact(pub_, "alice")];
    assert_eq!(sender_label(&contacts, &pub_), "alice");
}

#[test]
fn sender_label_falls_back_to_short_hex() {
    let pub_ = [0xAB; 32];
    assert_eq!(sender_label(&[], &pub_), "abababab…");
}

#[test]
fn sender_label_ignores_non_matching_contacts() {
    let known = [0x11; 32];
    let unknown = [0x22; 32];
    let contacts = vec![contact(known, "alice")];
    assert_eq!(sender_label(&contacts, &unknown), "22222222…");
}

#[test]
fn a_thread_tells_of_loading_and_of_its_start() {
    assert_eq!(history_top_hint(true, true), Some(TopHint::Loading));
    assert_eq!(history_top_hint(true, false), Some(TopHint::Loading));
    assert_eq!(history_top_hint(false, false), Some(TopHint::StartOfHistory));
    assert_eq!(history_top_hint(false, true), None);
}

#[test]
fn a_thread_is_shown_with_marks_times_and_senders() {
    let mut app = test_app();
    app.contacts.push(contact([0x11; 32], "alice"));
    app.groups.push(GroupView { id: [0x22; 32], name: "team".into(), members: 3 });
    let group = ChatId::Group([0x22; 32]);
    let msgs = vec![
        message(Direction::In, Status::Delivered, Some([0x11; 32])),
        message(Direction::In, Status::Delivered, Some([0xab; 32])),
        message(Direction::Out, Status::Sending, None),
        message(Direction::Out, Status::Failed, None),
        message(Direction::Out, Status::Sent, None),
    ];
    let _ = handle_event(&mut app, Event::HistoryLoaded { chat: group, msgs, has_more: false });
    let panel = thread_panel(&app, group);
    assert_eq!(panel.title, "team · 3 members");
    assert_eq!(panel.hint, Some(TopHint::StartOfHistory));
    assert_eq!(panel.notice, None);
    let texts: Vec<&str> = panel.bubbles.iter().map(|b| b.text.as_str()).collect();
    assert_eq!(texts, vec!["alice: hi", "abababab…: hi", "hi …", "hi ✗", "hi ✓"]);
    assert_eq!(panel.bubbles[0].time, "1970-01-01 00:01");
    assert!(panel.bubbles[2].outgoing);
    let empty = thread_panel(&app, ChatId::Peer([0x11; 32]));
    assert_eq!(empty.title, format!("alice · {}", "00".repeat(32)));
    assert_eq!(empty.notice.as_deref(), Some("no messages yet"));
    assert_eq!(empty.hint, None);
    let unknown = thread_panel(&app, ChatId::Group([0x33; 32]));
    assert_eq!(unknown.title, format!("group {}", "33".repeat(32)));
    assert_eq!(unknown.notice.as_deref(), Some("no group messages yet"));
}

#[test]
fn the_sidebar_lists_what_matches_best_first() {
    let mut app = test_app();
    let empty = sidebar(&app).unwrap();
    assert_eq!(
        empty.contacts_notice.as_deref(),
        Some("No contacts yet — add one by pasting their identity pub below.")
    );
    assert_eq!(empty.groups_notice.as_deref(), Some("(no groups yet)"));
    assert_eq!(empty.total, "");
    assert_eq!((empty.status_dot.as_str(), empty.status.as_str()), ("○", "disconnected"));

    app.contacts.push(contact([0x11; 32], "barboba"));
    app.contacts.push(contact([0x22; 32], "Bobby"));
    app.contacts.push(contact([0x33; 32], "bob"));
    app.contacts.push(contact([0x44; 32], "carol"));
    app.contacts[1].verified = true;
    app.unread.insert(ChatId::Peer([0x22; 32]), 2);
    app.unread.insert(ChatId::Group([0x55; 32]), 3);
    app.connected = true;
    let _ = update(&mut app, Message::SearchChanged("bob".into()));
    let found = sidebar(&app).unwrap();
    let places: Vec<usize> = found.contacts.iter().map(|r| r.place).collect();
    assert_eq!(places, vec![2, 1, 0]);
    assert_eq!(found.total, "5 unread");
    assert_eq!((found.status_dot.as_str(), found.status.as_str()), ("●", "connected"));
    let bobby = &found.contacts[1];
    assert_eq!(bobby.mark, "✓ ");
    assert_eq!(bobby.badge, "2");
    assert_eq!(bobby.id, "22222222…");
    assert_eq!(
        bobby.name,
        vec![("Bob".to_string(), true), ("by".to_string(), false)]
    );
    assert!(!bobby.open);

    let _ = update(&mut app, Message::SearchChanged("nobody".into()));
    let none = sidebar(&app).unwrap();
    assert_eq!(none.contacts_notice.as_deref(), Some("No contacts match your search."));
}

#[test]
fn settings_and_setup_show_the_identity_and_the_passphrase() {
    let mut app = test_app();
    assert_eq!(identity_label(&None), "(not unlocked)");
    assert_eq!(identity_label(&Some([0xab; 32])), "ab".repeat(32));
    app.passphrase_input = "short".into();
    assert_eq!(
        passphrase_notice(&app).as_deref(),
        Some("passphrase must be at least 8 characters")
    );
    app.passphrase_input = "long enough".into();
    assert_eq!(passphrase_notice(&app), None);
}
