use untitled_messenger::gui::app::{handle_event, initial_view, update, Effect, Message, UmApp};
use untitled_messenger::gui::command::Command;
use untitled_messenger::gui::config::Config;
use untitled_messenger::gui::event::Event;
use untitled_messenger::gui::screen::View;
use untitled_messenger::gui::types::{
    ChatId, ContactView, Direction, GroupView, MessageView, Status,
};

fn test_app() -> UmApp {
    UmApp::new(View::ContactList, Config::default(), None)
}

fn incoming(text: &str) -> MessageView {
    MessageView {
        local_id: 0,
        text: text.into(),
        dir: Direction::In,
        timestamp: 0,
        status: Status::Delivered,
        sender: None,
    }
}

#[test]
fn decrypted_when_chat_open_appends_to_thread() {
    let mut app = test_app();
    let chat = ChatId::Peer([0x11; 32]);
    app.open_chat = Some(chat);
    let _ = handle_event(
        &mut app,
        Event::Decrypted {
            chat,
            msg: incoming("hi"),
        },
    );
    let thread = app.threads.get(&chat).expect("thread cached");
    assert_eq!(thread.len(), 1);
    assert_eq!(thread[0].text, "hi");
    assert_eq!(app.unread.get(&chat), None, "no unread when open");
}

#[test]
fn decrypted_when_chat_closed_bumps_unread() {
    let mut app = test_app();
    let chat = ChatId::Peer([0x11; 32]);
    let _ = handle_event(
        &mut app,
        Event::Decrypted {
            chat,
            msg: incoming("a"),
        },
    );
    let _ = handle_event(
        &mut app,
        Event::Decrypted {
            chat,
            msg: incoming("b"),
        },
    );
    assert_eq!(app.unread.get(&chat), Some(&2));
    assert!(!app.threads.contains(&chat));
}

#[test]
fn opening_chat_clears_its_unread() {
    let mut app = test_app();
    let peer = [0x11; 32];
    let chat = ChatId::Peer(peer);
    app.unread.insert(chat, 3);
    let _ = update(&mut app, Message::OpenChat(peer));
    assert_eq!(app.open_chat, Some(chat));
    assert_eq!(app.view, View::ChatThread(peer));
    assert_eq!(app.unread.get(&chat), None, "unread cleared on open");
}

#[test]
fn decrypted_when_chat_closed_sends_set_unread_with_bumped_count() {
    let mut app = test_app();
    let mut sent: Vec<Command> = Vec::new();
    let peer = [0x11; 32];
    let chat = ChatId::Peer(peer);
    sent.extend(handle_event(
        &mut app,
        Event::Decrypted {
            chat,
            msg: incoming("a"),
        },
    ).commands);
    sent.extend(handle_event(
        &mut app,
        Event::Decrypted {
            chat,
            msg: incoming("b"),
        },
    ).commands);
    assert_eq!(app.unread.get(&chat), Some(&2));
    let mut seen = 0;
    for cmd in sent {
        match cmd {
            Command::SetUnread { peer: p, count } => {
                assert_eq!(p, peer);
                assert_eq!(count, seen + 1, "count must be the bumped value");
                seen += 1;
            }
            other => panic!("expected SetUnread, got {other:?}"),
        }
    }
    assert_eq!(seen, 2, "one SetUnread per incoming message");
}

#[test]
fn decrypted_when_chat_open_sends_no_set_unread() {
    let mut app = test_app();
    let mut sent: Vec<Command> = Vec::new();
    let peer = [0x11; 32];
    let chat = ChatId::Peer(peer);
    app.open_chat = Some(chat);
    sent.extend(handle_event(
        &mut app,
        Event::Decrypted {
            chat,
            msg: incoming("hi"),
        },
    ).commands);
    assert!(sent.is_empty(), "open chat sends no SetUnread");
}

#[test]
fn opening_chat_sends_set_unread_zero() {
    let mut app = test_app();
    let mut sent: Vec<Command> = Vec::new();
    let peer = [0x11; 32];
    let chat = ChatId::Peer(peer);
    app.unread.insert(chat, 4);
    sent.extend(update(&mut app, Message::OpenChat(peer)).commands);
    let mut got_zero = false;
    for cmd in sent {
        if let Command::SetUnread { peer: p, count: 0 } = cmd {
            assert_eq!(p, peer);
            got_zero = true;
        }
    }
    assert!(got_zero, "OpenChat must emit SetUnread with count 0");
}

#[test]
fn opening_group_sends_set_unread_zero_with_group_key() {
    let mut app = test_app();
    let mut sent: Vec<Command> = Vec::new();
    let gid = [0x22; 32];
    let chat = ChatId::Group(gid);
    app.unread.insert(chat, 2);
    sent.extend(update(&mut app, Message::OpenGroup(gid)).commands);
    let mut got_zero = false;
    for cmd in sent {
        if let Command::SetUnread { peer: p, count: 0 } = cmd {
            assert_eq!(p, gid, "group chat keys by the group id");
            got_zero = true;
        }
    }
    assert!(got_zero, "OpenGroup must emit SetUnread with count 0");
}

#[test]
fn unread_loaded_hydrates_map_peer_vs_group() {
    let mut app = test_app();
    app.groups.push(GroupView {
        id: [0x33; 32],
        name: "team".into(),
        members: 3,
    });
    let _ = handle_event(
        &mut app,
        Event::UnreadLoaded(vec![
            ([0x11; 32], 2),
            ([0x33; 32], 5),
            ([0x44; 32], 0),
        ]),
    );
    assert_eq!(app.unread.get(&ChatId::Peer([0x11; 32])), Some(&2));
    assert_eq!(app.unread.get(&ChatId::Group([0x33; 32])), Some(&5));
    assert!(!app.unread.contains(&ChatId::Peer([0x44; 32])));
}

#[test]
fn unread_loaded_replaces_prior_entries() {
    let mut app = test_app();
    app.unread.insert(ChatId::Peer([0xAA; 32]), 99);
    let _ = handle_event(&mut app, Event::UnreadLoaded(vec![([0x11; 32], 1)]));
    assert!(
        !app.unread.contains(&ChatId::Peer([0xAA; 32])),
        "stale dropped"
    );
    assert_eq!(app.unread.get(&ChatId::Peer([0x11; 32])), Some(&1));
}

#[test]
fn back_clears_open_chat_and_returns_to_contact_list() {
    let mut app = test_app();
    let peer = [0x11; 32];
    let chat = ChatId::Peer(peer);
    let _ = update(&mut app, Message::OpenChat(peer));
    assert_eq!(app.open_chat, Some(chat));
    let _ = update(&mut app, Message::Back);
    assert_eq!(app.view, View::ContactList);
    assert!(app.open_chat.is_none(), "open_chat cleared on Back");
}

#[test]
fn opening_group_sets_open_chat_to_group() {
    let mut app = test_app();
    let gid = [0x22; 32];
    let chat = ChatId::Group(gid);
    let _ = update(&mut app, Message::OpenGroup(gid));
    assert_eq!(app.open_chat, Some(chat));
    assert_eq!(app.view, View::GroupChat(gid));
}

#[test]
fn opening_settings_keeps_open_chat_unchanged() {
    let mut app = test_app();
    let peer = [0x11; 32];
    let chat = ChatId::Peer(peer);
    let _ = update(&mut app, Message::OpenChat(peer));
    let _ = update(&mut app, Message::OpenSettings);
    assert_eq!(app.view, View::Settings);
    assert_eq!(
        app.open_chat,
        Some(chat),
        "settings does not clear open_chat"
    );
}

#[test]
fn group_events_upsert_without_duplicate() {
    let mut app = test_app();
    let gid = [0x22; 32];
    let _ = handle_event(
        &mut app,
        Event::GroupCreated {
            group: gid,
            name: "team".into(),
            members: 2,
        },
    );
    assert_eq!(app.groups.len(), 1);
    assert_eq!(app.groups[0].name, "team");
    assert_eq!(app.groups[0].members, 2);
    assert_eq!(app.view, View::GroupChat(gid));
    let _ = handle_event(
        &mut app,
        Event::GroupInvited {
            group: gid,
            name: "team v2".into(),
            members: 3,
        },
    );
    assert_eq!(app.groups.len(), 1);
    assert_eq!(app.groups[0].name, "team v2");
    assert_eq!(app.groups[0].members, 3);
}

#[test]
fn groups_loaded_hydrates_without_duplicate() {
    let mut app = test_app();
    let _ = handle_event(
        &mut app,
        Event::GroupsLoaded(vec![
            GroupView {
                id: [0x22; 32],
                name: "team".into(),
                members: 2,
            },
            GroupView {
                id: [0x33; 32],
                name: "squad".into(),
                members: 4,
            },
        ]),
    );
    assert_eq!(app.groups.len(), 2);
    let _ = handle_event(
        &mut app,
        Event::GroupInvited {
            group: [0x22; 32],
            name: "team v2".into(),
            members: 5,
        },
    );
    assert_eq!(app.groups.len(), 2);
    assert_eq!(
        app.groups.iter().find(|g| g.id == [0x22; 32]).unwrap().name,
        "team v2"
    );
    assert_eq!(
        app.groups
            .iter()
            .find(|g| g.id == [0x22; 32])
            .unwrap()
            .members,
        5
    );
}

#[test]
fn verify_fingerprint_marks_cached_contact() {
    let mut app = test_app();
    let peer = [0x33; 32];
    app.contacts.push(ContactView {
        identity_pub: peer,
        nickname: "bob".into(),
        fingerprint: [0u8; 32],
        verified: false,
    });
    let _ = update(&mut app, Message::VerifyFingerprint(peer));
    assert!(app.contacts[0].verified);
}

#[test]
fn change_server_rejects_bad_address() {
    let mut app = test_app();
    app.server_input = "not an addr".into();
    let _ = update(&mut app, Message::ChangeServer(None));
    assert!(
        app.error
            .as_deref()
            .unwrap_or("")
            .contains("invalid server")
    );
}

#[test]
fn logout_clears_groups_and_unread() {
    let mut app = test_app();
    app.groups.push(GroupView {
        id: [0x22; 32],
        name: "team".into(),
        members: 2,
    });
    app.unread.insert(ChatId::Peer([0x11; 32]), 2);
    app.search_query = "bob".into();
    let _ = update(&mut app, Message::Logout);
    assert!(app.groups.is_empty());
    assert!(app.unread.len() == 0);
    assert!(
        app.search_query.is_empty(),
        "search query cleared on logout"
    );
    assert_eq!(app.view, View::Login);
    assert!(app.identity_pub.is_none());
    assert!(app.identity_fingerprint.is_none());
}

#[test]
fn search_changed_updates_query() {
    let mut app = test_app();
    let _ = update(&mut app, Message::SearchChanged("alice".into()));
    assert_eq!(app.search_query, "alice");
}

#[test]
fn optimistic_send_then_sent_flips_status() {
    let mut app = test_app();
    let peer = [0x11; 32];
    let chat = ChatId::Peer(peer);
    app.optimistic_send(chat, "hi".into(), 7);
    assert_eq!(app.threads.get(&chat).unwrap()[0].status, Status::Sending);
    let _ = handle_event(
        &mut app,
        Event::Sent {
            chat,
            local_id: 7,
            msg: MessageView {
                local_id: 7,
                text: "hi".into(),
                dir: Direction::Out,
                timestamp: 0,
                status: Status::Sent,
                sender: None,
            },
        },
    );
    assert_eq!(app.threads.get(&chat).unwrap()[0].status, Status::Sent);
}

#[test]
fn replenish_count_change_updates_field() {
    let mut app = test_app();
    let _ = update(&mut app, Message::ReplenishCountChanged("42".into()));
    assert_eq!(app.replenish_count, "42");
}

#[test]
fn replenish_rejects_non_positive_count() {
    let mut app = test_app();
    app.replenish_count = "0".into();
    let _ = update(&mut app, Message::ReplenishOneTimePrekeys);
    assert!(
        app.error
            .as_deref()
            .unwrap_or("")
            .contains("positive number")
    );
    app.replenish_count = "lots".into();
    let _ = update(&mut app, Message::ReplenishOneTimePrekeys);
    assert!(
        app.error
            .as_deref()
            .unwrap_or("")
            .contains("positive number")
    );
}

#[test]
fn ready_event_stores_identity_fingerprint() {
    let mut app = test_app();
    let pub_ = [0x11; 32];
    let fp = [0xAB; 32];
    let _ = handle_event(
        &mut app,
        Event::Ready {
            identity_pub: pub_,
            identity_fingerprint: fp,
        },
    );
    assert_eq!(app.identity_pub, Some(pub_));
    assert_eq!(app.identity_fingerprint, Some(fp));
    assert_eq!(app.view, View::ContactList);
}

#[test]
fn total_unread_sums_across_peers_and_groups() {
    let mut app = test_app();
    assert_eq!(app.total_unread(), 0, "empty unread → 0");
    app.unread.insert(ChatId::Peer([0x11; 32]), 2);
    app.unread.insert(ChatId::Peer([0x22; 32]), 3);
    app.unread.insert(ChatId::Group([0x33; 32]), 5);
    assert_eq!(app.total_unread(), 10, "2 + 3 + 5 across peer + group");
}

#[test]
fn total_unread_drops_to_zero_when_chats_opened() {
    let mut app = test_app();
    app.unread.insert(ChatId::Peer([0x11; 32]), 4);
    app.unread.insert(ChatId::Group([0x22; 32]), 1);
    assert_eq!(app.total_unread(), 5);
    let _ = update(&mut app, Message::OpenChat([0x11; 32]));
    assert_eq!(app.total_unread(), 1, "opened peer's unread cleared");
}

#[test]
fn total_unread_zero_after_logout() {
    let mut app = test_app();
    app.unread.insert(ChatId::Peer([0x11; 32]), 7);
    assert_eq!(app.total_unread(), 7);
    let _ = update(&mut app, Message::Logout);
    assert_eq!(app.total_unread(), 0, "logout clears unread → total 0");
}

fn row_with_id(id: u64, text: &str) -> MessageView {
    MessageView {
        local_id: id,
        text: text.into(),
        dir: Direction::In,
        timestamp: 0,
        status: Status::Delivered,
        sender: None,
    }
}

#[test]
fn history_loaded_records_cursor_and_has_more() {
    let mut app = test_app();
    let chat = ChatId::Peer([0x11; 32]);
    let msgs = vec![
        row_with_id(5, "m5"),
        row_with_id(6, "m6"),
        row_with_id(7, "m7"),
    ];
    let _ = handle_event(
        &mut app,
        Event::HistoryLoaded {
            chat,
            msgs: msgs.clone(),
            has_more: true,
        },
    );
    assert_eq!(app.oldest_loaded(&chat), Some(5), "cursor = smallest id");
    assert!(
        app.can_load_older(&chat),
        "has_more + not loading → can fetch"
    );
    assert_eq!(
        app.threads.get(&chat).map(|t| t.len()),
        Some(3),
        "page cached",
    );
}

#[test]
fn history_loaded_has_more_false_blocks_load_older() {
    let mut app = test_app();
    let chat = ChatId::Group([0x22; 32]);
    let _ = handle_event(
        &mut app,
        Event::HistoryLoaded {
            chat,
            msgs: vec![row_with_id(1, "only")],
            has_more: false,
        },
    );
    assert_eq!(app.oldest_loaded(&chat), Some(1));
    assert!(
        !app.can_load_older(&chat),
        "no older history → cannot load older",
    );
}

#[test]
fn chat_scrolled_at_top_fires_load_older_only_when_able() {
    let mut app = test_app();
    let mut sent: Vec<Command> = Vec::new();
    let chat = ChatId::Peer([0x44; 32]);
    app.open_chat = Some(chat);
    sent.extend(handle_event(
        &mut app,
        Event::HistoryLoaded {
            chat,
            msgs: vec![row_with_id(10, "m10"), row_with_id(11, "m11")],
            has_more: true,
        },
    ).commands);

    sent.extend(update(
        &mut app,
        Message::ChatScrolled {
            chat,
            at_top: true,
            offset: 0.0f32.to_bits(),
        },
    ).commands);
    let cmd = sent.pop().expect("LoadOlder command sent");
    match cmd {
        Command::LoadOlder { peer, before_id } => {
            assert_eq!(peer, [0x44; 32]);
            assert_eq!(before_id, 10, "before_id = current cursor");
        }
        other => panic!("expected LoadOlder, got {other:?}"),
    }
    assert!(app.loading_older.contains(&chat), "in-flight marker set",);

    sent.extend(update(
        &mut app,
        Message::ChatScrolled {
            chat,
            at_top: true,
            offset: 0.0f32.to_bits(),
        },
    ).commands);
    assert!(
        sent.is_empty(),
        "no second LoadOlder while one is in flight",
    );

    sent.extend(update(
        &mut app,
        Message::ChatScrolled {
            chat,
            at_top: false,
            offset: 200.0f32.to_bits(),
        },
    ).commands);
    assert!(sent.is_empty(), "not-at-top fires nothing");
    assert_eq!(app.scroll_offset.get(&chat), Some(&200.0f32.to_bits()));
}

#[test]
fn older_history_loaded_prepends_and_clears_inflight() {
    let mut app = test_app();
    let chat = ChatId::Peer([0x55; 32]);
    let _ = handle_event(
        &mut app,
        Event::HistoryLoaded {
            chat,
            msgs: vec![row_with_id(5, "m5"), row_with_id(7, "m7")],
            has_more: true,
        },
    );
    app.loading_older.insert(chat);

    let older = vec![row_with_id(1, "m1"), row_with_id(2, "m2")];
    let _ = handle_event(
        &mut app,
        Event::OlderHistoryLoaded {
            chat,
            msgs: older,
            has_more: false,
        },
    );
    let thread = app.threads.get(&chat).expect("thread cached");
    assert_eq!(
        thread.iter().map(|m| m.local_id).collect::<Vec<_>>(),
        vec![1, 2, 5, 7],
        "older page prepended before cached rows",
    );
    assert_eq!(
        app.oldest_loaded(&chat),
        Some(1),
        "cursor advanced to new min"
    );
    assert!(
        !app.loading_older.contains(&chat),
        "in-flight marker cleared",
    );
    assert!(!app.can_load_older(&chat), "has_more false → stop paging");
}

#[test]
fn older_history_loaded_empty_still_clears_inflight() {
    let mut app = test_app();
    let chat = ChatId::Group([0x66; 32]);
    let _ = handle_event(
        &mut app,
        Event::HistoryLoaded {
            chat,
            msgs: vec![row_with_id(3, "m3")],
            has_more: true,
        },
    );
    app.loading_older.insert(chat);
    let _ = handle_event(
        &mut app,
        Event::OlderHistoryLoaded {
            chat,
            msgs: Vec::new(),
            has_more: true,
        },
    );
    assert!(
        !app.loading_older.contains(&chat),
        "empty page still clears in-flight marker",
    );
    assert_eq!(app.oldest_loaded(&chat), Some(3), "cursor unchanged");
    assert!(app.can_load_older(&chat), "still able to retry");
}

#[test]
fn chat_scrolled_records_offset_for_restore() {
    let mut app = test_app();
    let chat = ChatId::Peer([0x88; 32]);
    let _ = update(
        &mut app,
        Message::ChatScrolled {
            chat,
            at_top: false,
            offset: 137.5f32.to_bits(),
        },
    );
    assert_eq!(app.scroll_offset.get(&chat), Some(&137.5f32.to_bits()));
    let _ = update(
        &mut app,
        Message::ChatScrolled {
            chat,
            at_top: false,
            offset: 42.0f32.to_bits(),
        },
    );
    assert_eq!(app.scroll_offset.get(&chat), Some(&42.0f32.to_bits()));
}

#[test]
fn older_history_loaded_restores_scroll_when_chat_open() {
    let mut app = test_app();
    let chat = ChatId::Peer([0x99; 32]);
    app.open_chat = Some(chat);
    let _ = handle_event(
        &mut app,
        Event::HistoryLoaded {
            chat,
            msgs: vec![row_with_id(5, "m5"), row_with_id(6, "m6")],
            has_more: true,
        },
    );
    let _ = update(
        &mut app,
        Message::ChatScrolled {
            chat,
            at_top: true,
            offset: 0.0f32.to_bits(),
        },
    );
    let _ = handle_event(
        &mut app,
        Event::OlderHistoryLoaded {
            chat,
            msgs: vec![
                row_with_id(1, "m1"),
                row_with_id(2, "m2"),
                row_with_id(3, "m3"),
            ],
            has_more: false,
        },
    );
    let thread = app.threads.get(&chat).expect("thread cached");
    assert_eq!(
        thread.iter().map(|m| m.local_id).collect::<Vec<_>>(),
        vec![1, 2, 3, 5, 6],
        "older page prepended",
    );
    assert_eq!(app.scroll_offset.get(&chat), Some(&0.0f32.to_bits()));
}

#[test]
fn older_history_loaded_skips_restore_when_chat_closed() {
    let mut app = test_app();
    let chat = ChatId::Group([0xAA; 32]);
    let _ = handle_event(
        &mut app,
        Event::HistoryLoaded {
            chat,
            msgs: vec![row_with_id(7, "m7")],
            has_more: true,
        },
    );
    app.loading_older.insert(chat);
    let _ = handle_event(
        &mut app,
        Event::OlderHistoryLoaded {
            chat,
            msgs: vec![row_with_id(1, "m1")],
            has_more: false,
        },
    );
    assert_eq!(
        app.threads.get(&chat).map(|t| t.len()),
        Some(2),
        "page prepended even with chat closed",
    );
    assert!(!app.loading_older.contains(&chat), "in-flight cleared");
}

#[test]
fn logout_clears_scroll_offset() {
    let mut app = test_app();
    let chat = ChatId::Peer([0xBB; 32]);
    let _ = update(
        &mut app,
        Message::ChatScrolled {
            chat,
            at_top: false,
            offset: 99.0f32.to_bits(),
        },
    );
    assert_eq!(app.scroll_offset.get(&chat), Some(&99.0f32.to_bits()));
    let _ = update(&mut app, Message::Logout);
    assert!(app.scroll_offset.len() == 0, "logout clears scroll offsets");
}

#[test]
fn logout_clears_pagination_state() {
    let mut app = test_app();
    let chat = ChatId::Peer([0x77; 32]);
    let _ = handle_event(
        &mut app,
        Event::HistoryLoaded {
            chat,
            msgs: vec![row_with_id(9, "m9")],
            has_more: true,
        },
    );
    app.loading_older.insert(chat);
    assert_eq!(app.oldest_loaded(&chat), Some(9));
    let _ = update(&mut app, Message::Logout);
    assert!(
        app.oldest_loaded.len() == 0
            && app.has_more_history.len() == 0
            && app.loading_older.len() == 0,
        "logout clears all pagination state",
    );
}

fn contact(key: u8, nickname: &str) -> ContactView {
    ContactView {
        identity_pub: [key; 32],
        nickname: nickname.into(),
        fingerprint: [0u8; 32],
        verified: false,
    }
}

#[test]
fn the_first_screen_depends_on_what_is_remembered() {
    let fresh = Config::default();
    let known = Config {
        server_addr: "127.0.0.1:7000".into(),
        last_identity_pub: "ab".repeat(32),
    };
    assert_eq!(initial_view(&fresh, false), View::Setup);
    assert_eq!(initial_view(&fresh, true), View::Setup);
    assert_eq!(initial_view(&known, false), View::Setup);
    assert_eq!(initial_view(&known, true), View::Login);
}

#[test]
fn a_remembered_address_is_used_to_connect() {
    let mut app = UmApp::new(
        View::Login,
        Config { server_addr: "10.0.0.1:9".into(), last_identity_pub: String::new() },
        Some("10.0.0.1:9".into()),
    );
    assert_eq!(app.server_text(), "10.0.0.1:9");
    let out = handle_event(
        &mut app,
        Event::Ready { identity_pub: [1; 32], identity_fingerprint: [2; 32] },
    );
    assert!(matches!(&out.commands[..], [Command::Connect { addr }] if addr == "10.0.0.1:9"));
    let mut app = UmApp::new(View::Login, Config::default(), None);
    let out = handle_event(
        &mut app,
        Event::Ready { identity_pub: [1; 32], identity_fingerprint: [2; 32] },
    );
    assert!(matches!(&out.commands[..], [Command::Connect { addr }] if addr == "127.0.0.1:7000"));
}

#[test]
fn setting_up_checks_the_passphrase() {
    let mut app = test_app();
    let _ = update(&mut app, Message::PassphraseChanged("seven77".into()));
    let _ = update(&mut app, Message::PassphraseConfirmChanged("seven77".into()));
    let out = update(&mut app, Message::SetupSubmit);
    assert!(out.commands.is_empty());
    assert_eq!(app.error.as_deref(), Some("passphrase must be at least 8 characters"));

    let _ = update(&mut app, Message::PassphraseChanged("\u{e9}\u{e9}\u{e9}\u{e9}".into()));
    let out = update(&mut app, Message::SetupSubmit);
    assert!(out.commands.is_empty(), "four characters in eight bytes are too few");

    let _ = update(&mut app, Message::PassphraseChanged("eight888".into()));
    let out = update(&mut app, Message::SetupSubmit);
    assert!(out.commands.is_empty());
    assert_eq!(app.error.as_deref(), Some("passphrases do not match"));

    let _ = update(&mut app, Message::PassphraseConfirmChanged("eight888".into()));
    let out = update(&mut app, Message::SetupSubmit);
    assert!(matches!(
        &out.commands[..],
        [Command::Setup { passphrase, one_time_count: 10 }] if passphrase == "eight888"
    ));
    assert_eq!(app.error, None);
}

#[test]
fn unlocking_takes_any_passphrase() {
    let mut app = test_app();
    let _ = update(&mut app, Message::PassphraseChanged("x".into()));
    let out = update(&mut app, Message::UnlockSubmit);
    assert!(matches!(
        &out.commands[..],
        [Command::Unlock { passphrase }] if passphrase == "x"
    ));
}

#[test]
fn the_first_message_starts_a_session_and_the_next_does_not() {
    let mut app = test_app();
    let peer = [0x11; 32];
    let _ = update(&mut app, Message::OpenChat(peer));
    let _ = update(&mut app, Message::ComposeChanged("  hi ".into()));
    let out = update(&mut app, Message::SendPressed);
    assert!(matches!(
        &out.commands[..],
        [Command::StartSession { first_message, .. }] if first_message == "hi"
    ));
    assert_eq!(out.effect, Effect::SnapToEnd(ChatId::Peer(peer)));
    assert_eq!(app.compose_input, "");
    let _ = update(&mut app, Message::ComposeChanged("again".into()));
    let out = update(&mut app, Message::SendPressed);
    assert!(matches!(
        &out.commands[..],
        [Command::SendMessage { text, .. }] if text == "again"
    ));
    let thread = app.thread(&ChatId::Peer(peer)).unwrap();
    assert_eq!(thread.len(), 2);
    assert_ne!(thread[0].local_id, thread[1].local_id);
}

#[test]
fn nothing_is_sent_where_nothing_is_typed_or_open() {
    let mut app = test_app();
    let _ = update(&mut app, Message::ComposeChanged("hi".into()));
    let out = update(&mut app, Message::SendPressed);
    assert!(out.commands.is_empty(), "no chat is open");
    let _ = update(&mut app, Message::OpenGroup([0x22; 32]));
    let _ = update(&mut app, Message::ComposeChanged(" \t\n".into()));
    let out = update(&mut app, Message::SendPressed);
    assert!(out.commands.is_empty(), "nothing is typed");
    let _ = update(&mut app, Message::ComposeChanged("hi".into()));
    let out = update(&mut app, Message::SendPressed);
    assert!(matches!(&out.commands[..], [Command::SendGroupMessage { .. }]));
}

#[test]
fn a_failed_send_is_marked_and_shown() {
    let mut app = test_app();
    let chat = ChatId::Peer([0x11; 32]);
    app.optimistic_send(chat, "hi".into(), 7);
    let _ = handle_event(
        &mut app,
        Event::SendFailed { chat, local_id: 7, reason: "no session".into() },
    );
    assert_eq!(app.threads.get(&chat).unwrap()[0].status, Status::Failed);
    assert_eq!(app.error.as_deref(), Some("no session"));
    let _ = update(&mut app, Message::DismissError);
    assert_eq!(app.error, None);
}

#[test]
fn a_status_reaches_outgoing_messages_with_the_id() {
    let mut app = test_app();
    let chat = ChatId::Peer([0x11; 32]);
    let row = |local_id: u64, dir: Direction, status: Status| MessageView {
        local_id,
        text: "stored".into(),
        dir,
        timestamp: 60,
        status,
        sender: None,
    };
    let _ = handle_event(
        &mut app,
        Event::HistoryLoaded {
            chat,
            msgs: vec![
                row(7, Direction::In, Status::Delivered),
                row(6, Direction::Out, Status::Failed),
            ],
            has_more: false,
        },
    );
    app.optimistic_send(chat, "hi".into(), 7);
    let statuses = |app: &UmApp| -> Vec<Status> {
        app.threads.get(&chat).unwrap().iter().map(|m| m.status).collect()
    };
    let _ = handle_event(
        &mut app,
        Event::SendFailed { chat, local_id: 7, reason: "no session".into() },
    );
    assert_eq!(statuses(&app), vec![Status::Delivered, Status::Failed, Status::Failed]);
    // A message that failed and went out after all is sent.
    let _ = handle_event(
        &mut app,
        Event::Sent { chat, local_id: 7, msg: row(7, Direction::Out, Status::Sent) },
    );
    assert_eq!(statuses(&app), vec![Status::Delivered, Status::Failed, Status::Sent]);
}

#[test]
fn a_lost_connection_is_shown_only_while_signed_in() {
    let mut app = test_app();
    let _ = handle_event(&mut app, Event::Connected);
    assert!(app.connected);
    let _ = handle_event(&mut app, Event::Disconnected { reason: "gone".into() });
    assert!(!app.connected);
    assert_eq!(app.error.as_deref(), Some("disconnected: gone"));
    let mut app = UmApp::new(View::Login, Config::default(), None);
    let _ = handle_event(&mut app, Event::Disconnected { reason: "logged out".into() });
    assert_eq!(app.error, None);
}

#[test]
fn a_contact_is_added_by_its_key() {
    let mut app = test_app();
    let _ = update(&mut app, Message::AddContactNickChanged("bob".into()));
    let _ = update(&mut app, Message::AddContactHexChanged("abc".into()));
    let out = update(&mut app, Message::AddContact);
    assert!(out.commands.is_empty());
    assert!(app.error.is_some());
    let _ = update(&mut app, Message::AddContactHexChanged("Ab".repeat(32)));
    let out = update(&mut app, Message::AddContact);
    assert!(matches!(
        &out.commands[..],
        [Command::AddContact { identity_pub, nickname }]
            if *identity_pub == [0xab; 32] && nickname == "bob"
    ));
    assert_eq!(app.error, None);
    assert_eq!(app.add_contact_hex, "");
}

#[test]
fn a_group_needs_a_name_and_members() {
    let mut app = test_app();
    let _ = update(&mut app, Message::NewGroupNameChanged("  ".into()));
    let out = update(&mut app, Message::CreateGroupPressed);
    assert!(out.commands.is_empty());
    assert_eq!(app.error.as_deref(), Some("group name is empty"));
    let _ = update(&mut app, Message::NewGroupNameChanged(" team ".into()));
    let out = update(&mut app, Message::CreateGroupPressed);
    assert!(out.commands.is_empty());
    assert_eq!(app.error.as_deref(), Some("add contacts before creating a group"));
    let _ = handle_event(
        &mut app,
        Event::ContactsLoaded(vec![contact(1, "a"), contact(2, "b")]),
    );
    let out = update(&mut app, Message::CreateGroupPressed);
    assert!(matches!(
        &out.commands[..],
        [Command::CreateGroup { name, members }]
            if name == "team" && *members == vec![[1u8; 32], [2u8; 32]]
    ));
}

#[test]
fn settings_ask_the_bridge() {
    let mut app = test_app();
    let out = update(&mut app, Message::ChangeServer(Some("1.2.3.4:5".into())));
    assert!(matches!(
        &out.commands[..],
        [Command::ChangeServer { addr }] if addr == "1.2.3.4:5"
    ));
    let out = update(&mut app, Message::RotateSignedPrekey);
    assert!(matches!(&out.commands[..], [Command::RotateSignedPrekey]));
    app.replenish_count = " 12 ".into();
    let out = update(&mut app, Message::ReplenishOneTimePrekeys);
    assert!(matches!(
        &out.commands[..],
        [Command::ReplenishOneTimePrekeys { count: 12 }]
    ));
    let out = update(&mut app, Message::Logout);
    assert!(matches!(&out.commands[..], [Command::Logout]));
    let out = update(&mut app, Message::Quit);
    assert_eq!(out.effect, Effect::Quit);
}

#[test]
fn an_older_page_asks_to_keep_the_place_on_screen() {
    let mut app = test_app();
    let chat = ChatId::Peer([0x99; 32]);
    app.open_chat = Some(chat);
    let _ = update(
        &mut app,
        Message::ChatScrolled { chat, at_top: false, offset: 12.5f32.to_bits() },
    );
    let out = handle_event(
        &mut app,
        Event::OlderHistoryLoaded {
            chat,
            msgs: vec![row_with_id(1, "m1"), row_with_id(2, "m2")],
            has_more: false,
        },
    );
    assert_eq!(
        out.effect,
        Effect::RestoreScroll { chat, saved: 12.5f32.to_bits(), rows: 2 }
    );
}

#[test]
fn a_reloaded_thread_starts_its_pages_afresh() {
    let mut app = test_app();
    let chat = ChatId::Peer([0x99; 32]);
    for ids in [[1u64, 2], [8, 9]] {
        let msgs = ids.iter().map(|i| row_with_id(*i, "m")).collect();
        let _ = handle_event(&mut app, Event::HistoryLoaded { chat, msgs, has_more: true });
    }
    assert_eq!(app.oldest_loaded(&chat), Some(8));
}

#[test]
fn messages_of_other_chats_leave_a_thread_alone() {
    let mut app = test_app();
    let open = ChatId::Peer([0x01; 32]);
    let other = ChatId::Group([0x01; 32]);
    app.open_chat = Some(open);
    let out = handle_event(&mut app, Event::Decrypted { chat: open, msg: incoming("a") });
    assert_eq!(out.effect, Effect::SnapToEnd(open));
    let _ = handle_event(&mut app, Event::Decrypted { chat: other, msg: incoming("b") });
    assert_eq!(app.thread(&open).unwrap().len(), 1);
    assert!(app.thread(&other).is_none());
    assert_eq!(app.unread.get(&other), Some(&1));
    assert!(app.is_open(&open));
    assert!(!app.is_open(&other));
}
