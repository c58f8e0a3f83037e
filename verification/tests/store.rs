use untitled_messenger::client::error::ClientError;
use untitled_messenger::client::store::{
    check_vacant, contact_of_row, derived_key, extend_thread, fetch_count, group_of_row,
    member_of_row, open, seal, unread_counts, unread_write, MessagePage, RawMessageRow, StoreKey,
    StoredMessage, StoredMessageRow, UnreadWrite,
};

/// Rows of a message table: the chat, and the row.
struct Table {
    key: StoreKey,
    rows: Vec<([u8; 32], RawMessageRow)>,
}

impl Table {
    fn new() -> Table {
        Table { key: StoreKey::derive_new("pw").unwrap(), rows: Vec::new() }
    }

    fn put(&mut self, peer: &[u8; 32], direction: i64, text: &str, time: i64, sender: Option<Vec<u8>>) -> i64 {
        let msg = StoredMessage { text: text.into(), status: 2 };
        let sealed = self.key.seal_message(peer, direction, time, &msg).unwrap();
        let id = self.rows.len() as i64 + 1;
        self.rows.push((*peer, RawMessageRow { id, direction, sealed, timestamp: time, sender }));
        id
    }

    /// The newest rows of a chat, as many as are asked for.
    fn newest(&self, peer: &[u8; 32], before: Option<i64>, count: i64) -> Vec<RawMessageRow> {
        let mut out = Vec::new();
        for (p, r) in self.rows.iter().rev() {
            let older = before.map_or(true, |b| r.id < b);
            if p == peer && older && (out.len() as i64) < count {
                out.push(RawMessageRow {
                    id: r.id,
                    direction: r.direction,
                    sealed: r.sealed.clone(),
                    timestamp: r.timestamp,
                    sender: r.sender.clone(),
                });
            }
        }
        out
    }

    fn messages_page(&self, peer: &[u8; 32], before: Option<i64>, limit: usize) -> MessagePage {
        let rows = self.newest(peer, before, fetch_count(limit));
        self.key.messages_page(peer, rows, limit).unwrap()
    }

    fn messages(&self, peer: &[u8; 32], limit: usize) -> Vec<StoredMessageRow> {
        let mut thread = Vec::new();
        let mut before = None;
        loop {
            let page = self.messages_page(peer, before, limit);
            let (longer, next) = extend_thread(thread, page);
            thread = longer;
            match next {
                Some(id) => before = Some(id),
                None => return thread,
            }
        }
    }
}

fn seed_thread(table: &mut Table, peer: &[u8; 32], n: u32) -> Vec<i64> {
    let mut ids = Vec::new();
    for i in 0..n {
        let sender = if i % 2 == 1 { Some(peer.to_vec()) } else { None };
        ids.push(table.put(
            peer,
            (i % 2) as i64,
            &format!("m{i}"),
            1_700_000_000 + i as i64,
            sender,
        ));
    }
    ids
}

fn texts(rows: &[StoredMessageRow]) -> Vec<String> {
    rows.iter().map(|r| r.msg.text.clone()).collect()
}

// ---- Keys and sealed values --------------------------------------------------------------------

#[test]
fn sealed_blob_tamper_fails_to_open() {
    let key = [0xAB; 32];
    let sealed = seal(&key, b"aad", b"plaintext").unwrap();
    let mut tampered = sealed;
    let last = tampered.len() - 1;
    tampered[last] ^= 0xFF;
    assert!(open(&key, b"aad", &tampered).is_err());
}

#[test]
fn a_sealed_blob_opens_only_for_what_it_is_bound_to() {
    let key = [0xAB; 32];
    let sealed = seal(&key, b"aad", b"plaintext").unwrap();
    assert_eq!(sealed.len(), 24 + 9 + 16);
    assert_eq!(open(&key, b"aad", &sealed).unwrap(), b"plaintext");
    assert!(open(&key, b"other", &sealed).is_err());
    assert!(open(&[0xAC; 32], b"aad", &sealed).is_err());
    assert!(matches!(
        open(&key, b"aad", &sealed[..23]),
        Err(ClientError::Store(s)) if s == "sealed blob too short"
    ));
    assert!(matches!(
        open(&key, b"aad", &sealed[..24]),
        Err(ClientError::Store(s)) if s == "open failed (wrong passphrase or corrupt)"
    ));
}

#[test]
fn put_get_round_trips_typed_value() {
    let store = StoreKey::derive_new("correct horse battery staple").unwrap();
    let bytes = postcard::to_allocvec(&vec![1u8, 2, 3, 4]).unwrap();
    let blob = store.seal_value("identity", &bytes).unwrap();
    let got: Vec<u8> = postcard::from_bytes(&store.open_value("identity", &blob).unwrap()).unwrap();
    assert_eq!(got, vec![1, 2, 3, 4]);
    assert!(store.open_value("other", &blob).is_err());
}

#[test]
fn reopen_with_correct_passphrase_round_trips() {
    let store = StoreKey::derive_new("hunter2").unwrap();
    let blob = store.seal_value("ratchet", b"secret state").unwrap();
    let again =
        StoreKey::unlock(Some(store.salt().to_vec()), Some(store.canary()), "hunter2").unwrap();
    assert_eq!(again.open_value("ratchet", &blob).unwrap(), b"secret state");
}

#[test]
fn reopen_with_wrong_passphrase_fails() {
    let store = StoreKey::derive_new("right").unwrap();
    let res = StoreKey::unlock(Some(store.salt().to_vec()), Some(store.canary()), "wrong");
    assert!(matches!(res, Err(ClientError::Store(s)) if s == "wrong passphrase"));
}

#[test]
fn a_derived_key_is_taken_and_a_failed_derivation_told() {
    assert_eq!(derived_key(Ok([7; 32])).unwrap(), [7; 32]);
    assert!(matches!(
        derived_key(Err("out of memory".into())),
        Err(ClientError::Store(s)) if s == "argon2 derive: out of memory"
    ));
}

#[test]
fn a_key_is_held_against_the_canary() {
    let key = StoreKey::derive_with("pw", &[1; 16]).unwrap();
    let canary = key.canary();
    let key = key.checked_by(&Some(canary.clone())).unwrap();
    let key = key.checked_by(&None).unwrap();
    assert_eq!(key.salt(), [1; 16]);
    let other = StoreKey::derive_with("other", &[1; 16]).unwrap();
    assert!(matches!(
        other.checked_by(&Some(canary)),
        Err(ClientError::Store(s)) if s == "wrong passphrase"
    ));
}

#[test]
fn a_store_without_a_salt_or_with_a_cut_one_does_not_open() {
    assert!(matches!(
        StoreKey::unlock(None, None, "pw"),
        Err(ClientError::Store(s)) if s == "no store salt (not initialized)"
    ));
    assert!(matches!(
        StoreKey::unlock(Some(vec![1; 15]), None, "pw"),
        Err(ClientError::Store(s)) if s == "corrupt salt"
    ));
}

#[test]
fn create_fails_if_file_already_has_data() {
    assert!(check_vacant(false, 0).is_ok());
    assert!(check_vacant(true, 0).is_ok());
    let res = check_vacant(true, 1);
    assert!(matches!(res, Err(ClientError::Store(s)) if s == "store already exists"));
}

// ---- Pages of messages ------------------------------------------------------------------------------

#[test]
fn messages_page_newest_returns_last_n_oldest_first() {
    let peer = [0x44; 32];
    let mut store = Table::new();
    seed_thread(&mut store, &peer, 5);
    let page = store.messages_page(&peer, None, 3);
    assert!(page.has_more, "older rows exist → has_more true");
    assert_eq!(page.rows.len(), 3);
    assert_eq!(
        texts(&page.rows),
        vec!["m2", "m3", "m4"],
        "newest page is oldest-first within the slice"
    );
}

#[test]
fn messages_page_before_id_pages_older() {
    let peer = [0x55; 32];
    let mut store = Table::new();
    seed_thread(&mut store, &peer, 5);
    let first = store.messages_page(&peer, None, 3);
    let oldest_in_page = first.rows.first().unwrap().id;
    let second = store.messages_page(&peer, Some(oldest_in_page), 3);
    assert!(!second.has_more);
    assert_eq!(second.rows.len(), 2);
    assert_eq!(texts(&second.rows), vec!["m0", "m1"]);
}

#[test]
fn messages_page_union_equals_full_thread() {
    let peer = [0x66; 32];
    let mut store = Table::new();
    seed_thread(&mut store, &peer, 7);
    let full = store.messages(&peer, 100);
    let paged = store.messages(&peer, 3);
    assert_eq!(paged.len(), full.len(), "no rows lost or duplicated");
    assert_eq!(texts(&paged), texts(&full));
    let ids: Vec<i64> = paged.iter().map(|r| r.id).collect();
    assert_eq!(ids, vec![1, 2, 3, 4, 5, 6, 7]);
}

#[test]
fn messages_page_isolates_peer() {
    let a = [0x77; 32];
    let b = [0x88; 32];
    let mut store = Table::new();
    seed_thread(&mut store, &a, 3);
    seed_thread(&mut store, &b, 3);
    let page = store.messages_page(&a, None, 10);
    assert_eq!(page.rows.len(), 3, "only peer a's rows");
    assert!(!page.has_more);
    let stray = store.newest(&b, None, 10);
    let page = store.key.messages_page(&a, stray, 10).unwrap();
    assert!(page.rows.is_empty(), "a row is bound to its chat");
}

#[test]
fn messages_page_empty_thread_returns_empty_no_more() {
    let peer = [0x99; 32];
    let store = Table::new();
    let page = store.messages_page(&peer, None, 20);
    assert!(page.rows.is_empty());
    assert!(!page.has_more, "empty thread → no older history");
}

#[test]
fn messages_page_limit_zero_returns_empty_but_reports_more() {
    let peer = [0xAA; 32];
    let mut store = Table::new();
    seed_thread(&mut store, &peer, 2);
    let page = store.messages_page(&peer, None, 0);
    assert!(page.rows.is_empty(), "limit 0 → no display rows");
    assert!(page.has_more, "probe row proves history exists");
}

#[test]
fn messages_page_preserves_sender_metadata() {
    let peer = [0xBB; 32];
    let author = [0xCC; 32];
    let mut store = Table::new();
    store.put(&peer, 1, "hi", 1_700_000_000, Some(author.to_vec()));
    let page = store.messages_page(&peer, None, 10);
    assert_eq!(page.rows.len(), 1);
    assert_eq!(page.rows[0].sender, Some(author), "sender preserved in page");
    assert_eq!(page.rows[0].direction, 1);
    assert_eq!(page.rows[0].msg.status, 2);
}

#[test]
fn messages_wrapper_assembles_full_thread_oldest_first() {
    let peer = [0xEE; 32];
    let mut store = Table::new();
    let ids = seed_thread(&mut store, &peer, 9);
    let full = store.messages(&peer, 4);
    assert_eq!(full.len(), 9, "wrapper returns every row");
    let got_ids: Vec<i64> = full.iter().map(|r| r.id).collect();
    assert_eq!(got_ids, ids, "oldest-first, insertion order preserved");
    assert_eq!(full[0].msg.text, "m0");
    assert_eq!(full[8].msg.text, "m8");
}

#[test]
fn messages_wrapper_empty_thread_is_empty() {
    let peer = [0xEF; 32];
    let store = Table::new();
    assert!(store.messages(&peer, 4).is_empty());
}

#[test]
fn a_key_derived_again_opens_what_the_first_sealed() {
    let made = StoreKey::derive_new("correct horse").unwrap();
    let sealed = made.seal_value("session", b"kept").unwrap();
    let again = StoreKey::derive_with("correct horse", &made.salt()).unwrap();
    assert_eq!(again.salt(), made.salt());
    assert_eq!(again.open_value("session", &sealed).unwrap(), b"kept");
}

#[test]
fn a_store_opened_again_gives_its_values_back() {
    let made = StoreKey::derive_new("correct horse").unwrap();
    let salt = Some(made.salt().to_vec());
    let canary = Some(made.canary());
    let sealed = made.seal_value("session", b"kept").unwrap();
    for _ in 0..2 {
        assert!(matches!(
            StoreKey::unlock(salt.clone(), canary.clone(), "wrong horse"),
            Err(ClientError::Store(s)) if s == "wrong passphrase"
        ));
    }
    let again = StoreKey::unlock(salt, canary, "correct horse").unwrap();
    assert_eq!(again.open_value("session", &sealed).unwrap(), b"kept");
    assert!(again.open_value("other", &sealed).is_err());
}

#[test]
fn a_broken_row_is_left_out_and_a_broken_sender_is_an_error() {
    let peer = [0x12; 32];
    let mut store = Table::new();
    seed_thread(&mut store, &peer, 3);
    store.rows[1].1.sealed[30] ^= 1;
    let page = store.messages_page(&peer, None, 10);
    assert_eq!(texts(&page.rows), vec!["m0", "m2"]);
    store.rows[0].1.sender = Some(vec![1, 2, 3]);
    let rows = store.newest(&peer, None, 10);
    assert!(matches!(
        store.key.decode_message_rows(&peer, &rows),
        Err(ClientError::Store(s)) if s == "corrupt sender in message row"
    ));
    // The row that only shows that there is more counts too.
    assert_eq!(rows.len(), 3);
    assert!(matches!(
        store.key.messages_page(&peer, rows, 2),
        Err(ClientError::Store(s)) if s == "corrupt sender in message row"
    ));
}

// ---- Other rows ------------------------------------------------------------------------------------------

#[test]
fn rows_become_contacts_groups_and_members() {
    let c = contact_of_row(&[0x11; 32], "alice".into(), &[0x22; 32], 0).unwrap();
    assert_eq!(c.identity_pub, [0x11; 32]);
    assert_eq!(c.nickname, "alice");
    assert!(!c.verified);
    assert!(contact_of_row(&[0x11; 32], "alice".into(), &[0x22; 32], 1).unwrap().verified);
    assert!(contact_of_row(&[0x11; 31], "alice".into(), &[0x22; 32], 0).is_err());
    assert!(contact_of_row(&[0x11; 32], "alice".into(), &[0x22; 31], 0).is_err());
    assert_eq!(group_of_row(&[0xaa; 32], "team".into()).unwrap().name, "team");
    assert!(group_of_row(&[0xaa; 33], "team".into()).is_err());
    assert_eq!(member_of_row(&[0xbb; 32]).unwrap(), [0xbb; 32]);
    assert!(member_of_row(&[]).is_err());
}

#[test]
fn unread_rows_become_counts() {
    let rows = vec![
        (vec![0x01; 32], 3),
        (vec![0x02; 31], 4),
        (vec![0x03; 32], 7),
    ];
    assert_eq!(unread_counts(&rows), vec![([0x01; 32], 3), ([0x03; 32], 7)]);
    assert!(unread_counts(&[]).is_empty());
    assert!(matches!(unread_write(0), UnreadWrite::Delete));
    assert!(matches!(unread_write(10), UnreadWrite::Replace(10)));
}

#[test]
fn one_row_more_than_a_page_is_asked_for() {
    assert_eq!(fetch_count(0), 1);
    assert_eq!(fetch_count(50), 51);
}
