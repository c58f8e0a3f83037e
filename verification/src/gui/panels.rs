//! What each panel of the window shows, as plain text.
use crate::bytes::same32;
use crate::gui::app::{find_group, group_place, thread_of, unread_count, AppState, UmApp};
use crate::gui::types::{
    contacts_model, messages_model, ChatId, ContactModel, ContactView, Direction,
    GroupModel, GroupView, MessageModel, MessageView, Status,
};
use crate::gui::views::{
    comes_before, format_time, hex32, highlight, highlighted_name, in_rank_order, is_found,
    is_ranked, joined, lemma_highlight_keeps_text, lemma_row_found, order_by_rank, pieces_model,
    query_rank_checked, rankable, row_rank, short_hex, short_hex_chars,
    some_text_holds, texts_of, time_text,
};
use crate::hexadecimal::{hex_chars, lemma_hex_chars};
use crate::keymap::map_total;
use crate::text::{
    decimal_chars, lemma_decimal_chars, lemma_trimmed_alone, lowercase_of, number_of, occurs_at,
    push_decimal, trimmed,
};
use vstd::prelude::*;
use vstd::utf8::encode_utf8;

verus! {

// ---- Threads ------------------------------------------------------------------------

/// The place of the first contact with an identity.
pub open spec fn contact_place(contacts: Seq<ContactModel>, k: [u8; 32], from: int) -> Option<int>
    decreases contacts.len() - from,
{
    if from < 0 || from >= contacts.len() {
        None
    } else if contacts[from].identity_pub == k {
        Some(from)
    } else {
        contact_place(contacts, k, from + 1)
    }
}

/// The place of the first contact with an identity.
fn find_contact(contacts: &[ContactView], k: &[u8; 32]) -> (r: Option<usize>)
    ensures
        match r {
            Some(i) => i < contacts@.len() && contact_place(contacts_model(contacts@), *k, 0) == Some(
                i as int,
            ),
            None => contact_place(contacts_model(contacts@), *k, 0) is None,
        },
{
    let ghost model = contacts_model(contacts@);
    let mut i: usize = 0;
    while i < contacts.len()
        invariant
            model == contacts_model(contacts@),
            0 <= i <= contacts@.len(),
            contact_place(model, *k, 0) == contact_place(model, *k, i as int),
        decreases contacts@.len() - i,
    {
        assert(model[i as int] == contacts@[i as int]@);
        if same32(&contacts[i].identity_pub, k) {
            return Some(i);
        }
        i = i + 1;
    }
    None
}

/// The name under which a sender is shown: the contact's nickname, or the
/// shortened key of one who is no contact.
pub open spec fn sender_name(contacts: Seq<ContactModel>, sender: [u8; 32]) -> Seq<char> {
    match contact_place(contacts, sender, 0) {
        Some(i) => contacts[i].nickname,
        None => short_hex_chars(sender@),
    }
}

/// The name under which a sender is shown.
pub fn sender_label(contacts: &[ContactView], sender: &[u8; 32]) -> (r: String)
    ensures
        r@ == sender_name(contacts_model(contacts@), *sender),
{
    match find_contact(contacts, sender) {
        Some(i) => contacts[i].nickname.clone(),
        None => short_hex(sender),
    }
}

/// The mark behind an outgoing message.
pub open spec fn status_mark(dir: Direction, status: Status) -> Seq<char> {
    match dir {
        Direction::Out => match status {
            Status::Sending => " …"@,
            Status::Failed => " ✗"@,
            _ => " ✓"@,
        },
        Direction::In => Seq::empty(),
    }
}

/// The mark behind an outgoing message.
fn mark_of(dir: Direction, status: Status) -> (r: &'static str)
    ensures
        r@ == status_mark(dir, status),
{
    match dir {
        Direction::Out => match status {
            Status::Sending => " …",
            Status::Failed => " ✗",
            _ => " ✓",
        },
        Direction::In => {
            proof {
                reveal_strlit("");
            }
            ""
        },
    }
}

/// The text of a message as shown: in a group, an incoming message has its
/// sender's name in front.
pub open spec fn bubble_text(s: AppState, chat: ChatId, m: MessageModel) -> Seq<char> {
    (match (chat, m.dir, m.sender) {
        (ChatId::Group(_), Direction::In, Some(k)) => sender_name(s.contacts, k) + ": "@,
        _ => Seq::empty(),
    }) + m.text + status_mark(m.dir, m.status)
}

/// A message as shown: its text, its time (empty for none), and on which side.
#[derive(Debug, PartialEq, Eq)]
pub struct Bubble {
    pub text: String,
    pub time: String,
    pub outgoing: bool,
}

/// The contents of a [`Bubble`].
pub struct BubbleModel {
    pub text: Seq<char>,
    pub time: Seq<char>,
    pub outgoing: bool,
}

impl View for Bubble {
    type V = BubbleModel;

    open spec fn view(&self) -> BubbleModel {
        BubbleModel { text: self.text@, time: self.time@, outgoing: self.outgoing }
    }
}

/// A message as shown.
pub open spec fn bubble_of(s: AppState, chat: ChatId, m: MessageModel) -> BubbleModel {
    BubbleModel {
        text: bubble_text(s, chat, m),
        time: time_text(m.timestamp as int),
        outgoing: m.dir == Direction::Out,
    }
}

/// A message as shown.
fn make_bubble(app: &UmApp, chat: ChatId, m: &MessageView) -> (r: Bubble)
    ensures
        r@ == bubble_of(app@, chat, m@),
{
    let mut text: String = String::new();
    if let ChatId::Group(_) = chat {
        if let Direction::In = m.dir {
            if let Some(k) = &m.sender {
                text = sender_label(app.contacts.as_slice(), k);
                text.append(": ");
            }
        }
    }
    text.append(m.text.as_str());
    text.append(mark_of(m.dir, m.status));
    assert(text@ =~= bubble_text(app@, chat, m@));
    Bubble { text, time: format_time(m.timestamp), outgoing: m.dir == Direction::Out }
}

/// What stands above the oldest loaded message.
#[derive(Debug, Clone, Copy, PartialEq, Eq, Structural)]
pub enum TopHint {
    /// An older page is on its way.
    Loading,
    /// There is nothing older.
    StartOfHistory,
}

/// What stands above the oldest loaded message.
pub fn history_top_hint(loading: bool, has_more: bool) -> (r: Option<TopHint>)
    ensures
        r == top_hint_of(loading, has_more),
{
    if loading {
        Some(TopHint::Loading)
    } else if !has_more {
        Some(TopHint::StartOfHistory)
    } else {
        None
    }
}

/// What stands above the oldest loaded message: that an older page is on its
/// way, else that there is none, else nothing.
pub open spec fn top_hint_of(loading: bool, has_more: bool) -> Option<TopHint> {
    if loading {
        Some(TopHint::Loading)
    } else if !has_more {
        Some(TopHint::StartOfHistory)
    } else {
        None
    }
}

/// The title of a thread: the contact's nickname and fingerprint, or the group's
/// name and number of members, or the key of what is not known.
pub open spec fn title_of(s: AppState, chat: ChatId) -> Seq<char> {
    match chat {
        ChatId::Peer(k) => match contact_place(s.contacts, k, 0) {
            Some(i) => s.contacts[i].nickname + " · "@ + hex_chars(s.contacts[i].fingerprint@),
            None => "peer "@ + hex_chars(k@),
        },
        ChatId::Group(k) => match group_place(s.groups, k, 0) {
            Some(i) => s.groups[i].name + " · "@ + decimal_chars(s.groups[i].members as nat) + (
            if s.groups[i].members == 1 {
                " member"@
            } else {
                " members"@
            }),
            None => "group "@ + hex_chars(k@),
        },
    }
}

/// The title of a thread.
fn make_title(app: &UmApp, chat: ChatId) -> (r: String)
    ensures
        r@ == title_of(app@, chat),
{
    match chat {
        ChatId::Peer(k) => match find_contact(app.contacts.as_slice(), &k) {
            Some(i) => {
                let mut s: String = app.contacts[i].nickname.clone();
                s.append(" · ");
                s.append(hex32(&app.contacts[i].fingerprint).as_str());
                s
            },
            None => {
                let mut s: String = "peer ".to_owned();
                s.append(hex32(&k).as_str());
                s
            },
        },
        ChatId::Group(k) => match find_group(&app.groups, &k) {
            Some(i) => {
                let members: u32 = app.groups[i].members;
                let mut s: String = app.groups[i].name.clone();
                s.append(" · ");
                push_decimal(&mut s, members as u64);
                if members == 1 {
                    s.append(" member");
                } else {
                    s.append(" members");
                }
                s
            },
            None => {
                let mut s: String = "group ".to_owned();
                s.append(hex32(&k).as_str());
                s
            },
        },
    }
}

/// A thread as shown.
#[derive(Debug, PartialEq, Eq)]
pub struct ThreadPanel {
    pub title: String,
    /// Above the oldest message; nothing in an empty thread.
    pub hint: Option<TopHint>,
    pub bubbles: Vec<Bubble>,
    /// In place of messages, where there are none.
    pub notice: Option<String>,
}

/// The contents of a list of bubbles.
pub open spec fn bubbles_model(s: Seq<Bubble>) -> Seq<BubbleModel> {
    s.map_values(|b: Bubble| b@)
}

/// Whether there are older messages than the loaded ones.
pub open spec fn more_of(s: AppState, chat: ChatId) -> bool {
    s.has_more_history.contains_key(chat) && s.has_more_history[chat]
}

/// The thread of a chat as shown.
pub fn thread_panel(app: &UmApp, chat: ChatId) -> (r: ThreadPanel)
    requires
        app.wf(),
    ensures
        ({
            let s = app@;
            let thread = thread_of(s, chat);
            &&& r.title@ == title_of(s, chat)
            &&& bubbles_model(r.bubbles@) == thread.map_values(
                |m: MessageModel| bubble_of(s, chat, m),
            )
            &&& r.hint == (if thread.len() == 0 {
                None
            } else {
                top_hint_of(s.loading_older.contains(chat), more_of(s, chat))
            })
            &&& match r.notice {
                Some(t) => thread.len() == 0 && t@ == (match chat {
                    ChatId::Peer(_) => "no messages yet"@,
                    ChatId::Group(_) => "no group messages yet"@,
                }),
                None => thread.len() > 0,
            }
        }),
{
    let ghost s = app@;
    let ghost thread = thread_of(s, chat);
    let title: String = make_title(app, chat);
    let mut bubbles: Vec<Bubble> = Vec::new();
    if let Some(msgs) = app.threads.get(&chat) {
        let mut i: usize = 0;
        assert(messages_model(msgs@) == thread);
        while i < msgs.len()
            invariant
                s == app@,
                thread == messages_model(msgs@),
                0 <= i <= msgs@.len(),
                bubbles@.len() == i,
                forall|j: int|
                    0 <= j < i ==> (#[trigger] bubbles@[j])@ == bubble_of(s, chat, thread[j]),
            decreases msgs@.len() - i,
        {
            assert(thread[i as int] == msgs@[i as int]@);
            bubbles.push(make_bubble(app, chat, &msgs[i]));
            i = i + 1;
        }
    }
    assert(bubbles_model(bubbles@) =~= thread.map_values(|m: MessageModel| bubble_of(s, chat, m)));
    if bubbles.len() == 0 {
        let notice: String = match chat {
            ChatId::Peer(_) => "no messages yet".to_owned(),
            ChatId::Group(_) => "no group messages yet".to_owned(),
        };
        ThreadPanel { title, hint: None, bubbles, notice: Some(notice) }
    } else {
        let loading: bool = app.loading_older.contains(&chat);
        let more: bool = match app.has_more_history.get(&chat) {
            Some(m) => *m,
            None => false,
        };
        ThreadPanel { title, hint: history_top_hint(loading, more), bubbles, notice: None }
    }
}

// ---- The sidebar ----------------------------------------------------------------------

/// A number on a badge, nothing for 0.
pub open spec fn badge_text(n: int) -> Seq<char> {
    if n > 0 {
        decimal_chars(n as nat)
    } else {
        Seq::empty()
    }
}

/// A number on a badge, nothing for 0.
fn badge(n: u32) -> (r: String)
    ensures
        r@ == badge_text(n as int),
{
    let mut s: String = String::new();
    if n > 0 {
        push_decimal(&mut s, n as u64);
    }
    assert(s@ =~= badge_text(n as int));
    s
}

/// A contact or a group in the sidebar.
#[derive(Debug, PartialEq, Eq)]
pub struct Row {
    /// Its place among the contacts or groups.
    pub place: usize,
    pub chat: ChatId,
    /// The mark in front of the name.
    pub mark: String,
    /// The name in pieces, what the search matches marked.
    pub name: Vec<(String, bool)>,
    /// The shortened key.
    pub id: String,
    pub badge: String,
    /// Whether the chat is on screen.
    pub open: bool,
    /// The fingerprint of a contact, empty for a group.
    pub fingerprint: String,
}

/// The contents of a [`Row`].
pub struct RowModel {
    pub place: int,
    pub chat: ChatId,
    pub mark: Seq<char>,
    pub name: Seq<(Seq<char>, bool)>,
    pub id: Seq<char>,
    pub badge: Seq<char>,
    pub open: bool,
    pub fingerprint: Seq<char>,
}

impl View for Row {
    type V = RowModel;

    open spec fn view(&self) -> RowModel {
        RowModel {
            place: self.place as int,
            chat: self.chat,
            mark: self.mark@,
            name: pieces_model(self.name@),
            id: self.id@,
            badge: self.badge@,
            open: self.open,
            fingerprint: self.fingerprint@,
        }
    }
}

/// The row of a contact.
pub open spec fn contact_row(s: AppState, place: int) -> RowModel {
    let c = s.contacts[place];
    let chat = ChatId::Peer(c.identity_pub);
    RowModel {
        place,
        chat,
        mark: if c.verified {
            "✓ "@
        } else {
            Seq::empty()
        },
        name: highlight(s.search_query, c.nickname),
        id: short_hex_chars(c.identity_pub@),
        badge: badge_text(unread_count(s, chat)),
        open: s.open_chat == Some(chat),
        fingerprint: hex_chars(c.fingerprint@),
    }
}

/// The row of a group.
pub open spec fn group_row(s: AppState, place: int) -> RowModel {
    let g = s.groups[place];
    let chat = ChatId::Group(g.id);
    RowModel {
        place,
        chat,
        mark: Seq::empty(),
        name: highlight(s.search_query, g.name),
        id: short_hex_chars(g.id@),
        badge: badge_text(unread_count(s, chat)),
        open: s.open_chat == Some(chat),
        fingerprint: Seq::empty(),
    }
}

/// What a search looks at: a name, and a key whole and shortened.
pub open spec fn search_texts(name: Seq<char>, key: [u8; 32]) -> Seq<Seq<char>> {
    seq![name, hex_chars(key@), short_hex_chars(key@)]
}

/// The rank of a name with a key for a query.
pub open spec fn entry_rank(query: Seq<char>, name: Seq<char>, key: [u8; 32]) -> Option<u32> {
    match row_rank(query, search_texts(name, key)) {
        Some(v) => Some(v as u32),
        None => None,
    }
}

/// The ranks of the contacts.
pub open spec fn contact_ranks(s: AppState) -> Seq<Option<u32>> {
    s.contacts.map_values(
        |c: ContactModel| entry_rank(s.search_query, c.nickname, c.identity_pub),
    )
}

/// The ranks of the groups.
pub open spec fn group_ranks(s: AppState) -> Seq<Option<u32>> {
    s.groups.map_values(|g: GroupModel| entry_rank(s.search_query, g.name, g.id))
}

/// All names can be ranked.
pub open spec fn all_rankable(s: AppState) -> bool {
    &&& forall|i: int|
        #![trigger s.contacts[i]]
        0 <= i < s.contacts.len() ==> rankable(
            search_texts(s.contacts[i].nickname, s.contacts[i].identity_pub),
        )
    &&& forall|i: int|
        #![trigger s.groups[i]]
        0 <= i < s.groups.len() ==> rankable(search_texts(s.groups[i].name, s.groups[i].id))
}

/// The rank of a name with a key for a query, the outer `None` where it cannot
/// be ranked.
fn rank_entry(query: &str, name: &str, key: &[u8; 32]) -> (r: Option<Option<u32>>)
    ensures
        r is Some == rankable(search_texts(name@, *key)),
        r matches Some(rank) ==> rank == entry_rank(query@, name@, *key),
{
    let id: String = hex32(key);
    let short: String = short_hex(key);
    let texts: [&str; 3] = [name, id.as_str(), short.as_str()];
    assert(texts_of(texts@) =~= search_texts(name@, *key));
    query_rank_checked(query, &texts)
}

/// How many messages of a chat are unread.
fn unread_in(app: &UmApp, chat: &ChatId) -> (r: u32)
    requires
        app.wf(),
    ensures
        r == unread_count(app@, *chat),
{
    match app.unread.get(chat) {
        Some(n) => *n,
        None => 0,
    }
}

/// The row of a contact.
fn make_contact_row(app: &UmApp, place: usize) -> (r: Row)
    requires
        app.wf(),
        place < app.contacts@.len(),
    ensures
        r@ == contact_row(app@, place as int),
{
    let c: &ContactView = &app.contacts[place];
    assert(app@.contacts[place as int] == c@);
    let chat: ChatId = ChatId::Peer(c.identity_pub);
    let mark: String = if c.verified {
        "✓ ".to_owned()
    } else {
        String::new()
    };
    Row {
        place,
        chat,
        mark,
        name: highlighted_name(app.search_query.as_str(), c.nickname.as_str()),
        id: short_hex(&c.identity_pub),
        badge: badge(unread_in(app, &chat)),
        open: app.is_open(&chat),
        fingerprint: hex32(&c.fingerprint),
    }
}

/// The row of a group.
fn make_group_row(app: &UmApp, place: usize) -> (r: Row)
    requires
        app.wf(),
        place < app.groups@.len(),
    ensures
        r@ == group_row(app@, place as int),
{
    let g: &GroupView = &app.groups[place];
    assert(app@.groups[place as int] == g@);
    let chat: ChatId = ChatId::Group(g.id);
    Row {
        place,
        chat,
        mark: String::new(),
        name: highlighted_name(app.search_query.as_str(), g.name.as_str()),
        id: short_hex(&g.id),
        badge: badge(unread_in(app, &chat)),
        open: app.is_open(&chat),
        fingerprint: String::new(),
    }
}

/// The sidebar as shown.
#[derive(Debug, PartialEq, Eq)]
pub struct Sidebar {
    pub status_dot: String,
    pub status: String,
    /// The number of all unread messages, empty for none.
    pub total: String,
    pub contacts: Vec<Row>,
    pub contacts_notice: Option<String>,
    pub groups: Vec<Row>,
    pub groups_notice: Option<String>,
}

/// The places of rows.
pub open spec fn places_of(rows: Seq<Row>) -> Seq<usize> {
    rows.map_values(|r: Row| r.place)
}

/// A notice is shown: one for an empty list, another where the search leaves
/// nothing of it.
pub open spec fn notice_is(
    notice: Option<String>,
    listed: int,
    shown: int,
    empty: Seq<char>,
    unmatched: Seq<char>,
) -> bool {
    match notice {
        Some(t) => if listed == 0 {
            t@ == empty
        } else {
            shown == 0 && t@ == unmatched
        },
        None => listed > 0 && shown > 0,
    }
}

/// The total on the header.
pub open spec fn total_text(n: int) -> Seq<char> {
    if n > 0 {
        decimal_chars(n as nat) + " unread"@
    } else {
        Seq::empty()
    }
}

/// A panel is the sidebar of a state.
pub open spec fn sidebar_of(p: Sidebar, s: AppState) -> bool {
    &&& p.status_dot@ == (if s.connected {
        "●"@
    } else {
        "○"@
    })
    &&& p.status@ == (if s.connected {
        "connected"@
    } else {
        "disconnected"@
    })
    &&& p.total@ == total_text(map_total(s.unread))
    &&& in_rank_order(contact_ranks(s), places_of(p.contacts@))
    &&& forall|k: int|
        0 <= k < p.contacts@.len() ==> (#[trigger] p.contacts@[k])@ == contact_row(
            s,
            p.contacts@[k].place as int,
        )
    &&& notice_is(
        p.contacts_notice,
        s.contacts.len() as int,
        p.contacts@.len() as int,
        "No contacts yet — add one by pasting their identity pub below."@,
        "No contacts match your search."@,
    )
    &&& in_rank_order(group_ranks(s), places_of(p.groups@))
    &&& forall|k: int|
        0 <= k < p.groups@.len() ==> (#[trigger] p.groups@[k])@ == group_row(
            s,
            p.groups@[k].place as int,
        )
    &&& notice_is(
        p.groups_notice,
        s.groups.len() as int,
        p.groups@.len() as int,
        "(no groups yet)"@,
        "No groups match your search."@,
    )
}

/// The ranks of the contacts, `None` where one cannot be ranked.
fn rank_contacts(app: &UmApp) -> (r: Option<Vec<Option<u32>>>)
    ensures
        r is Some == (forall|i: int|
            #![trigger app@.contacts[i]]
            0 <= i < app@.contacts.len() ==> rankable(
                search_texts(app@.contacts[i].nickname, app@.contacts[i].identity_pub),
            )),
        r matches Some(v) ==> v@ == contact_ranks(app@),
{
    let ghost s = app@;
    let mut out: Vec<Option<u32>> = Vec::new();
    let mut i: usize = 0;
    while i < app.contacts.len()
        invariant
            s == app@,
            0 <= i <= app.contacts@.len(),
            out@.len() == i,
            forall|j: int|
                #![trigger s.contacts[j]]
                0 <= j < i ==> rankable(
                    search_texts(s.contacts[j].nickname, s.contacts[j].identity_pub),
                ) && out@[j] == entry_rank(
                    s.search_query,
                    s.contacts[j].nickname,
                    s.contacts[j].identity_pub,
                ),
        decreases app.contacts@.len() - i,
    {
        let c: &ContactView = &app.contacts[i];
        assert(s.contacts[i as int] == c@);
        match rank_entry(app.search_query.as_str(), c.nickname.as_str(), &c.identity_pub) {
            Some(rank) => {
                out.push(rank);
            },
            None => {
                return None;
            },
        }
        i = i + 1;
    }
    assert forall|j: int| 0 <= j < out@.len() implies #[trigger] out@[j] == contact_ranks(s)[j] by {
        let c = s.contacts[j];
    }
    assert(out@ =~= contact_ranks(s));
    Some(out)
}

/// The ranks of the groups, `None` where one cannot be ranked.
fn rank_groups(app: &UmApp) -> (r: Option<Vec<Option<u32>>>)
    ensures
        r is Some == (forall|i: int|
            #![trigger app@.groups[i]]
            0 <= i < app@.groups.len() ==> rankable(
                search_texts(app@.groups[i].name, app@.groups[i].id),
            )),
        r matches Some(v) ==> v@ == group_ranks(app@),
{
    let ghost s = app@;
    let mut out: Vec<Option<u32>> = Vec::new();
    let mut i: usize = 0;
    while i < app.groups.len()
        invariant
            s == app@,
            0 <= i <= app.groups@.len(),
            out@.len() == i,
            forall|j: int|
                #![trigger s.groups[j]]
                0 <= j < i ==> rankable(search_texts(s.groups[j].name, s.groups[j].id)) && out@[j]
                    == entry_rank(s.search_query, s.groups[j].name, s.groups[j].id),
        decreases app.groups@.len() - i,
    {
        let g: &GroupView = &app.groups[i];
        assert(s.groups[i as int] == g@);
        match rank_entry(app.search_query.as_str(), g.name.as_str(), &g.id) {
            Some(rank) => {
                out.push(rank);
            },
            None => {
                return None;
            },
        }
        i = i + 1;
    }
    assert forall|j: int| 0 <= j < out@.len() implies #[trigger] out@[j] == group_ranks(s)[j] by {
        let g = s.groups[j];
    }
    assert(out@ =~= group_ranks(s));
    Some(out)
}

/// The sidebar as shown; `None` where a name is too long to be ranked.
pub fn sidebar(app: &UmApp) -> (r: Option<Sidebar>)
    requires
        app.wf(),
        map_total(app@.unread) <= u32::MAX,
    ensures
        r is Some == all_rankable(app@),
        r matches Some(p) ==> sidebar_of(p, app@),
{
    let ghost s = app@;
    let contact_order: Vec<usize> = match rank_contacts(app) {
        Some(ranks) => order_by_rank(&ranks),
        None => {
            return None;
        },
    };
    let group_order: Vec<usize> = match rank_groups(app) {
        Some(ranks) => order_by_rank(&ranks),
        None => {
            return None;
        },
    };
    let mut contacts: Vec<Row> = Vec::new();
    let mut i: usize = 0;
    while i < contact_order.len()
        invariant
            app.wf(),
            s == app@,
            in_rank_order(contact_ranks(s), contact_order@),
            0 <= i <= contact_order@.len(),
            contacts@.len() == i,
            forall|k: int|
                0 <= k < i ==> (#[trigger] contacts@[k])@ == contact_row(
                    s,
                    contact_order@[k] as int,
                ),
        decreases contact_order@.len() - i,
    {
        assert(is_ranked(contact_ranks(s), contact_order@[i as int] as int));
        contacts.push(make_contact_row(app, contact_order[i]));
        i = i + 1;
    }
    assert(places_of(contacts@) =~= contact_order@);
    let mut groups: Vec<Row> = Vec::new();
    let mut j: usize = 0;
    while j < group_order.len()
        invariant
            app.wf(),
            s == app@,
            in_rank_order(group_ranks(s), group_order@),
            0 <= j <= group_order@.len(),
            groups@.len() == j,
            forall|k: int|
                0 <= k < j ==> (#[trigger] groups@[k])@ == group_row(s, group_order@[k] as int),
        decreases group_order@.len() - j,
    {
        assert(is_ranked(group_ranks(s), group_order@[j as int] as int));
        groups.push(make_group_row(app, group_order[j]));
        j = j + 1;
    }
    assert(places_of(groups@) =~= group_order@);
    let total: u32 = app.total_unread();
    let mut total_badge: String = badge(total);
    if total > 0 {
        total_badge.append(" unread");
    }
    let contacts_notice: Option<String> = if app.contacts.len() == 0 {
        Some("No contacts yet — add one by pasting their identity pub below.".to_owned())
    } else if contacts.len() == 0 {
        Some("No contacts match your search.".to_owned())
    } else {
        None
    };
    let groups_notice: Option<String> = if app.groups.len() == 0 {
        Some("(no groups yet)".to_owned())
    } else if groups.len() == 0 {
        Some("No groups match your search.".to_owned())
    } else {
        None
    };
    Some(
        Sidebar {
            status_dot: if app.connected {
                "●".to_owned()
            } else {
                "○".to_owned()
            },
            status: if app.connected {
                "connected".to_owned()
            } else {
                "disconnected".to_owned()
            },
            total: total_badge,
            contacts,
            contacts_notice,
            groups,
            groups_notice,
        },
    )
}

// ---- Setup and settings -------------------------------------------------------------------

/// A key of the identity as shown in the settings.
pub open spec fn identity_text(k: Option<[u8; 32]>) -> Seq<char> {
    match k {
        Some(b) => hex_chars(b@),
        None => "(not unlocked)"@,
    }
}

/// A key of the identity as shown in the settings.
pub fn identity_label(k: &Option<[u8; 32]>) -> (r: String)
    ensures
        r@ == identity_text(*k),
{
    match k {
        Some(b) => hex32(b),
        None => "(not unlocked)".to_owned(),
    }
}

/// What the setup screen says of the typed passphrase: that it is too short.
pub fn passphrase_notice(app: &UmApp) -> (r: Option<String>)
    ensures
        match r {
            Some(t) => app@.passphrase_input.len() < 8 && t@
                == "passphrase must be at least 8 characters"@,
            None => app@.passphrase_input.len() >= 8,
        },
{
    if app.passphrase_input.as_str().unicode_len() < 8 {
        Some("passphrase must be at least 8 characters".to_owned())
    } else {
        None
    }
}

// ---- Laws -------------------------------------------------------------------------------------

/// The place of a contact is the first with its key; there is none where no
/// contact has it.
pub proof fn lemma_place_of_contact(contacts: Seq<ContactModel>, k: [u8; 32], from: int)
    requires
        0 <= from,
    ensures
        match contact_place(contacts, k, from) {
            Some(i) => from <= i < contacts.len() && contacts[i].identity_pub == k && (forall|j: int|
                from <= j < i ==> (#[trigger] contacts[j]).identity_pub != k),
            None => forall|j: int|
                from <= j < contacts.len() ==> (#[trigger] contacts[j]).identity_pub != k,
        },
    decreases contacts.len() - from,
{
    if from < contacts.len() && contacts[from].identity_pub != k {
        lemma_place_of_contact(contacts, k, from + 1);
    }
}

/// A sender who is a contact goes by the nickname of the first contact with
/// their key, anyone else by their shortened key.
pub proof fn lemma_sender_name(contacts: Seq<ContactModel>, sender: [u8; 32], i: int)
    ensures
        0 <= i < contacts.len() && contacts[i].identity_pub == sender && (forall|j: int|
            0 <= j < i ==> (#[trigger] contacts[j]).identity_pub != sender) ==> sender_name(
            contacts,
            sender,
        ) == contacts[i].nickname,
        (forall|j: int| 0 <= j < contacts.len() ==> (#[trigger] contacts[j]).identity_pub != sender)
            ==> sender_name(contacts, sender) == short_hex_chars(sender@),
{
    lemma_place_of_contact(contacts, sender, 0);
}

/// An outgoing message that is on its way, one that failed and one that went out
/// have different marks; an incoming message has none.
pub proof fn lemma_marks(a: Status, b: Status)
    ensures
        status_mark(Direction::In, a).len() == 0,
        status_mark(Direction::Out, a).len() == 2,
        status_mark(Direction::Out, a)[0] == ' ',
        status_mark(Direction::Out, a)[1] == '…' <==> a == Status::Sending,
        status_mark(Direction::Out, a)[1] == '✗' <==> a == Status::Failed,
        status_mark(Direction::Out, a)[1] == '✓' <==> a == Status::Sent || a == Status::Delivered,
{
    reveal_strlit(" …");
    reveal_strlit(" ✗");
    reveal_strlit(" ✓");
}

/// A message is shown with its whole text, on the side that it belongs to. What
/// is added stands in front, the author of an incoming group message, or behind,
/// the mark of an outgoing one; between two there is nothing in front, and of an
/// incoming message nothing behind.
pub proof fn lemma_bubble_shows_message(s: AppState, chat: ChatId, m: MessageModel)
    ensures
        ({
            let shown = bubble_of(s, chat, m);
            let front = shown.text.len() - m.text.len() - status_mark(m.dir, m.status).len();
            let authored = chat is Group && m.dir == Direction::In && m.sender is Some;
            &&& shown.outgoing == (m.dir == Direction::Out)
            &&& shown.time == time_text(m.timestamp as int)
            &&& 0 <= front
            &&& shown.text.subrange(front, front + m.text.len()) == m.text
            &&& shown.text.skip(front + m.text.len()) == status_mark(m.dir, m.status)
            &&& !authored ==> front == 0
            &&& authored ==> shown.text.take(front) == sender_name(s.contacts, m.sender.unwrap())
                + ": "@
            &&& m.dir == Direction::In ==> shown.text.len() == front + m.text.len()
        }),
{
    let shown = bubble_of(s, chat, m);
    let mark = status_mark(m.dir, m.status);
    let front = shown.text.len() - m.text.len() - mark.len();
    assert(shown.text.subrange(front, front + m.text.len()) =~= m.text);
    assert(shown.text.skip(front + m.text.len()) =~= mark);
    if chat is Group && m.dir == Direction::In && m.sender is Some {
        assert(shown.text.take(front) =~= sender_name(s.contacts, m.sender.unwrap()) + ": "@);
    }
}

/// What stands above a thread: that a page is on its way exactly while one is,
/// and else that it is the start exactly where there is nothing older.
pub proof fn lemma_top_hint(loading: bool, has_more: bool)
    ensures
        top_hint_of(loading, has_more) == Some(TopHint::Loading) <==> loading,
        top_hint_of(loading, has_more) == Some(TopHint::StartOfHistory) <==> !loading && !has_more,
        top_hint_of(loading, has_more) is None <==> !loading && has_more,
{
}

/// The title of a thread names the chat: a contact by nickname and fingerprint,
/// a group by name and number of members, and what is not listed by its key.
pub proof fn lemma_titles(s: AppState, k: [u8; 32], i: int)
    ensures
        0 <= i < s.contacts.len() && s.contacts[i].identity_pub == k && (forall|j: int|
            0 <= j < i ==> (#[trigger] s.contacts[j]).identity_pub != k) ==> title_of(
            s,
            ChatId::Peer(k),
        ) == s.contacts[i].nickname + " · "@ + hex_chars(s.contacts[i].fingerprint@),
        (forall|j: int| 0 <= j < s.contacts.len() ==> (#[trigger] s.contacts[j]).identity_pub != k)
            ==> title_of(s, ChatId::Peer(k)) == "peer "@ + hex_chars(k@),
        0 <= i < s.groups.len() && s.groups[i].id == k && (forall|j: int|
            0 <= j < i ==> (#[trigger] s.groups[j]).id != k) ==> title_of(s, ChatId::Group(k))
            == s.groups[i].name + " · "@ + decimal_chars(s.groups[i].members as nat) + (
        if s.groups[i].members == 1 {
            " member"@
        } else {
            " members"@
        }),
        (forall|j: int| 0 <= j < s.groups.len() ==> (#[trigger] s.groups[j]).id != k) ==> title_of(
            s,
            ChatId::Group(k),
        ) == "group "@ + hex_chars(k@),
{
    lemma_place_of_contact(s.contacts, k, 0);
    crate::gui::laws::lemma_place_of_group(s.groups, k, 0);
}

/// A badge is empty for 0 and else reads as its number, and so does the total.
pub proof fn lemma_badges(n: int)
    requires
        0 <= n <= u32::MAX,
    ensures
        badge_text(n).len() == 0 <==> n == 0,
        total_text(n).len() == 0 <==> n == 0,
        n > 0 ==> number_of(badge_text(n)) == Some(n),
        n > 0 ==> total_text(n) == badge_text(n) + " unread"@,
{
    lemma_decimal_chars(n as nat);
}

/// A contact's row shows that contact: its name, whole and in order, its
/// shortened key, its fingerprint, whether it is verified, how many of its
/// messages are unread and whether its chat is on screen.
pub proof fn lemma_contact_row(s: AppState, place: int)
    requires
        0 <= place < s.contacts.len(),
    ensures
        ({
            let row = contact_row(s, place);
            let c = s.contacts[place];
            let chat = ChatId::Peer(c.identity_pub);
            &&& row.place == place
            &&& row.chat == chat
            &&& joined(row.name) == c.nickname
            &&& row.id == short_hex_chars(c.identity_pub@)
            &&& row.fingerprint == hex_chars(c.fingerprint@)
            &&& row.mark.len() > 0 <==> c.verified
            &&& c.verified ==> row.mark == "✓ "@
            &&& row.badge.len() == 0 <==> !(s.unread.contains_key(chat) && s.unread[chat] > 0)
            &&& s.unread.contains_key(chat) && s.unread[chat] > 0 ==> number_of(row.badge) == Some(
                s.unread[chat] as int,
            )
            &&& row.open <==> s.open_chat == Some(chat)
        }),
{
    reveal_strlit("✓ ");
    lemma_highlight_keeps_text(s.search_query, s.contacts[place].nickname);
    let chat = ChatId::Peer(s.contacts[place].identity_pub);
    lemma_badges(unread_count(s, chat));
}

/// A group's row shows that group in the same way.
pub proof fn lemma_group_row(s: AppState, place: int)
    requires
        0 <= place < s.groups.len(),
    ensures
        ({
            let row = group_row(s, place);
            let g = s.groups[place];
            let chat = ChatId::Group(g.id);
            &&& row.place == place
            &&& row.chat == chat
            &&& joined(row.name) == g.name
            &&& row.id == short_hex_chars(g.id@)
            &&& row.mark.len() == 0 && row.fingerprint.len() == 0
            &&& row.badge.len() == 0 <==> !(s.unread.contains_key(chat) && s.unread[chat] > 0)
            &&& s.unread.contains_key(chat) && s.unread[chat] > 0 ==> number_of(row.badge) == Some(
                s.unread[chat] as int,
            )
            &&& row.open <==> s.open_chat == Some(chat)
        }),
{
    lemma_highlight_keeps_text(s.search_query, s.groups[place].name);
    let chat = ChatId::Group(s.groups[place].id);
    lemma_badges(unread_count(s, chat));
}

/// A name with a key has a rank exactly where the query is blank or, in lower
/// case and without white space at its ends, occurs in the lower case of the
/// name, of the key's digits or of the shortened key.
proof fn lemma_entry_found(query: Seq<char>, name: Seq<char>, key: [u8; 32])
    ensures
        entry_rank(query, name, key) is Some <==> (trimmed(query).len() == 0 || is_found(
            lowercase_of(trimmed(query)),
            name,
        ) || is_found(lowercase_of(trimmed(query)), hex_chars(key@)) || is_found(
            lowercase_of(trimmed(query)),
            short_hex_chars(key@),
        )),
{
    let texts = search_texts(name, key);
    let q = lowercase_of(trimmed(query));
    lemma_row_found(query, texts);
    assert(texts[0] == name);
    assert(texts[1] == hex_chars(key@));
    assert(texts[2] == short_hex_chars(key@));
    if is_found(q, name) {
        assert(is_found(q, texts[0]));
    }
    if is_found(q, hex_chars(key@)) {
        assert(is_found(q, texts[1]));
    }
    if is_found(q, short_hex_chars(key@)) {
        assert(is_found(q, texts[2]));
    }
    if some_text_holds(q, texts) {
        let i = choose|i: int| 0 <= i < texts.len() && is_found(q, #[trigger] texts[i]);
        assert(i == 0 || i == 1 || i == 2);
    }
}

/// The sidebar lists the contact at a place exactly where nothing is searched
/// for or what is searched for, letter case and white space around it aside,
/// occurs in the contact's nickname, in its key or in the shortened key.
pub proof fn lemma_contact_listed(p: Sidebar, s: AppState, i: int)
    requires
        sidebar_of(p, s),
        0 <= i < s.contacts.len() <= usize::MAX,
    ensures
        ({
            let c = s.contacts[i];
            let q = lowercase_of(trimmed(s.search_query));
            (exists|k: int| 0 <= k < p.contacts@.len() && (#[trigger] p.contacts@[k]).place == i)
                <==> (trimmed(s.search_query).len() == 0 || is_found(q, c.nickname) || is_found(
                q,
                hex_chars(c.identity_pub@),
            ) || is_found(q, short_hex_chars(c.identity_pub@)))
        }),
{
    let c = s.contacts[i];
    let ranks = contact_ranks(s);
    let places = places_of(p.contacts@);
    lemma_entry_found(s.search_query, c.nickname, c.identity_pub);
    assert(ranks[i] == entry_rank(s.search_query, c.nickname, c.identity_pub));
    if ranks[i] is Some {
        assert(is_ranked(ranks, i));
        assert(places.contains(i as usize));
        let k = choose|k: int| 0 <= k < places.len() && places[k] == i as usize;
        assert(p.contacts@[k].place == i);
    }
    if exists|k: int| 0 <= k < p.contacts@.len() && (#[trigger] p.contacts@[k]).place == i {
        let k = choose|k: int| 0 <= k < p.contacts@.len() && (#[trigger] p.contacts@[k]).place == i;
        assert(places[k] == i as usize);
        assert(is_ranked(ranks, places[k] as int));
    }
}

/// The same of the group at a place.
pub proof fn lemma_group_listed(p: Sidebar, s: AppState, i: int)
    requires
        sidebar_of(p, s),
        0 <= i < s.groups.len() <= usize::MAX,
    ensures
        ({
            let g = s.groups[i];
            let q = lowercase_of(trimmed(s.search_query));
            (exists|k: int| 0 <= k < p.groups@.len() && (#[trigger] p.groups@[k]).place == i) <==> (
            trimmed(s.search_query).len() == 0 || is_found(q, g.name) || is_found(
                q,
                hex_chars(g.id@),
            ) || is_found(q, short_hex_chars(g.id@)))
        }),
{
    let g = s.groups[i];
    let ranks = group_ranks(s);
    let places = places_of(p.groups@);
    lemma_entry_found(s.search_query, g.name, g.id);
    assert(ranks[i] == entry_rank(s.search_query, g.name, g.id));
    if ranks[i] is Some {
        assert(is_ranked(ranks, i));
        assert(places.contains(i as usize));
        let k = choose|k: int| 0 <= k < places.len() && places[k] == i as usize;
        assert(p.groups@[k].place == i);
    }
    if exists|k: int| 0 <= k < p.groups@.len() && (#[trigger] p.groups@[k]).place == i {
        let k = choose|k: int| 0 <= k < p.groups@.len() && (#[trigger] p.groups@[k]).place == i;
        assert(places[k] == i as usize);
        assert(is_ranked(ranks, places[k] as int));
    }
}

/// The digits of a key have no white space at their ends.
proof fn lemma_key_text_trimmed(key: Seq<u8>)
    ensures
        trimmed(hex_chars(key)) == hex_chars(key),
{
    lemma_hex_chars(key);
    let t = hex_chars(key);
    if key.len() > 0 {
        let n: int = key.len() - 1;
        let m: int = 0;
        assert(t[2 * m] == crate::hexadecimal::digit_char(key[0] as int / 16));
        assert(t[2 * n] == crate::hexadecimal::digit_char(key[n] as int / 16));
        assert(t.last() == t[2 * n + 1]);
    }
    lemma_trimmed_alone(t);
}

/// What is searched for as it stands is found in itself.
proof fn lemma_found_in_itself(text: Seq<char>)
    ensures
        is_found(lowercase_of(text), text),
{
    let bytes = encode_utf8(lowercase_of(text));
    assert(bytes.subrange(0, bytes.len() as int) =~= bytes);
    assert(occurs_at(bytes, bytes, 0));
}

/// Searching for the whole key of a contact or group shows it, and so does
/// searching for a name that has no white space at its ends.
pub proof fn lemma_key_search_shows(p: Sidebar, s: AppState, i: int)
    requires
        sidebar_of(p, s),
        s.contacts.len() <= usize::MAX,
        s.groups.len() <= usize::MAX,
    ensures
        0 <= i < s.contacts.len() && (s.search_query == hex_chars(s.contacts[i].identity_pub@) || (
        s.search_query == s.contacts[i].nickname && trimmed(s.search_query) == s.search_query))
            ==> exists|k: int|
            0 <= k < p.contacts@.len() && (#[trigger] p.contacts@[k]).place == i,
        0 <= i < s.groups.len() && (s.search_query == hex_chars(s.groups[i].id@) || (s.search_query
            == s.groups[i].name && trimmed(s.search_query) == s.search_query)) ==> exists|k: int|
            0 <= k < p.groups@.len() && (#[trigger] p.groups@[k]).place == i,
{
    lemma_found_in_itself(s.search_query);
    if 0 <= i < s.contacts.len() {
        lemma_key_text_trimmed(s.contacts[i].identity_pub@);
        lemma_contact_listed(p, s, i);
    }
    if 0 <= i < s.groups.len() {
        lemma_key_text_trimmed(s.groups[i].id@);
        lemma_group_listed(p, s, i);
    }
}

/// No contact and no group has two rows in the sidebar.
pub proof fn lemma_rows_distinct(p: Sidebar, s: AppState, j: int, k: int)
    requires
        sidebar_of(p, s),
        j != k,
    ensures
        0 <= j < p.contacts@.len() && 0 <= k < p.contacts@.len() ==> p.contacts@[j].place
            != p.contacts@[k].place && p.contacts@[j].place < s.contacts.len(),
        0 <= j < p.groups@.len() && 0 <= k < p.groups@.len() ==> p.groups@[j].place
            != p.groups@[k].place && p.groups@[j].place < s.groups.len(),
{
    let (cr, gr) = (contact_ranks(s), group_ranks(s));
    let (cp, gp) = (places_of(p.contacts@), places_of(p.groups@));
    if 0 <= j < p.contacts@.len() && 0 <= k < p.contacts@.len() {
        assert(cp[j] == p.contacts@[j].place && cp[k] == p.contacts@[k].place);
        assert(is_ranked(cr, cp[j] as int));
        if j < k {
            assert(comes_before(cr, cp[j] as int, cp[k] as int));
        } else {
            assert(comes_before(cr, cp[k] as int, cp[j] as int));
        }
    }
    if 0 <= j < p.groups@.len() && 0 <= k < p.groups@.len() {
        assert(gp[j] == p.groups@[j].place && gp[k] == p.groups@[k].place);
        assert(is_ranked(gr, gp[j] as int));
        if j < k {
            assert(comes_before(gr, gp[j] as int, gp[k] as int));
        } else {
            assert(comes_before(gr, gp[k] as int, gp[j] as int));
        }
    }
}

/// Where nothing is searched for, all contacts and groups are listed in their
/// order.
pub proof fn lemma_all_listed_in_order(p: Sidebar, s: AppState)
    requires
        sidebar_of(p, s),
        trimmed(s.search_query).len() == 0,
        s.contacts.len() <= usize::MAX,
        s.groups.len() <= usize::MAX,
    ensures
        p.contacts@.len() == s.contacts.len(),
        p.groups@.len() == s.groups.len(),
        forall|k: int| 0 <= k < p.contacts@.len() ==> (#[trigger] p.contacts@[k]).place == k,
        forall|k: int| 0 <= k < p.groups@.len() ==> (#[trigger] p.groups@[k]).place == k,
{
    let (cr, gr) = (contact_ranks(s), group_ranks(s));
    let (cp, gp) = (places_of(p.contacts@), places_of(p.groups@));
    assert forall|i: int| 0 <= i < cr.len() implies #[trigger] cr[i] == Some(0u32) by {}
    assert forall|i: int| 0 <= i < gr.len() implies #[trigger] gr[i] == Some(0u32) by {}
    lemma_one_rank_in_order(cr, cp, cr.len() as int);
    lemma_one_rank_in_order(gr, gp, gr.len() as int);
    assert forall|k: int| 0 <= k < p.contacts@.len() implies (#[trigger] p.contacts@[k]).place == k by {
        assert(cp[k] == p.contacts@[k].place);
    }
    assert forall|k: int| 0 <= k < p.groups@.len() implies (#[trigger] p.groups@[k]).place == k by {
        assert(gp[k] == p.groups@[k].place);
    }
}

/// Rows of one rank are all listed, in their order.
proof fn lemma_one_rank_in_order(ranks: Seq<Option<u32>>, places: Seq<usize>, n: int)
    requires
        in_rank_order(ranks, places),
        0 <= n <= ranks.len() <= usize::MAX,
        forall|i: int| 0 <= i < ranks.len() ==> #[trigger] ranks[i] == Some(0u32),
    ensures
        n <= places.len(),
        forall|k: int| 0 <= k < n ==> #[trigger] places[k] == k,
        n == ranks.len() ==> places.len() == n,
    decreases n,
{
    if n > 0 {
        lemma_one_rank_in_order(ranks, places, n - 1);
        let v = n - 1;
        assert(is_ranked(ranks, v));
        let m = choose|m: int| 0 <= m < places.len() && places[m] == v as usize;
        if m < v {
            assert(places[m] == m);
        } else if m > v {
            assert(is_ranked(ranks, places[v] as int));
            assert(comes_before(ranks, places[v] as int, places[m] as int));
            if v > 0 {
                assert(places[v - 1] == v - 1);
                assert(comes_before(ranks, places[v - 1] as int, places[v] as int));
            }
        }
    }
    if n == ranks.len() && places.len() > n {
        assert(is_ranked(ranks, places[n] as int));
        if n > 0 {
            assert(places[n - 1] == n - 1);
            assert(comes_before(ranks, places[n - 1] as int, places[n] as int));
        }
    }
}

/// Of two listed contacts or groups the one that the search matches better
/// stands first, and of two that it matches alike the one that comes first in
/// the list.
pub proof fn lemma_better_rows_first(p: Sidebar, s: AppState, j: int, k: int)
    requires
        sidebar_of(p, s),
        all_rankable(s),
        0 <= j < k,
    ensures
        k < p.contacts@.len() ==> ({
            let (a, b) = (p.contacts@[j].place as int, p.contacts@[k].place as int);
            let (c, d) = (s.contacts[a], s.contacts[b]);
            let x = row_rank(
                s.search_query,
                seq![
                    c.nickname,
                    hex_chars(c.identity_pub@),
                    short_hex_chars(c.identity_pub@),
                ],
            );
            let y = row_rank(
                s.search_query,
                seq![
                    d.nickname,
                    hex_chars(d.identity_pub@),
                    short_hex_chars(d.identity_pub@),
                ],
            );
            x is Some && y is Some && (x.unwrap() as u32 <= y.unwrap() as u32) && (x.unwrap() as u32
                == y.unwrap() as u32 ==> a < b)
        }),
        k < p.groups@.len() ==> ({
            let (a, b) = (p.groups@[j].place as int, p.groups@[k].place as int);
            let (c, d) = (s.groups[a], s.groups[b]);
            let x = row_rank(
                s.search_query,
                seq![c.name, hex_chars(c.id@), short_hex_chars(c.id@)],
            );
            let y = row_rank(
                s.search_query,
                seq![d.name, hex_chars(d.id@), short_hex_chars(d.id@)],
            );
            x is Some && y is Some && (x.unwrap() as u32 <= y.unwrap() as u32) && (x.unwrap() as u32
                == y.unwrap() as u32 ==> a < b)
        }),
{
    let (cr, gr) = (contact_ranks(s), group_ranks(s));
    let (cp, gp) = (places_of(p.contacts@), places_of(p.groups@));
    if k < p.contacts@.len() {
        assert(cp[j] == p.contacts@[j].place && cp[k] == p.contacts@[k].place);
        assert(is_ranked(cr, cp[j] as int) && is_ranked(cr, cp[k] as int));
        assert(comes_before(cr, cp[j] as int, cp[k] as int));
    }
    if k < p.groups@.len() {
        assert(gp[j] == p.groups@[j].place && gp[k] == p.groups@[k].place);
        assert(is_ranked(gr, gp[j] as int) && is_ranked(gr, gp[k] as int));
        assert(comes_before(gr, gp[j] as int, gp[k] as int));
    }
}

/// The sidebar says whether the client is connected and how many messages are
/// unread in all, and a notice stands in place of a list exactly where that
/// shows nothing.
pub proof fn lemma_sidebar_header(p: Sidebar, s: AppState)
    requires
        sidebar_of(p, s),
        0 <= map_total(s.unread) <= u32::MAX,
    ensures
        p.status@ == (if s.connected {
            "connected"@
        } else {
            "disconnected"@
        }),
        p.status_dot@ == (if s.connected {
            "●"@
        } else {
            "○"@
        }),
        p.contacts_notice matches Some(t) ==> t@ == (if s.contacts.len() == 0 {
            "No contacts yet — add one by pasting their identity pub below."@
        } else {
            "No contacts match your search."@
        }),
        p.groups_notice matches Some(t) ==> t@ == (if s.groups.len() == 0 {
            "(no groups yet)"@
        } else {
            "No groups match your search."@
        }),
        p.total@.len() == 0 <==> map_total(s.unread) == 0,
        map_total(s.unread) > 0 ==> exists|n: Seq<char>|
            number_of(n) == Some(map_total(s.unread)) && p.total@ == #[trigger] (n + " unread"@),
        s.contacts.len() > 0 ==> (p.contacts_notice is Some <==> p.contacts@.len() == 0),
        s.groups.len() > 0 ==> (p.groups_notice is Some <==> p.groups@.len() == 0),
        s.contacts.len() == 0 ==> p.contacts_notice is Some,
        s.groups.len() == 0 ==> p.groups_notice is Some,
{
    let n = map_total(s.unread);
    lemma_badges(n);
    if n > 0 {
        assert(p.total@ == badge_text(n) + " unread"@);
    }
}

/// The settings show a key of the identity in digits, once there is one.
pub proof fn lemma_identity_text(k: [u8; 32])
    ensures
        identity_text(Some(k)) == hex_chars(k@),
        identity_text(None) == "(not unlocked)"@,
{
}

/// There is more of a chat exactly where that was noted of it.
pub proof fn lemma_more_of(s: AppState, chat: ChatId)
    ensures
        more_of(s, chat) ==> s.has_more_history.contains_key(chat),
        s.has_more_history.contains_key(chat) ==> more_of(s, chat) == s.has_more_history[chat],
{
}

/// A sidebar can be shown of every state whose names take less than four thousand
/// million bytes each in lower case, and so do the digits of the keys.
pub proof fn lemma_ordinary_names_rank(s: AppState)
    requires
        forall|i: int|
            0 <= i < s.contacts.len() ==> encode_utf8(
                lowercase_of((#[trigger] s.contacts[i]).nickname),
            ).len() < 4_000_000_000 && encode_utf8(
                lowercase_of(hex_chars(s.contacts[i].identity_pub@)),
            ).len() < 4_000_000_000 && encode_utf8(
                lowercase_of(short_hex_chars(s.contacts[i].identity_pub@)),
            ).len() < 4_000_000_000,
        forall|i: int|
            0 <= i < s.groups.len() ==> encode_utf8(lowercase_of((#[trigger] s.groups[i]).name)).len()
                < 4_000_000_000 && encode_utf8(lowercase_of(hex_chars(s.groups[i].id@))).len()
                < 4_000_000_000 && encode_utf8(lowercase_of(short_hex_chars(s.groups[i].id@))).len()
                < 4_000_000_000,
    ensures
        all_rankable(s),
{
}

/// Each row of the sidebar shows the contact or group at its place: its chat, its
/// whole name, its shortened key, its unread messages and whether it is on screen,
/// and a contact's fingerprint and mark.
pub proof fn lemma_rows_shown(p: Sidebar, s: AppState, k: int)
    requires
        sidebar_of(p, s),
    ensures
        0 <= k < p.contacts@.len() ==> ({
            let row = p.contacts@[k];
            let c = s.contacts[row.place as int];
            let chat = ChatId::Peer(c.identity_pub);
            &&& row.place < s.contacts.len()
            &&& row.chat == chat
            &&& joined(pieces_model(row.name@)) == c.nickname
            &&& row.id@ == short_hex_chars(c.identity_pub@)
            &&& row.fingerprint@ == hex_chars(c.fingerprint@)
            &&& row.mark@.len() > 0 <==> c.verified
            &&& s.unread.contains_key(chat) && s.unread[chat] > 0 ==> number_of(row.badge@) == Some(
                s.unread[chat] as int,
            )
            &&& !(s.unread.contains_key(chat) && s.unread[chat] > 0) ==> row.badge@.len() == 0
            &&& row.open <==> s.open_chat == Some(chat)
        }),
        0 <= k < p.groups@.len() ==> ({
            let row = p.groups@[k];
            let g = s.groups[row.place as int];
            let chat = ChatId::Group(g.id);
            &&& row.place < s.groups.len()
            &&& row.chat == chat
            &&& joined(pieces_model(row.name@)) == g.name
            &&& row.id@ == short_hex_chars(g.id@)
            &&& s.unread.contains_key(chat) && s.unread[chat] > 0 ==> number_of(row.badge@) == Some(
                s.unread[chat] as int,
            )
            &&& !(s.unread.contains_key(chat) && s.unread[chat] > 0) ==> row.badge@.len() == 0
            &&& row.open <==> s.open_chat == Some(chat)
        }),
{
    if 0 <= k < p.contacts@.len() {
        let row = p.contacts@[k];
        assert(places_of(p.contacts@)[k] == row.place);
        assert(is_ranked(contact_ranks(s), row.place as int));
        assert(row@ == contact_row(s, row.place as int));
        lemma_contact_row(s, row.place as int);
        assert(row@.name == pieces_model(row.name@));
    }
    if 0 <= k < p.groups@.len() {
        let row = p.groups@[k];
        assert(places_of(p.groups@)[k] == row.place);
        assert(is_ranked(group_ranks(s), row.place as int));
        assert(row@ == group_row(s, row.place as int));
        lemma_group_row(s, row.place as int);
        assert(row@.name == pieces_model(row.name@));
    }
}

} // verus!
