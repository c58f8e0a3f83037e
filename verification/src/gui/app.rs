//! The state of the user interface: what is shown, what the user types, and
//! how messages from the views and events from the bridge change it. The state
//! holds copies of data only; keys, sessions, the store and the connection
//! belong to the bridge.
use crate::bytes::{array_of, lemma_array_of, same32};
use crate::gui::command::{commands_model, Command, CommandModel};
use crate::gui::config::{chosen_addr, opt_text, Config, ConfigModel};
use crate::gui::event::{Event, EventModel};
use crate::gui::screen;
use crate::gui::types::{
    contacts_model, groups_model, messages_model, ChatId, ContactModel, ContactView, Direction,
    GroupModel, GroupView, MessageModel, MessageView, Status,
};
use crate::gui::views::{key_error_text, key_of_text, parse_pubkey_hex};
use crate::keymap::{
    has_key, keys_distinct, lemma_map_total, lemma_pairs_finite, lemma_pairs_push, map_total, pairs_map,
    Key, KeyMap, KeySet,
};
use crate::text::{number_of, parse_number, trim, trimmed};
use vstd::prelude::*;

verus! {

/// The state of the user interface.
pub struct UmApp {
    pub view: screen::View,
    pub identity_pub: Option<[u8; 32]>,
    pub identity_fingerprint: Option<[u8; 32]>,
    pub contacts: Vec<ContactView>,
    /// The chat on screen.
    pub open_chat: Option<ChatId>,
    /// The loaded part of each thread, oldest message first.
    pub threads: KeyMap<ChatId, Vec<MessageView>>,
    /// The smallest row id among the loaded rows of a chat.
    pub oldest_loaded: KeyMap<ChatId, i64>,
    /// Whether rows older than the loaded ones exist.
    pub has_more_history: KeyMap<ChatId, bool>,
    /// The chats for which an older page is on its way.
    pub loading_older: KeySet<ChatId>,
    /// Where the thread was scrolled to last, as the bits of a 32-bit float.
    pub scroll_offset: KeyMap<ChatId, u32>,
    pub groups: Vec<GroupView>,
    /// How many messages of a chat are unread; no entry for none.
    pub unread: KeyMap<ChatId, u32>,
    /// The id of the next message sent from here.
    pub next_local_id: u64,
    pub passphrase_input: String,
    pub passphrase_confirm: String,
    pub server_input: String,
    pub add_contact_hex: String,
    pub add_contact_nick: String,
    pub compose_input: String,
    pub new_group_name: String,
    pub search_query: String,
    pub replenish_count: String,
    /// The error on the banner.
    pub error: Option<String>,
    pub connected: bool,
    pub config: Config,
    /// The address to connect to once the identity is ready.
    pub connect_addr: String,
}

/// The contents of a [`UmApp`].
#[verifier::ext_equal]
pub struct AppState {
    pub view: screen::View,
    pub identity_pub: Option<[u8; 32]>,
    pub identity_fingerprint: Option<[u8; 32]>,
    pub contacts: Seq<ContactModel>,
    pub open_chat: Option<ChatId>,
    pub threads: Map<ChatId, Seq<MessageModel>>,
    pub oldest_loaded: Map<ChatId, i64>,
    pub has_more_history: Map<ChatId, bool>,
    pub loading_older: Set<ChatId>,
    pub scroll_offset: Map<ChatId, u32>,
    pub groups: Seq<GroupModel>,
    pub unread: Map<ChatId, u32>,
    pub next_local_id: u64,
    pub passphrase_input: Seq<char>,
    pub passphrase_confirm: Seq<char>,
    pub server_input: Seq<char>,
    pub add_contact_hex: Seq<char>,
    pub add_contact_nick: Seq<char>,
    pub compose_input: Seq<char>,
    pub new_group_name: Seq<char>,
    pub search_query: Seq<char>,
    pub replenish_count: Seq<char>,
    pub error: Option<Seq<char>>,
    pub connected: bool,
    pub config: ConfigModel,
    pub connect_addr: Seq<char>,
}

/// The contents of loaded threads.
pub open spec fn threads_model(m: Map<ChatId, Vec<MessageView>>) -> Map<ChatId, Seq<MessageModel>> {
    m.map_values(|v: Vec<MessageView>| messages_model(v@))
}

impl View for UmApp {
    type V = AppState;

    open spec fn view(&self) -> AppState {
        AppState {
            view: self.view,
            identity_pub: self.identity_pub,
            identity_fingerprint: self.identity_fingerprint,
            contacts: contacts_model(self.contacts@),
            open_chat: self.open_chat,
            threads: threads_model(self.threads@),
            oldest_loaded: self.oldest_loaded@,
            has_more_history: self.has_more_history@,
            loading_older: self.loading_older@,
            scroll_offset: self.scroll_offset@,
            groups: groups_model(self.groups@),
            unread: self.unread@,
            next_local_id: self.next_local_id,
            passphrase_input: self.passphrase_input@,
            passphrase_confirm: self.passphrase_confirm@,
            server_input: self.server_input@,
            add_contact_hex: self.add_contact_hex@,
            add_contact_nick: self.add_contact_nick@,
            compose_input: self.compose_input@,
            new_group_name: self.new_group_name@,
            search_query: self.search_query@,
            replenish_count: self.replenish_count@,
            error: opt_text(self.error),
            connected: self.connected,
            config: self.config@,
            connect_addr: self.connect_addr@,
        }
    }
}

/// What a view asks for, or what the bridge tells.
#[derive(Debug)]
pub enum Message {
    PassphraseChanged(String),
    PassphraseConfirmChanged(String),
    ServerChanged(String),
    AddContactHexChanged(String),
    AddContactNickChanged(String),
    ComposeChanged(String),
    NewGroupNameChanged(String),
    SearchChanged(String),
    ReplenishCountChanged(String),
    SetupSubmit,
    UnlockSubmit,
    OpenContactList,
    OpenSettings,
    OpenChat([u8; 32]),
    OpenGroup([u8; 32]),
    Back,
    AddContact,
    VerifyFingerprint([u8; 32]),
    SendPressed,
    /// A thread was scrolled, to its top or not, to an offset given as the bits
    /// of a 32-bit float.
    ChatScrolled { chat: ChatId, at_top: bool, offset: u32 },
    CreateGroupPressed,
    RotateSignedPrekey,
    ReplenishOneTimePrekeys,
    /// Apply the server input; the socket address that the input, without
    /// white space at its ends, stands for, `None` where it stands for none.
    ChangeServer(Option<String>),
    Logout,
    Event(Event),
    DismissError,
    Quit,
}

/// What the view is to do besides showing the new state.
#[derive(Debug, Clone, Copy, PartialEq, Eq)]
pub enum Effect {
    Nothing,
    /// Scroll the thread of a chat to its end.
    SnapToEnd(ChatId),
    /// `rows` rows came in on top of the thread: scroll it to where it was, at
    /// `saved`, and so many rows further.
    RestoreScroll { chat: ChatId, saved: u32, rows: usize },
    /// Close the window.
    Quit,
}

/// What comes of a message: commands for the bridge, in order, and an effect.
#[derive(Debug)]
pub struct Outcome {
    pub commands: Vec<Command>,
    pub effect: Effect,
}

/// A new state with what comes of it.
pub struct Step {
    pub state: AppState,
    pub commands: Seq<CommandModel>,
    pub effect: Effect,
}

/// An outcome is that of a step.
pub open spec fn outcome_of(o: Outcome, step: Step) -> bool {
    commands_model(o.commands@) == step.commands && o.effect == step.effect
}

/// A step that only changes the state.
pub open spec fn quiet(state: AppState) -> Step {
    Step { state, commands: Seq::empty(), effect: Effect::Nothing }
}

/// A step with one command.
pub open spec fn asking(state: AppState, command: CommandModel) -> Step {
    Step { state, commands: seq![command], effect: Effect::Nothing }
}

/// A state with an error on the banner.
pub open spec fn failing(state: AppState, text: Seq<char>) -> AppState {
    AppState { error: Some(text), ..state }
}

// ---- Parts of steps ----------------------------------------------------------------

/// The loaded messages of a chat.
pub open spec fn thread_of(s: AppState, chat: ChatId) -> Seq<MessageModel> {
    if s.threads.contains_key(chat) {
        s.threads[chat]
    } else {
        Seq::empty()
    }
}

/// A message at the end of a thread.
pub open spec fn with_message(s: AppState, chat: ChatId, msg: MessageModel) -> AppState {
    AppState { threads: s.threads.insert(chat, thread_of(s, chat).push(msg)), ..s }
}

/// A message that is shown before it is sent.
pub open spec fn sending(text: Seq<char>, local_id: u64) -> MessageModel {
    MessageModel {
        local_id,
        text,
        dir: Direction::Out,
        timestamp: 0,
        status: Status::Sending,
        sender: None,
    }
}

/// A message is an outgoing one with an id. Ids of messages received are those of
/// their envelopes or rows, so a thread may hold others of the same id.
pub open spec fn is_outgoing(m: MessageModel, local_id: u64) -> bool {
    m.local_id == local_id && m.dir == Direction::Out
}

/// Messages with a new status for the outgoing ones with an id.
pub open spec fn with_status(
    msgs: Seq<MessageModel>,
    local_id: u64,
    status: Status,
) -> Seq<MessageModel> {
    msgs.map_values(
        |m: MessageModel|
            if is_outgoing(m, local_id) {
                MessageModel { status, ..m }
            } else {
                m
            },
    )
}

/// A new status for the outgoing messages with an id in a chat.
pub open spec fn with_outgoing_status(
    s: AppState,
    chat: ChatId,
    local_id: u64,
    status: Status,
) -> AppState {
    if s.threads.contains_key(chat) {
        AppState {
            threads: s.threads.insert(chat, with_status(s.threads[chat], local_id, status)),
            ..s
        }
    } else {
        s
    }
}

/// The place of the first group with an id.
pub open spec fn group_place(groups: Seq<GroupModel>, id: [u8; 32], from: int) -> Option<int>
    decreases groups.len() - from,
{
    if from < 0 || from >= groups.len() {
        None
    } else if groups[from].id == id {
        Some(from)
    } else {
        group_place(groups, id, from + 1)
    }
}

/// The groups with a group in place of one with its id, or at the end where
/// there is none.
pub open spec fn upserted(groups: Seq<GroupModel>, g: GroupModel) -> Seq<GroupModel> {
    match group_place(groups, g.id, 0) {
        Some(i) => groups.update(i, g),
        None => groups.push(g),
    }
}

/// The groups with each of a list upserted in turn.
pub open spec fn upserted_all(groups: Seq<GroupModel>, new: Seq<GroupModel>) -> Seq<GroupModel>
    decreases new.len(),
{
    if new.len() == 0 {
        groups
    } else {
        upserted(upserted_all(groups, new.drop_last()), new.last())
    }
}

/// The contacts with the fingerprint of one identity verified.
pub open spec fn verified_in(contacts: Seq<ContactModel>, k: [u8; 32]) -> Seq<ContactModel> {
    contacts.map_values(
        |c: ContactModel|
            if c.identity_pub == k {
                ContactModel { verified: true, ..c }
            } else {
                c
            },
    )
}

/// The smallest row id of a page.
pub open spec fn page_min(msgs: Seq<MessageModel>) -> Option<i64>
    decreases msgs.len(),
{
    if msgs.len() == 0 {
        None
    } else {
        let id = msgs.last().local_id as i64;
        match page_min(msgs.drop_last()) {
            Some(m) => Some(
                if id < m {
                    id
                } else {
                    m
                },
            ),
            None => Some(id),
        }
    }
}

/// What a loaded page says of a chat: its smallest row id, where that is
/// smaller than the one known, and whether there is more.
pub open spec fn paged(
    s: AppState,
    chat: ChatId,
    msgs: Seq<MessageModel>,
    has_more: bool,
) -> AppState {
    AppState {
        oldest_loaded: match page_min(msgs) {
            Some(min) => if s.oldest_loaded.contains_key(chat) && s.oldest_loaded[chat] <= min {
                s.oldest_loaded
            } else {
                s.oldest_loaded.insert(chat, min)
            },
            None => s.oldest_loaded,
        },
        has_more_history: s.has_more_history.insert(chat, has_more),
        ..s
    }
}

/// An older page may be asked for: there is one, and none is on its way.
pub open spec fn may_load_older(s: AppState, chat: ChatId) -> bool {
    s.has_more_history.contains_key(chat) && s.has_more_history[chat]
        && !s.loading_older.contains(chat)
}

/// The chat that 32 bytes stand for: a group where a group has them as its id,
/// else a peer.
pub open spec fn chat_of_key(groups: Seq<GroupModel>, key: [u8; 32]) -> ChatId {
    if group_place(groups, key, 0) is Some {
        ChatId::Group(key)
    } else {
        ChatId::Peer(key)
    }
}

/// Unread counts by chat, counts of 0 left out.
pub open spec fn unread_of(groups: Seq<GroupModel>, counts: Seq<([u8; 32], u32)>) -> Map<ChatId, u32>
    decreases counts.len(),
{
    if counts.len() == 0 {
        Map::empty()
    } else {
        let (key, count) = counts.last();
        let before = unread_of(groups, counts.drop_last());
        if count == 0 {
            before
        } else {
            before.insert(chat_of_key(groups, key), count)
        }
    }
}

/// A thread that is on screen is scrolled to its end.
pub open spec fn snap_of(s: AppState, chat: ChatId) -> Effect {
    if s.open_chat == Some(chat) {
        Effect::SnapToEnd(chat)
    } else {
        Effect::Nothing
    }
}

/// How many messages of a chat are unread.
pub open spec fn unread_count(s: AppState, chat: ChatId) -> int {
    if s.unread.contains_key(chat) {
        s.unread[chat] as int
    } else {
        0
    }
}

/// A sent message is among the loaded ones.
pub open spec fn has_outgoing(msgs: Seq<MessageModel>) -> bool {
    exists|i: int| 0 <= i < msgs.len() && (#[trigger] msgs[i]).dir == Direction::Out
}

/// A chat on screen, its messages read.
pub open spec fn opened(s: AppState, chat: ChatId) -> AppState {
    AppState {
        open_chat: Some(chat),
        unread: s.unread.remove(chat),
        view: match chat {
            ChatId::Peer(k) => screen::View::ChatThread(k),
            ChatId::Group(k) => screen::View::GroupChat(k),
        },
        ..s
    }
}

// ---- Events -----------------------------------------------------------------------------

/// The step of an event.
pub open spec fn event_step(s: AppState, ev: EventModel) -> Step {
    match ev {
        EventModel::Ready { identity_pub, identity_fingerprint } => asking(
            AppState {
                identity_pub: Some(identity_pub),
                identity_fingerprint: Some(identity_fingerprint),
                passphrase_input: Seq::empty(),
                passphrase_confirm: Seq::empty(),
                view: screen::View::ContactList,
                ..s
            },
            CommandModel::Connect { addr: s.connect_addr },
        ),
        EventModel::Connected => quiet(AppState { connected: true, error: None, ..s }),
        EventModel::Disconnected { reason } => {
            let t = AppState { connected: false, ..s };
            if s.view is Login || s.view is Setup {
                quiet(t)
            } else {
                quiet(failing(t, "disconnected: "@ + reason))
            }
        },
        EventModel::Error(e) => quiet(failing(s, e)),
        EventModel::ContactsLoaded(contacts) => quiet(AppState { contacts, ..s }),
        EventModel::GroupsLoaded(groups) => quiet(
            AppState { groups: upserted_all(s.groups, groups), ..s },
        ),
        EventModel::UnreadLoaded(counts) => quiet(
            AppState { unread: unread_of(s.groups, counts), ..s },
        ),
        EventModel::HistoryLoaded { chat, msgs, has_more } => {
            let fresh = AppState {
                threads: s.threads.insert(chat, msgs),
                oldest_loaded: s.oldest_loaded.remove(chat),
                ..s
            };
            Step {
                state: paged(fresh, chat, msgs, has_more),
                commands: Seq::empty(),
                effect: snap_of(s, chat),
            }
        },
        EventModel::OlderHistoryLoaded { chat, msgs, has_more } => {
            let longer = AppState {
                threads: s.threads.insert(chat, msgs + thread_of(s, chat)),
                loading_older: s.loading_older.remove(chat),
                ..s
            };
            Step {
                state: paged(longer, chat, msgs, has_more),
                commands: Seq::empty(),
                effect: if s.open_chat == Some(chat) && msgs.len() > 0 {
                    Effect::RestoreScroll {
                        chat,
                        saved: if s.scroll_offset.contains_key(chat) {
                            s.scroll_offset[chat]
                        } else {
                            0
                        },
                        rows: msgs.len() as usize,
                    }
                } else {
                    Effect::Nothing
                },
            }
        },
        EventModel::Decrypted { chat, msg } => if s.open_chat == Some(chat) {
            Step {
                state: with_message(s, chat, msg),
                commands: Seq::empty(),
                effect: Effect::SnapToEnd(chat),
            }
        } else {
            let count = (unread_count(s, chat) + 1) as u32;
            asking(
                AppState { unread: s.unread.insert(chat, count), ..s },
                CommandModel::SetUnread { peer: chat.key_spec(), count },
            )
        },
        EventModel::Sent { chat, local_id, msg } => quiet(
            with_outgoing_status(s, chat, local_id, msg.status),
        ),
        EventModel::SendFailed { chat, local_id, reason } => quiet(
            failing(with_outgoing_status(s, chat, local_id, Status::Failed), reason),
        ),
        EventModel::FingerprintVerified { identity_pub } => quiet(
            AppState { contacts: verified_in(s.contacts, identity_pub), ..s },
        ),
        EventModel::GroupCreated { group, name, members } => quiet(
            opened(
                AppState {
                    groups: upserted(s.groups, GroupModel { id: group, name, members }),
                    ..s
                },
                ChatId::Group(group),
            ),
        ),
        EventModel::GroupInvited { group, name, members } => quiet(
            failing(
                AppState {
                    groups: upserted(s.groups, GroupModel { id: group, name, members }),
                    ..s
                },
                "you were added to a group"@,
            ),
        ),
    }
}

/// An event can be counted: the unread count of its chat is not the largest
/// number.
pub open spec fn event_fits(s: AppState, ev: EventModel) -> bool {
    ev matches EventModel::Decrypted { chat, .. } ==> s.open_chat == Some(chat) || unread_count(
        s,
        chat,
    ) < u32::MAX
}

// ---- Messages ---------------------------------------------------------------------------

/// The step of sending what is typed.
pub open spec fn send_step(s: AppState) -> Step {
    let text = trimmed(s.compose_input);
    if text.len() == 0 {
        quiet(s)
    } else {
        let local_id = s.next_local_id;
        let t = AppState { next_local_id: (local_id + 1) as u64, ..s };
        match s.open_chat {
            None => quiet(t),
            Some(chat) => Step {
                state: AppState {
                    compose_input: Seq::empty(),
                    ..with_message(t, chat, sending(text, local_id))
                },
                commands: seq![
                    match chat {
                        ChatId::Peer(peer) => if has_outgoing(thread_of(s, chat)) {
                            CommandModel::SendMessage { peer, text, local_id }
                        } else {
                            CommandModel::StartSession { peer, first_message: text, local_id }
                        },
                        ChatId::Group(group) => CommandModel::SendGroupMessage {
                            group,
                            text,
                            local_id,
                        },
                    },
                ],
                effect: Effect::SnapToEnd(chat),
            },
        }
    }
}

/// The step of opening a chat.
pub open spec fn open_step(s: AppState, chat: ChatId) -> Step {
    Step {
        state: opened(s, chat),
        commands: seq![
            CommandModel::SetUnread { peer: chat.key_spec(), count: 0 },
            match chat {
                ChatId::Peer(peer) => CommandModel::LoadThread { peer },
                ChatId::Group(group) => CommandModel::LoadGroupThread { group },
            },
        ],
        effect: Effect::Nothing,
    }
}

/// The step of scrolling a thread.
pub open spec fn scroll_step(s: AppState, chat: ChatId, at_top: bool, offset: u32) -> Step {
    let t = AppState { scroll_offset: s.scroll_offset.insert(chat, offset), ..s };
    if at_top && may_load_older(s, chat) && s.oldest_loaded.contains_key(chat) {
        asking(
            AppState { loading_older: s.loading_older.insert(chat), ..t },
            match chat {
                ChatId::Peer(peer) => CommandModel::LoadOlder {
                    peer,
                    before_id: s.oldest_loaded[chat],
                },
                ChatId::Group(group) => CommandModel::LoadOlderGroup {
                    group,
                    before_id: s.oldest_loaded[chat],
                },
            },
        )
    } else {
        quiet(t)
    }
}

/// The step of making a group of all contacts.
pub open spec fn create_group_step(s: AppState) -> Step {
    let name = trimmed(s.new_group_name);
    if name.len() == 0 {
        quiet(failing(s, "group name is empty"@))
    } else if s.contacts.len() == 0 {
        quiet(failing(s, "add contacts before creating a group"@))
    } else {
        asking(
            AppState { new_group_name: Seq::empty(), error: None, ..s },
            CommandModel::CreateGroup {
                name,
                members: s.contacts.map_values(|c: ContactModel| c.identity_pub),
            },
        )
    }
}

/// The state after logging out: nothing of the identity is left.
pub open spec fn logged_out(s: AppState) -> AppState {
    AppState {
        identity_pub: None,
        identity_fingerprint: None,
        contacts: Seq::empty(),
        threads: Map::empty(),
        groups: Seq::empty(),
        unread: Map::empty(),
        search_query: Seq::empty(),
        oldest_loaded: Map::empty(),
        has_more_history: Map::empty(),
        loading_older: Set::empty(),
        scroll_offset: Map::empty(),
        view: screen::View::Login,
        passphrase_input: Seq::empty(),
        connected: false,
        ..s
    }
}

/// The step of a message.
pub open spec fn message_step(s: AppState, msg: Message) -> Step {
    match msg {
        Message::PassphraseChanged(t) => quiet(AppState { passphrase_input: t@, ..s }),
        Message::PassphraseConfirmChanged(t) => quiet(AppState { passphrase_confirm: t@, ..s }),
        Message::ServerChanged(t) => quiet(AppState { server_input: t@, ..s }),
        Message::AddContactHexChanged(t) => quiet(AppState { add_contact_hex: t@, ..s }),
        Message::AddContactNickChanged(t) => quiet(AppState { add_contact_nick: t@, ..s }),
        Message::ComposeChanged(t) => quiet(AppState { compose_input: t@, ..s }),
        Message::NewGroupNameChanged(t) => quiet(AppState { new_group_name: t@, ..s }),
        Message::SearchChanged(t) => quiet(AppState { search_query: t@, ..s }),
        Message::ReplenishCountChanged(t) => quiet(AppState { replenish_count: t@, ..s }),
        Message::SetupSubmit => if s.passphrase_input.len() < 8 {
            quiet(failing(s, "passphrase must be at least 8 characters"@))
        } else if s.passphrase_input != s.passphrase_confirm {
            quiet(failing(s, "passphrases do not match"@))
        } else {
            asking(
                AppState { error: None, ..s },
                CommandModel::Setup { passphrase: s.passphrase_input, one_time_count: 10 },
            )
        },
        Message::UnlockSubmit => asking(
            AppState { error: None, ..s },
            CommandModel::Unlock { passphrase: s.passphrase_input },
        ),
        Message::OpenContactList => quiet(AppState { view: screen::View::ContactList, ..s }),
        Message::OpenSettings => quiet(AppState { view: screen::View::Settings, ..s }),
        Message::OpenChat(peer) => open_step(s, ChatId::Peer(peer)),
        Message::OpenGroup(group) => open_step(s, ChatId::Group(group)),
        Message::Back => quiet(AppState { view: screen::View::ContactList, open_chat: None, ..s }),
        Message::AddContact => match key_of_text(s.add_contact_hex) {
            Ok(k) => Step {
                state: AppState {
                    add_contact_hex: Seq::empty(),
                    add_contact_nick: Seq::empty(),
                    error: None,
                    ..s
                },
                commands: seq![
                    CommandModel::AddContact {
                        identity_pub: array_of(k),
                        nickname: s.add_contact_nick,
                    },
                ],
                effect: Effect::Nothing,
            },
            Err(e) => quiet(failing(s, key_error_text(e))),
        },
        Message::VerifyFingerprint(peer) => asking(
            AppState { contacts: verified_in(s.contacts, peer), ..s },
            CommandModel::VerifyFingerprint { identity_pub: peer },
        ),
        Message::SendPressed => send_step(s),
        Message::ChatScrolled { chat, at_top, offset } => scroll_step(s, chat, at_top, offset),
        Message::CreateGroupPressed => create_group_step(s),
        Message::RotateSignedPrekey => asking(s, CommandModel::RotateSignedPrekey),
        Message::ReplenishOneTimePrekeys => match number_of(trimmed(s.replenish_count)) {
            Some(count) if count > 0 => asking(
                AppState { error: None, ..s },
                CommandModel::ReplenishOneTimePrekeys { count: count as u32 },
            ),
            _ => quiet(failing(s, "replenish count must be a positive number"@)),
        },
        Message::ChangeServer(addr) => match addr {
            Some(a) => asking(
                AppState { error: None, ..s },
                CommandModel::ChangeServer { addr: a@ },
            ),
            None => quiet(failing(s, "invalid server address"@)),
        },
        Message::Logout => asking(logged_out(s), CommandModel::Logout),
        Message::Event(ev) => event_step(s, ev@),
        Message::DismissError => quiet(AppState { error: None, ..s }),
        Message::Quit => Step { state: s, commands: Seq::empty(), effect: Effect::Quit },
    }
}

/// A message can be counted: message ids and unread counts are not used up.
pub open spec fn message_fits(s: AppState, msg: Message) -> bool {
    match msg {
        Message::SendPressed => s.next_local_id < u64::MAX,
        Message::Event(ev) => event_fits(s, ev@),
        _ => true,
    }
}

// ---- The state at work ---------------------------------------------------------------

/// The screen at the start: setting up where no identity was unlocked before
/// or its store is gone, else logging in.
pub fn initial_view(config: &Config, store_exists: bool) -> (r: screen::View)
    ensures
        r == (if config@.last_identity_pub.len() == 0 || !store_exists {
            screen::View::Setup
        } else {
            screen::View::Login
        }),
{
    if config.last_identity_pub.as_str().is_empty() || !store_exists {
        screen::View::Setup
    } else {
        screen::View::Login
    }
}

/// The state at the start.
pub open spec fn start_state(view: screen::View, config: ConfigModel, addr: Seq<char>) -> AppState {
    AppState {
        view,
        identity_pub: None,
        identity_fingerprint: None,
        contacts: Seq::empty(),
        open_chat: None,
        threads: Map::empty(),
        oldest_loaded: Map::empty(),
        has_more_history: Map::empty(),
        loading_older: Set::empty(),
        scroll_offset: Map::empty(),
        groups: Seq::empty(),
        unread: Map::empty(),
        next_local_id: 1,
        passphrase_input: Seq::empty(),
        passphrase_confirm: Seq::empty(),
        server_input: config.server_addr,
        add_contact_hex: Seq::empty(),
        add_contact_nick: Seq::empty(),
        compose_input: Seq::empty(),
        new_group_name: Seq::empty(),
        search_query: Seq::empty(),
        replenish_count: "10"@,
        error: None,
        connected: false,
        config,
        connect_addr: addr,
    }
}

/// Replacing a thread replaces its contents.
proof fn lemma_threads_put(m: Map<ChatId, Vec<MessageView>>, chat: ChatId, v: Vec<MessageView>)
    ensures
        threads_model(m.insert(chat, v)) == threads_model(m).insert(chat, messages_model(v@)),
{
    assert(threads_model(m.insert(chat, v)) =~= threads_model(m).insert(chat, messages_model(v@)));
}

/// Sets the status of the outgoing messages with an id.
fn set_status(msgs: &mut Vec<MessageView>, local_id: u64, status: Status)
    ensures
        messages_model(final(msgs)@) == with_status(messages_model(old(msgs)@), local_id, status),
{
    let ghost before = messages_model(msgs@);
    let n: usize = msgs.len();
    let mut i: usize = 0;
    while i < n
        invariant
            n == msgs@.len(),
            n == before.len(),
            0 <= i <= n,
            forall|j: int|
                0 <= j < n ==> (#[trigger] msgs@[j])@ == (if j < i && is_outgoing(before[j], local_id) {
                    MessageModel { status, ..before[j] }
                } else {
                    before[j]
                }),
        decreases n - i,
    {
        assert(msgs@[i as int]@ == before[i as int]);
        if msgs[i].local_id == local_id && msgs[i].dir == Direction::Out {
            msgs[i].status = status;
        }
        i = i + 1;
    }
    assert(messages_model(msgs@) =~= with_status(before, local_id, status));
}

/// Whether a sent message is among the loaded ones.
fn any_outgoing(msgs: &Vec<MessageView>) -> (r: bool)
    ensures
        r == has_outgoing(messages_model(msgs@)),
{
    let ghost model = messages_model(msgs@);
    let mut i: usize = 0;
    while i < msgs.len()
        invariant
            model == messages_model(msgs@),
            0 <= i <= msgs@.len(),
            forall|j: int| 0 <= j < i ==> (#[trigger] model[j]).dir != Direction::Out,
        decreases msgs@.len() - i,
    {
        assert(model[i as int] == msgs@[i as int]@);
        if msgs[i].dir == Direction::Out {
            return true;
        }
        i = i + 1;
    }
    false
}

/// The smallest row id of a page.
fn smallest_id(msgs: &Vec<MessageView>) -> (r: Option<i64>)
    ensures
        r == page_min(messages_model(msgs@)),
{
    let ghost model = messages_model(msgs@);
    let mut min: Option<i64> = None;
    let mut i: usize = 0;
    assert(model.take(0) =~= Seq::<MessageModel>::empty());
    while i < msgs.len()
        invariant
            model == messages_model(msgs@),
            0 <= i <= msgs@.len(),
            min == page_min(model.take(i as int)),
        decreases msgs@.len() - i,
    {
        let id: i64 = msgs[i].local_id as i64;
        proof {
            let next = model.take(i + 1);
            assert(next.drop_last() =~= model.take(i as int));
            assert(next.last() == msgs@[i as int]@);
        }
        min = match min {
            Some(m) => Some(
                if id < m {
                    id
                } else {
                    m
                },
            ),
            None => Some(id),
        };
        i = i + 1;
    }
    assert(model.take(i as int) =~= model);
    min
}

/// The place of the first group with an id.
pub(crate) fn find_group(groups: &Vec<GroupView>, id: &[u8; 32]) -> (r: Option<usize>)
    ensures
        match r {
            Some(i) => i < groups@.len() && group_place(groups_model(groups@), *id, 0) == Some(
                i as int,
            ),
            None => group_place(groups_model(groups@), *id, 0) is None,
        },
{
    let ghost model = groups_model(groups@);
    let mut i: usize = 0;
    while i < groups.len()
        invariant
            model == groups_model(groups@),
            0 <= i <= groups@.len(),
            group_place(model, *id, 0) == group_place(model, *id, i as int),
        decreases groups@.len() - i,
    {
        assert(model[i as int] == groups@[i as int]@);
        if same32(&groups[i].id, id) {
            return Some(i);
        }
        i = i + 1;
    }
    None
}

/// The banner of a lost connection.
fn disconnected_text(reason: &str) -> (r: String)
    ensures
        r@ == "disconnected: "@ + reason@,
{
    let mut s: String = "disconnected: ".to_owned();
    s.append(reason);
    s
}

/// An outcome without commands or effect.
fn nothing() -> (r: Outcome)
    ensures
        commands_model(r.commands@) == Seq::<CommandModel>::empty(),
        r.effect == Effect::Nothing,
{
    let r = Outcome { commands: Vec::new(), effect: Effect::Nothing };
    assert(commands_model(r.commands@) =~= Seq::<CommandModel>::empty());
    r
}

/// An outcome with an effect alone.
fn only(effect: Effect) -> (r: Outcome)
    ensures
        commands_model(r.commands@) == Seq::<CommandModel>::empty(),
        r.effect == effect,
{
    let r = Outcome { commands: Vec::new(), effect };
    assert(commands_model(r.commands@) =~= Seq::<CommandModel>::empty());
    r
}

/// An outcome with one command and an effect.
fn ask(command: Command, effect: Effect) -> (r: Outcome)
    ensures
        commands_model(r.commands@) == seq![command@],
        r.effect == effect,
{
    let mut commands: Vec<Command> = Vec::new();
    commands.push(command);
    let r = Outcome { commands, effect };
    assert(commands_model(r.commands@) =~= seq![command@]);
    r
}

impl UmApp {
    /// No key of a map occurs twice.
    pub open spec fn wf(&self) -> bool {
        &&& self.threads.wf()
        &&& self.oldest_loaded.wf()
        &&& self.has_more_history.wf()
        &&& self.loading_older.wf()
        &&& self.scroll_offset.wf()
        &&& self.unread.wf()
    }

    /// The state at the start, where `parsed` is the socket address that the
    /// remembered server address stands for, `None` where it stands for none.
    pub fn new(initial_view: screen::View, config: Config, parsed: Option<String>) -> (r: Self)
        ensures
            r.wf(),
            r@ == start_state(initial_view, config@, chosen_addr(opt_text(parsed))),
    {
        let server_input: String = config.server_addr.clone();
        let connect_addr: String = config.server_socket_addr(parsed);
        let r = UmApp {
            view: initial_view,
            identity_pub: None,
            identity_fingerprint: None,
            contacts: Vec::new(),
            open_chat: None,
            threads: KeyMap::new(),
            oldest_loaded: KeyMap::new(),
            has_more_history: KeyMap::new(),
            loading_older: KeySet::new(),
            scroll_offset: KeyMap::new(),
            groups: Vec::new(),
            unread: KeyMap::new(),
            next_local_id: 1,
            passphrase_input: String::new(),
            passphrase_confirm: String::new(),
            server_input,
            add_contact_hex: String::new(),
            add_contact_nick: String::new(),
            compose_input: String::new(),
            new_group_name: String::new(),
            search_query: String::new(),
            replenish_count: "10".to_owned(),
            error: None,
            connected: false,
            config,
            connect_addr,
        };
        assert(r@ =~= start_state(initial_view, config@, chosen_addr(opt_text(parsed))));
        r
    }

    /// The unread messages of all chats.
    pub fn total_unread(&self) -> (r: u32)
        requires
            self.wf(),
            map_total(self@.unread) <= u32::MAX,
        ensures
            r == map_total(self@.unread),
    {
        let ghost s = self.unread.entries@;
        let mut sum: u32 = 0;
        let mut i: usize = 0;
        assert(s.take(0) =~= Seq::<(ChatId, u32)>::empty());
        assert(pairs_map(s.take(0)) =~= Map::<ChatId, u32>::empty());
        while i < self.unread.entries.len()
            invariant
                s == self.unread.entries@,
                keys_distinct(s),
                0 <= i <= s.len(),
                map_total(pairs_map(s)) <= u32::MAX,
                sum == map_total(pairs_map(s.take(i as int))),
            decreases s.len() - i,
        {
            proof {
                lemma_prefix_total(s, i as int);
            }
            sum = sum + self.unread.entries[i].1;
            i = i + 1;
        }
        assert(s.take(i as int) =~= s);
        sum
    }

    /// The server input without white space at its ends: what is to be read as
    /// a socket address for [`Message::ChangeServer`].
    pub fn server_text(&self) -> (r: &str)
        ensures
            r@ == trimmed(self@.server_input),
    {
        trim(self.server_input.as_str())
    }

    /// The loaded messages of a chat.
    pub fn thread(&self, chat: &ChatId) -> (r: Option<&Vec<MessageView>>)
        requires
            self.wf(),
        ensures
            match r {
                Some(v) => self@.threads.contains_key(*chat) && messages_model(v@)
                    == self@.threads[*chat],
                None => !self@.threads.contains_key(*chat),
            },
    {
        self.threads.get(chat)
    }

    /// Adds a message to the end of a thread.
    fn push_message(&mut self, chat: ChatId, msg: MessageView)
        requires
            old(self).wf(),
        ensures
            final(self).wf(),
            final(self)@ == with_message(old(self)@, chat, msg@),
    {
        let ghost before = self.threads@;
        let mut thread: Vec<MessageView> = match self.threads.remove(&chat) {
            Some(v) => v,
            None => Vec::new(),
        };
        let ghost loaded = thread@;
        thread.push(msg);
        proof {
            lemma_threads_put(before.remove(chat), chat, thread);
            assert(messages_model(thread@) =~= messages_model(loaded).push(msg@));
            assert(messages_model(loaded) =~= thread_of(old(self)@, chat));
        }
        self.threads.insert(chat, thread);
        assert(self@ =~= with_message(old(self)@, chat, msg@)) by {
            assert(self@.threads =~= with_message(old(self)@, chat, msg@).threads);
        }
    }

    /// Shows an outgoing message before it is sent.
    pub fn optimistic_send(&mut self, chat: ChatId, text: String, local_id: u64)
        requires
            old(self).wf(),
        ensures
            final(self).wf(),
            final(self)@ == with_message(old(self)@, chat, sending(text@, local_id)),
    {
        self.push_message(
            chat,
            MessageView {
                local_id,
                text,
                dir: Direction::Out,
                timestamp: 0,
                status: Status::Sending,
                sender: None,
            },
        );
    }

    /// Sets the status of the outgoing messages with an id in a thread.
    fn update_outgoing_status(&mut self, chat: ChatId, local_id: u64, status: Status)
        requires
            old(self).wf(),
        ensures
            final(self).wf(),
            final(self)@ == with_outgoing_status(old(self)@, chat, local_id, status),
    {
        let ghost before = self.threads@;
        match self.threads.remove(&chat) {
            Some(v) => {
                let mut thread: Vec<MessageView> = v;
                let ghost loaded = thread@;
                set_status(&mut thread, local_id, status);
                proof {
                    lemma_threads_put(before.remove(chat), chat, thread);
                }
                self.threads.insert(chat, thread);
                assert(self@.threads =~= with_outgoing_status(
                    old(self)@,
                    chat,
                    local_id,
                    status,
                ).threads);
            },
            None => {},
        }
        assert(self@ =~= with_outgoing_status(old(self)@, chat, local_id, status));
    }

    /// Records a group, or its name and number of members where it is known.
    fn upsert_group(&mut self, id: [u8; 32], name: String, members: u32)
        requires
            old(self).wf(),
        ensures
            final(self).wf(),
            final(self)@ == (AppState {
                groups: upserted(old(self)@.groups, GroupModel { id, name: name@, members }),
                ..old(self)@
            }),
    {
        let ghost g = GroupModel { id, name: name@, members };
        let ghost before = self.groups@;
        match find_group(&self.groups, &id) {
            Some(i) => {
                self.groups.set(i, GroupView { id, name, members });
                assert(groups_model(self.groups@) =~= groups_model(before).update(i as int, g));
            },
            None => {
                self.groups.push(GroupView { id, name, members });
                assert(groups_model(self.groups@) =~= groups_model(before).push(g));
            },
        }
    }

    /// Marks a contact's fingerprint as verified.
    fn mark_verified(&mut self, identity_pub: [u8; 32])
        requires
            old(self).wf(),
        ensures
            final(self).wf(),
            final(self)@ == (AppState {
                contacts: verified_in(old(self)@.contacts, identity_pub),
                ..old(self)@
            }),
            final(self)@.contacts.len() == old(self)@.contacts.len(),
            forall|i: int|
                #![trigger final(self)@.contacts[i]]
                0 <= i < old(self)@.contacts.len() ==> final(self)@.contacts[i] == (
                if old(self)@.contacts[i].identity_pub == identity_pub {
                    ContactModel { verified: true, ..old(self)@.contacts[i] }
                } else {
                    old(self)@.contacts[i]
                }),
    {
        let ghost before = contacts_model(self.contacts@);
        let n: usize = self.contacts.len();
        let mut i: usize = 0;
        while i < n
            invariant
                n == self.contacts@.len(),
                n == before.len(),
                0 <= i <= n,
                self.wf(),
                self@ == (AppState { contacts: self@.contacts, ..old(self)@ }),
                forall|j: int|
                    0 <= j < n ==> (#[trigger] self.contacts@[j])@ == (if j < i
                        && before[j].identity_pub == identity_pub {
                        ContactModel { verified: true, ..before[j] }
                    } else {
                        before[j]
                    }),
            decreases n - i,
        {
            assert(self.contacts@[i as int]@ == before[i as int]);
            if same32(&self.contacts[i].identity_pub, &identity_pub) {
                self.contacts[i].verified = true;
            }
            i = i + 1;
        }
        assert(contacts_model(self.contacts@) =~= verified_in(before, identity_pub));
    }

    /// The smallest row id among the loaded rows of a chat.
    pub fn oldest_loaded(&self, chat: &ChatId) -> (r: Option<i64>)
        requires
            self.wf(),
        ensures
            match r {
                Some(id) => self@.oldest_loaded.contains_key(*chat) && self@.oldest_loaded[*chat]
                    == id,
                None => !self@.oldest_loaded.contains_key(*chat),
            },
    {
        match self.oldest_loaded.get(chat) {
            Some(id) => Some(*id),
            None => None,
        }
    }

    /// Whether an older page may be asked for.
    pub fn can_load_older(&self, chat: &ChatId) -> (r: bool)
        requires
            self.wf(),
        ensures
            r == may_load_older(self@, *chat),
    {
        match self.has_more_history.get(chat) {
            Some(more) => *more && !self.loading_older.contains(chat),
            None => false,
        }
    }

    /// Records what a loaded page says of a chat.
    fn note_page(&mut self, chat: ChatId, msgs: &Vec<MessageView>, has_more: bool)
        requires
            old(self).wf(),
        ensures
            final(self).wf(),
            final(self)@ == paged(old(self)@, chat, messages_model(msgs@), has_more),
    {
        if let Some(min) = smallest_id(msgs) {
            let older: bool = match self.oldest_loaded(&chat) {
                Some(known) => min < known,
                None => true,
            };
            if older {
                self.oldest_loaded.insert(chat, min);
            }
        }
        self.has_more_history.insert(chat, has_more);
        assert(self@ =~= paged(old(self)@, chat, messages_model(msgs@), has_more));
    }

    /// Whether a chat is on screen.
    pub fn is_open(&self, chat: &ChatId) -> (r: bool)
        ensures
            r == (self@.open_chat == Some(*chat)),
    {
        match &self.open_chat {
            Some(open) => open.same(chat),
            None => false,
        }
    }

    /// Puts a chat on screen and its messages down as read.
    fn open(&mut self, chat: ChatId)
        requires
            old(self).wf(),
        ensures
            final(self).wf(),
            final(self)@ == opened(old(self)@, chat),
    {
        self.open_chat = Some(chat);
        let _ = self.unread.remove(&chat);
        self.view = match chat {
            ChatId::Peer(k) => screen::View::ChatThread(k),
            ChatId::Group(k) => screen::View::GroupChat(k),
        };
        assert(self@ =~= opened(old(self)@, chat));
    }
}

/// The sum over a list of pairs grows pair by pair and never beyond the whole.
proof fn lemma_prefix_total(s: Seq<(ChatId, u32)>, i: int)
    requires
        keys_distinct(s),
        0 <= i < s.len(),
    ensures
        map_total(pairs_map(s.take(i + 1))) == map_total(pairs_map(s.take(i))) + s[i].1,
        map_total(pairs_map(s.take(i + 1))) <= map_total(pairs_map(s)),
    decreases s.len() - i,
{
    let a = s.take(i);
    let b = s.take(i + 1);
    assert(b =~= a.push(s[i]));
    assert(!has_key(a, s[i].0));
    lemma_pairs_push(a, s[i].0, s[i].1);
    lemma_pairs_finite(b);
    let m = pairs_map(b);
    lemma_map_total(m, s[i].0);
    assert(m.remove(s[i].0) =~= pairs_map(a));
    if i + 1 < s.len() {
        lemma_prefix_total(s, i + 1);
    } else {
        assert(b =~= s);
    }
}

/// Applies an event of the bridge.
pub fn handle_event(app: &mut UmApp, ev: Event) -> (r: Outcome)
    requires
        old(app).wf(),
        event_fits(old(app)@, ev@),
    ensures
        final(app).wf(),
        final(app)@ == event_step(old(app)@, ev@).state,
        outcome_of(r, event_step(old(app)@, ev@)),
{
    let ghost s = app@;
    let ghost step = event_step(s, ev@);
    match ev {
        Event::Ready { identity_pub, identity_fingerprint } => {
            app.identity_pub = Some(identity_pub);
            app.identity_fingerprint = Some(identity_fingerprint);
            app.passphrase_input = String::new();
            app.passphrase_confirm = String::new();
            app.view = screen::View::ContactList;
            let addr: String = app.connect_addr.clone();
            assert(app@ =~= step.state);
            ask(Command::Connect { addr }, Effect::Nothing)
        },
        Event::Connected => {
            app.connected = true;
            app.error = None;
            nothing()
        },
        Event::Disconnected { reason } => {
            app.connected = false;
            let signed_out: bool = match app.view {
                screen::View::Login => true,
                screen::View::Setup => true,
                _ => false,
            };
            if !signed_out {
                app.error = Some(disconnected_text(reason.as_str()));
            }
            nothing()
        },
        Event::Error(e) => {
            app.error = Some(e);
            nothing()
        },
        Event::ContactsLoaded(contacts) => {
            app.contacts = contacts;
            nothing()
        },
        Event::GroupsLoaded(groups) => {
            load_groups(app, &groups);
            nothing()
        },
        Event::UnreadLoaded(counts) => {
            load_unread(app, &counts);
            nothing()
        },
        Event::HistoryLoaded { chat, msgs, has_more } => {
            let ghost model = messages_model(msgs@);
            let _ = app.oldest_loaded.remove(&chat);
            app.note_page(chat, &msgs, has_more);
            proof {
                lemma_threads_put(app.threads@, chat, msgs);
            }
            app.threads.insert(chat, msgs);
            let effect: Effect = snap_for_chat(app, chat);
            assert(app@ =~= step.state);
            only(effect)
        },
        Event::OlderHistoryLoaded { chat, msgs, has_more } => {
            let ghost model = messages_model(msgs@);
            let _ = app.loading_older.remove(&chat);
            app.note_page(chat, &msgs, has_more);
            let rows: usize = msgs.len();
            let mut combined: Vec<MessageView> = msgs;
            let ghost before = app.threads@;
            let mut loaded: Vec<MessageView> = match app.threads.remove(&chat) {
                Some(v) => v,
                None => Vec::new(),
            };
            proof {
                assert(messages_model(loaded@) =~= thread_of(s, chat));
                assert(messages_model(combined@ + loaded@) =~= model + thread_of(s, chat));
            }
            combined.append(&mut loaded);
            proof {
                lemma_threads_put(before.remove(chat), chat, combined);
            }
            app.threads.insert(chat, combined);
            assert(app@.threads =~= step.state.threads);
            assert(app@ =~= step.state);
            if rows > 0 && app.is_open(&chat) {
                let saved: u32 = match app.scroll_offset.get(&chat) {
                    Some(bits) => *bits,
                    None => 0,
                };
                only(Effect::RestoreScroll { chat, saved, rows })
            } else {
                nothing()
            }
        },
        Event::Decrypted { chat, msg } => {
            if app.is_open(&chat) {
                app.push_message(chat, msg);
                only(Effect::SnapToEnd(chat))
            } else {
                let known: u32 = match app.unread.get(&chat) {
                    Some(n) => *n,
                    None => 0,
                };
                let count: u32 = known + 1;
                app.unread.insert(chat, count);
                assert(app@ =~= step.state);
                ask(Command::SetUnread { peer: chat.key(), count }, Effect::Nothing)
            }
        },
        Event::Sent { chat, local_id, msg } => {
            app.update_outgoing_status(chat, local_id, msg.status);
            nothing()
        },
        Event::SendFailed { chat, local_id, reason } => {
            app.update_outgoing_status(chat, local_id, Status::Failed);
            app.error = Some(reason);
            nothing()
        },
        Event::FingerprintVerified { identity_pub } => {
            app.mark_verified(identity_pub);
            nothing()
        },
        Event::GroupCreated { group, name, members } => {
            app.upsert_group(group, name, members);
            app.open(ChatId::Group(group));
            nothing()
        },
        Event::GroupInvited { group, name, members } => {
            app.upsert_group(group, name, members);
            app.error = Some("you were added to a group".to_owned());
            nothing()
        },
    }
}

/// Upserts each group of a list.
fn load_groups(app: &mut UmApp, groups: &Vec<GroupView>)
    requires
        old(app).wf(),
    ensures
        final(app).wf(),
        final(app)@ == (AppState {
            groups: upserted_all(old(app)@.groups, groups_model(groups@)),
            ..old(app)@
        }),
{
    let ghost s = app@;
    let ghost new = groups_model(groups@);
    let mut i: usize = 0;
    assert(new.take(0) =~= Seq::<GroupModel>::empty());
    while i < groups.len()
        invariant
            new == groups_model(groups@),
            0 <= i <= groups@.len(),
            app.wf(),
            app@ == (AppState { groups: upserted_all(s.groups, new.take(i as int)), ..s }),
        decreases groups@.len() - i,
    {
        let name: String = groups[i].name.clone();
        app.upsert_group(groups[i].id, name, groups[i].members);
        proof {
            let next = new.take(i + 1);
            assert(next.drop_last() =~= new.take(i as int));
            assert(next.last() == groups@[i as int]@);
        }
        i = i + 1;
    }
    assert(new.take(i as int) =~= new);
}

/// Takes over the unread counts of the store.
fn load_unread(app: &mut UmApp, counts: &Vec<([u8; 32], u32)>)
    requires
        old(app).wf(),
    ensures
        final(app).wf(),
        final(app)@ == (AppState {
            unread: unread_of(old(app)@.groups, counts@),
            ..old(app)@
        }),
{
    let ghost s = app@;
    app.unread = KeyMap::new();
    let mut i: usize = 0;
    assert(counts@.take(0) =~= Seq::<([u8; 32], u32)>::empty());
    assert(app@ =~= (AppState { unread: unread_of(s.groups, counts@.take(0)), ..s }));
    while i < counts.len()
        invariant
            0 <= i <= counts@.len(),
            app.wf(),
            app@ == (AppState { unread: unread_of(s.groups, counts@.take(i as int)), ..s }),
        decreases counts@.len() - i,
    {
        let key: [u8; 32] = counts[i].0;
        let count: u32 = counts[i].1;
        let ghost before = app@;
        proof {
            let next = counts@.take(i + 1);
            assert(next.drop_last() =~= counts@.take(i as int));
            assert(next.last() == counts@[i as int]);
        }
        if count != 0 {
            let chat: ChatId = match find_group(&app.groups, &key) {
                Some(_) => ChatId::Group(key),
                None => ChatId::Peer(key),
            };
            app.unread.insert(chat, count);
        }
        assert(app@ =~= (AppState { unread: unread_of(s.groups, counts@.take(i + 1)), ..s }));
        i = i + 1;
    }
    assert(counts@.take(i as int) =~= counts@);
}

/// Scrolling to the end, where the chat is on screen.
fn snap_for_chat(app: &UmApp, chat: ChatId) -> (r: Effect)
    ensures
        r == snap_of(app@, chat),
{
    if app.is_open(&chat) {
        Effect::SnapToEnd(chat)
    } else {
        Effect::Nothing
    }
}

/// Sends what is typed to the open chat.
fn send_pressed(app: &mut UmApp) -> (r: Outcome)
    requires
        old(app).wf(),
        old(app)@.next_local_id < u64::MAX,
    ensures
        final(app).wf(),
        final(app)@ == send_step(old(app)@).state,
        outcome_of(r, send_step(old(app)@)),
{
    let ghost s = app@;
    let text: String = trim(app.compose_input.as_str()).to_owned();
    if text.as_str().is_empty() {
        return nothing();
    }
    let local_id: u64 = app.next_local_id;
    app.next_local_id = local_id + 1;
    let chat: ChatId = match app.open_chat {
        Some(chat) => chat,
        None => {
            assert(app@ =~= send_step(s).state);
            return nothing();
        },
    };
    let known: bool = match app.threads.get(&chat) {
        Some(thread) => any_outgoing(thread),
        None => false,
    };
    assert(known == has_outgoing(thread_of(s, chat)));
    app.optimistic_send(chat, text.clone(), local_id);
    app.compose_input = String::new();
    let command: Command = match chat {
        ChatId::Peer(peer) => if known {
            Command::SendMessage { peer, text, local_id }
        } else {
            Command::StartSession { peer, first_message: text, local_id }
        },
        ChatId::Group(group) => Command::SendGroupMessage { group, text, local_id },
    };
    assert(app@ =~= send_step(s).state);
    ask(command, Effect::SnapToEnd(chat))
}

/// Opens a chat and asks for its thread.
fn open_pressed(app: &mut UmApp, chat: ChatId) -> (r: Outcome)
    requires
        old(app).wf(),
    ensures
        final(app).wf(),
        final(app)@ == open_step(old(app)@, chat).state,
        outcome_of(r, open_step(old(app)@, chat)),
{
    app.open(chat);
    let mut commands: Vec<Command> = Vec::new();
    commands.push(Command::SetUnread { peer: chat.key(), count: 0 });
    commands.push(
        match chat {
            ChatId::Peer(peer) => Command::LoadThread { peer },
            ChatId::Group(group) => Command::LoadGroupThread { group },
        },
    );
    assert(commands_model(commands@) =~= open_step(old(app)@, chat).commands);
    Outcome { commands, effect: Effect::Nothing }
}

/// Records where a thread is scrolled to, and asks for an older page at its top.
fn scrolled(app: &mut UmApp, chat: ChatId, at_top: bool, offset: u32) -> (r: Outcome)
    requires
        old(app).wf(),
    ensures
        final(app).wf(),
        final(app)@ == scroll_step(old(app)@, chat, at_top, offset).state,
        outcome_of(r, scroll_step(old(app)@, chat, at_top, offset)),
{
    let ghost s = app@;
    app.scroll_offset.insert(chat, offset);
    assert(app@ =~= (AppState { scroll_offset: s.scroll_offset.insert(chat, offset), ..s }));
    if at_top && app.can_load_older(&chat) {
        if let Some(before_id) = app.oldest_loaded(&chat) {
            let _ = app.loading_older.insert(chat);
            assert(app@ =~= scroll_step(s, chat, at_top, offset).state);
            let command: Command = match chat {
                ChatId::Peer(peer) => Command::LoadOlder { peer, before_id },
                ChatId::Group(group) => Command::LoadOlderGroup { group, before_id },
            };
            return ask(command, Effect::Nothing);
        }
    }
    nothing()
}

/// Asks for a group of all contacts.
fn create_group_pressed(app: &mut UmApp) -> (r: Outcome)
    requires
        old(app).wf(),
    ensures
        final(app).wf(),
        final(app)@ == create_group_step(old(app)@).state,
        outcome_of(r, create_group_step(old(app)@)),
{
    let ghost s = app@;
    let name: String = trim(app.new_group_name.as_str()).to_owned();
    if name.as_str().is_empty() {
        app.error = Some("group name is empty".to_owned());
        return nothing();
    }
    let n: usize = app.contacts.len();
    if n == 0 {
        app.error = Some("add contacts before creating a group".to_owned());
        return nothing();
    }
    let mut members: Vec<[u8; 32]> = Vec::new();
    let mut i: usize = 0;
    while i < n
        invariant
            n == app.contacts@.len(),
            0 <= i <= n,
            members@.len() == i,
            forall|j: int|
                0 <= j < i ==> #[trigger] members@[j] == app.contacts@[j].identity_pub,
        decreases n - i,
    {
        members.push(app.contacts[i].identity_pub);
        i = i + 1;
    }
    assert(members@ =~= s.contacts.map_values(|c: ContactModel| c.identity_pub));
    app.new_group_name = String::new();
    app.error = None;
    assert(app@ =~= create_group_step(s).state);
    ask(Command::CreateGroup { name, members }, Effect::Nothing)
}

/// Asks for a contact to be added, from the typed key and nickname.
fn add_contact_pressed(app: &mut UmApp) -> (r: Outcome)
    requires
        old(app).wf(),
    ensures
        final(app).wf(),
        final(app)@ == message_step(old(app)@, Message::AddContact).state,
        outcome_of(r, message_step(old(app)@, Message::AddContact)),
{
    let ghost s = app@;
    match parse_pubkey_hex(app.add_contact_hex.as_str()) {
        Ok(identity_pub) => {
            let nickname: String = app.add_contact_nick.clone();
            app.add_contact_hex = String::new();
            app.add_contact_nick = String::new();
            app.error = None;
            proof {
                lemma_array_of(identity_pub);
            }
            assert(app@ =~= message_step(s, Message::AddContact).state);
            ask(Command::AddContact { identity_pub, nickname }, Effect::Nothing)
        },
        Err(e) => {
            app.error = Some(e);
            nothing()
        },
    }
}

/// Leaves nothing of the identity.
fn log_out(app: &mut UmApp) -> (r: Outcome)
    requires
        old(app).wf(),
    ensures
        final(app).wf(),
        final(app)@ == logged_out(old(app)@),
        commands_model(r.commands@) == seq![CommandModel::Logout],
        r.effect == Effect::Nothing,
{
    app.identity_pub = None;
    app.identity_fingerprint = None;
    app.contacts = Vec::new();
    app.threads = KeyMap::new();
    app.groups = Vec::new();
    app.unread = KeyMap::new();
    app.search_query = String::new();
    app.oldest_loaded = KeyMap::new();
    app.has_more_history = KeyMap::new();
    app.loading_older = KeySet::new();
    app.scroll_offset = KeyMap::new();
    app.view = screen::View::Login;
    app.passphrase_input = String::new();
    app.connected = false;
    assert(app@ =~= logged_out(old(app)@));
    ask(Command::Logout, Effect::Nothing)
}

/// Applies a message.
pub fn update(app: &mut UmApp, msg: Message) -> (r: Outcome)
    requires
        old(app).wf(),
        message_fits(old(app)@, msg),
    ensures
        final(app).wf(),
        final(app)@ == message_step(old(app)@, msg).state,
        outcome_of(r, message_step(old(app)@, msg)),
{
    match msg {
        Message::PassphraseChanged(t) => {
            app.passphrase_input = t;
            nothing()
        },
        Message::PassphraseConfirmChanged(t) => {
            app.passphrase_confirm = t;
            nothing()
        },
        Message::ServerChanged(t) => {
            app.server_input = t;
            nothing()
        },
        Message::AddContactHexChanged(t) => {
            app.add_contact_hex = t;
            nothing()
        },
        Message::AddContactNickChanged(t) => {
            app.add_contact_nick = t;
            nothing()
        },
        Message::ComposeChanged(t) => {
            app.compose_input = t;
            nothing()
        },
        Message::NewGroupNameChanged(t) => {
            app.new_group_name = t;
            nothing()
        },
        Message::SearchChanged(t) => {
            app.search_query = t;
            nothing()
        },
        Message::ReplenishCountChanged(t) => {
            app.replenish_count = t;
            nothing()
        },
        Message::SetupSubmit => {
            if app.passphrase_input.as_str().unicode_len() < 8 {
                app.error = Some("passphrase must be at least 8 characters".to_owned());
                nothing()
            } else if app.passphrase_input != app.passphrase_confirm {
                app.error = Some("passphrases do not match".to_owned());
                nothing()
            } else {
                app.error = None;
                let passphrase: String = app.passphrase_input.clone();
                ask(Command::Setup { passphrase, one_time_count: 10 }, Effect::Nothing)
            }
        },
        Message::UnlockSubmit => {
            app.error = None;
            let passphrase: String = app.passphrase_input.clone();
            ask(Command::Unlock { passphrase }, Effect::Nothing)
        },
        Message::OpenContactList => {
            app.view = screen::View::ContactList;
            nothing()
        },
        Message::OpenSettings => {
            app.view = screen::View::Settings;
            nothing()
        },
        Message::OpenChat(peer) => open_pressed(app, ChatId::Peer(peer)),
        Message::OpenGroup(group) => open_pressed(app, ChatId::Group(group)),
        Message::Back => {
            app.view = screen::View::ContactList;
            app.open_chat = None;
            nothing()
        },
        Message::AddContact => add_contact_pressed(app),
        Message::VerifyFingerprint(peer) => {
            app.mark_verified(peer);
            ask(Command::VerifyFingerprint { identity_pub: peer }, Effect::Nothing)
        },
        Message::SendPressed => send_pressed(app),
        Message::ChatScrolled { chat, at_top, offset } => scrolled(app, chat, at_top, offset),
        Message::CreateGroupPressed => create_group_pressed(app),
        Message::RotateSignedPrekey => ask(Command::RotateSignedPrekey, Effect::Nothing),
        Message::ReplenishOneTimePrekeys => {
            match parse_number(trim(app.replenish_count.as_str())) {
                Some(count) if count > 0 => {
                    app.error = None;
                    ask(Command::ReplenishOneTimePrekeys { count }, Effect::Nothing)
                },
                _ => {
                    app.error = Some("replenish count must be a positive number".to_owned());
                    nothing()
                },
            }
        },
        Message::ChangeServer(addr) => match addr {
            Some(addr) => {
                app.error = None;
                ask(Command::ChangeServer { addr }, Effect::Nothing)
            },
            None => {
                app.error = Some("invalid server address".to_owned());
                nothing()
            },
        },
        Message::Logout => log_out(app),
        Message::Event(ev) => handle_event(app, ev),
        Message::DismissError => {
            app.error = None;
            nothing()
        },
        Message::Quit => only(Effect::Quit),
    }
}

// ---- Laws ---------------------------------------------------------------------------

/// No two groups have one id.
pub open spec fn group_ids_distinct(groups: Seq<GroupModel>) -> bool {
    forall|i: int, j: int|
        #![trigger groups[i], groups[j]]
        0 <= i < j < groups.len() ==> groups[i].id != groups[j].id
}

/// A place that was found is one; where none was found, there is none.
proof fn lemma_group_place(groups: Seq<GroupModel>, id: [u8; 32], from: int)
    requires
        0 <= from,
    ensures
        match group_place(groups, id, from) {
            Some(i) => from <= i < groups.len() && groups[i].id == id,
            None => forall|j: int| from <= j < groups.len() ==> (#[trigger] groups[j]).id != id,
        },
    decreases groups.len() - from,
{
    if from < groups.len() && groups[from].id != id {
        lemma_group_place(groups, id, from + 1);
    }
}

/// A group that is told of again is not listed twice.
pub proof fn lemma_upsert_keeps_ids_distinct(groups: Seq<GroupModel>, g: GroupModel)
    requires
        group_ids_distinct(groups),
    ensures
        group_ids_distinct(upserted(groups, g)),
        upserted(groups, g).contains(g),
{
    lemma_group_place(groups, g.id, 0);
    let after = upserted(groups, g);
    match group_place(groups, g.id, 0) {
        Some(i) => {
            assert(after[i] == g);
        },
        None => {
            assert(after[after.len() - 1] == g);
        },
    }
}

/// The same for a list of groups.
pub proof fn lemma_upsert_all_keeps_ids_distinct(groups: Seq<GroupModel>, new: Seq<GroupModel>)
    requires
        group_ids_distinct(groups),
    ensures
        group_ids_distinct(upserted_all(groups, new)),
    decreases new.len(),
{
    if new.len() > 0 {
        lemma_upsert_all_keeps_ids_distinct(groups, new.drop_last());
        lemma_upsert_keeps_ids_distinct(upserted_all(groups, new.drop_last()), new.last());
    }
}

/// No message and no event makes the list of groups hold one twice.
pub proof fn lemma_groups_stay_distinct(s: AppState, msg: Message)
    requires
        group_ids_distinct(s.groups),
    ensures
        group_ids_distinct(message_step(s, msg).state.groups),
{
    if let Message::Event(ev) = msg {
        match ev@ {
            EventModel::GroupsLoaded(groups) => {
                lemma_upsert_all_keeps_ids_distinct(s.groups, groups);
            },
            EventModel::GroupCreated { group, name, members } => {
                lemma_upsert_keeps_ids_distinct(s.groups, GroupModel { id: group, name, members });
            },
            EventModel::GroupInvited { group, name, members } => {
                lemma_upsert_keeps_ids_distinct(s.groups, GroupModel { id: group, name, members });
            },
            _ => {},
        }
    }
}

/// A message that comes in for a chat that is not on screen adds one to its
/// unread count, which is also stored, and to no other; opening the chat sets
/// the count back and stores that.
pub proof fn lemma_unread_until_opened(s: AppState, chat: ChatId, msg: MessageModel)
    requires
        s.open_chat != Some(chat),
        unread_count(s, chat) < u32::MAX,
    ensures
        ({
            let counted = event_step(s, EventModel::Decrypted { chat, msg });
            let read = open_step(counted.state, chat);
            &&& unread_count(counted.state, chat) == unread_count(s, chat) + 1
            &&& forall|c: ChatId|
                c != chat ==> #[trigger] unread_count(counted.state, c) == unread_count(s, c)
            &&& counted.commands == seq![
                CommandModel::SetUnread {
                    peer: chat.key_spec(),
                    count: (unread_count(s, chat) + 1) as u32,
                },
            ]
            &&& counted.state.threads == s.threads
            &&& unread_count(read.state, chat) == 0
            &&& read.commands[0] == CommandModel::SetUnread { peer: chat.key_spec(), count: 0 }
        }),
{
}

/// A message that comes in for the chat on screen is shown at the end of its
/// thread and is not counted as unread.
pub proof fn lemma_open_chat_shows_messages(s: AppState, chat: ChatId, msg: MessageModel)
    requires
        s.open_chat == Some(chat),
    ensures
        ({
            let step = event_step(s, EventModel::Decrypted { chat, msg });
            &&& thread_of(step.state, chat) == thread_of(s, chat).push(msg)
            &&& step.state.unread == s.unread
            &&& step.commands.len() == 0
        }),
{
}

/// While an older page of a chat is on its way, scrolling asks for no second
/// one, and only its arrival or logging out ends the wait.
pub proof fn lemma_one_older_page_at_a_time(s: AppState, chat: ChatId, msg: Message)
    requires
        s.loading_older.contains(chat),
    ensures
        msg matches Message::ChatScrolled { chat: c, .. } && c == chat ==> message_step(
            s,
            msg,
        ).commands.len() == 0,
        !(msg is Logout) && !(msg matches Message::Event(ev) && (ev@ matches EventModel::OlderHistoryLoaded { chat: c, .. } && c == chat)) ==> message_step(
            s,
            msg,
        ).state.loading_older.contains(chat),
        msg matches Message::Event(ev) && (ev@ matches EventModel::OlderHistoryLoaded {
            chat: c,
            ..
        } && c == chat) ==> !message_step(s, msg).state.loading_older.contains(chat),
{
}

/// An older page goes in front of the loaded one, and the oldest row id is the
/// smallest of both.
pub proof fn lemma_pages_join(
    s: AppState,
    chat: ChatId,
    newest: Seq<MessageModel>,
    older: Seq<MessageModel>,
    more: bool,
    still_more: bool,
)
    ensures
        ({
            let first = event_step(
                s,
                EventModel::HistoryLoaded { chat, msgs: newest, has_more: more },
            ).state;
            let both = event_step(
                first,
                EventModel::OlderHistoryLoaded { chat, msgs: older, has_more: still_more },
            ).state;
            &&& thread_of(both, chat) == older + newest
            &&& (match page_min(newest + older) {
                Some(min) => both.oldest_loaded.contains_key(chat) && both.oldest_loaded[chat]
                    == min,
                None => !both.oldest_loaded.contains_key(chat),
            })
            &&& may_load_older(both, chat) == still_more
        }),
{
    lemma_page_min_join(newest, older);
}

/// The smallest row id of two pages is the smaller of theirs.
proof fn lemma_page_min_join(a: Seq<MessageModel>, b: Seq<MessageModel>)
    ensures
        page_min(a + b) == (match (page_min(a), page_min(b)) {
            (Some(x), Some(y)) => Some(
                if y < x {
                    y
                } else {
                    x
                },
            ),
            (None, y) => y,
            (x, None) => x,
        }),
    decreases b.len(),
{
    if b.len() == 0 {
        assert(a + b =~= a);
    } else {
        lemma_page_min_join(a, b.drop_last());
        assert((a + b).drop_last() =~= a + b.drop_last());
        assert((a + b).last() == b.last());
    }
}

/// A message that is sent is shown at once, at the end of the open thread, and
/// takes on the status that the bridge reports for it.
pub proof fn lemma_sent_message_gets_its_status(s: AppState, chat: ChatId, msg: MessageModel)
    requires
        s.open_chat == Some(chat),
        trimmed(s.compose_input).len() > 0,
        s.next_local_id < u64::MAX,
    ensures
        ({
            let shown = send_step(s).state;
            let told = event_step(
                shown,
                EventModel::Sent { chat, local_id: s.next_local_id, msg },
            ).state;
            let text = trimmed(s.compose_input);
            &&& thread_of(shown, chat).last() == sending(text, s.next_local_id)
            &&& thread_of(told, chat).last() == (MessageModel {
                status: msg.status,
                ..sending(text, s.next_local_id)
            })
            &&& thread_of(told, chat).len() == thread_of(s, chat).len() + 1
            &&& shown.next_local_id == s.next_local_id + 1
        }),
{
}

/// A reported status reaches every outgoing message with the reported id,
/// whatever its status was, and changes nothing else of it; messages received
/// and messages with other ids stay as they are.
pub proof fn lemma_status_of_others_stays(
    s: AppState,
    chat: ChatId,
    local_id: u64,
    status: Status,
    i: int,
)
    requires
        0 <= i < thread_of(s, chat).len(),
    ensures
        ({
            let told = with_outgoing_status(s, chat, local_id, status);
            let (old_row, new_row) = (thread_of(s, chat)[i], thread_of(told, chat)[i]);
            &&& thread_of(told, chat).len() == thread_of(s, chat).len()
            &&& !is_outgoing(old_row, local_id) ==> new_row == old_row
            &&& is_outgoing(old_row, local_id) ==> new_row == (MessageModel { status, ..old_row })
        }),
{
}

/// The first message to a peer starts a session; later ones go out on it.
pub proof fn lemma_first_message_starts_session(s: AppState, peer: [u8; 32])
    requires
        s.open_chat == Some(ChatId::Peer(peer)),
        trimmed(s.compose_input).len() > 0,
        s.next_local_id < u64::MAX,
    ensures
        !has_outgoing(thread_of(s, ChatId::Peer(peer))) ==> send_step(s).commands[0] is StartSession,
        has_outgoing(thread_of(s, ChatId::Peer(peer))) ==> send_step(s).commands[0] is SendMessage,
        has_outgoing(thread_of(send_step(s).state, ChatId::Peer(peer))),
{
    let after = thread_of(send_step(s).state, ChatId::Peer(peer));
    assert(after[after.len() - 1].dir == Direction::Out);
}

/// Logging out leaves no identity, contacts, threads, groups, counts, search,
/// pages or offsets of the one before.
pub proof fn lemma_logout_forgets(s: AppState)
    ensures
        ({
            let t = message_step(s, Message::Logout).state;
            &&& t.identity_pub is None && t.identity_fingerprint is None
            &&& t.contacts.len() == 0 && t.groups.len() == 0
            &&& t.threads == Map::<ChatId, Seq<MessageModel>>::empty()
            &&& map_total(t.unread) == 0
            &&& t.search_query.len() == 0 && t.passphrase_input.len() == 0
            &&& forall|chat: ChatId| !may_load_older(t, chat)
            &&& t.scroll_offset == Map::<ChatId, u32>::empty()
            &&& t.oldest_loaded == Map::<ChatId, i64>::empty()
            &&& t.view is Login && !t.connected
        }),
{
}

/// Opening the settings keeps the open chat; going back closes it.
pub proof fn lemma_back_closes_chat(s: AppState)
    ensures
        message_step(s, Message::OpenSettings).state.open_chat == s.open_chat,
        message_step(s, Message::Back).state.open_chat is None,
        message_step(s, Message::Back).state.view is ContactList,
{
}

} // verus!
