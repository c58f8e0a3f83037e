//! What the messages and events of the user interface do to what is shown, said
//! of the fields of the state one by one.
use crate::bytes::array_of;
use crate::gui::app::{
    chat_of_key, event_step, group_place, message_step, outcome_of, page_min, start_state,
    thread_of, unread_count, unread_of, upserted, upserted_all, verified_in, AppState, Effect,
    Message, Outcome, Step,
};
use crate::gui::command::CommandModel;
use crate::gui::config::ConfigModel;
use crate::gui::event::EventModel;
use crate::gui::screen;
use crate::gui::types::{ChatId, ContactModel, Direction, GroupModel, MessageModel, Status};
use crate::gui::views::{key_error_text, key_of_text};
use crate::text::{number_of, trimmed};
use vstd::prelude::*;

verus! {

// ---- Contacts ---------------------------------------------------------------------------

/// Verifying a fingerprint marks the contacts with that key, changes nothing
/// else of them, and leaves every other contact as it is, at its place.
pub proof fn lemma_only_that_contact_verified(contacts: Seq<ContactModel>, k: [u8; 32])
    ensures
        verified_in(contacts, k).len() == contacts.len(),
        forall|i: int|
            0 <= i < contacts.len() && contacts[i].identity_pub != k ==> #[trigger] verified_in(
                contacts,
                k,
            )[i] == contacts[i],
        forall|i: int|
            0 <= i < contacts.len() && contacts[i].identity_pub == k ==> #[trigger] verified_in(
                contacts,
                k,
            )[i] == (ContactModel { verified: true, ..contacts[i] }),
{
}

/// Pressing the button and the bridge's report both verify the contact at
/// place `i` exactly where it has the key, and change nothing but contacts; the
/// bridge is asked to keep the mark.
pub proof fn lemma_verifying_marks_one_key(s: AppState, k: [u8; 32], i: int)
    requires
        0 <= i < s.contacts.len(),
    ensures
        ({
            let pressed = message_step(s, Message::VerifyFingerprint(k));
            let told = event_step(s, EventModel::FingerprintVerified { identity_pub: k });
            let (old_contact, new_contact) = (s.contacts[i], pressed.state.contacts[i]);
            &&& pressed.state.contacts.len() == s.contacts.len()
            &&& new_contact.identity_pub == old_contact.identity_pub
            &&& new_contact.nickname == old_contact.nickname
            &&& new_contact.fingerprint == old_contact.fingerprint
            &&& new_contact.verified == (old_contact.verified || old_contact.identity_pub == k)
            &&& told.state.contacts == pressed.state.contacts
            &&& pressed.state == (AppState { contacts: pressed.state.contacts, ..s })
            &&& told.state == pressed.state
            &&& pressed.commands == seq![CommandModel::VerifyFingerprint { identity_pub: k }]
            &&& told.commands.len() == 0
            &&& pressed.effect is Nothing && told.effect is Nothing
        }),
{
    lemma_only_that_contact_verified(s.contacts, k);
}

/// A fingerprint that is verified stays so, whatever other key is verified.
pub proof fn lemma_verifying_commutes(contacts: Seq<ContactModel>, a: [u8; 32], b: [u8; 32])
    ensures
        verified_in(verified_in(contacts, a), b) == verified_in(verified_in(contacts, b), a),
        verified_in(verified_in(contacts, a), a) == verified_in(contacts, a),
{
    assert(verified_in(verified_in(contacts, a), b) =~= verified_in(verified_in(contacts, b), a));
    assert(verified_in(verified_in(contacts, a), a) =~= verified_in(contacts, a));
}

/// Contacts that are told of take the place of those listed, and nothing else
/// changes.
pub proof fn lemma_contacts_replaced(s: AppState, contacts: Seq<ContactModel>)
    ensures
        ({
            let step = event_step(s, EventModel::ContactsLoaded(contacts));
            &&& step.state == (AppState { contacts, ..s })
            &&& step.commands.len() == 0
            &&& step.effect is Nothing
        }),
{
}

/// A contact is asked for with the key that the typed digits stand for and the
/// typed name; what is no key is told and nothing is asked for.
pub proof fn lemma_contact_asked_for(s: AppState)
    ensures
        ({
            let step = message_step(s, Message::AddContact);
            match key_of_text(s.add_contact_hex) {
                Ok(k) => step.commands == seq![
                    CommandModel::AddContact {
                        identity_pub: array_of(k),
                        nickname: s.add_contact_nick,
                    },
                ] && step.state.add_contact_hex.len() == 0 && step.state.add_contact_nick.len() == 0
                    && step.state.error is None && step.state == (AppState {
                    add_contact_hex: step.state.add_contact_hex,
                    add_contact_nick: step.state.add_contact_nick,
                    error: None,
                    ..s
                }),
                Err(e) => step.commands.len() == 0 && step.state.error == Some(key_error_text(e))
                    && step.state == (AppState { error: step.state.error, ..s }),
            }
        }),
        message_step(s, Message::AddContact).effect is Nothing,
{
}

// ---- Groups -----------------------------------------------------------------------------

/// The place of a group is the first with its id; there is none where no group
/// has it.
pub proof fn lemma_place_of_group(groups: Seq<GroupModel>, id: [u8; 32], from: int)
    requires
        0 <= from,
    ensures
        match group_place(groups, id, from) {
            Some(i) => from <= i < groups.len() && groups[i].id == id && (forall|j: int|
                from <= j < i ==> (#[trigger] groups[j]).id != id),
            None => forall|j: int| from <= j < groups.len() ==> (#[trigger] groups[j]).id != id,
        },
    decreases groups.len() - from,
{
    if from < groups.len() && groups[from].id != id {
        lemma_place_of_group(groups, id, from + 1);
    }
}

/// A group that is told of takes the place of the one with its id, or comes
/// last where there was none; no other group changes or moves.
pub proof fn lemma_upsert_leaves_others(groups: Seq<GroupModel>, g: GroupModel)
    ensures
        ({
            let after = upserted(groups, g);
            let known = exists|i: int| 0 <= i < groups.len() && (#[trigger] groups[i]).id == g.id;
            &&& after.len() == (if known {
                groups.len()
            } else {
                groups.len() + 1
            })
            &&& !known ==> after == groups.push(g)
            &&& forall|i: int|
                0 <= i < groups.len() && groups[i].id != g.id ==> #[trigger] after[i] == groups[i]
            &&& forall|i: int|
                0 <= i < groups.len() && groups[i].id == g.id && (forall|j: int|
                    0 <= j < i ==> (#[trigger] groups[j]).id != g.id) ==> #[trigger] after[i] == g
            &&& forall|i: int| 0 <= i < groups.len() ==> (#[trigger] after[i]).id == groups[i].id
            &&& after.contains(g)
        }),
{
    lemma_place_of_group(groups, g.id, 0);
    let after = upserted(groups, g);
    match group_place(groups, g.id, 0) {
        Some(i) => {
            assert(groups[i].id == g.id);
            assert(after[i] == g);
        },
        None => {
            assert(after[after.len() - 1] == g);
        },
    }
}

/// A list of groups that is told of leaves every group that it does not name
/// as it is, at its place, and lists each that it names, as it is told of last.
pub proof fn lemma_groups_told_of(groups: Seq<GroupModel>, new: Seq<GroupModel>)
    ensures
        ({
            let after = upserted_all(groups, new);
            &&& after.len() >= groups.len()
            &&& forall|i: int|
                0 <= i < groups.len() && (forall|j: int|
                    0 <= j < new.len() ==> (#[trigger] new[j]).id != groups[i].id) ==> #[trigger] after[i]
                    == groups[i]
            &&& forall|j: int|
                0 <= j < new.len() && (forall|k: int|
                    j < k < new.len() ==> (#[trigger] new[k]).id != new[j].id) ==> after.contains(
                    #[trigger] new[j],
                )
            &&& forall|i: int|
                groups.len() <= i < after.len() ==> exists|j: int|
                    0 <= j < new.len() && (#[trigger] new[j]).id == (#[trigger] after[i]).id
        }),
    decreases new.len(),
{
    if new.len() > 0 {
        let rest = new.drop_last();
        let g = new.last();
        let n = new.len() - 1;
        let before = upserted_all(groups, rest);
        let after = upserted_all(groups, new);
        lemma_groups_told_of(groups, rest);
        lemma_upsert_leaves_others(before, g);
        assert(forall|j: int| 0 <= j < n ==> rest[j] == #[trigger] new[j]);
        assert forall|i: int|
            0 <= i < groups.len() && (forall|j: int|
                0 <= j < new.len() ==> (#[trigger] new[j]).id != groups[i].id) implies #[trigger] after[i]
            == groups[i] by {
            assert forall|j: int| 0 <= j < rest.len() implies (#[trigger] rest[j]).id
                != groups[i].id by {
                assert(new[j].id != groups[i].id);
            }
            assert(before[i] == groups[i]);
            assert(new[n].id != groups[i].id);
        }
        assert forall|j: int|
            0 <= j < new.len() && (forall|k: int|
                j < k < new.len() ==> (#[trigger] new[k]).id != new[j].id) implies after.contains(
            #[trigger] new[j],
        ) by {
            if j < n {
                assert forall|k: int| j < k < rest.len() implies (#[trigger] rest[k]).id
                    != rest[j].id by {
                    assert(new[k].id != new[j].id);
                }
                assert(before.contains(rest[j]));
                let i = choose|i: int| 0 <= i < before.len() && before[i] == rest[j];
                assert(new[n].id != new[j].id);
                assert(after[i] == before[i]);
            }
        }
        assert forall|i: int| groups.len() <= i < after.len() implies exists|j: int|
            0 <= j < new.len() && (#[trigger] new[j]).id == (#[trigger] after[i]).id by {
            if i < before.len() {
                let j = choose|j: int|
                    0 <= j < rest.len() && (#[trigger] rest[j]).id == before[i].id;
                assert(new[j].id == after[i].id);
            } else {
                assert(new[n].id == after[i].id);
            }
        }
    }
}

/// Groups that are told of enter the list of groups and nothing else; a group
/// that was made is opened; of one that the client was added to the user is
/// told.
pub proof fn lemma_group_events(s: AppState, new: Seq<GroupModel>, g: GroupModel)
    ensures
        event_step(s, EventModel::GroupsLoaded(new)).state == (AppState {
            groups: upserted_all(s.groups, new),
            ..s
        }),
        ({
            let made = event_step(
                s,
                EventModel::GroupCreated { group: g.id, name: g.name, members: g.members },
            );
            let chat = ChatId::Group(g.id);
            &&& made.state.groups == upserted(s.groups, g)
            &&& made.state.open_chat == Some(chat)
            &&& made.state.view == screen::View::GroupChat(g.id)
            &&& unread_count(made.state, chat) == 0
            &&& forall|c: ChatId|
                c != chat ==> #[trigger] unread_count(made.state, c) == unread_count(s, c)
            &&& made.state == (AppState {
                groups: made.state.groups,
                open_chat: made.state.open_chat,
                view: made.state.view,
                unread: made.state.unread,
                ..s
            })
            &&& made.commands.len() == 0
        }),
        ({
            let told = event_step(
                s,
                EventModel::GroupInvited { group: g.id, name: g.name, members: g.members },
            );
            &&& told.state.groups == upserted(s.groups, g)
            &&& told.state.error == Some("you were added to a group"@)
            &&& told.state == (AppState {
                groups: told.state.groups,
                error: told.state.error,
                ..s
            })
            &&& told.commands.len() == 0
        }),
{
}

/// A group is asked for with the typed name, white space around it aside, and
/// with every contact, in order; without a name or contacts it is not.
pub proof fn lemma_group_asked_for(s: AppState)
    ensures
        ({
            let step = message_step(s, Message::CreateGroupPressed);
            let name = trimmed(s.new_group_name);
            &&& if name.len() > 0 && s.contacts.len() > 0 {
                &&& step.commands.len() == 1
                &&& step.commands[0] matches CommandModel::CreateGroup { name: asked, members }
                &&& asked == name
                &&& members.len() == s.contacts.len()
                &&& forall|i: int|
                    0 <= i < s.contacts.len() ==> #[trigger] members[i] == s.contacts[i].identity_pub
                &&& step.state.new_group_name.len() == 0 && step.state.error is None
                &&& step.state == (AppState {
                    new_group_name: step.state.new_group_name,
                    error: None,
                    ..s
                })
            } else {
                &&& step.commands.len() == 0
                &&& step.state.error is Some
                &&& step.state == (AppState { error: step.state.error, ..s })
                &&& name.len() == 0 ==> step.state.error == Some("group name is empty"@)
                &&& name.len() > 0 ==> step.state.error == Some(
                    "add contacts before creating a group"@,
                )
            }
            &&& step.effect is Nothing
        }),
{
}

// ---- Unread messages --------------------------------------------------------------------

/// 32 bytes stand for a group where one has them as its id, else for a peer, and
/// for nothing else.
pub proof fn lemma_chat_of_key(groups: Seq<GroupModel>, key: [u8; 32])
    ensures
        chat_of_key(groups, key) == ChatId::Group(key) || chat_of_key(groups, key) == ChatId::Peer(
            key,
        ),
        chat_of_key(groups, key) is Group <==> exists|i: int|
            0 <= i < groups.len() && (#[trigger] groups[i]).id == key,
{
    lemma_place_of_group(groups, key, 0);
}

/// Counts of the store, no chat twice among them, reach the chats that they are
/// of: each that is not 0 is the count of its chat, and no other chat has one.
pub proof fn lemma_stored_counts(groups: Seq<GroupModel>, counts: Seq<([u8; 32], u32)>)
    requires
        forall|i: int, j: int|
            #![trigger counts[i], counts[j]]
            0 <= i < j < counts.len() ==> counts[i].0 != counts[j].0,
    ensures
        forall|i: int|
            0 <= i < counts.len() && (#[trigger] counts[i]).1 > 0 ==> unread_of(
                groups,
                counts,
            ).contains_key(chat_of_key(groups, counts[i].0)) && unread_of(
                groups,
                counts,
            )[chat_of_key(groups, counts[i].0)] == counts[i].1,
        forall|chat: ChatId| #[trigger]
            unread_of(groups, counts).contains_key(chat) ==> exists|i: int|
                0 <= i < counts.len() && chat == chat_of_key(groups, (#[trigger] counts[i]).0)
                    && counts[i].1 > 0 && unread_of(groups, counts)[chat] == counts[i].1,
    decreases counts.len(),
{
    if counts.len() > 0 {
        let rest = counts.drop_last();
        let n = counts.len() - 1;
        let (key, count) = counts.last();
        let before = unread_of(groups, rest);
        let after = unread_of(groups, counts);
        assert forall|i: int, j: int|
            #![trigger rest[i], rest[j]]
            0 <= i < j < rest.len() implies rest[i].0 != rest[j].0 by {
            assert(counts[i].0 != counts[j].0);
        }
        lemma_stored_counts(groups, rest);
        assert forall|i: int| 0 <= i < counts.len() && (#[trigger] counts[i]).1 > 0 implies (
        after.contains_key(chat_of_key(groups, counts[i].0)) && after[chat_of_key(
            groups,
            counts[i].0,
        )] == counts[i].1) by {
            if i < n {
                assert(rest[i] == counts[i]);
                assert(counts[i].0 != counts[n].0);
                lemma_chat_of_key(groups, counts[i].0);
                lemma_chat_of_key(groups, key);
            }
        }
        assert forall|chat: ChatId| #[trigger] after.contains_key(chat) implies exists|i: int|
            0 <= i < counts.len() && chat == chat_of_key(groups, (#[trigger] counts[i]).0)
                && counts[i].1 > 0 && after[chat] == counts[i].1 by {
            if count > 0 && chat == chat_of_key(groups, key) {
                assert(counts[n].1 > 0);
            } else {
                assert(before.contains_key(chat));
                let i = choose|i: int|
                    0 <= i < rest.len() && chat == chat_of_key(groups, (#[trigger] rest[i]).0)
                        && rest[i].1 > 0 && before[chat] == rest[i].1;
                assert(counts[i] == rest[i]);
            }
        }
    }
}

/// Stored counts take the place of those shown, and nothing else changes.
pub proof fn lemma_counts_replaced(s: AppState, counts: Seq<([u8; 32], u32)>)
    ensures
        ({
            let step = event_step(s, EventModel::UnreadLoaded(counts));
            &&& step.state.unread == unread_of(s.groups, counts)
            &&& step.state == (AppState { unread: step.state.unread, ..s })
            &&& step.commands.len() == 0
            &&& step.effect is Nothing
        }),
{
}

/// Opening a chat shows it, counts its messages as read and stores that, asks
/// for its newest page, and leaves every other count as it is.
pub proof fn lemma_opening_reads(s: AppState, key: [u8; 32], other: ChatId)
    ensures
        ({
            let step = message_step(s, Message::OpenChat(key));
            let chat = ChatId::Peer(key);
            &&& step.state.open_chat == Some(chat)
            &&& step.state.view == screen::View::ChatThread(key)
            &&& unread_count(step.state, chat) == 0
            &&& other != chat ==> unread_count(step.state, other) == unread_count(s, other)
            &&& step.state == (AppState {
                open_chat: step.state.open_chat,
                view: step.state.view,
                unread: step.state.unread,
                ..s
            })
            &&& step.commands == seq![
                CommandModel::SetUnread { peer: key, count: 0 },
                CommandModel::LoadThread { peer: key },
            ]
            &&& step.effect is Nothing
        }),
        ({
            let step = message_step(s, Message::OpenGroup(key));
            let chat = ChatId::Group(key);
            &&& step.state.open_chat == Some(chat)
            &&& step.state.view == screen::View::GroupChat(key)
            &&& unread_count(step.state, chat) == 0
            &&& other != chat ==> unread_count(step.state, other) == unread_count(s, other)
            &&& step.state == (AppState {
                open_chat: step.state.open_chat,
                view: step.state.view,
                unread: step.state.unread,
                ..s
            })
            &&& step.commands == seq![
                CommandModel::SetUnread { peer: key, count: 0 },
                CommandModel::LoadGroupThread { group: key },
            ]
            &&& step.effect is Nothing
        }),
{
}

/// A chat without an entry has no unread messages and an empty thread; one with
/// an entry has what the entry says.
pub proof fn lemma_entries(s: AppState, chat: ChatId)
    ensures
        s.unread.contains_key(chat) ==> unread_count(s, chat) == s.unread[chat],
        !s.unread.contains_key(chat) ==> unread_count(s, chat) == 0,
        s.threads.contains_key(chat) ==> thread_of(s, chat) == s.threads[chat],
        !s.threads.contains_key(chat) ==> thread_of(s, chat).len() == 0,
{
}

// ---- Threads ----------------------------------------------------------------------------

/// A message that comes in reaches the thread of its chat or its unread count,
/// and no other thread, count or field.
pub proof fn lemma_message_reaches_its_chat(
    s: AppState,
    chat: ChatId,
    msg: MessageModel,
    other: ChatId,
)
    requires
        other != chat,
        unread_count(s, chat) < u32::MAX,
    ensures
        ({
            let step = event_step(s, EventModel::Decrypted { chat, msg });
            &&& thread_of(step.state, other) == thread_of(s, other)
            &&& unread_count(step.state, other) == unread_count(s, other)
            &&& s.open_chat == Some(chat) ==> {
                &&& thread_of(step.state, chat).len() == thread_of(s, chat).len() + 1
                &&& thread_of(step.state, chat).last() == msg
                &&& thread_of(step.state, chat).drop_last() == thread_of(s, chat)
                &&& step.state == (AppState { threads: step.state.threads, ..s })
                &&& step.effect == Effect::SnapToEnd(chat)
            }
            &&& s.open_chat != Some(chat) ==> {
                &&& unread_count(step.state, chat) == unread_count(s, chat) + 1
                &&& step.state == (AppState { unread: step.state.unread, ..s })
                &&& step.effect is Nothing
            }
        }),
{
    let step = event_step(s, EventModel::Decrypted { chat, msg });
    if s.open_chat == Some(chat) {
        assert(thread_of(step.state, chat).drop_last() =~= thread_of(s, chat));
    }
}

/// The smallest row id of a page is that of one of its rows and of no row
/// larger; an empty page has none.
pub proof fn lemma_page_min(msgs: Seq<MessageModel>)
    ensures
        match page_min(msgs) {
            Some(m) => (forall|i: int|
                0 <= i < msgs.len() ==> m <= (#[trigger] msgs[i]).local_id as i64) && (exists|i: int|
                0 <= i < msgs.len() && m == (#[trigger] msgs[i]).local_id as i64),
            None => msgs.len() == 0,
        },
    decreases msgs.len(),
{
    if msgs.len() > 0 {
        let rest = msgs.drop_last();
        let n = msgs.len() - 1;
        lemma_page_min(rest);
        let m = page_min(msgs).unwrap();
        assert forall|i: int| 0 <= i < msgs.len() implies m <= (#[trigger] msgs[i]).local_id as i64 by {
            if i < n {
                assert(rest[i] == msgs[i]);
            }
        }
        if m == msgs[n].local_id as i64 {
        } else {
            let i = choose|i: int|
                0 <= i < rest.len() && page_min(rest).unwrap() == (#[trigger] rest[i]).local_id as i64;
            assert(msgs[i] == rest[i]);
        }
    }
}

/// The newest page of a chat is its thread; whether there is more is noted, and
/// the oldest row is the smallest of the page. Other chats keep theirs.
pub proof fn lemma_newest_page(
    s: AppState,
    chat: ChatId,
    msgs: Seq<MessageModel>,
    has_more: bool,
    other: ChatId,
)
    requires
        other != chat,
    ensures
        ({
            let step = event_step(s, EventModel::HistoryLoaded { chat, msgs, has_more });
            let t = step.state;
            &&& t.threads.contains_key(chat) && t.threads[chat] == msgs
            &&& thread_of(t, other) == thread_of(s, other)
            &&& t.has_more_history.contains_key(chat) && t.has_more_history[chat] == has_more
            &&& t.has_more_history.contains_key(other) == s.has_more_history.contains_key(other)
            &&& t.has_more_history[other] == s.has_more_history[other]
            &&& t.oldest_loaded.contains_key(chat) == (msgs.len() > 0)
            &&& forall|i: int|
                0 <= i < msgs.len() ==> t.oldest_loaded[chat] <= (#[trigger] msgs[i]).local_id as i64
            &&& msgs.len() > 0 ==> exists|i: int|
                0 <= i < msgs.len() && t.oldest_loaded[chat] == (#[trigger] msgs[i]).local_id as i64
            &&& t.oldest_loaded.contains_key(other) == s.oldest_loaded.contains_key(other)
            &&& t.oldest_loaded[other] == s.oldest_loaded[other]
            &&& t == (AppState {
                threads: t.threads,
                has_more_history: t.has_more_history,
                oldest_loaded: t.oldest_loaded,
                ..s
            })
            &&& step.commands.len() == 0
            &&& step.effect == (if s.open_chat == Some(chat) {
                Effect::SnapToEnd(chat)
            } else {
                Effect::Nothing
            })
        }),
{
    lemma_page_min(msgs);
}

/// An older page goes in front of what is loaded, nothing of which is lost, and
/// the wait for it is over. Other chats keep theirs.
pub proof fn lemma_older_page(
    s: AppState,
    chat: ChatId,
    msgs: Seq<MessageModel>,
    has_more: bool,
    other: ChatId,
)
    requires
        other != chat,
        msgs.len() <= usize::MAX,
    ensures
        ({
            let step = event_step(s, EventModel::OlderHistoryLoaded { chat, msgs, has_more });
            let t = step.state;
            let (before, after) = (thread_of(s, chat), thread_of(t, chat));
            &&& after.len() == msgs.len() + before.len()
            &&& after.take(msgs.len() as int) == msgs
            &&& after.skip(msgs.len() as int) == before
            &&& thread_of(t, other) == thread_of(s, other)
            &&& t.has_more_history.contains_key(chat) && t.has_more_history[chat] == has_more
            &&& !t.loading_older.contains(chat)
            &&& t.loading_older.contains(other) == s.loading_older.contains(other)
            &&& forall|i: int|
                0 <= i < msgs.len() ==> t.oldest_loaded.contains_key(chat) && t.oldest_loaded[chat]
                    <= (#[trigger] msgs[i]).local_id as i64
            &&& s.oldest_loaded.contains_key(chat) ==> t.oldest_loaded.contains_key(chat)
                && t.oldest_loaded[chat] <= s.oldest_loaded[chat]
            &&& t.oldest_loaded.contains_key(other) == s.oldest_loaded.contains_key(other)
            &&& t.oldest_loaded[other] == s.oldest_loaded[other]
            &&& t == (AppState {
                threads: t.threads,
                has_more_history: t.has_more_history,
                oldest_loaded: t.oldest_loaded,
                loading_older: t.loading_older,
                ..s
            })
            &&& step.commands.len() == 0
            &&& s.open_chat == Some(chat) && msgs.len() > 0 ==> (step.effect matches Effect::RestoreScroll {
                chat: c,
                saved,
                rows,
            } && c == chat && rows == msgs.len() && saved == (if s.scroll_offset.contains_key(chat) {
                s.scroll_offset[chat]
            } else {
                0
            }))
            &&& s.open_chat != Some(chat) || msgs.len() == 0 ==> step.effect is Nothing
        }),
{
    lemma_page_min(msgs);
    let step = event_step(s, EventModel::OlderHistoryLoaded { chat, msgs, has_more });
    let (before, after) = (thread_of(s, chat), thread_of(step.state, chat));
    assert(after.take(msgs.len() as int) =~= msgs);
    assert(after.skip(msgs.len() as int) =~= before);
}

/// Scrolling a thread notes where to, for that chat alone. At its top the page
/// before the oldest loaded row is asked for where there is one and none is on
/// its way.
pub proof fn lemma_scrolling(s: AppState, chat: ChatId, at_top: bool, offset: u32, other: ChatId)
    requires
        other != chat,
    ensures
        ({
            let step = message_step(s, Message::ChatScrolled { chat, at_top, offset });
            let t = step.state;
            let more = s.has_more_history.contains_key(chat) && s.has_more_history[chat];
            let asks = at_top && more && !s.loading_older.contains(chat)
                && s.oldest_loaded.contains_key(chat);
            &&& t.scroll_offset.contains_key(chat) && t.scroll_offset[chat] == offset
            &&& t.scroll_offset.contains_key(other) == s.scroll_offset.contains_key(other)
            &&& t.scroll_offset[other] == s.scroll_offset[other]
            &&& t.loading_older.contains(chat) == (s.loading_older.contains(chat) || asks)
            &&& t.loading_older.contains(other) == s.loading_older.contains(other)
            &&& t == (AppState {
                scroll_offset: t.scroll_offset,
                loading_older: t.loading_older,
                ..s
            })
            &&& step.commands.len() == (if asks {
                1nat
            } else {
                0nat
            })
            &&& asks ==> step.commands[0] == (match chat {
                ChatId::Peer(k) => CommandModel::LoadOlder {
                    peer: k,
                    before_id: s.oldest_loaded[chat],
                },
                ChatId::Group(k) => CommandModel::LoadOlderGroup {
                    group: k,
                    before_id: s.oldest_loaded[chat],
                },
            })
            &&& step.effect is Nothing
        }),
{
}

/// A sent message is the typed text without white space at its ends. It is
/// shown as outgoing and still being sent at the end of the open thread, the
/// bridge gets the same text under the same id, to the peer or group on screen,
/// and the field is empty again; no other thread changes.
pub proof fn lemma_sending(s: AppState, chat: ChatId, other: ChatId)
    requires
        s.open_chat == Some(chat),
        other != chat,
        trimmed(s.compose_input).len() > 0,
        s.next_local_id < u64::MAX,
    ensures
        ({
            let step = message_step(s, Message::SendPressed);
            let t = step.state;
            let shown = thread_of(t, chat).last();
            let text = trimmed(s.compose_input);
            let answered = exists|i: int|
                0 <= i < thread_of(s, chat).len() && (#[trigger] thread_of(s, chat)[i]).dir
                    == Direction::Out;
            &&& thread_of(t, chat).len() == thread_of(s, chat).len() + 1
            &&& thread_of(t, chat).drop_last() == thread_of(s, chat)
            &&& shown.text == text
            &&& shown.local_id == s.next_local_id
            &&& shown.dir == Direction::Out
            &&& shown.status == Status::Sending
            &&& shown.sender is None
            &&& thread_of(t, other) == thread_of(s, other)
            &&& t.next_local_id == s.next_local_id + 1
            &&& t.compose_input.len() == 0
            &&& t == (AppState {
                threads: t.threads,
                next_local_id: t.next_local_id,
                compose_input: t.compose_input,
                ..s
            })
            &&& step.commands.len() == 1
            &&& step.effect == Effect::SnapToEnd(chat)
            &&& match chat {
                ChatId::Group(k) => step.commands[0] == (CommandModel::SendGroupMessage {
                    group: k,
                    text,
                    local_id: s.next_local_id,
                }),
                ChatId::Peer(k) => if answered {
                    step.commands[0] == (CommandModel::SendMessage {
                        peer: k,
                        text,
                        local_id: s.next_local_id,
                    })
                } else {
                    step.commands[0] == (CommandModel::StartSession {
                        peer: k,
                        first_message: text,
                        local_id: s.next_local_id,
                    })
                },
            }
        }),
{
    let t = message_step(s, Message::SendPressed).state;
    assert(thread_of(t, chat).drop_last() =~= thread_of(s, chat));
}

/// Nothing is sent where nothing but white space is typed or no chat is open.
pub proof fn lemma_nothing_to_send(s: AppState)
    requires
        trimmed(s.compose_input).len() == 0 || s.open_chat is None,
    ensures
        ({
            let step = message_step(s, Message::SendPressed);
            &&& step.commands.len() == 0
            &&& step.effect is Nothing
            &&& step.state == (AppState { next_local_id: step.state.next_local_id, ..s })
            &&& trimmed(s.compose_input).len() == 0 ==> step.state == s
        }),
{
}

/// What became of a message reaches the outgoing rows with its id in its chat,
/// and only their status; other rows, chats and fields stay, and a failure is
/// told.
pub proof fn lemma_outcome_of_message(
    s: AppState,
    chat: ChatId,
    local_id: u64,
    msg: MessageModel,
    reason: Seq<char>,
    other: ChatId,
)
    requires
        other != chat,
    ensures
        ({
            let sent = event_step(s, EventModel::Sent { chat, local_id, msg });
            let failed = event_step(s, EventModel::SendFailed { chat, local_id, reason });
            let before = thread_of(s, chat);
            &&& thread_of(sent.state, chat).len() == before.len()
            &&& thread_of(failed.state, chat).len() == before.len()
            &&& forall|i: int|
                0 <= i < before.len() ==> #[trigger] thread_of(sent.state, chat)[i] == (if before[i].local_id
                    == local_id && before[i].dir == Direction::Out {
                    MessageModel { status: msg.status, ..before[i] }
                } else {
                    before[i]
                })
            &&& forall|i: int|
                0 <= i < before.len() ==> #[trigger] thread_of(failed.state, chat)[i] == (if before[i].local_id
                    == local_id && before[i].dir == Direction::Out {
                    MessageModel { status: Status::Failed, ..before[i] }
                } else {
                    before[i]
                })
            &&& thread_of(sent.state, other) == thread_of(s, other)
            &&& thread_of(failed.state, other) == thread_of(s, other)
            &&& sent.state == (AppState { threads: sent.state.threads, ..s })
            &&& failed.state.error == Some(reason)
            &&& failed.state == (AppState {
                threads: failed.state.threads,
                error: failed.state.error,
                ..s
            })
            &&& sent.commands.len() == 0 && failed.commands.len() == 0
            &&& sent.effect is Nothing && failed.effect is Nothing
        }),
{
}

// ---- Screens, fields and the connection ----------------------------------------------------

/// The state at the start shows the given screen, knows nothing of an identity
/// and has nothing typed but the remembered server address and a count.
pub proof fn lemma_start(view: screen::View, config: ConfigModel, addr: Seq<char>, chat: ChatId)
    ensures
        ({
            let s = start_state(view, config, addr);
            &&& s.view == view && s.config == config && s.connect_addr == addr
            &&& s.identity_pub is None && s.identity_fingerprint is None && !s.connected
            &&& s.contacts.len() == 0 && s.groups.len() == 0 && s.open_chat is None
            &&& thread_of(s, chat).len() == 0 && unread_count(s, chat) == 0
            &&& !s.has_more_history.contains_key(chat) && !s.oldest_loaded.contains_key(chat)
            &&& !s.loading_older.contains(chat) && !s.scroll_offset.contains_key(chat)
            &&& s.server_input == config.server_addr
            &&& number_of(s.replenish_count) == Some(10int)
            &&& s.passphrase_input.len() == 0 && s.passphrase_confirm.len() == 0
            &&& s.add_contact_hex.len() == 0 && s.add_contact_nick.len() == 0
            &&& s.compose_input.len() == 0 && s.new_group_name.len() == 0
            &&& s.search_query.len() == 0
            &&& s.error is None
            &&& s.next_local_id == 1
        }),
{
    reveal_strlit("10");
    reveal_with_fuel(crate::text::digits_value, 3);
    let t = "10"@;
    assert(t.drop_last().drop_last() =~= Seq::<char>::empty());
    assert(t.drop_last().last() == '1');
}

/// What is typed reaches its field and no other, and asks for nothing.
pub proof fn lemma_typing(s: AppState, t: String)
    ensures
        message_step(s, Message::PassphraseChanged(t)).state == (AppState {
            passphrase_input: t@,
            ..s
        }),
        message_step(s, Message::PassphraseConfirmChanged(t)).state == (AppState {
            passphrase_confirm: t@,
            ..s
        }),
        message_step(s, Message::ServerChanged(t)).state == (AppState { server_input: t@, ..s }),
        message_step(s, Message::AddContactHexChanged(t)).state == (AppState {
            add_contact_hex: t@,
            ..s
        }),
        message_step(s, Message::AddContactNickChanged(t)).state == (AppState {
            add_contact_nick: t@,
            ..s
        }),
        message_step(s, Message::ComposeChanged(t)).state == (AppState { compose_input: t@, ..s }),
        message_step(s, Message::NewGroupNameChanged(t)).state == (AppState {
            new_group_name: t@,
            ..s
        }),
        message_step(s, Message::SearchChanged(t)).state == (AppState { search_query: t@, ..s }),
        message_step(s, Message::ReplenishCountChanged(t)).state == (AppState {
            replenish_count: t@,
            ..s
        }),
        message_step(s, Message::PassphraseChanged(t)).commands.len() == 0,
        message_step(s, Message::PassphraseConfirmChanged(t)).commands.len() == 0,
        message_step(s, Message::ServerChanged(t)).commands.len() == 0,
        message_step(s, Message::AddContactHexChanged(t)).commands.len() == 0,
        message_step(s, Message::AddContactNickChanged(t)).commands.len() == 0,
        message_step(s, Message::ComposeChanged(t)).commands.len() == 0,
        message_step(s, Message::NewGroupNameChanged(t)).commands.len() == 0,
        message_step(s, Message::SearchChanged(t)).commands.len() == 0,
        message_step(s, Message::ReplenishCountChanged(t)).commands.len() == 0,
{
}

/// An identity is asked for under a passphrase that has at least eight
/// characters and was typed twice alike, and under no other; unlocking takes
/// the passphrase as it is.
pub proof fn lemma_passphrases(s: AppState)
    ensures
        ({
            let step = message_step(s, Message::SetupSubmit);
            let fits = s.passphrase_input.len() >= 8 && s.passphrase_input == s.passphrase_confirm;
            &&& step.state == (AppState { error: step.state.error, ..s })
            &&& step.state.error is None == fits
            &&& fits ==> step.commands == seq![
                CommandModel::Setup { passphrase: s.passphrase_input, one_time_count: 10 },
            ]
            &&& !fits ==> step.commands.len() == 0
            &&& s.passphrase_input.len() < 8 ==> step.state.error == Some(
                "passphrase must be at least 8 characters"@,
            )
            &&& s.passphrase_input.len() >= 8 && !fits ==> step.state.error == Some(
                "passphrases do not match"@,
            )
        }),
        ({
            let step = message_step(s, Message::UnlockSubmit);
            &&& step.commands == seq![CommandModel::Unlock { passphrase: s.passphrase_input }]
            &&& step.state == (AppState { error: None, ..s })
        }),
{
}

/// Moving between screens changes the screen alone; going back also closes the
/// chat, and the error is dismissed on request.
pub proof fn lemma_screens(s: AppState)
    ensures
        message_step(s, Message::OpenContactList).state == (AppState {
            view: screen::View::ContactList,
            ..s
        }),
        message_step(s, Message::OpenSettings).state == (AppState {
            view: screen::View::Settings,
            ..s
        }),
        message_step(s, Message::Back).state == (AppState {
            view: screen::View::ContactList,
            open_chat: None,
            ..s
        }),
        message_step(s, Message::DismissError).state == (AppState { error: None, ..s }),
        message_step(s, Message::Quit).state == s,
        message_step(s, Message::Quit).effect is Quit,
        message_step(s, Message::OpenContactList).commands.len() == 0,
        message_step(s, Message::OpenSettings).commands.len() == 0,
        message_step(s, Message::Back).commands.len() == 0,
        message_step(s, Message::DismissError).commands.len() == 0,
        message_step(s, Message::Quit).commands.len() == 0,
{
}

/// Prekeys are asked for in the typed number where that is a number above 0; a
/// server is asked for under the address that the typed text stands for.
pub proof fn lemma_settings(s: AppState, addr: Option<String>)
    ensures
        ({
            let step = message_step(s, Message::ReplenishOneTimePrekeys);
            let typed = number_of(trimmed(s.replenish_count));
            &&& step.state == (AppState { error: step.state.error, ..s })
            &&& (typed matches Some(n) && n > 0) ==> (step.commands.len() == 1 && (
            step.commands[0] matches CommandModel::ReplenishOneTimePrekeys { count } && count
                == typed.unwrap() as u32) && step.state.error is None)
            &&& !(typed matches Some(n) && n > 0) ==> (step.commands.len() == 0 && step.state.error
                == Some("replenish count must be a positive number"@))
        }),
        message_step(s, Message::RotateSignedPrekey).state == s,
        message_step(s, Message::RotateSignedPrekey).commands == seq![
            CommandModel::RotateSignedPrekey,
        ],
        ({
            let step = message_step(s, Message::ChangeServer(addr));
            &&& step.state == (AppState { error: step.state.error, ..s })
            &&& match addr {
                Some(a) => step.commands == seq![CommandModel::ChangeServer { addr: a@ }]
                    && step.state.error is None,
                None => step.commands.len() == 0 && step.state.error == Some(
                    "invalid server address"@,
                ),
            }
        }),
{
}

/// A ready identity is shown, the typed passphrases are gone, and the connection
/// to the remembered address is asked for.
pub proof fn lemma_ready(s: AppState, key: [u8; 32], fingerprint: [u8; 32])
    ensures
        ({
            let step = event_step(
                s,
                EventModel::Ready { identity_pub: key, identity_fingerprint: fingerprint },
            );
            let t = step.state;
            &&& t.identity_pub == Some(key)
            &&& t.identity_fingerprint == Some(fingerprint)
            &&& t.passphrase_input.len() == 0 && t.passphrase_confirm.len() == 0
            &&& t.view is ContactList
            &&& t == (AppState {
                identity_pub: t.identity_pub,
                identity_fingerprint: t.identity_fingerprint,
                passphrase_input: t.passphrase_input,
                passphrase_confirm: t.passphrase_confirm,
                view: t.view,
                ..s
            })
            &&& step.commands == seq![CommandModel::Connect { addr: s.connect_addr }]
            &&& step.effect is Nothing
        }),
{
}

/// The connection is shown as it is; its loss is told but on the screens before
/// an identity is ready, and an error is shown as it is told.
pub proof fn lemma_connection(s: AppState, reason: Seq<char>)
    ensures
        event_step(s, EventModel::Connected).state == (AppState {
            connected: true,
            error: None,
            ..s
        }),
        event_step(s, EventModel::Connected).commands.len() == 0,
        ({
            let step = event_step(s, EventModel::Disconnected { reason });
            &&& !step.state.connected
            &&& step.state == (AppState { connected: false, error: step.state.error, ..s })
            &&& step.state.error == (if s.view is Login || s.view is Setup {
                s.error
            } else {
                Some("disconnected: "@ + reason)
            })
            &&& step.commands.len() == 0
        }),
        event_step(s, EventModel::Error(reason)).state == (AppState { error: Some(reason), ..s }),
        event_step(s, EventModel::Error(reason)).commands.len() == 0,
{
}

/// Logging out leaves nothing noted of any chat, no contact, no group and no typed
/// passphrase or search, and keeps what is not of the identity: the config, the
/// address, ids not given out yet and the other fields; the bridge is told.
pub proof fn lemma_logging_out_keeps(s: AppState, chat: ChatId)
    ensures
        ({
            let step = message_step(s, Message::Logout);
            let t = step.state;
            &&& t.config == s.config && t.connect_addr == s.connect_addr
            &&& t.next_local_id == s.next_local_id
            &&& t.server_input == s.server_input && t.replenish_count == s.replenish_count
            &&& t.error == s.error
            &&& t.contacts.len() == 0 && t.groups.len() == 0
            &&& !t.threads.contains_key(chat) && !t.unread.contains_key(chat)
            &&& !t.oldest_loaded.contains_key(chat) && !t.has_more_history.contains_key(chat)
            &&& !t.loading_older.contains(chat) && !t.scroll_offset.contains_key(chat)
            &&& t.search_query.len() == 0 && t.passphrase_input.len() == 0
            &&& t == (AppState {
                identity_pub: None,
                identity_fingerprint: None,
                contacts: t.contacts,
                threads: t.threads,
                groups: t.groups,
                unread: t.unread,
                search_query: t.search_query,
                oldest_loaded: t.oldest_loaded,
                has_more_history: t.has_more_history,
                loading_older: t.loading_older,
                scroll_offset: t.scroll_offset,
                view: screen::View::Login,
                passphrase_input: t.passphrase_input,
                connected: false,
                ..s
            })
            &&& step.commands == seq![CommandModel::Logout]
        }),
{
}

/// What comes out of a message is what its step says: as many commands, each of
/// them, in order, and the effect.
pub proof fn lemma_outcome(o: Outcome, step: Step, i: int)
    requires
        outcome_of(o, step),
    ensures
        o.commands@.len() == step.commands.len(),
        0 <= i < o.commands@.len() ==> o.commands@[i]@ == step.commands[i],
        o.effect == step.effect,
{
}

} // verus!
