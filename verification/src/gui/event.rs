//! What the bridge tells the user interface.
use crate::gui::types::{
    contacts_model, groups_model, messages_model, ChatId, ContactModel, ContactView, GroupModel,
    GroupView, MessageModel, MessageView,
};
use vstd::prelude::*;

verus! {

/// What happened.
#[derive(Debug)]
pub enum Event {
    /// The identity is ready, with its public key and fingerprint.
    Ready { identity_pub: [u8; 32], identity_fingerprint: [u8; 32] },
    /// Connected, registered and subscribed.
    Connected,
    /// The connection is gone; the bridge tries again.
    Disconnected { reason: String },
    /// An error to show.
    Error(String),
    /// The contacts of the store.
    ContactsLoaded(Vec<ContactView>),
    /// The groups of the store.
    GroupsLoaded(Vec<GroupView>),
    /// The unread counts of the store, by the 32 bytes behind a chat.
    UnreadLoaded(Vec<([u8; 32], u32)>),
    /// The newest page of a thread, oldest message first; `has_more` where
    /// older messages exist.
    HistoryLoaded { chat: ChatId, msgs: Vec<MessageView>, has_more: bool },
    /// An older page of a thread, oldest message first.
    OlderHistoryLoaded { chat: ChatId, msgs: Vec<MessageView>, has_more: bool },
    /// A message came in and is stored.
    Decrypted { chat: ChatId, msg: MessageView },
    /// A message went out to the relay.
    Sent { chat: ChatId, local_id: u64, msg: MessageView },
    /// A message could not be sent.
    SendFailed { chat: ChatId, local_id: u64, reason: String },
    /// A contact's fingerprint was marked as verified.
    FingerprintVerified { identity_pub: [u8; 32] },
    /// A group was made, with so many members.
    GroupCreated { group: [u8; 32], name: String, members: u32 },
    /// The client was added to a group with so many known members.
    GroupInvited { group: [u8; 32], name: String, members: u32 },
}

/// The contents of an [`Event`].
pub enum EventModel {
    Ready { identity_pub: [u8; 32], identity_fingerprint: [u8; 32] },
    Connected,
    Disconnected { reason: Seq<char> },
    Error(Seq<char>),
    ContactsLoaded(Seq<ContactModel>),
    GroupsLoaded(Seq<GroupModel>),
    UnreadLoaded(Seq<([u8; 32], u32)>),
    HistoryLoaded { chat: ChatId, msgs: Seq<MessageModel>, has_more: bool },
    OlderHistoryLoaded { chat: ChatId, msgs: Seq<MessageModel>, has_more: bool },
    Decrypted { chat: ChatId, msg: MessageModel },
    Sent { chat: ChatId, local_id: u64, msg: MessageModel },
    SendFailed { chat: ChatId, local_id: u64, reason: Seq<char> },
    FingerprintVerified { identity_pub: [u8; 32] },
    GroupCreated { group: [u8; 32], name: Seq<char>, members: u32 },
    GroupInvited { group: [u8; 32], name: Seq<char>, members: u32 },
}

impl View for Event {
    type V = EventModel;

    open spec fn view(&self) -> EventModel {
        match *self {
            Event::Ready { identity_pub, identity_fingerprint } => EventModel::Ready {
                identity_pub,
                identity_fingerprint,
            },
            Event::Connected => EventModel::Connected,
            Event::Disconnected { reason } => EventModel::Disconnected { reason: reason@ },
            Event::Error(e) => EventModel::Error(e@),
            Event::ContactsLoaded(c) => EventModel::ContactsLoaded(contacts_model(c@)),
            Event::GroupsLoaded(g) => EventModel::GroupsLoaded(groups_model(g@)),
            Event::UnreadLoaded(c) => EventModel::UnreadLoaded(c@),
            Event::HistoryLoaded { chat, msgs, has_more } => EventModel::HistoryLoaded {
                chat,
                msgs: messages_model(msgs@),
                has_more,
            },
            Event::OlderHistoryLoaded { chat, msgs, has_more } => EventModel::OlderHistoryLoaded {
                chat,
                msgs: messages_model(msgs@),
                has_more,
            },
            Event::Decrypted { chat, msg } => EventModel::Decrypted { chat, msg: msg@ },
            Event::Sent { chat, local_id, msg } => EventModel::Sent { chat, local_id, msg: msg@ },
            Event::SendFailed { chat, local_id, reason } => EventModel::SendFailed {
                chat,
                local_id,
                reason: reason@,
            },
            Event::FingerprintVerified { identity_pub } => EventModel::FingerprintVerified {
                identity_pub,
            },
            Event::GroupCreated { group, name, members } => EventModel::GroupCreated {
                group,
                name: name@,
                members,
            },
            Event::GroupInvited { group, name, members } => EventModel::GroupInvited {
                group,
                name: name@,
                members,
            },
        }
    }
}

/// The contents of a list of events.
pub open spec fn events_model(s: Seq<Event>) -> Seq<EventModel> {
    s.map_values(|e: Event| e@)
}

} // verus!
