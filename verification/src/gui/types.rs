//! Plain data that the shell displays.
use crate::bytes::same32;
use crate::keymap::Key;
use vstd::prelude::*;

verus! {

/// A chat: with a peer, by identity public key, or in a group, by group id.
#[derive(Debug, Clone, Copy, Hash)]
pub enum ChatId {
    Peer([u8; 32]),
    Group([u8; 32]),
}

impl ChatId {
    /// The 32 bytes behind the chat.
    pub open spec fn key_spec(self) -> [u8; 32] {
        match self {
            ChatId::Peer(k) => k,
            ChatId::Group(k) => k,
        }
    }

    /// The 32 bytes behind the chat.
    pub fn key(&self) -> (r: [u8; 32])
        ensures
            r == self.key_spec(),
    {
        match self {
            ChatId::Peer(k) => *k,
            ChatId::Group(k) => *k,
        }
    }

    /// Whether the chat is with a peer.
    pub fn is_peer(&self) -> (r: bool)
        ensures
            r == (self is Peer),
    {
        match self {
            ChatId::Peer(_) => true,
            ChatId::Group(_) => false,
        }
    }
}

impl Key for ChatId {
    fn same(&self, other: &ChatId) -> (r: bool) {
        match (self, other) {
            (ChatId::Peer(a), ChatId::Peer(b)) => same32(a, b),
            (ChatId::Group(a), ChatId::Group(b)) => same32(a, b),
            _ => false,
        }
    }
}

impl PartialEq for ChatId {
    fn eq(&self, other: &ChatId) -> (r: bool) {
        self.same(other)
    }
}

impl vstd::std_specs::cmp::PartialEqSpecImpl for ChatId {
    open spec fn obeys_eq_spec() -> bool {
        true
    }

    open spec fn eq_spec(&self, other: &ChatId) -> bool {
        *self == *other
    }
}

impl Eq for ChatId {

}

/// A contact as it is shown.
#[derive(Debug, PartialEq, Eq)]
pub struct ContactView {
    pub identity_pub: [u8; 32],
    pub nickname: String,
    pub fingerprint: [u8; 32],
    pub verified: bool,
}

/// A group as it is listed.
#[derive(Debug, PartialEq, Eq)]
pub struct GroupView {
    pub id: [u8; 32],
    pub name: String,
    /// The number of members, the client among them.
    pub members: u32,
}

/// A message as it is shown. `local_id` matches a message shown before it was
/// sent with what becomes of it; `sender` is the author of an incoming group
/// message.
#[derive(Debug, PartialEq, Eq)]
pub struct MessageView {
    pub local_id: u64,
    pub text: String,
    pub dir: Direction,
    pub timestamp: u64,
    pub status: Status,
    pub sender: Option<[u8; 32]>,
}

/// The contents of a [`ContactView`].
pub struct ContactModel {
    pub identity_pub: [u8; 32],
    pub nickname: Seq<char>,
    pub fingerprint: [u8; 32],
    pub verified: bool,
}

/// The contents of a [`GroupView`].
pub struct GroupModel {
    pub id: [u8; 32],
    pub name: Seq<char>,
    pub members: u32,
}

/// The contents of a [`MessageView`].
pub struct MessageModel {
    pub local_id: u64,
    pub text: Seq<char>,
    pub dir: Direction,
    pub timestamp: u64,
    pub status: Status,
    pub sender: Option<[u8; 32]>,
}

impl View for ContactView {
    type V = ContactModel;

    open spec fn view(&self) -> ContactModel {
        ContactModel {
            identity_pub: self.identity_pub,
            nickname: self.nickname@,
            fingerprint: self.fingerprint,
            verified: self.verified,
        }
    }
}

impl View for GroupView {
    type V = GroupModel;

    open spec fn view(&self) -> GroupModel {
        GroupModel { id: self.id, name: self.name@, members: self.members }
    }
}

impl View for MessageView {
    type V = MessageModel;

    open spec fn view(&self) -> MessageModel {
        MessageModel {
            local_id: self.local_id,
            text: self.text@,
            dir: self.dir,
            timestamp: self.timestamp,
            status: self.status,
            sender: self.sender,
        }
    }
}

impl Clone for ContactView {
    fn clone(&self) -> (r: Self)
        ensures
            r@ == self@,
    {
        ContactView {
            identity_pub: self.identity_pub,
            nickname: self.nickname.clone(),
            fingerprint: self.fingerprint,
            verified: self.verified,
        }
    }
}

impl Clone for GroupView {
    fn clone(&self) -> (r: Self)
        ensures
            r@ == self@,
    {
        GroupView { id: self.id, name: self.name.clone(), members: self.members }
    }
}

impl Clone for MessageView {
    fn clone(&self) -> (r: Self)
        ensures
            r@ == self@,
    {
        MessageView {
            local_id: self.local_id,
            text: self.text.clone(),
            dir: self.dir,
            timestamp: self.timestamp,
            status: self.status,
            sender: self.sender,
        }
    }
}

/// The contents of a list of contacts.
pub open spec fn contacts_model(s: Seq<ContactView>) -> Seq<ContactModel> {
    s.map_values(|c: ContactView| c@)
}

/// The contents of a list of groups.
pub open spec fn groups_model(s: Seq<GroupView>) -> Seq<GroupModel> {
    s.map_values(|g: GroupView| g@)
}

/// The contents of a list of messages.
pub open spec fn messages_model(s: Seq<MessageView>) -> Seq<MessageModel> {
    s.map_values(|m: MessageView| m@)
}

/// Which way a message went.
#[derive(Debug, Clone, Copy, PartialEq, Eq, Structural)]
pub enum Direction {
    /// Sent by this client.
    Out,
    /// Received from a peer.
    In,
}

/// What became of an outgoing message.
#[derive(Debug, Clone, Copy, PartialEq, Eq, Structural)]
pub enum Status {
    Sending,
    Sent,
    Delivered,
    Failed,
}

impl Status {
    /// The number that is stored for the status.
    pub open spec fn code(self) -> u8 {
        match self {
            Status::Sending => 0,
            Status::Sent => 1,
            Status::Delivered => 2,
            Status::Failed => 3,
        }
    }

    /// The number that is stored for the status.
    pub fn as_u8(self) -> (r: u8)
        ensures
            r == self.code(),
    {
        match self {
            Status::Sending => 0,
            Status::Sent => 1,
            Status::Delivered => 2,
            Status::Failed => 3,
        }
    }

    /// The status of a stored number. Reading back what was stored gives the
    /// status; an unknown number counts as still being sent.
    pub fn from_u8(v: u8) -> (r: Status)
        ensures
            v > 3 ==> r == Status::Sending,
            forall|s: Status| #[trigger] s.code() == v ==> r == s,
    {
        match v {
            1 => Status::Sent,
            2 => Status::Delivered,
            3 => Status::Failed,
            _ => Status::Sending,
        }
    }
}

/// A chat has the key of its peer or the id of its group behind it.
pub proof fn lemma_chat_key(k: [u8; 32])
    ensures
        ChatId::Peer(k).key_spec() == k,
        ChatId::Group(k).key_spec() == k,
        ChatId::Peer(k) != ChatId::Group(k),
{
}

/// The stored numbers of the statuses are 0 to 3, one for each.
pub proof fn lemma_status_codes(a: Status, b: Status)
    ensures
        a.code() <= 3,
        a.code() == b.code() ==> a == b,
        Status::Sending.code() == 0,
        Status::Sent.code() == 1,
        Status::Delivered.code() == 2,
        Status::Failed.code() == 3,
{
}

} // verus!
