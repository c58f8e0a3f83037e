//! What the user interface asks of the bridge.
use vstd::prelude::*;

verus! {

/// A request. `local_id` ties a message that is already shown to what becomes
/// of it; an address is the text of a socket address.
#[derive(Debug)]
pub enum Command {
    /// Make an identity and its encrypted store.
    Setup { passphrase: String, one_time_count: u32 },
    /// Open an existing store.
    Unlock { passphrase: String },
    /// Connect to the relay, register and subscribe.
    Connect { addr: String },
    /// Record a contact.
    AddContact { identity_pub: [u8; 32], nickname: String },
    /// Mark a contact's fingerprint as verified.
    VerifyFingerprint { identity_pub: [u8; 32] },
    /// Agree on a session with a peer and send the first message.
    StartSession { peer: [u8; 32], first_message: String, local_id: u64 },
    /// Send on an existing session.
    SendMessage { peer: [u8; 32], text: String, local_id: u64 },
    /// Load the newest page of a thread.
    LoadThread { peer: [u8; 32] },
    /// Load the page of a thread before a row.
    LoadOlder { peer: [u8; 32], before_id: i64 },
    /// Make a group and hand its sender key to the members.
    CreateGroup { name: String, members: Vec<[u8; 32]> },
    /// Send to a group.
    SendGroupMessage { group: [u8; 32], text: String, local_id: u64 },
    /// Load the newest page of a group's thread.
    LoadGroupThread { group: [u8; 32] },
    /// Load the page of a group's thread before a row.
    LoadOlderGroup { group: [u8; 32], before_id: i64 },
    /// Store how many messages of a chat are unread.
    SetUnread { peer: [u8; 32], count: u32 },
    /// Make a new signed prekey and register it.
    RotateSignedPrekey,
    /// Make and register one-time prekeys.
    ReplenishOneTimePrekeys { count: u32 },
    /// Leave the relay and connect to another.
    ChangeServer { addr: String },
    /// Close the store and the connection.
    Logout,
}

/// The contents of a [`Command`].
pub enum CommandModel {
    Setup { passphrase: Seq<char>, one_time_count: u32 },
    Unlock { passphrase: Seq<char> },
    Connect { addr: Seq<char> },
    AddContact { identity_pub: [u8; 32], nickname: Seq<char> },
    VerifyFingerprint { identity_pub: [u8; 32] },
    StartSession { peer: [u8; 32], first_message: Seq<char>, local_id: u64 },
    SendMessage { peer: [u8; 32], text: Seq<char>, local_id: u64 },
    LoadThread { peer: [u8; 32] },
    LoadOlder { peer: [u8; 32], before_id: i64 },
    CreateGroup { name: Seq<char>, members: Seq<[u8; 32]> },
    SendGroupMessage { group: [u8; 32], text: Seq<char>, local_id: u64 },
    LoadGroupThread { group: [u8; 32] },
    LoadOlderGroup { group: [u8; 32], before_id: i64 },
    SetUnread { peer: [u8; 32], count: u32 },
    RotateSignedPrekey,
    ReplenishOneTimePrekeys { count: u32 },
    ChangeServer { addr: Seq<char> },
    Logout,
}

impl View for Command {
    type V = CommandModel;

    open spec fn view(&self) -> CommandModel {
        match *self {
            Command::Setup { passphrase, one_time_count } => CommandModel::Setup {
                passphrase: passphrase@,
                one_time_count,
            },
            Command::Unlock { passphrase } => CommandModel::Unlock { passphrase: passphrase@ },
            Command::Connect { addr } => CommandModel::Connect { addr: addr@ },
            Command::AddContact { identity_pub, nickname } => CommandModel::AddContact {
                identity_pub,
                nickname: nickname@,
            },
            Command::VerifyFingerprint { identity_pub } => CommandModel::VerifyFingerprint {
                identity_pub,
            },
            Command::StartSession { peer, first_message, local_id } => CommandModel::StartSession {
                peer,
                first_message: first_message@,
                local_id,
            },
            Command::SendMessage { peer, text, local_id } => CommandModel::SendMessage {
                peer,
                text: text@,
                local_id,
            },
            Command::LoadThread { peer } => CommandModel::LoadThread { peer },
            Command::LoadOlder { peer, before_id } => CommandModel::LoadOlder { peer, before_id },
            Command::CreateGroup { name, members } => CommandModel::CreateGroup {
                name: name@,
                members: members@,
            },
            Command::SendGroupMessage { group, text, local_id } => CommandModel::SendGroupMessage {
                group,
                text: text@,
                local_id,
            },
            Command::LoadGroupThread { group } => CommandModel::LoadGroupThread { group },
            Command::LoadOlderGroup { group, before_id } => CommandModel::LoadOlderGroup {
                group,
                before_id,
            },
            Command::SetUnread { peer, count } => CommandModel::SetUnread { peer, count },
            Command::RotateSignedPrekey => CommandModel::RotateSignedPrekey,
            Command::ReplenishOneTimePrekeys { count } => CommandModel::ReplenishOneTimePrekeys {
                count,
            },
            Command::ChangeServer { addr } => CommandModel::ChangeServer { addr: addr@ },
            Command::Logout => CommandModel::Logout,
        }
    }
}

/// The contents of a list of commands.
pub open spec fn commands_model(s: Seq<Command>) -> Seq<CommandModel> {
    s.map_values(|c: Command| c@)
}

} // verus!
