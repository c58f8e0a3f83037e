//! The decisions of the bridge between the user interface, the store and the
//! relay: what a command, a frame or a delivered envelope leads to. Reading
//! and writing the store and the connection is left to the caller, who
//! performs what is decided here and hands back what came of it.
use crate::bytes::{
    append, array32, array_of, ascending, lemma_array32_ext, lemma_array_of, same32,
    sorted_unique, to_vec,
};
use crate::client::crypto_bridge::{group_header_from_envelope, is_verifying_key};
use crate::client::error::ClientError;
use crate::client::net::{note_ack, noted};
use crate::client::session::{
    direct_sent, envelope_received, exports, group_created, group_message_sent, may_send,
    may_replenish, may_send_group, receivable, replenished, rotated, session_started, with_peer,
    ClientSession, SessionState,
};
use crate::client::store::{Contact, MessagePage, StoredGroup, StoredMessageRow};
use crate::crypto::identity::fingerprint_spec;
use crate::crypto::keys::{SigningKey, VerifyingKey};
use crate::crypto::sender_keys::{SenderChainKey, SenderKeyState};
use crate::gui::config::{Config, ConfigModel};
use crate::gui::event::{events_model, Event, EventModel};
use crate::gui::types::{
    contacts_model, groups_model, messages_model, ChatId, ContactModel, ContactView, Direction,
    GroupModel, GroupView, MessageModel, MessageView, Status,
};
use crate::hexadecimal;
use crate::hexadecimal::hex_chars;
use crate::keymap::{Key, KeyMap, KeySet};
use crate::primitives;
use crate::protocol::message::{
    EncryptedEnvelope, MessageKind, PreKeyBundle, ServerError, ServerMessage,
};
use crate::text::{
    contains_text, first_occurrence, lemma_part_found, lossy_text, lossy_text_of, push_decimal,
};
use crate::wire;
use vstd::prelude::*;
use vstd::utf8::encode_utf8;

verus! {

/// How many seconds at most lie between two attempts to connect.
pub const BACKOFF_CAP_SECS: u64 = 30;

/// How many seconds lie between two probes of the connection.
pub const HEARTBEAT_INTERVAL_SECS: u64 = 30;

/// After how many seconds without a sign of life a connection counts as lost.
pub const HEARTBEAT_GRACE_SECS: u64 = 90;

/// How many messages a page of history has.
pub const HISTORY_PAGE_SIZE: usize = 50;

/// The number of bytes at which a text is too long for a message.
pub const TEXT_LIMIT: u64 = 274_877_906_806;

/// The number of bytes at which a group's name is too long for an invitation.
pub const NAME_LIMIT: u64 = 274_877_906_621;

/// Nanoseconds in a second.
pub const NANOS_PER_SEC: u128 = 1_000_000_000;

// ---- Errors in words --------------------------------------------------------------------

/// A text occurs in another.
pub open spec fn mentions(s: Seq<char>, part: Seq<char>) -> bool {
    first_occurrence(encode_utf8(s), encode_utf8(part)) is Some
}

/// An error in words for the user.
pub open spec fn humanized(e: ClientError) -> Seq<char> {
    match e {
        ClientError::NoSession => "no secure session with this contact yet"@,
        ClientError::NoGroupSession(_) => "no group session for this group"@,
        ClientError::GroupSenderMismatch =>
            "group message sender does not match its claimed author"@,
        ClientError::NoOneTimePreKey(_) => "missing one-time prekey"@,
        ClientError::NotConnected => "not connected to server"@,
        ClientError::Store(s) => if mentions(s@, "wrong passphrase"@) {
            "wrong passphrase"@
        } else if mentions(s@, "already exists"@) {
            "a store already exists for this identity"@
        } else {
            s@
        },
        ClientError::Io(_) => "network error"@,
        ClientError::Timeout => "connection timed out"@,
        ClientError::Crypto(_) => "cryptographic error"@,
        ClientError::Protocol(_) => "protocol error"@,
        ClientError::Postcard(_) => "encoding error"@,
        ClientError::Sqlite(_) => "local store error"@,
    }
}

/// An error in words for the user.
pub fn humanize(e: &ClientError) -> (r: String)
    ensures
        r@ == humanized(*e),
{
    match e {
        ClientError::NoSession => "no secure session with this contact yet".to_owned(),
        ClientError::NoGroupSession(_) => "no group session for this group".to_owned(),
        ClientError::GroupSenderMismatch =>
            "group message sender does not match its claimed author".to_owned(),
        ClientError::NoOneTimePreKey(_) => "missing one-time prekey".to_owned(),
        ClientError::NotConnected => "not connected to server".to_owned(),
        ClientError::Store(s) => {
            if contains_text(s.as_str(), "wrong passphrase") {
                "wrong passphrase".to_owned()
            } else if contains_text(s.as_str(), "already exists") {
                "a store already exists for this identity".to_owned()
            } else {
                s.clone()
            }
        },
        ClientError::Io(_) => "network error".to_owned(),
        ClientError::Timeout => "connection timed out".to_owned(),
        ClientError::Crypto(_) => "cryptographic error".to_owned(),
        ClientError::Protocol(_) => "protocol error".to_owned(),
        ClientError::Postcard(_) => "encoding error".to_owned(),
        ClientError::Sqlite(_) => "local store error".to_owned(),
    }
}

/// The name of an error of the relay.
pub open spec fn server_error_name(e: ServerError) -> Seq<char> {
    match e {
        ServerError::UnknownRecipient => "UnknownRecipient"@,
        ServerError::InvalidSignature => "InvalidSignature"@,
        ServerError::BadSender => "BadSender"@,
        ServerError::MalformedFrame => "MalformedFrame"@,
        ServerError::TooLarge => "TooLarge"@,
        ServerError::NotRegistered => "NotRegistered"@,
    }
}

/// An error of the relay in words.
pub fn server_error_text(e: ServerError) -> (r: String)
    ensures
        r@ == "server: "@ + server_error_name(e),
{
    let mut s: String = "server: ".to_owned();
    s.append(
        match e {
            ServerError::UnknownRecipient => "UnknownRecipient",
            ServerError::InvalidSignature => "InvalidSignature",
            ServerError::BadSender => "BadSender",
            ServerError::MalformedFrame => "MalformedFrame",
            ServerError::TooLarge => "TooLarge",
            ServerError::NotRegistered => "NotRegistered",
        },
    );
    s
}

/// A text with the key of a peer in it.
fn with_key(before: &str, key: &[u8; 32], after: &str) -> (r: String)
    ensures
        r@ == before@ + hex_chars(key@) + after@,
{
    let mut s: String = before.to_owned();
    s.append(hexadecimal::encode(key).as_str());
    s.append(after);
    s
}

// ---- The contents of one-to-one messages -----------------------------------------------

/// What a one-to-one message between bridges holds.
pub enum P2pPayload {
    /// A chat message.
    Chat(String),
    /// An invitation: the sender's sender-key state of a group, with the
    /// group's id and name.
    GroupDist { group: [u8; 32], name: String, state: SenderKeyState },
}

/// Bytes that an invitation with a state encodes to.
pub open spec fn invite_bytes(group: [u8; 32], name: Seq<char>, state: SenderKeyState) -> Seq<u8> {
    wire::invite_bytes_of(
        group@,
        name,
        state.member_id@,
        state.chain_key.0@,
        state.signing_priv@,
        state.signing_pub@,
        state.generation,
    )
}

/// The fields of an invitation hold keys.
pub open spec fn invite_valid(
    f: (u32, Seq<u8>, Seq<char>, Seq<u8>, Seq<u8>, Seq<u8>, Seq<u8>, u32),
) -> bool {
    f.5.len() == 32 && is_verifying_key(f.6)
}

/// What bytes are as the contents of a one-to-one message.
pub open spec fn payload_is(bytes: Seq<u8>, r: Option<P2pPayload>) -> bool {
    match wire::variant_of(bytes) {
        Some(0) => match wire::chat_fields_of(bytes) {
            Some(f) => r matches Some(P2pPayload::Chat(text)) && text@ == f.1,
            None => r is None,
        },
        Some(1) => match wire::invite_fields_of(bytes) {
            Some(f) => if invite_valid(f) {
                r matches Some(P2pPayload::GroupDist { group, name, state }) && group@ == f.1
                    && name@ == f.2 && state.member_id@ == f.3 && state.chain_key.0@ == f.4
                    && state.signing_priv@ == f.5 && state.signing_pub@ == f.6
                    && state.generation == f.7
            } else {
                r is None
            },
            None => r is None,
        },
        _ => r is None,
    }
}

/// The bytes that contents encode to.
pub open spec fn payload_bytes(p: P2pPayload) -> Seq<u8> {
    match p {
        P2pPayload::Chat(text) => wire::chat_bytes_of(text@),
        P2pPayload::GroupDist { group, name, state } => invite_bytes(group, name@, state),
    }
}

/// Encodes the contents of a one-to-one message.
pub fn encode_payload(p: &P2pPayload) -> (r: Vec<u8>)
    ensures
        r@ == payload_bytes(*p),
        match *p {
            P2pPayload::Chat(text) => r@.len() <= encode_utf8(text@).len() + 11
                && wire::variant_of(r@) == Some(0u32) && wire::chat_fields_of(r@) == Some(
                (0u32, text@),
            ),
            P2pPayload::GroupDist { group, name, state } => r@.len() <= encode_utf8(name@).len()
                + 196 && wire::variant_of(r@) == Some(1u32) && wire::invite_fields_of(r@) == Some(
                (
                    1u32,
                    group@,
                    name@,
                    state.member_id@,
                    state.chain_key.0@,
                    state.signing_priv@,
                    state.signing_pub@,
                    state.generation,
                ),
            ),
        },
{
    match p {
        P2pPayload::Chat(text) => {
            let len: usize = text.as_str().as_bytes().len();
            proof {
                assert(encode_utf8(text@).len() == len);
                wire::lemma_chat_len(text@);
            }
            wire::encode_chat(text.as_str())
        },
        P2pPayload::GroupDist { group, name, state } => {
            let len: usize = name.as_str().as_bytes().len();
            proof {
                assert(encode_utf8(name@).len() == len);
                wire::lemma_invite_len(
                    group@,
                    name@,
                    state.member_id@,
                    state.chain_key.0@,
                    state.signing_priv.bytes@,
                    state.signing_pub.bytes@,
                    state.generation,
                );
            }
            wire::encode_invite(
                group,
                name.as_str(),
                &state.member_id,
                &state.chain_key.0,
                &state.signing_priv.bytes,
                &state.signing_pub.bytes,
                state.generation,
            )
        },
    }
}

/// Decodes the contents of a one-to-one message; `None` where a peer sent
/// something else, such as bare text.
pub fn decode_payload(bytes: &[u8]) -> (r: Option<P2pPayload>)
    ensures
        payload_is(bytes@, r),
{
    match wire::decode_variant(bytes) {
        Some(0) => match wire::decode_chat(bytes) {
            Some((_, text)) => Some(P2pPayload::Chat(text)),
            None => None,
        },
        Some(1) => match wire::decode_invite(bytes) {
            Some((_, group, name, member_id, chain_key, signing, signing_pub, generation)) => {
                if signing.len() != 32 || signing_pub.len() != 32 {
                    return None;
                }
                match VerifyingKey::from_bytes(&array32(&signing_pub)) {
                    Ok(signing_pub) => Some(
                        P2pPayload::GroupDist {
                            group,
                            name,
                            state: SenderKeyState {
                                member_id,
                                chain_key: SenderChainKey(chain_key),
                                signing_priv: SigningKey { bytes: array32(&signing) },
                                signing_pub,
                                generation,
                            },
                        },
                    ),
                    Err(_) => None,
                }
            },
            None => None,
        },
        _ => None,
    }
}

/// A chat message comes out as it went in.
pub proof fn lemma_chat_round_trip(text: String, bytes: Seq<u8>, r: Option<P2pPayload>)
    requires
        wire::variant_of(bytes) == Some(0u32),
        wire::chat_fields_of(bytes) == Some((0u32, text@)),
        payload_is(bytes, r),
    ensures
        r matches Some(P2pPayload::Chat(t)) && t@ == text@,
{
}

/// An invitation comes out as it went in, where the state holds a key.
pub proof fn lemma_invite_round_trip(
    group: [u8; 32],
    name: Seq<char>,
    state: SenderKeyState,
    bytes: Seq<u8>,
    r: Option<P2pPayload>,
)
    requires
        wire::variant_of(bytes) == Some(1u32),
        wire::invite_fields_of(bytes) == Some(
            (
                1u32,
                group@,
                name,
                state.member_id@,
                state.chain_key.0@,
                state.signing_priv@,
                state.signing_pub@,
                state.generation,
            ),
        ),
        is_verifying_key(state.signing_pub@),
        payload_is(bytes, r),
    ensures
        r matches Some(P2pPayload::GroupDist { group: g, name: n, state: s }) && g == group && n@
            == name && s == state,
{
    assert(state.signing_priv@.len() == 32);
    match r {
        Some(P2pPayload::GroupDist { group: g, name: n, state: s }) => {
            lemma_array32_ext(g, group);
            lemma_array32_ext(s.member_id, state.member_id);
            lemma_array32_ext(s.chain_key.0, state.chain_key.0);
            lemma_array32_ext(s.signing_priv.bytes, state.signing_priv.bytes);
            lemma_array32_ext(s.signing_pub.bytes, state.signing_pub.bytes);
        },
        _ => {},
    }
}

// ---- Groups ---------------------------------------------------------------------------

/// The members of a group one after the other.
pub open spec fn joined_keys(members: Seq<[u8; 32]>) -> Seq<u8>
    decreases members.len(),
{
    if members.len() == 0 {
        Seq::empty()
    } else {
        joined_keys(members.drop_last()) + members.last()@
    }
}

/// What a group's id is the SHA-256 of: the name, the number of members in one
/// byte, the members, and the founder.
pub open spec fn group_id_input(
    name: Seq<char>,
    members: Seq<[u8; 32]>,
    founder: Seq<u8>,
) -> Seq<u8> {
    encode_utf8(name).push(members.len() as u8) + joined_keys(members) + founder
}

/// The id of a group.
pub fn group_id(name: &str, members: &[[u8; 32]], founder: &[u8; 32]) -> (r: [u8; 32])
    ensures
        r@ == primitives::sha256_of(group_id_input(name@, members@, founder@)),
{
    let mut input: Vec<u8> = to_vec(name.as_bytes());
    input.push(members.len() as u8);
    let ghost head = input@;
    let mut i: usize = 0;
    assert(members@.take(0) =~= Seq::<[u8; 32]>::empty());
    assert(input@ =~= head + joined_keys(members@.take(0)));
    while i < members.len()
        invariant
            0 <= i <= members@.len(),
            input@ == head + joined_keys(members@.take(i as int)),
        decreases members@.len() - i,
    {
        append(&mut input, &members[i]);
        proof {
            let next = members@.take(i + 1);
            assert(next.drop_last() =~= members@.take(i as int));
            assert(next.last() == members@[i as int]);
            assert(input@ =~= head + joined_keys(next));
        }
        i = i + 1;
    }
    assert(members@.take(i as int) =~= members@);
    append(&mut input, founder);
    primitives::sha256(&input)
}

/// The number of members of a group with so many others in it.
pub open spec fn members_of(others: nat) -> u32 {
    let n = others as u32;
    if n == u32::MAX {
        n
    } else {
        (n + 1) as u32
    }
}

/// The number of members of a group with so many others in it.
fn member_count(others: usize) -> (r: u32)
    ensures
        r == members_of(others as nat),
{
    let n: u32 = others as u32;
    if n == u32::MAX {
        n
    } else {
        n + 1
    }
}

/// A group and a peer, to whom the client's sender-key state of the group went.
#[derive(Debug, Clone, Copy)]
pub struct Edge {
    pub group: [u8; 32],
    pub peer: [u8; 32],
}

impl Key for Edge {
    fn same(&self, other: &Edge) -> (r: bool) {
        same32(&self.group, &other.group) && same32(&self.peer, &other.peer)
    }
}

// ---- Frames of the relay -----------------------------------------------------------------

/// What a frame leads to outside of any exchange.
pub enum FrameStep {
    /// Take in envelopes; the connection is alive.
    Deliver(Vec<EncryptedEnvelope>),
    /// The connection is alive.
    Alive,
    /// Show an error; the connection is alive.
    Show(Event),
    /// The connection is gone.
    Disconnect,
}

/// Any frame that comes in shows that the connection is alive, an error too;
/// `None` stands for a closed or broken connection.
pub fn shows_life(frame: &Option<ServerMessage>) -> (r: bool)
    ensures
        r == (frame is Some),
{
    frame.is_some()
}

/// What a frame leads to, `None` for a closed or broken connection.
pub fn on_frame(frame: Option<ServerMessage>) -> (r: FrameStep)
    ensures
        match frame {
            Some(ServerMessage::Delivered(envs)) => r matches FrameStep::Deliver(e) && e@ == envs@,
            Some(ServerMessage::Pong) => r is Alive,
            Some(ServerMessage::AckOk) => r is Alive,
            Some(ServerMessage::Bundle(_)) => r is Alive,
            Some(ServerMessage::Error(e)) => r matches FrameStep::Show(ev) && ev@
                == EventModel::Error("server: "@ + server_error_name(e)),
            None => r is Disconnect,
        },
{
    match frame {
        Some(ServerMessage::Delivered(envs)) => FrameStep::Deliver(envs),
        Some(ServerMessage::Pong) => FrameStep::Alive,
        Some(ServerMessage::AckOk) => FrameStep::Alive,
        Some(ServerMessage::Bundle(_)) => FrameStep::Alive,
        Some(ServerMessage::Error(e)) => FrameStep::Show(Event::Error(server_error_text(e))),
        None => FrameStep::Disconnect,
    }
}

/// What a frame leads to while an answer is awaited.
pub enum AwaitStep {
    /// The answer is here.
    Done,
    /// A fetched bundle is here, `None` where the peer is not registered.
    Fetched(Option<PreKeyBundle>),
    /// Take in envelopes, then go on waiting.
    Deliver(Vec<EncryptedEnvelope>),
    /// The connection is alive; go on waiting.
    Alive,
    /// Go on waiting.
    Wait,
    /// Give up.
    Fail(String),
}

/// What a frame leads to after registering: the acknowledgement ends the wait,
/// and envelopes are not for this moment.
pub fn on_register_frame(frame: Option<ServerMessage>) -> (r: AwaitStep)
    ensures
        match frame {
            Some(ServerMessage::AckOk) => r is Done,
            Some(ServerMessage::Error(e)) => r matches AwaitStep::Fail(s) && s@ == "server: "@
                + server_error_name(e),
            Some(_) => r is Wait,
            None => r matches AwaitStep::Fail(s) && s@ == humanized(ClientError::NotConnected),
        },
{
    match frame {
        Some(ServerMessage::AckOk) => AwaitStep::Done,
        Some(ServerMessage::Error(e)) => AwaitStep::Fail(server_error_text(e)),
        Some(_) => AwaitStep::Wait,
        None => AwaitStep::Fail(humanize(&ClientError::NotConnected)),
    }
}

/// What a frame leads to after subscribing: envelopes that waited at the relay
/// come before the acknowledgement and are taken in.
pub fn on_subscribe_frame(frame: Option<ServerMessage>) -> (r: AwaitStep)
    ensures
        match frame {
            Some(ServerMessage::AckOk) => r is Done,
            Some(ServerMessage::Delivered(envs)) => r matches AwaitStep::Deliver(e) && e@ == envs@,
            Some(ServerMessage::Error(e)) => r matches AwaitStep::Fail(s) && s@ == "server: "@
                + server_error_name(e),
            Some(_) => r is Wait,
            None => r matches AwaitStep::Fail(s) && s@ == "connection closed during subscribe"@,
        },
{
    match frame {
        Some(ServerMessage::AckOk) => AwaitStep::Done,
        Some(ServerMessage::Delivered(envs)) => AwaitStep::Deliver(envs),
        Some(ServerMessage::Error(e)) => AwaitStep::Fail(server_error_text(e)),
        Some(_) => AwaitStep::Wait,
        None => AwaitStep::Fail("connection closed during subscribe".to_owned()),
    }
}

/// What a frame leads to while a bundle is awaited; envelopes that come in
/// between are taken in.
pub fn on_fetch_frame(frame: Option<ServerMessage>) -> (r: AwaitStep)
    ensures
        match frame {
            Some(ServerMessage::Bundle(b)) => r == AwaitStep::Fetched(b),
            Some(ServerMessage::Delivered(envs)) => r matches AwaitStep::Deliver(e) && e@ == envs@,
            Some(ServerMessage::AckOk) => r is Alive,
            Some(ServerMessage::Pong) => r is Alive,
            Some(ServerMessage::Error(e)) => r matches AwaitStep::Fail(s) && s@ == "server: "@
                + server_error_name(e),
            None => r matches AwaitStep::Fail(s) && s@ == "connection closed during bundle fetch"@,
        },
{
    match frame {
        Some(ServerMessage::Bundle(b)) => AwaitStep::Fetched(b),
        Some(ServerMessage::Delivered(envs)) => AwaitStep::Deliver(envs),
        Some(ServerMessage::AckOk) => AwaitStep::Alive,
        Some(ServerMessage::Pong) => AwaitStep::Alive,
        Some(ServerMessage::Error(e)) => AwaitStep::Fail(server_error_text(e)),
        None => AwaitStep::Fail("connection closed during bundle fetch".to_owned()),
    }
}

// ---- Time -----------------------------------------------------------------------------------

/// What a heartbeat does.
#[derive(Debug, Clone, Copy, PartialEq, Eq, Structural)]
pub enum HeartbeatAction {
    /// Probe the connection.
    Ping,
    /// Take the connection as lost.
    Disconnect,
}

/// What a heartbeat does so many nanoseconds after the last sign of life.
pub fn heartbeat_decision(elapsed: u128, grace: u128) -> (r: HeartbeatAction)
    ensures
        r == (if elapsed > grace {
            HeartbeatAction::Disconnect
        } else {
            HeartbeatAction::Ping
        }),
{
    if elapsed > grace {
        HeartbeatAction::Disconnect
    } else {
        HeartbeatAction::Ping
    }
}

/// How many seconds pass before the first attempt to connect again.
pub const FIRST_DELAY_SECS: u64 = 1;

/// The seconds to wait before the next attempt to connect: twice as many as
/// before, up to the cap.
pub open spec fn doubled_delay(delay: u64) -> u64 {
    if 2 * delay <= BACKOFF_CAP_SECS {
        (2 * delay) as u64
    } else {
        BACKOFF_CAP_SECS
    }
}

/// The seconds to wait before the next attempt to connect.
pub fn next_delay(delay: u64) -> (r: u64)
    ensures
        r == doubled_delay(delay),
{
    if delay <= BACKOFF_CAP_SECS && delay * 2 <= BACKOFF_CAP_SECS {
        delay * 2
    } else {
        BACKOFF_CAP_SECS
    }
}

/// What is known of a connection that was lost.
#[derive(Debug, Clone, Copy, PartialEq, Eq, Structural)]
pub enum LinkNews {
    /// It is gone.
    Lost,
    /// An attempt to connect again, after so many seconds, failed.
    StillDown { waited: u64 },
    /// An attempt to connect again succeeded.
    Back,
    /// Something else connected in the meantime.
    AlreadyBack,
}

/// What a lost connection leads to: what is told, if anything, and after how
/// many seconds to connect again; `None` where there is nothing more to do.
#[derive(Debug)]
pub struct LinkStep {
    pub told: Option<Event>,
    pub retry_after: Option<u64>,
}

/// What a lost connection leads to: the loss is told at once and the return once
/// it is there, and attempts go on until one succeeds.
pub fn link_step(news: LinkNews) -> (r: LinkStep)
    ensures
        match news {
            LinkNews::Lost => (r.told matches Some(ev) && ev@ == (EventModel::Disconnected {
                reason: "connection closed"@,
            })) && r.retry_after == Some(FIRST_DELAY_SECS),
            LinkNews::StillDown { waited } => r.told is None && r.retry_after == Some(
                doubled_delay(waited),
            ),
            LinkNews::Back => (r.told matches Some(ev) && ev@ == EventModel::Connected)
                && r.retry_after is None,
            LinkNews::AlreadyBack => r.told is None && r.retry_after is None,
        },
{
    match news {
        LinkNews::Lost => LinkStep {
            told: Some(Event::Disconnected { reason: "connection closed".to_owned() }),
            retry_after: Some(FIRST_DELAY_SECS),
        },
        LinkNews::StillDown { waited } => LinkStep {
            told: None,
            retry_after: Some(next_delay(waited)),
        },
        LinkNews::Back => LinkStep { told: Some(Event::Connected), retry_after: None },
        LinkNews::AlreadyBack => LinkStep { told: None, retry_after: None },
    }
}

/// The seconds before an attempt to connect again after so many that failed.
pub open spec fn delay_after(failed: nat) -> u64
    decreases failed,
{
    if failed == 0 {
        FIRST_DELAY_SECS
    } else {
        doubled_delay(delay_after((failed - 1) as nat))
    }
}

/// The attempts to connect again come after 1, 2, 4, 8 and 16 seconds and then
/// every 30 seconds.
pub proof fn lemma_delays(failed: nat)
    ensures
        delay_after(0) == 1,
        delay_after(1) == 2,
        delay_after(2) == 4,
        delay_after(3) == 8,
        delay_after(4) == 16,
        failed >= 5 ==> delay_after(failed) == BACKOFF_CAP_SECS,
    decreases failed,
{
    reveal_with_fuel(delay_after, 6);
    if failed > 5 {
        lemma_delays((failed - 1) as nat);
    }
}

/// `SystemTime::elapsed` of the start of 1970, in seconds; `None` where the
/// clock is set before it. Nothing is stated of the time.
#[verifier::external_body]
fn since_epoch() -> Option<u64> {
    std::time::UNIX_EPOCH.elapsed().ok().map(|d| d.as_secs())
}

/// A time in seconds, 0 for one before 1970.
pub fn seconds_or_zero(since: Option<u64>) -> (r: u64)
    ensures
        r == (match since {
            Some(s) => s,
            None => 0,
        }),
{
    match since {
        Some(s) => s,
        None => 0,
    }
}

/// The current time in seconds since 1970. Nothing is stated of the time.
pub fn now_secs() -> u64 {
    seconds_or_zero(since_epoch())
}

// ---- History and contacts -------------------------------------------------------------------

/// The status that is stored as a number; an unknown number counts as still
/// being sent.
pub open spec fn status_of(v: u8) -> Status {
    if exists|s: Status| #[trigger] s.code() == v {
        choose|s: Status| #[trigger] s.code() == v
    } else {
        Status::Sending
    }
}

/// The message of a stored row.
pub open spec fn message_of_row(r: StoredMessageRow) -> MessageModel {
    MessageModel {
        local_id: r.id as u64,
        text: r.msg.text@,
        dir: if r.direction == 0 {
            Direction::Out
        } else {
            Direction::In
        },
        timestamp: r.timestamp as u64,
        status: status_of(r.msg.status),
        sender: r.sender,
    }
}

/// The messages of stored rows.
pub fn rows_to_views(rows: Vec<StoredMessageRow>) -> (r: Vec<MessageView>)
    ensures
        messages_model(r@) == rows@.map_values(|row: StoredMessageRow| message_of_row(row)),
        r@.len() == rows@.len(),
        forall|i: int|
            #![trigger r@[i]]
            0 <= i < rows@.len() ==> r@[i].local_id == rows@[i].id as u64 && r@[i].text@
                == rows@[i].msg.text@ && (r@[i].dir == Direction::Out <==> rows@[i].direction == 0)
                && r@[i].timestamp == rows@[i].timestamp as u64 && r@[i].sender == rows@[i].sender
                && (rows@[i].msg.status == r@[i].status.code() || (rows@[i].msg.status > 3
                && r@[i].status == Status::Sending)),
{
    let mut out: Vec<MessageView> = Vec::new();
    let mut i: usize = 0;
    while i < rows.len()
        invariant
            0 <= i <= rows@.len(),
            out@.len() == i,
            forall|j: int| 0 <= j < i ==> (#[trigger] out@[j])@ == message_of_row(rows@[j]),
            forall|j: int|
                #![trigger out@[j]]
                0 <= j < i ==> out@[j].local_id == rows@[j].id as u64 && out@[j].text@
                    == rows@[j].msg.text@ && (out@[j].dir == Direction::Out <==> rows@[j].direction
                    == 0) && out@[j].timestamp == rows@[j].timestamp as u64 && out@[j].sender
                    == rows@[j].sender && (rows@[j].msg.status == out@[j].status.code() || (
                rows@[j].msg.status > 3 && out@[j].status == Status::Sending)),
        decreases rows@.len() - i,
    {
        let row: &StoredMessageRow = &rows[i];
        let status: Status = Status::from_u8(row.msg.status);
        assert(status == status_of(row.msg.status) && (row.msg.status == status.code() || (
        row.msg.status > 3 && status == Status::Sending))) by {
            assert(Status::Sending.code() == 0);
            assert(Status::Sent.code() == 1);
            assert(Status::Delivered.code() == 2);
            assert(Status::Failed.code() == 3);
        }
        out.push(
            MessageView {
                local_id: row.id as u64,
                text: row.msg.text.clone(),
                dir: if row.direction == 0 {
                    Direction::Out
                } else {
                    Direction::In
                },
                timestamp: row.timestamp as u64,
                status,
                sender: row.sender,
            },
        );
        i = i + 1;
    }
    assert(messages_model(out@) =~= rows@.map_values(|row: StoredMessageRow| message_of_row(row)));
    out
}

/// What is told of a loaded page of a chat, `None` where it could not be
/// loaded: nothing, and that there is no more.
pub fn history_event(chat: ChatId, page: Option<MessagePage>, older: bool) -> (r: Event)
    ensures
        ({
            let (msgs, has_more) = match page {
                Some(p) => (
                    p.rows@.map_values(|row: StoredMessageRow| message_of_row(row)),
                    p.has_more,
                ),
                None => (Seq::<MessageModel>::empty(), false),
            };
            r@ == (if older {
                EventModel::OlderHistoryLoaded { chat, msgs, has_more }
            } else {
                EventModel::HistoryLoaded { chat, msgs, has_more }
            })
        }),
{
    let (msgs, has_more): (Vec<MessageView>, bool) = match page {
        Some(p) => (rows_to_views(p.rows), p.has_more),
        None => (Vec::new(), false),
    };
    proof {
        if page is None {
            assert(messages_model(msgs@) =~= Seq::<MessageModel>::empty());
        }
    }
    if older {
        Event::OlderHistoryLoaded { chat, msgs, has_more }
    } else {
        Event::HistoryLoaded { chat, msgs, has_more }
    }
}

/// A stored contact as it is shown.
pub open spec fn contact_model_of(c: Contact) -> ContactModel {
    ContactModel {
        identity_pub: c.identity_pub,
        nickname: c.nickname@,
        fingerprint: c.fingerprint,
        verified: c.verified,
    }
}

/// Stored contacts as they are shown.
pub fn contacts_to_views(contacts: Vec<Contact>) -> (r: Vec<ContactView>)
    ensures
        contacts_model(r@) == contacts@.map_values(|c: Contact| contact_model_of(c)),
        r@.len() == contacts@.len(),
        forall|i: int|
            #![trigger r@[i]]
            0 <= i < contacts@.len() ==> r@[i].identity_pub == contacts@[i].identity_pub
                && r@[i].nickname@ == contacts@[i].nickname@ && r@[i].fingerprint
                == contacts@[i].fingerprint && r@[i].verified == contacts@[i].verified,
{
    let mut out: Vec<ContactView> = Vec::new();
    let mut i: usize = 0;
    while i < contacts.len()
        invariant
            0 <= i <= contacts@.len(),
            out@.len() == i,
            forall|j: int| 0 <= j < i ==> (#[trigger] out@[j])@ == contact_model_of(contacts@[j]),
            forall|j: int|
                #![trigger out@[j]]
                0 <= j < i ==> out@[j].identity_pub == contacts@[j].identity_pub
                    && out@[j].nickname@ == contacts@[j].nickname@ && out@[j].fingerprint
                    == contacts@[j].fingerprint && out@[j].verified == contacts@[j].verified,
        decreases contacts@.len() - i,
    {
        let c: &Contact = &contacts[i];
        out.push(
            ContactView {
                identity_pub: c.identity_pub,
                nickname: c.nickname.clone(),
                fingerprint: c.fingerprint,
                verified: c.verified,
            },
        );
        i = i + 1;
    }
    assert(contacts_model(out@) =~= contacts@.map_values(|c: Contact| contact_model_of(c)));
    out
}

/// What became of writing to the store.
pub enum Written {
    /// There is no store.
    NoStore,
    /// It is written.
    Done,
    /// It could not be written.
    Failed(ClientError),
}

/// What is told of an added contact, `contacts` being those of the store.
pub fn contact_added(written: &Written, contacts: Vec<ContactView>) -> (r: Event)
    ensures
        r@ == (match *written {
            Written::NoStore => EventModel::Error("store not unlocked"@),
            Written::Done => EventModel::ContactsLoaded(contacts_model(contacts@)),
            Written::Failed(e) => EventModel::Error(humanized(e)),
        }),
{
    match written {
        Written::NoStore => Event::Error("store not unlocked".to_owned()),
        Written::Done => Event::ContactsLoaded(contacts),
        Written::Failed(e) => Event::Error(humanize(e)),
    }
}

/// What is told of a fingerprint that the user compared, `contacts` being those
/// of the store. Without a store the mark lasts as long as the shell.
pub fn fingerprint_compared(
    identity_pub: [u8; 32],
    written: &Written,
    contacts: Vec<ContactView>,
) -> (r: Vec<Event>)
    ensures
        events_model(r@) == (match *written {
            Written::Failed(e) => seq![EventModel::Error(humanized(e))],
            _ => seq![
                EventModel::FingerprintVerified { identity_pub },
                EventModel::ContactsLoaded(contacts_model(contacts@)),
            ],
        }),
{
    let mut out: Vec<Event> = Vec::new();
    match written {
        Written::Failed(e) => {
            out.push(Event::Error(humanize(e)));
            assert(events_model(out@) =~= seq![out@[0]@]);
        },
        _ => {
            out.push(Event::FingerprintVerified { identity_pub });
            out.push(Event::ContactsLoaded(contacts));
            assert(events_model(out@) =~= seq![out@[0]@, out@[1]@]);
        },
    }
    out
}

/// What is told of an attempt to connect or to register.
pub fn reached(attempt: Result<(), String>) -> (r: Event)
    ensures
        r@ == (match attempt {
            Ok(_) => EventModel::Connected,
            Err(reason) => EventModel::Error(reason@),
        }),
{
    match attempt {
        Ok(_) => Event::Connected,
        Err(reason) => Event::Error(reason),
    }
}

// ---- Sent messages -------------------------------------------------------------------------

/// What is told of a message that could not be sent.
pub fn send_failed(chat: ChatId, local_id: u64, reason: String) -> (r: Event)
    ensures
        r@ == (EventModel::SendFailed { chat, local_id, reason: reason@ }),
{
    Event::SendFailed { chat, local_id, reason }
}

/// What is told of a message that went out at a time.
pub fn sent_event(chat: ChatId, text: String, local_id: u64, timestamp: u64) -> (r: Event)
    ensures
        r@ == (EventModel::Sent {
            chat,
            local_id,
            msg: MessageModel {
                local_id,
                text: text@,
                dir: Direction::Out,
                timestamp,
                status: Status::Sent,
                sender: None,
            },
        }),
{
    Event::Sent {
        chat,
        local_id,
        msg: MessageView {
            local_id,
            text,
            dir: Direction::Out,
            timestamp,
            status: Status::Sent,
            sender: None,
        },
    }
}

// ---- Delivered messages ----------------------------------------------------------------------

/// The chat that an envelope belongs to: for a group message with a readable
/// header the group, else the sender.
pub open spec fn chat_of_envelope(env: EncryptedEnvelope) -> ChatId {
    match env.kind {
        MessageKind::Direct => ChatId::Peer(env.sender),
        MessageKind::Group => match wire::group_header_fields_of(env.header@) {
            Ok(f) => if is_verifying_key(f.3) {
                ChatId::Group(array_of(f.0))
            } else {
                ChatId::Peer(env.sender)
            },
            Err(_) => ChatId::Peer(env.sender),
        },
    }
}

/// The chat that an envelope belongs to.
pub fn delivered_chat(env: &EncryptedEnvelope) -> (r: ChatId)
    ensures
        r == chat_of_envelope(*env),
{
    match env.kind {
        MessageKind::Direct => ChatId::Peer(env.sender),
        MessageKind::Group => match group_header_from_envelope(env) {
            Ok(h) => {
                proof {
                    lemma_array_of(h.group_id);
                }
                ChatId::Group(h.group_id)
            },
            Err(_) => ChatId::Peer(env.sender),
        },
    }
}

/// The number by which the store knows an envelope, `None` for one too large
/// for it.
pub fn server_id(id: u64) -> (r: Option<i64>)
    ensures
        r == (if id <= i64::MAX {
            Some(id as i64)
        } else {
            None
        }),
{
    if id <= 9_223_372_036_854_775_807 {
        Some(id as i64)
    } else {
        None
    }
}

/// What a delivered envelope turned out to be.
pub enum Taken {
    /// One that the store has.
    Known,
    /// One that does not open; to be told.
    Refused(Event),
    /// A message of a chat, with its author where that is not the peer.
    Chat { chat: ChatId, text: String, sender: Option<[u8; 32]> },
    /// An invitation to a group.
    Invite { group: [u8; 32], name: String, state: SenderKeyState },
}

/// An envelope is acknowledged unless it did not open.
pub fn acknowledged(t: &Taken) -> (r: bool)
    ensures
        r == !(t is Refused),
{
    match t {
        Taken::Refused(_) => false,
        _ => true,
    }
}

/// The ids to acknowledge once an envelope more was taken in.
pub fn note_delivered(ids: Vec<u64>, id: u64, t: &Taken) -> (r: Vec<u64>)
    ensures
        r@ == noted(ids@, id, !(t is Refused)),
{
    note_ack(ids, id, acknowledged(t))
}

/// What an opened envelope is.
pub open spec fn opened_as(env: EncryptedEnvelope, plaintext: Seq<u8>, t: Taken) -> bool {
    match env.kind {
        MessageKind::Direct => exists|p: Option<P2pPayload>| #[trigger]
            payload_is(plaintext, p) && match p {
                Some(P2pPayload::Chat(text)) => t matches Taken::Chat { chat, text: u, sender }
                    && chat == ChatId::Peer(env.sender) && u@ == text@ && sender is None,
                Some(P2pPayload::GroupDist { group, name, state }) => t matches Taken::Invite {
                    group: g,
                    name: n,
                    state: s,
                } && g == group && n@ == name@ && s == state,
                None => t matches Taken::Chat { chat, text: u, sender } && chat == ChatId::Peer(
                    env.sender,
                ) && u@ == lossy_text_of(plaintext) && sender is None,
            },
        MessageKind::Group => t matches Taken::Chat { chat, text: u, sender } && chat
            == chat_of_envelope(env) && u@ == lossy_text_of(plaintext) && sender == (
        if chat is Group {
            Some(env.sender)
        } else {
            None
        }),
    }
}

/// What is told of an envelope that does not open, for a reason in words.
pub open spec fn refusal_text(sender: [u8; 32], reason: Seq<char>) -> Seq<char> {
    "failed to decrypt message from "@ + hex_chars(sender@) + ": "@ + reason
}

/// What became of storing a message.
pub enum Stored {
    /// There is no store.
    NoStore,
    /// It is stored.
    Fresh,
    /// It was stored before.
    Duplicate,
    /// It could not be stored.
    Failed(ClientError),
}

/// What is told of a message that came in: nothing where it was stored before,
/// the error where it could not be stored, and the message.
pub fn delivered_events(
    chat: ChatId,
    env_id: u64,
    text: String,
    sender: Option<[u8; 32]>,
    timestamp: u64,
    stored: Stored,
) -> (r: Vec<Event>)
    ensures
        ({
            let told = EventModel::Decrypted {
                chat,
                msg: MessageModel {
                    local_id: env_id,
                    text: text@,
                    dir: Direction::In,
                    timestamp,
                    status: Status::Delivered,
                    sender,
                },
            };
            events_model(r@) == (match stored {
                Stored::Duplicate => Seq::<EventModel>::empty(),
                Stored::Failed(e) => seq![EventModel::Error("store: "@ + humanized(e)), told],
                _ => seq![told],
            })
        }),
{
    let mut out: Vec<Event> = Vec::new();
    match &stored {
        Stored::Duplicate => {
            assert(events_model(out@) =~= Seq::<EventModel>::empty());
            return out;
        },
        Stored::Failed(e) => {
            let mut s: String = "store: ".to_owned();
            s.append(humanize(e).as_str());
            out.push(Event::Error(s));
        },
        _ => {},
    }
    out.push(
        Event::Decrypted {
            chat,
            msg: MessageView {
                local_id: env_id,
                text,
                dir: Direction::In,
                timestamp,
                status: Status::Delivered,
                sender,
            },
        },
    );
    proof {
        let told = out@.last()@;
        match stored {
            Stored::Failed(e) => {
                assert(events_model(out@) =~= seq![
                    EventModel::Error("store: "@ + humanized(e)),
                    told,
                ]);
            },
            _ => {
                assert(events_model(out@) =~= seq![told]);
            },
        }
    }
    out
}

// ---- The bridge ----------------------------------------------------------------------------

/// The state of the bridge, the store and the connection aside.
pub struct Bridge {
    pub session: ClientSession,
    pub config: Config,
    /// The highest id among delivered envelopes.
    pub last_delivered_id: u64,
    /// Nanoseconds between two probes.
    pub heartbeat_interval: u128,
    /// Nanoseconds without a sign of life after which a connection counts as
    /// lost.
    pub heartbeat_grace: u128,
    /// The other members of each group.
    pub group_rosters: KeyMap<[u8; 32], Vec<[u8; 32]>>,
    pub group_names: KeyMap<[u8; 32], String>,
    /// To whom the client's own sender-key state of a group went.
    pub dist_sent: KeySet<Edge>,
}

/// The contents of a [`Bridge`].
#[verifier::ext_equal]
pub struct BridgeState {
    pub session: SessionState,
    pub config: ConfigModel,
    pub last_delivered_id: u64,
    pub interval: u128,
    pub grace: u128,
    pub rosters: Map<[u8; 32], Seq<[u8; 32]>>,
    pub names: Map<[u8; 32], Seq<char>>,
    pub dist_sent: Set<Edge>,
}

/// The contents of rosters.
pub open spec fn rosters_model(m: Map<[u8; 32], Vec<[u8; 32]>>) -> Map<[u8; 32], Seq<[u8; 32]>> {
    m.map_values(|v: Vec<[u8; 32]>| v@)
}

/// The contents of names.
pub open spec fn names_model(m: Map<[u8; 32], String>) -> Map<[u8; 32], Seq<char>> {
    m.map_values(|s: String| s@)
}

impl View for Bridge {
    type V = BridgeState;

    open spec fn view(&self) -> BridgeState {
        BridgeState {
            session: self.session@,
            config: self.config@,
            last_delivered_id: self.last_delivered_id,
            interval: self.heartbeat_interval,
            grace: self.heartbeat_grace,
            rosters: rosters_model(self.group_rosters@),
            names: names_model(self.group_names@),
            dist_sent: self.dist_sent@,
        }
    }
}

/// The roster of a group, empty for an unknown one.
pub open spec fn roster_of(s: BridgeState, group: [u8; 32]) -> Seq<[u8; 32]> {
    if s.rosters.contains_key(group) {
        s.rosters[group]
    } else {
        Seq::empty()
    }
}

/// The name of a group, empty for an unknown one.
pub open spec fn name_of(s: BridgeState, group: [u8; 32]) -> Seq<char> {
    if s.names.contains_key(group) {
        s.names[group]
    } else {
        Seq::empty()
    }
}

/// A roster with a peer in it.
pub open spec fn with_member(roster: Seq<[u8; 32]>, peer: [u8; 32]) -> Seq<[u8; 32]> {
    if roster.contains(peer) {
        roster
    } else {
        roster.push(peer)
    }
}

/// The event that tells of the ready identity.
pub open spec fn ready_event(s: SessionState) -> EventModel {
    EventModel::Ready {
        identity_pub: s.identity.verifying.bytes,
        identity_fingerprint: array_of(fingerprint_spec(s.identity.verifying@)),
    }
}

/// What sending to a peer leads to: the envelope, or the event that tells of
/// the failure.
pub open spec fn composed(
    before: SessionState,
    chat: ChatId,
    local_id: u64,
    sent: Result<EncryptedEnvelope, ClientError>,
    r: Result<EncryptedEnvelope, Event>,
) -> bool {
    match sent {
        Ok(env) => r == Ok::<EncryptedEnvelope, Event>(env),
        Err(e) => r matches Err(ev) && ev@ == (EventModel::SendFailed {
            chat,
            local_id,
            reason: humanized(e),
        }),
    }
}

/// Why so many bytes cannot be sent to a peer, if they cannot: there are too
/// many of them, or the send counter has no room.
pub open spec fn send_obstacle(
    s: SessionState,
    peer: [u8; 32],
    len: nat,
    limit: u64,
    too_long: Seq<char>,
) -> Option<Seq<char>> {
    if len >= limit {
        Some(too_long)
    } else if !may_send(s, peer) {
        Some("message counter used up"@)
    } else {
        None
    }
}

/// Why a text cannot be sent to a group, if it cannot.
pub open spec fn group_obstacle(s: SessionState, group: [u8; 32], len: nat) -> Option<Seq<char>> {
    if len >= primitives::SEAL_LIMIT {
        Some("message too long"@)
    } else if !may_send_group(s, group) {
        Some("message counter used up"@)
    } else {
        None
    }
}

/// A message is not sent, for a reason that is told.
pub open spec fn send_refused(ev: Event, chat: ChatId, local_id: u64, reason: Seq<char>) -> bool {
    ev@ == (EventModel::SendFailed { chat, local_id, reason })
}

/// Why so many bytes cannot be sent to a peer.
fn find_obstacle(
    session: &ClientSession,
    peer: &[u8; 32],
    len: usize,
    limit: u64,
    too_long: &str,
) -> (r: Option<String>)
    requires
        session.wf(),
    ensures
        match r {
            Some(s) => send_obstacle(session@, *peer, len as nat, limit, too_long@) == Some(s@),
            None => send_obstacle(session@, *peer, len as nat, limit, too_long@) is None,
        },
{
    if len as u64 >= limit {
        Some(too_long.to_owned())
    } else if !session.can_send(peer) {
        Some("message counter used up".to_owned())
    } else {
        None
    }
}

/// A stored group with its members.
pub type KnownGroup = (StoredGroup, Vec<[u8; 32]>);

/// Stored groups as they are shown.
pub open spec fn known_views(groups: Seq<KnownGroup>) -> Seq<GroupModel> {
    groups.map_values(
        |g: KnownGroup|
            GroupModel { id: g.0.group_id, name: g.0.name@, members: members_of(g.1@.len()) },
    )
}

/// The state with stored groups taken in.
pub open spec fn with_groups(s: BridgeState, groups: Seq<KnownGroup>) -> BridgeState
    decreases groups.len(),
{
    if groups.len() == 0 {
        s
    } else {
        let t = with_groups(s, groups.drop_last());
        let g = groups.last();
        BridgeState {
            rosters: t.rosters.insert(g.0.group_id, g.1@),
            names: t.names.insert(g.0.group_id, g.0.name@),
            ..t
        }
    }
}

/// A group of the client's own is made: its id is a hash of its name, its members
/// and the founder, its name and roster are recorded, and the invitation holds the
/// founder's sender-key state.
pub open spec fn group_made_of(
    before: BridgeState,
    name: Seq<char>,
    members: Seq<[u8; 32]>,
    group: [u8; 32],
    payload: Seq<u8>,
    after: BridgeState,
) -> bool {
    &&& group@ == primitives::sha256_of(
        group_id_input(name, members, before.session.identity.verifying@),
    )
    &&& group_created(before.session, group, after.session)
    &&& after == (BridgeState {
        session: after.session,
        rosters: before.rosters.insert(group, members),
        names: before.names.insert(group, name),
        ..before
    })
    &&& exists|own: SenderKeyState|
        exports(after.session.groups[group], own) && payload == #[trigger] invite_bytes(
            group,
            name,
            own,
        )
    &&& payload.len() < primitives::SEAL_LIMIT
}

/// What an invitation leads to.
pub enum InviteStep {
    /// Send it.
    Send(EncryptedEnvelope),
    /// It cannot be sent; to be told.
    Failed(Event),
}

/// What is told of a member who cannot be invited.
pub open spec fn invite_refusal(member: [u8; 32], e: ClientError) -> Seq<char> {
    match e {
        ClientError::NoSession => "cannot invite "@ + hex_chars(member@)
            + ": no 1:1 session yet (send them a message first)"@,
        _ => humanized(e),
    }
}

/// What inviting a member does: the invitation goes out on the session with
/// them, and is noted.
pub open spec fn invited(
    before: BridgeState,
    group: [u8; 32],
    member: [u8; 32],
    payload: Seq<u8>,
    after: BridgeState,
    step: InviteStep,
) -> bool {
    if !may_send(before.session, member) {
        (step matches InviteStep::Failed(ev) && ev@ == EventModel::Error(
            invite_failed_text(member, "message counter used up"@),
        )) && after == before
    } else {
        exists|sent: Result<EncryptedEnvelope, ClientError>| #[trigger]
            direct_sent(before.session, member, payload, after.session, sent) && match sent {
                Ok(env) => step == InviteStep::Send(env) && after == (BridgeState {
                    session: after.session,
                    dist_sent: before.dist_sent.insert(Edge { group, peer: member }),
                    ..before
                }),
                Err(e) => (step matches InviteStep::Failed(ev) && ev@ == EventModel::Error(
                    invite_refusal(member, e),
                )) && after == (BridgeState { session: after.session, ..before }),
            }
    }
}

/// What is told of an invitation that did not go out.
pub open spec fn invite_failed_text(member: [u8; 32], reason: Seq<char>) -> Seq<char> {
    "group invite to "@ + hex_chars(member@) + " failed: "@ + reason
}

/// What an imported sender-key state leads to.
pub enum DistStep {
    /// Nothing to send: the own state went to the peer before.
    Settled,
    /// Send the own state in return.
    Answer(EncryptedEnvelope),
    /// The own state cannot be sent; to be told.
    Failed(Event),
}

/// The session of a group is at hand: a new one where there was none.
pub open spec fn group_at_hand(before: SessionState, group: [u8; 32], after: SessionState) -> bool {
    if before.groups.contains_key(group) {
        after == before
    } else {
        group_created(before, group, after)
    }
}

/// The session state with a peer's sender-key state of a group imported.
pub open spec fn imported(s: SessionState, group: [u8; 32], state: SenderKeyState) -> SessionState {
    SessionState { groups: s.groups.insert(group, with_peer(s.groups[group], state)), ..s }
}

/// What is told where the own state cannot be sent in return, for a reason in
/// words.
pub open spec fn answer_refusal(from: [u8; 32], reason: Seq<char>) -> Seq<char> {
    "could not ack group dist to "@ + hex_chars(from@) + ": "@ + reason
}

/// What taking in a sender-key state does, `mid` being the session state with a
/// session of the group at hand: the state is imported, the name recorded, and
/// the own state goes out in return unless it did before.
pub open spec fn distribution_taken(
    before: BridgeState,
    from: [u8; 32],
    group: [u8; 32],
    name: Seq<char>,
    state: SenderKeyState,
    mid: SessionState,
    after: BridgeState,
    step: DistStep,
) -> bool {
    let edge = Edge { group, peer: from };
    let named = BridgeState { names: before.names.insert(group, name), ..before };
    let known = imported(mid, group, state);
    &&& group_at_hand(before.session, group, mid)
    &&& if before.dist_sent.contains(edge) {
        step is Settled && after == (BridgeState { session: known, ..named })
    } else if let Some(reason) = send_obstacle(
        known,
        from,
        encode_utf8(name).len(),
        NAME_LIMIT,
        "group name too long"@,
    ) {
        (step matches DistStep::Failed(ev) && ev@ == EventModel::Error(
            answer_refusal(from, reason),
        )) && after == (BridgeState { session: known, ..named })
    } else {
        exists|own: SenderKeyState, sent: Result<EncryptedEnvelope, ClientError>| #[trigger]
            answered(known, group, from, name, own, after.session, sent) && match sent {
                Ok(env) => step == DistStep::Answer(env) && after == (BridgeState {
                    session: after.session,
                    dist_sent: before.dist_sent.insert(edge),
                    ..named
                }),
                Err(e) => (step matches DistStep::Failed(ev) && ev@ == EventModel::Error(
                    answer_refusal(from, humanized(e)),
                )) && after == (BridgeState { session: after.session, ..named }),
            }
    }
}

/// The own state of a group goes out to a peer.
pub open spec fn answered(
    before: SessionState,
    group: [u8; 32],
    peer: [u8; 32],
    name: Seq<char>,
    own: SenderKeyState,
    after: SessionState,
    sent: Result<EncryptedEnvelope, ClientError>,
) -> bool {
    exports(before.groups[group], own) && direct_sent(
        before,
        peer,
        invite_bytes(group, name, own),
        after,
        sent,
    )
}

impl Bridge {
    /// The session is consistent, and no key of a map occurs twice.
    pub open spec fn wf(&self) -> bool {
        &&& self.session.wf()
        &&& self.group_rosters.wf()
        &&& self.group_names.wf()
        &&& self.dist_sent.wf()
    }

    /// A bridge around a session.
    pub fn new(session: ClientSession, config: Config) -> (r: Self)
        requires
            session.wf(),
        ensures
            r.wf(),
            r@ == (BridgeState {
                session: session@,
                config: config@,
                last_delivered_id: 0,
                interval: (HEARTBEAT_INTERVAL_SECS * NANOS_PER_SEC) as u128,
                grace: (HEARTBEAT_GRACE_SECS * NANOS_PER_SEC) as u128,
                rosters: Map::empty(),
                names: Map::empty(),
                dist_sent: Set::empty(),
            }),
    {
        let r = Bridge {
            session,
            config,
            last_delivered_id: 0,
            heartbeat_interval: 30_000_000_000,
            heartbeat_grace: 90_000_000_000,
            group_rosters: KeyMap::new(),
            group_names: KeyMap::new(),
            dist_sent: KeySet::new(),
        };
        assert(r@.rosters =~= Map::<[u8; 32], Seq<[u8; 32]>>::empty());
        assert(r@.names =~= Map::<[u8; 32], Seq<char>>::empty());
        r
    }

    /// The bridge with other heartbeat times, in nanoseconds.
    pub fn with_heartbeat_params(self, interval: u128, grace: u128) -> (r: Self)
        ensures
            r@ == (BridgeState { interval, grace, ..self@ }),
            self.wf() ==> r.wf(),
    {
        Bridge {
            session: self.session,
            config: self.config,
            last_delivered_id: self.last_delivered_id,
            heartbeat_interval: interval,
            heartbeat_grace: grace,
            group_rosters: self.group_rosters,
            group_names: self.group_names,
            dist_sent: self.dist_sent,
        }
    }

    /// What a heartbeat does: nothing without a connection that showed a sign
    /// of life, which was `elapsed` nanoseconds ago.
    pub fn heartbeat(&self, connected: bool, elapsed: Option<u128>) -> (r: Option<HeartbeatAction>)
        ensures
            r == (match elapsed {
                Some(t) => if !connected {
                    None
                } else if t > self@.grace {
                    Some(HeartbeatAction::Disconnect)
                } else {
                    Some(HeartbeatAction::Ping)
                },
                None => None,
            }),
    {
        match elapsed {
            Some(t) => if connected {
                Some(heartbeat_decision(t, self.heartbeat_grace))
            } else {
                None
            },
            None => None,
        }
    }

    // ---- Setting up, unlocking, connecting -------------------------------------------------

    /// The event that tells of the ready identity.
    pub fn ready(&self) -> (r: Event)
        ensures
            r@ == ready_event(self@.session),
    {
        let fingerprint: [u8; 32] = self.session.fingerprint();
        proof {
            lemma_array_of(fingerprint);
        }
        Event::Ready {
            identity_pub: self.session.identity_pub(),
            identity_fingerprint: fingerprint,
        }
    }

    /// The name of the identity's store: its public key as digits.
    pub fn store_name(&self) -> (r: String)
        ensures
            r@ == hex_chars(self@.session.identity.verifying@),
    {
        hexadecimal::encode(&self.session.identity_pub())
    }

    /// The identity is set up and kept: it is the one to unlock next time.
    pub fn set_up(&mut self) -> (r: Event)
        requires
            old(self).wf(),
        ensures
            final(self).wf(),
            final(self)@ == (BridgeState {
                config: ConfigModel {
                    last_identity_pub: hex_chars(old(self)@.session.identity.verifying@),
                    ..old(self)@.config
                },
                ..old(self)@
            }),
            r@ == ready_event(old(self)@.session),
    {
        self.config.last_identity_pub = self.store_name();
        self.ready()
    }

    /// The identity to unlock.
    pub fn unlock_target(&self) -> (r: Result<String, Event>)
        ensures
            match r {
                Ok(name) => name@ == self@.config.last_identity_pub && name@.len() > 0,
                Err(ev) => self@.config.last_identity_pub.len() == 0 && ev@ == EventModel::Error(
                    "no stored identity to unlock"@,
                ),
            },
    {
        if self.config.last_identity_pub.as_str().is_empty() {
            Err(Event::Error("no stored identity to unlock".to_owned()))
        } else {
            Ok(self.config.last_identity_pub.clone())
        }
    }

    /// The store is open: its session takes the place of the one here, and its
    /// contacts, groups and counts are told.
    pub fn unlocked(
        &mut self,
        session: Option<ClientSession>,
        contacts: Vec<ContactView>,
        groups: Vec<KnownGroup>,
        unread: Vec<([u8; 32], u32)>,
    ) -> (r: Vec<Event>)
        requires
            old(self).wf(),
            session matches Some(s) ==> s.wf(),
        ensures
            final(self).wf(),
            match session {
                None => final(self)@ == old(self)@ && events_model(r@) == seq![
                    EventModel::Error("store has no session (corrupt?)"@),
                ],
                Some(s) => final(self)@ == with_groups(
                    BridgeState { session: s@, ..old(self)@ },
                    groups@,
                ) && events_model(r@) == seq![
                    ready_event(s@),
                    EventModel::ContactsLoaded(contacts_model(contacts@)),
                    EventModel::GroupsLoaded(known_views(groups@)),
                    EventModel::UnreadLoaded(unread@),
                ],
            },
    {
        let mut out: Vec<Event> = Vec::new();
        match session {
            None => {
                out.push(Event::Error("store has no session (corrupt?)".to_owned()));
                assert(events_model(out@) =~= seq![
                    EventModel::Error("store has no session (corrupt?)"@),
                ]);
            },
            Some(s) => {
                let ghost model = s@;
                self.session = s;
                let views: Vec<GroupView> = self.load_groups(&groups);
                out.push(self.ready());
                out.push(Event::ContactsLoaded(contacts));
                out.push(Event::GroupsLoaded(views));
                out.push(Event::UnreadLoaded(unread));
                proof {
                    lemma_with_groups_session(BridgeState { session: model, ..old(self)@ }, groups@);
                    assert(events_model(out@) =~= seq![
                        ready_event(model),
                        EventModel::ContactsLoaded(contacts_model(contacts@)),
                        EventModel::GroupsLoaded(known_views(groups@)),
                        EventModel::UnreadLoaded(unread@),
                    ]);
                }
            },
        }
        out
    }

    /// The bridge starts with an open store: its groups are taken in, and they
    /// and its counts are told, as far as there are any.
    pub fn started(&mut self, groups: Vec<KnownGroup>, unread: Vec<([u8; 32], u32)>) -> (r: Vec<
        Event,
    >)
        requires
            old(self).wf(),
        ensures
            final(self).wf(),
            final(self)@ == with_groups(old(self)@, groups@),
            ({
                let of_groups = if groups@.len() > 0 {
                    seq![EventModel::GroupsLoaded(known_views(groups@))]
                } else {
                    Seq::empty()
                };
                let of_unread = if unread@.len() > 0 {
                    seq![EventModel::UnreadLoaded(unread@)]
                } else {
                    Seq::empty()
                };
                events_model(r@) == of_groups + of_unread
            }),
    {
        let mut out: Vec<Event> = Vec::new();
        let views: Vec<GroupView> = self.load_groups(&groups);
        assert(views@.len() == groups@.len()) by {
            assert(groups_model(views@).len() == known_views(groups@).len());
        }
        if views.len() > 0 {
            out.push(Event::GroupsLoaded(views));
        }
        let ghost told = out@;
        if unread.len() > 0 {
            out.push(Event::UnreadLoaded(unread));
        }
        proof {
            let of_groups = if groups@.len() > 0 {
                seq![EventModel::GroupsLoaded(known_views(groups@))]
            } else {
                Seq::empty()
            };
            assert(events_model(told) =~= of_groups);
            if unread@.len() > 0 {
                assert(events_model(out@) =~= of_groups + seq![EventModel::UnreadLoaded(unread@)]);
            } else {
                assert(events_model(out@) =~= of_groups + Seq::<EventModel>::empty());
            }
        }
        out
    }

    /// Takes in the groups of the store.
    pub fn load_groups(&mut self, groups: &Vec<KnownGroup>) -> (r: Vec<GroupView>)
        requires
            old(self).wf(),
        ensures
            final(self).wf(),
            final(self)@ == with_groups(old(self)@, groups@),
            groups_model(r@) == known_views(groups@),
    {
        let ghost s = self@;
        let mut views: Vec<GroupView> = Vec::new();
        let mut i: usize = 0;
        assert(groups@.take(0) =~= Seq::<KnownGroup>::empty());
        while i < groups.len()
            invariant
                0 <= i <= groups@.len(),
                self.wf(),
                self@ == with_groups(s, groups@.take(i as int)),
                views@.len() == i,
                forall|j: int| 0 <= j < i ==> (#[trigger] views@[j])@ == known_views(groups@)[j],
            decreases groups@.len() - i,
        {
            let group: [u8; 32] = groups[i].0.group_id;
            let members: Vec<[u8; 32]> = copy_keys(&groups[i].1);
            let count: u32 = member_count(members.len());
            self.record_group(group, groups[i].0.name.clone(), members);
            views.push(
                GroupView { id: group, name: groups[i].0.name.clone(), members: count },
            );
            proof {
                let next = groups@.take(i + 1);
                assert(next.drop_last() =~= groups@.take(i as int));
                assert(next.last() == groups@[i as int]);
            }
            i = i + 1;
        }
        assert(groups@.take(i as int) =~= groups@);
        assert(groups_model(views@) =~= known_views(groups@));
        views
    }

    /// Records the name and the roster of a group.
    fn record_group(&mut self, group: [u8; 32], name: String, members: Vec<[u8; 32]>)
        requires
            old(self).wf(),
        ensures
            final(self).wf(),
            final(self)@ == (BridgeState {
                rosters: old(self)@.rosters.insert(group, members@),
                names: old(self)@.names.insert(group, name@),
                ..old(self)@
            }),
            final(self).session == old(self).session,
    {
        let ghost rosters = self.group_rosters@;
        let ghost names = self.group_names@;
        self.group_rosters.insert(group, members);
        self.group_names.insert(group, name);
        assert(rosters_model(self.group_rosters@) =~= rosters_model(rosters).insert(
            group,
            members@,
        ));
        assert(names_model(self.group_names@) =~= names_model(names).insert(group, name@));
    }

    /// Another relay, or the same, is the one to connect to next time.
    pub fn set_server(&mut self, addr: String)
        requires
            old(self).wf(),
        ensures
            final(self).wf(),
            final(self)@ == (BridgeState {
                config: ConfigModel { server_addr: addr@, ..old(self)@.config },
                ..old(self)@
            }),
    {
        self.config.server_addr = addr;
    }

    /// Forgets the groups of the identity that logs out.
    pub fn log_out(&mut self) -> (r: Event)
        requires
            old(self).wf(),
        ensures
            final(self).wf(),
            final(self)@ == (BridgeState {
                rosters: Map::empty(),
                names: Map::empty(),
                dist_sent: Set::empty(),
                ..old(self)@
            }),
            r@ == (EventModel::Disconnected { reason: "logged out"@ }),
    {
        self.group_rosters = KeyMap::new();
        self.group_names = KeyMap::new();
        self.dist_sent = KeySet::new();
        assert(self@.rosters =~= Map::<[u8; 32], Seq<[u8; 32]>>::empty());
        assert(self@.names =~= Map::<[u8; 32], Seq<char>>::empty());
        Event::Disconnected { reason: "logged out".to_owned() }
    }

    /// Replaces the signed prekey; what is told where there is no id for another.
    pub fn rotate_prekey(&mut self) -> (r: Result<(), Event>)
        requires
            old(self).wf(),
        ensures
            final(self).wf(),
            final(self)@ == (BridgeState { session: final(self)@.session, ..old(self)@ }),
            if old(self)@.session.signed.id < u32::MAX {
                r is Ok && rotated(old(self)@.session, final(self)@.session)
            } else {
                (r matches Err(ev) && ev@ == EventModel::Error("signed prekey ids used up"@))
                    && final(self)@ == old(self)@
            },
    {
        if !self.session.can_rotate() {
            return Err(Event::Error("signed prekey ids used up".to_owned()));
        }
        let _ = self.session.rotate_signed_prekey();
        Ok(())
    }

    /// Adds one-time prekeys; what is told where there are no ids for so many.
    pub fn replenish_prekeys(&mut self, count: u32) -> (r: Result<(), Event>)
        requires
            old(self).wf(),
        ensures
            final(self).wf(),
            final(self)@ == (BridgeState { session: final(self)@.session, ..old(self)@ }),
            if may_replenish(old(self)@.session, count) {
                r is Ok && replenished(old(self)@.session, count, final(self)@.session)
            } else {
                (r matches Err(ev) && ev@ == EventModel::Error("one-time prekey ids used up"@))
                    && final(self)@ == old(self)@
            },
    {
        if !self.session.can_replenish(count) {
            return Err(Event::Error("one-time prekey ids used up".to_owned()));
        }
        let _ = self.session.replenish_one_time_prekeys(count);
        Ok(())
    }

    // ---- Sending ---------------------------------------------------------------------------

    /// Starts a session against a fetched bundle and encrypts the first message.
    pub fn compose_first(
        &mut self,
        peer: [u8; 32],
        text: String,
        local_id: u64,
        bundle: Option<PreKeyBundle>,
    ) -> (r: Result<EncryptedEnvelope, Event>)
        requires
            old(self).wf(),
        ensures
            final(self).wf(),
            final(self)@ == (BridgeState { session: final(self)@.session, ..old(self)@ }),
            match bundle {
                None => final(self)@ == old(self)@ && (r matches Err(ev) && send_refused(
                    ev,
                    ChatId::Peer(peer),
                    local_id,
                    "contact not registered or offline"@,
                )),
                Some(b) => if encode_utf8(text@).len() >= TEXT_LIMIT {
                    final(self)@ == old(self)@ && (r matches Err(ev) && send_refused(
                        ev,
                        ChatId::Peer(peer),
                        local_id,
                        "message too long"@,
                    ))
                } else {
                    exists|sent: Result<EncryptedEnvelope, ClientError>| #[trigger]
                    session_started(
                        old(self)@.session,
                        b,
                        wire::chat_bytes_of(text@),
                        final(self)@.session,
                        sent,
                    ) && composed(
                        old(self)@.session,
                        ChatId::Peer(peer),
                        local_id,
                        sent,
                        r,
                    )
                },
            },
    {
        let chat: ChatId = ChatId::Peer(peer);
        let bundle: PreKeyBundle = match bundle {
            Some(b) => b,
            None => {
                return Err(
                    send_failed(chat, local_id, "contact not registered or offline".to_owned()),
                );
            },
        };
        if text.as_str().as_bytes().len() as u64 >= TEXT_LIMIT {
            return Err(send_failed(chat, local_id, "message too long".to_owned()));
        }
        let payload: Vec<u8> = encode_payload(&P2pPayload::Chat(text));
        let sent: Result<EncryptedEnvelope, ClientError> = self.session.start_session(
            &bundle,
            &payload,
        );
        let ghost kept = sent;
        assert(session_started(
            old(self)@.session,
            bundle,
            wire::chat_bytes_of(text@),
            self@.session,
            kept,
        ));
        match sent {
            Ok(env) => {
                assert(composed(
                    old(self)@.session,
                    chat,
                    local_id,
                    kept,
                    Ok::<EncryptedEnvelope, Event>(env),
                ));
                Ok(env)
            },
            Err(e) => Err(send_failed(chat, local_id, humanize(&e))),
        }
    }

    /// Encrypts a message on the session with a peer.
    pub fn compose(&mut self, peer: [u8; 32], text: String, local_id: u64) -> (r: Result<
        EncryptedEnvelope,
        Event,
    >)
        requires
            old(self).wf(),
        ensures
            final(self).wf(),
            final(self)@ == (BridgeState { session: final(self)@.session, ..old(self)@ }),
            match send_obstacle(
                old(self)@.session,
                peer,
                encode_utf8(text@).len(),
                TEXT_LIMIT,
                "message too long"@,
            ) {
                Some(reason) => final(self)@ == old(self)@ && (r matches Err(ev) && send_refused(
                    ev,
                    ChatId::Peer(peer),
                    local_id,
                    reason,
                )),
                None => exists|sent: Result<EncryptedEnvelope, ClientError>| #[trigger]
                    direct_sent(
                        old(self)@.session,
                        peer,
                        wire::chat_bytes_of(text@),
                        final(self)@.session,
                        sent,
                    ) && composed(old(self)@.session, ChatId::Peer(peer), local_id, sent, r),
            },
    {
        let chat: ChatId = ChatId::Peer(peer);
        let len: usize = text.as_str().as_bytes().len();
        if let Some(reason) = find_obstacle(
            &self.session,
            &peer,
            len,
            TEXT_LIMIT,
            "message too long",
        ) {
            return Err(send_failed(chat, local_id, reason));
        }
        let payload: Vec<u8> = encode_payload(&P2pPayload::Chat(text));
        let sent: Result<EncryptedEnvelope, ClientError> = self.session.send(&peer, &payload);
        let ghost kept = sent;
        assert(direct_sent(
            old(self)@.session,
            peer,
            wire::chat_bytes_of(text@),
            self@.session,
            kept,
        ));
        match sent {
            Ok(env) => {
                assert(composed(
                    old(self)@.session,
                    chat,
                    local_id,
                    kept,
                    Ok::<EncryptedEnvelope, Event>(env),
                ));
                Ok(env)
            },
            Err(e) => Err(send_failed(chat, local_id, humanize(&e))),
        }
    }

    /// Encrypts a message to a group, for its members in ascending order, each
    /// once.
    pub fn compose_group(&mut self, group: [u8; 32], text: &str, local_id: u64) -> (r: Result<
        (Vec<[u8; 32]>, EncryptedEnvelope),
        Event,
    >)
        requires
            old(self).wf(),
        ensures
            final(self).wf(),
            final(self)@ == (BridgeState { session: final(self)@.session, ..old(self)@ }),
            match group_obstacle(old(self)@.session, group, encode_utf8(text@).len()) {
                Some(reason) => final(self)@ == old(self)@ && (r matches Err(ev) && send_refused(
                    ev,
                    ChatId::Group(group),
                    local_id,
                    reason,
                )),
                None => exists|sent: Result<EncryptedEnvelope, ClientError>| #[trigger]
                    group_message_sent(
                        old(self)@.session,
                        group,
                        encode_utf8(text@),
                        final(self)@.session,
                        sent,
                    ) && match sent {
                        Err(e) => r matches Err(ev) && ev@ == (EventModel::SendFailed {
                            chat: ChatId::Group(group),
                            local_id,
                            reason: humanized(e),
                        }),
                        Ok(env) => match r {
                            Err(ev) => roster_of(old(self)@, group).len() == 0 && ev@
                                == (EventModel::SendFailed {
                                chat: ChatId::Group(group),
                                local_id,
                                reason: "group has no known recipients"@,
                            }),
                            Ok(out) => roster_of(old(self)@, group).len() > 0 && out.1 == env
                                && ascending(out.0@) && (forall|k: [u8; 32]| #[trigger]
                                out.0@.contains(k) == roster_of(old(self)@, group).contains(k)),
                        },
                    },
            },
    {
        let chat: ChatId = ChatId::Group(group);
        let ghost before = self@;
        if text.as_bytes().len() as u64 >= primitives::SEAL_LIMIT {
            return Err(send_failed(chat, local_id, "message too long".to_owned()));
        }
        if !self.session.can_send_group(&group) {
            return Err(send_failed(chat, local_id, "message counter used up".to_owned()));
        }
        let sent: Result<EncryptedEnvelope, ClientError> = self.session.send_group(
            &group,
            text.as_bytes(),
        );
        let ghost kept = sent;
        assert(group_message_sent(
            before.session,
            group,
            encode_utf8(text@),
            self@.session,
            kept,
        ));
        let envelope: EncryptedEnvelope = match sent {
            Ok(env) => env,
            Err(e) => {
                return Err(send_failed(chat, local_id, humanize(&e)));
            },
        };
        let recipients: Vec<[u8; 32]> = match self.group_rosters.get(&group) {
            Some(roster) => {
                assert(roster@ == roster_of(before, group));
                if roster.len() == 0 {
                    return Err(
                        send_failed(chat, local_id, "group has no known recipients".to_owned()),
                    );
                }
                sorted_unique(roster)
            },
            None => {
                return Err(
                    send_failed(chat, local_id, "group has no known recipients".to_owned()),
                );
            },
        };
        Ok((recipients, envelope))
    }

    // ---- Receiving ---------------------------------------------------------------------------

    /// Takes in a delivered envelope, which the store has (`known`) or has not.
    /// One that the receive counters have no room for is refused unopened.
    pub fn take_delivered(&mut self, env: &EncryptedEnvelope, known: bool) -> (r: Taken)
        requires
            old(self).wf(),
        ensures
            final(self).wf(),
            final(self)@ == (BridgeState {
                session: final(self)@.session,
                last_delivered_id: if env.id > old(self)@.last_delivered_id {
                    env.id
                } else {
                    old(self)@.last_delivered_id
                },
                ..old(self)@
            }),
            if known {
                r is Known && final(self)@.session == old(self)@.session
            } else if !receivable(old(self)@.session, *env) {
                (r matches Taken::Refused(ev) && ev@ == EventModel::Error(
                    refusal_text(env.sender, "receive counter used up"@),
                )) && final(self)@.session == old(self)@.session
            } else {
                exists|out: Result<(Vec<u8>, [u8; 32]), ClientError>| #[trigger]
                    envelope_received(
                        old(self)@.session,
                        *env,
                        final(self)@.session,
                        out,
                    ) && match out {
                        Ok(p) => opened_as(*env, p.0@, r),
                        Err(e) => r matches Taken::Refused(ev) && ev@ == EventModel::Error(
                            refusal_text(env.sender, humanized(e)),
                        ),
                    }
            },
    {
        if env.id > self.last_delivered_id {
            self.last_delivered_id = env.id;
        }
        if known {
            return Taken::Known;
        }
        let ghost before = old(self)@.session;
        let out: Result<(Vec<u8>, [u8; 32]), ClientError> = match self.session.receive_checked(env) {
            Some(out) => out,
            None => {
                let mut s: String = with_key("failed to decrypt message from ", &env.sender, ": ");
                s.append("receive counter used up");
                return Taken::Refused(Event::Error(s));
            },
        };
        let ghost kept = out;
        assert(envelope_received(before, *env, self@.session, kept));
        match out {
            Err(e) => {
                let mut s: String = with_key("failed to decrypt message from ", &env.sender, ": ");
                s.append(humanize(&e).as_str());
                Taken::Refused(Event::Error(s))
            },
            Ok((plaintext, _)) => open_taken(env, &plaintext),
        }
    }

    /// Takes in a peer's sender-key state of a group.
    pub fn take_distribution(
        &mut self,
        from: [u8; 32],
        group: [u8; 32],
        name: String,
        state: SenderKeyState,
    ) -> (r: DistStep)
        requires
            old(self).wf(),
        ensures
            final(self).wf(),
            exists|mid: SessionState| #[trigger]
                distribution_taken(
                    old(self)@,
                    from,
                    group,
                    name@,
                    state,
                    mid,
                    final(self)@,
                    r,
                ),
    {
        let ghost before = self@;
        if !self.session.has_group(&group) {
            let _ = self.session.create_group(group);
        }
        let ghost mid = self.session@;
        assert(group_at_hand(before.session, group, mid));
        let _ = self.session.add_group_peer(&group, state);
        let ghost known = imported(mid, group, state);
        assert(self.session@ == known);
        let ghost names = self.group_names@;
        self.group_names.insert(group, name.clone());
        assert(names_model(self.group_names@) =~= names_model(names).insert(group, name@));
        let edge: Edge = Edge { group, peer: from };
        if self.dist_sent.contains(&edge) {
            assert(distribution_taken(
                before,
                from,
                group,
                name@,
                state,
                mid,
                self@,
                DistStep::Settled,
            ));
            return DistStep::Settled;
        }
        let len: usize = name.as_str().as_bytes().len();
        if let Some(reason) = find_obstacle(
            &self.session,
            &from,
            len,
            NAME_LIMIT,
            "group name too long",
        ) {
            let mut s: String = with_key("could not ack group dist to ", &from, ": ");
            s.append(reason.as_str());
            let step: DistStep = DistStep::Failed(Event::Error(s));
            assert(distribution_taken(before, from, group, name@, state, mid, self@, step));
            return step;
        }
        let own: SenderKeyState = match self.session.group_distribution(&group) {
            Ok(s) => s,
            Err(_) => {
                assert(false);
                state
            },
        };
        let payload: Vec<u8> = encode_payload(&P2pPayload::GroupDist { group, name, state: own });
        let ghost named = self@;
        let sent: Result<EncryptedEnvelope, ClientError> = self.session.send(&from, &payload);
        let ghost kept = sent;
        assert(answered(known, group, from, name@, own, self@.session, kept));
        let step: DistStep = match sent {
            Ok(env) => {
                let _ = self.dist_sent.insert(edge);
                DistStep::Answer(env)
            },
            Err(e) => {
                let mut s: String = with_key("could not ack group dist to ", &from, ": ");
                s.append(humanize(&e).as_str());
                DistStep::Failed(Event::Error(s))
            },
        };
        assert(distribution_taken(before, from, group, name@, state, mid, self@, step));
        step
    }

    /// Lists a peer among a group's members. Returns the roster and the name to
    /// be kept, and what is told.
    pub fn settle_distribution(&mut self, from: [u8; 32], group: [u8; 32]) -> (r: (
        Vec<[u8; 32]>,
        String,
        Event,
    ))
        requires
            old(self).wf(),
        ensures
            final(self).wf(),
            ({
                let roster = with_member(roster_of(old(self)@, group), from);
                &&& final(self)@ == (BridgeState {
                    rosters: old(self)@.rosters.insert(group, roster),
                    ..old(self)@
                })
                &&& r.0@ == roster
                &&& r.1@ == name_of(old(self)@, group)
                &&& r.2@ == (EventModel::GroupInvited {
                    group,
                    name: name_of(old(self)@, group),
                    members: members_of(roster.len()),
                })
            }),
            ({
                let (before, after) = (roster_of(old(self)@, group), roster_of(final(self)@, group));
                &&& forall|k: [u8; 32]| #[trigger]
                    after.contains(k) <==> before.contains(k) || k == from
                &&& before.is_prefix_of(after)
                &&& after.len() <= before.len() + 1
                &&& r.0@ == after
                &&& after.len() < u32::MAX ==> (r.2@ matches EventModel::GroupInvited {
                    members,
                    ..
                } && members == after.len() + 1)
                &&& forall|g: [u8; 32]|
                    g != group ==> #[trigger] roster_of(final(self)@, g) == roster_of(old(self)@, g)
            }),
    {
        let ghost before = self@;
        let ghost rosters = self.group_rosters@;
        let mut roster: Vec<[u8; 32]> = match self.group_rosters.get(&group) {
            Some(v) => copy_keys(v),
            None => Vec::new(),
        };
        assert(roster@ =~= roster_of(before, group));
        if !contains_key(&roster, &from) {
            roster.push(from);
        }
        let kept: Vec<[u8; 32]> = copy_keys(&roster);
        self.group_rosters.insert(group, kept);
        assert(rosters_model(self.group_rosters@) =~= rosters_model(rosters).insert(group, roster@));
        let name: String = match self.group_names.get(&group) {
            Some(s) => s.clone(),
            None => String::new(),
        };
        assert(name@ =~= name_of(before, group));
        let event: Event = Event::GroupInvited {
            group,
            name: name.clone(),
            members: member_count(roster.len()),
        };
        proof {
            lemma_member_listed(roster_of(before, group), from);
        }
        (roster, name, event)
    }

    /// What is told where the own state could not be sent in return.
    pub fn answer_failed(from: [u8; 32], reason: &str) -> (r: Event)
        ensures
            r@ == EventModel::Error(
                "group dist ack to "@ + hex_chars(from@) + " failed: "@ + reason@,
            ),
    {
        let mut s: String = with_key("group dist ack to ", &from, " failed: ");
        s.append(reason);
        Event::Error(s)
    }

    // ---- Making a group -------------------------------------------------------------------------

    /// Makes a group of the client's own. Returns its id and the invitation to
    /// be sent to each member; what is told where the name is too long for one.
    pub fn create_group(&mut self, name: String, members: Vec<[u8; 32]>) -> (r: Result<
        ([u8; 32], Vec<u8>),
        Event,
    >)
        requires
            old(self).wf(),
        ensures
            final(self).wf(),
            match r {
                Err(ev) => encode_utf8(name@).len() >= NAME_LIMIT && ev@ == EventModel::Error(
                    "group name too long"@,
                ) && final(self)@ == old(self)@,
                Ok((group, payload)) => encode_utf8(name@).len() < NAME_LIMIT && group_made_of(
                    old(self)@,
                    name@,
                    members@,
                    group,
                    payload@,
                    final(self)@,
                ),
            },
    {
        if name.as_str().as_bytes().len() as u64 >= NAME_LIMIT {
            return Err(Event::Error("group name too long".to_owned()));
        }
        let founder: [u8; 32] = self.session.identity_pub();
        let group: [u8; 32] = group_id(name.as_str(), members.as_slice(), &founder);
        let _ = self.session.create_group(group);
        let own: SenderKeyState = match self.session.group_distribution(&group) {
            Ok(s) => s,
            Err(_) => {
                assert(false);
                SenderKeyState {
                    member_id: founder,
                    chain_key: SenderChainKey(founder),
                    signing_priv: SigningKey { bytes: founder },
                    signing_pub: VerifyingKey { bytes: founder },
                    generation: 0,
                }
            },
        };
        let payload: Vec<u8> = encode_payload(
            &P2pPayload::GroupDist { group, name: name.clone(), state: own },
        );
        assert(payload@ == invite_bytes(group, name@, own));
        self.record_group(group, name, members);
        Ok((group, payload))
    }

    /// Invites a member on the session with them.
    pub fn invite(&mut self, group: [u8; 32], member: [u8; 32], payload: &[u8]) -> (r: InviteStep)
        requires
            old(self).wf(),
            payload@.len() < primitives::SEAL_LIMIT,
        ensures
            final(self).wf(),
            invited(old(self)@, group, member, payload@, final(self)@, r),
    {
        let ghost before = self@;
        if !self.session.can_send(&member) {
            return InviteStep::Failed(Self::invite_failed(member, "message counter used up"));
        }
        let sent: Result<EncryptedEnvelope, ClientError> = self.session.send(&member, payload);
        let ghost kept = sent;
        assert(direct_sent(before.session, member, payload@, self@.session, kept));
        let step: InviteStep = match sent {
            Ok(env) => {
                let _ = self.dist_sent.insert(Edge { group, peer: member });
                InviteStep::Send(env)
            },
            Err(e) => {
                let text: String = match &e {
                    ClientError::NoSession => with_key(
                        "cannot invite ",
                        &member,
                        ": no 1:1 session yet (send them a message first)",
                    ),
                    _ => humanize(&e),
                };
                assert(text@ == invite_refusal(member, e));
                InviteStep::Failed(Event::Error(text))
            },
        };
        proof {
            match kept {
                Ok(env) => {
                    assert(step == InviteStep::Send(env));
                    assert(self@ =~= (BridgeState {
                        session: self@.session,
                        dist_sent: before.dist_sent.insert(Edge { group, peer: member }),
                        ..before
                    }));
                },
                Err(e) => {
                    assert(self@ =~= (BridgeState { session: self@.session, ..before }));
                },
            }
            assert(direct_sent(before.session, member, payload@, self@.session, kept));
        }
        assert(invited(before, group, member, payload@, self@, step));
        step
    }

    /// What is told of an invitation that did not go out.
    pub fn invite_failed(member: [u8; 32], reason: &str) -> (r: Event)
        ensures
            r@ == EventModel::Error(invite_failed_text(member, reason@)),
    {
        let mut s: String = with_key("group invite to ", &member, " failed: ");
        s.append(reason);
        Event::Error(s)
    }

    /// What is told of a group that was made with so many members besides the
    /// founder, of whom so many could not be invited.
    pub fn group_made(group: [u8; 32], name: String, members: usize, failed: usize) -> (r: Vec<Event>)
        ensures
            ({
                let made = EventModel::GroupCreated {
                    group,
                    name: name@,
                    members: members_of(members as nat),
                };
                events_model(r@) == (if failed == 0 {
                    seq![made]
                } else {
                    seq![
                        made,
                        EventModel::Error(
                            crate::text::decimal_chars(failed as nat)
                                + " member(s) could not be invited; group created locally"@,
                        ),
                    ]
                })
            }),
    {
        let mut out: Vec<Event> = Vec::new();
        out.push(Event::GroupCreated { group, name, members: member_count(members) });
        let ghost made = out@[0]@;
        if failed > 0 {
            let mut s: String = String::new();
            push_decimal(&mut s, failed as u64);
            s.append(" member(s) could not be invited; group created locally");
            proof {
                assert(s@ =~= crate::text::decimal_chars(failed as nat)
                    + " member(s) could not be invited; group created locally"@);
            }
            out.push(Event::Error(s));
            assert(events_model(out@) =~= seq![made, out@[1]@]);
        } else {
            assert(events_model(out@) =~= seq![made]);
        }
        out
    }
}

/// What an opened envelope is.
fn open_taken(env: &EncryptedEnvelope, plaintext: &Vec<u8>) -> (r: Taken)
    ensures
        opened_as(*env, plaintext@, r),
{
    match env.kind {
        MessageKind::Direct => {
            let p: Option<P2pPayload> = decode_payload(plaintext);
            let ghost kept = p;
            assert(payload_is(plaintext@, kept));
            match p {
                Some(P2pPayload::Chat(text)) => Taken::Chat {
                    chat: ChatId::Peer(env.sender),
                    text,
                    sender: None,
                },
                Some(P2pPayload::GroupDist { group, name, state }) => Taken::Invite {
                    group,
                    name,
                    state,
                },
                None => Taken::Chat {
                    chat: ChatId::Peer(env.sender),
                    text: lossy_text(plaintext),
                    sender: None,
                },
            }
        },
        MessageKind::Group => {
            let chat: ChatId = delivered_chat(env);
            let sender: Option<[u8; 32]> = match chat {
                ChatId::Group(_) => Some(env.sender),
                ChatId::Peer(_) => None,
            };
            Taken::Chat { chat, text: lossy_text(plaintext), sender }
        },
    }
}

/// A copy of a list of keys.
fn copy_keys(keys: &Vec<[u8; 32]>) -> (r: Vec<[u8; 32]>)
    ensures
        r@ == keys@,
{
    let mut out: Vec<[u8; 32]> = Vec::new();
    let mut i: usize = 0;
    while i < keys.len()
        invariant
            0 <= i <= keys@.len(),
            out@ == keys@.take(i as int),
        decreases keys@.len() - i,
    {
        out.push(keys[i]);
        i = i + 1;
        assert(out@ =~= keys@.take(i as int));
    }
    assert(out@ =~= keys@);
    out
}

/// Whether a key is in a list.
fn contains_key(keys: &Vec<[u8; 32]>, k: &[u8; 32]) -> (r: bool)
    ensures
        r == keys@.contains(*k),
{
    let mut i: usize = 0;
    while i < keys.len()
        invariant
            0 <= i <= keys@.len(),
            forall|j: int| 0 <= j < i ==> #[trigger] keys@[j] != *k,
        decreases keys@.len() - i,
    {
        if same32(&keys[i], k) {
            assert(keys@[i as int] == *k);
            return true;
        }
        i = i + 1;
    }
    false
}

/// Taking in groups leaves the session as it is.
proof fn lemma_with_groups_session(s: BridgeState, groups: Seq<KnownGroup>)
    ensures
        with_groups(s, groups).session == s.session,
    decreases groups.len(),
{
    if groups.len() > 0 {
        lemma_with_groups_session(s, groups.drop_last());
    }
}

// ---- Laws -----------------------------------------------------------------------------------

/// The exchange of sender-key states comes to an end: a client that invited a
/// peer does not answer the state that comes back from them.
pub proof fn lemma_exchange_ends(
    before: BridgeState,
    group: [u8; 32],
    peer: [u8; 32],
    payload: Seq<u8>,
    after: BridgeState,
    env: EncryptedEnvelope,
    name: Seq<char>,
    state: SenderKeyState,
    mid: SessionState,
    last: BridgeState,
    step: DistStep,
)
    requires
        invited(before, group, peer, payload, after, InviteStep::Send(env)),
        distribution_taken(after, peer, group, name, state, mid, last, step),
    ensures
        step is Settled,
{
}

/// A client answers a peer's sender-key state at most once.
pub proof fn lemma_answers_once(
    before: BridgeState,
    from: [u8; 32],
    group: [u8; 32],
    name: Seq<char>,
    state: SenderKeyState,
    mid: SessionState,
    after: BridgeState,
    env: EncryptedEnvelope,
    name2: Seq<char>,
    state2: SenderKeyState,
    mid2: SessionState,
    last: BridgeState,
    step: DistStep,
)
    requires
        distribution_taken(before, from, group, name, state, mid, after, DistStep::Answer(env)),
        distribution_taken(after, from, group, name2, state2, mid2, last, step),
    ensures
        step is Settled,
{
}

/// A roster never lists a peer twice.
pub proof fn lemma_roster_stays_distinct(roster: Seq<[u8; 32]>, peer: [u8; 32])
    requires
        roster.no_duplicates(),
    ensures
        with_member(roster, peer).no_duplicates(),
        with_member(roster, peer).contains(peer),
{
    let after = with_member(roster, peer);
    if !roster.contains(peer) {
        assert(after[after.len() - 1] == peer);
        assert forall|i: int, j: int|
            0 <= i < after.len() && 0 <= j < after.len() && i != j implies after[i] != after[j] by {
            if i == roster.len() {
                assert(roster.contains(roster[j]));
            } else if j == roster.len() {
                assert(roster.contains(roster[i]));
            }
        }
    }
}

/// Nothing of a logged-out identity's groups is left.
pub proof fn lemma_logout_clears_groups(s: BridgeState, group: [u8; 32], peer: [u8; 32])
    ensures
        ({
            let t = BridgeState {
                rosters: Map::empty(),
                names: Map::empty(),
                dist_sent: Set::empty(),
                ..s
            };
            &&& roster_of(t, group).len() == 0
            &&& name_of(t, group).len() == 0
            &&& !t.dist_sent.contains(Edge { group, peer })
        }),
{
}

/// Listing a peer among a group's members loses nobody and adds nobody else:
/// those listed before stay, in their order, and the peer comes last unless
/// listed already.
pub proof fn lemma_member_listed(roster: Seq<[u8; 32]>, peer: [u8; 32])
    ensures
        forall|k: [u8; 32]| #[trigger]
            with_member(roster, peer).contains(k) <==> roster.contains(k) || k == peer,
        roster.is_prefix_of(with_member(roster, peer)),
        with_member(roster, peer).len() <= roster.len() + 1,
        with_member(roster, peer).len() == roster.len() <==> roster.contains(peer),
        with_member(with_member(roster, peer), peer) == with_member(roster, peer),
{
    let after = with_member(roster, peer);
    assert forall|k: [u8; 32]| #[trigger] after.contains(k) <==> roster.contains(k) || k == peer by {
        if roster.contains(k) {
            let i = choose|i: int| 0 <= i < roster.len() && roster[i] == k;
            assert(after[i] == k);
        }
        if k == peer && !roster.contains(peer) {
            assert(after[roster.len() as int] == k);
        }
        if after.contains(k) {
            let i = choose|i: int| 0 <= i < after.len() && after[i] == k;
            if i < roster.len() {
                assert(roster[i] == k);
            }
        }
    }
    assert(roster =~= after.subrange(0, roster.len() as int));
}

/// The number of members counts the others and the client, as far as the number
/// goes.
pub proof fn lemma_members_of(others: nat)
    requires
        others <= u32::MAX,
    ensures
        others < u32::MAX ==> members_of(others) == others + 1,
        members_of(u32::MAX as nat) == u32::MAX,
{
}

/// A stored status reads back as itself; a number that is none counts as still
/// being sent.
pub proof fn lemma_status_of(s: Status, v: u8)
    ensures
        status_of(s.code()) == s,
        status_of(0) == Status::Sending,
        status_of(1) == Status::Sent,
        status_of(2) == Status::Delivered,
        status_of(3) == Status::Failed,
        v > 3 ==> status_of(v) == Status::Sending,
{
    assert(Status::Sending.code() == 0);
    assert(Status::Sent.code() == 1);
    assert(Status::Delivered.code() == 2);
    assert(Status::Failed.code() == 3);
}

/// A message that is loaded from the store is the stored one: it has the row's
/// text, author, time, direction and status, and the row's id.
pub proof fn lemma_loaded_message(row: StoredMessageRow)
    ensures
        message_of_row(row).text == row.msg.text@,
        message_of_row(row).sender == row.sender,
        message_of_row(row).timestamp == row.timestamp as u64,
        message_of_row(row).local_id == row.id as u64,
        message_of_row(row).dir == Direction::Out <==> row.direction == 0,
        forall|s: Status|
            row.msg.status == #[trigger] s.code() ==> message_of_row(row).status == s,
        row.msg.status > 3 ==> message_of_row(row).status == Status::Sending,
{
    lemma_status_of(Status::Sending, row.msg.status);
    assert forall|s: Status| row.msg.status == #[trigger] s.code() implies message_of_row(row).status
        == s by {
        lemma_status_of(s, 0);
    }
}

/// A message that was shown when it came in or went out looks the same once its
/// row is loaded, its id aside.
pub proof fn lemma_reloaded_message(m: MessageModel, row: StoredMessageRow)
    requires
        row.msg.text@ == m.text,
        row.msg.status == m.status.code(),
        row.sender == m.sender,
        row.timestamp as u64 == m.timestamp,
        (row.direction == 0) == (m.dir == Direction::Out),
    ensures
        message_of_row(row) == (MessageModel { local_id: row.id as u64, ..m }),
{
    lemma_status_of(m.status, 0);
}

/// A contact is shown as it is stored.
pub proof fn lemma_loaded_contact(c: Contact)
    ensures
        contact_model_of(c).identity_pub == c.identity_pub,
        contact_model_of(c).nickname == c.nickname@,
        contact_model_of(c).fingerprint == c.fingerprint,
        contact_model_of(c).verified == c.verified,
{
}

/// A stored group is shown under its id and name, with its members and the
/// client counted.
pub proof fn lemma_known_views(groups: Seq<KnownGroup>, i: int)
    requires
        0 <= i < groups.len(),
        groups[i].1@.len() < u32::MAX,
    ensures
        known_views(groups).len() == groups.len(),
        known_views(groups)[i].id == groups[i].0.group_id,
        known_views(groups)[i].name == groups[i].0.name@,
        known_views(groups)[i].members == groups[i].1@.len() + 1,
{
}

/// Taking in stored groups records each under its id, with its name and all its
/// members, the last where an id occurs twice; groups that are not among them
/// keep theirs, and nothing else changes.
pub proof fn lemma_groups_taken_in(s: BridgeState, groups: Seq<KnownGroup>)
    ensures
        ({
            let t = with_groups(s, groups);
            &&& t == (BridgeState { rosters: t.rosters, names: t.names, ..s })
            &&& forall|i: int|
                0 <= i < groups.len() && (forall|j: int|
                    i < j < groups.len() ==> (#[trigger] groups[j]).0.group_id
                        != groups[i].0.group_id) ==> roster_of(t, (#[trigger] groups[i]).0.group_id)
                    == groups[i].1@ && name_of(t, groups[i].0.group_id) == groups[i].0.name@
            &&& forall|g: [u8; 32]|
                (forall|j: int| 0 <= j < groups.len() ==> (#[trigger] groups[j]).0.group_id != g)
                    ==> #[trigger] roster_of(t, g) == roster_of(s, g) && name_of(t, g) == name_of(s, g)
        }),
    decreases groups.len(),
{
    if groups.len() > 0 {
        let rest = groups.drop_last();
        let n = groups.len() - 1;
        let before = with_groups(s, rest);
        let t = with_groups(s, groups);
        lemma_groups_taken_in(s, rest);
        assert forall|i: int|
            0 <= i < groups.len() && (forall|j: int|
                i < j < groups.len() ==> (#[trigger] groups[j]).0.group_id
                    != groups[i].0.group_id) implies roster_of(t, (#[trigger] groups[i]).0.group_id)
            == groups[i].1@ && name_of(t, groups[i].0.group_id) == groups[i].0.name@ by {
            if i < n {
                assert(rest[i] == groups[i]);
                assert forall|j: int| i < j < rest.len() implies (#[trigger] rest[j]).0.group_id
                    != rest[i].0.group_id by {
                    assert(groups[j].0.group_id != groups[i].0.group_id);
                }
                assert(groups[n].0.group_id != groups[i].0.group_id);
                assert(roster_of(before, rest[i].0.group_id) == rest[i].1@);
            }
        }
        assert forall|g: [u8; 32]|
            (forall|j: int| 0 <= j < groups.len() ==> (#[trigger] groups[j]).0.group_id
                != g) implies #[trigger] roster_of(t, g) == roster_of(s, g) && name_of(t, g)
            == name_of(s, g) by {
            assert forall|j: int| 0 <= j < rest.len() implies (#[trigger] rest[j]).0.group_id != g by {
                assert(groups[j].0.group_id != g);
            }
            assert(groups[n].0.group_id != g);
            assert(roster_of(before, g) == roster_of(s, g));
        }
    }
}

/// The members stand one after the other, 32 bytes each.
proof fn lemma_joined_keys(members: Seq<[u8; 32]>)
    ensures
        joined_keys(members).len() == 32 * members.len(),
        forall|i: int|
            0 <= i < members.len() ==> (#[trigger] members[i])@ == joined_keys(members).subrange(
                32 * i,
                32 * i + 32,
            ),
    decreases members.len(),
{
    if members.len() > 0 {
        let rest = members.drop_last();
        let n = members.len() - 1;
        let (all, part) = (joined_keys(members), joined_keys(rest));
        lemma_joined_keys(rest);
        assert forall|i: int| 0 <= i < members.len() implies (#[trigger] members[i])@
            == all.subrange(32 * i, 32 * i + 32) by {
            if i < n {
                assert(rest[i]@ == part.subrange(32 * i, 32 * i + 32));
                assert(all.subrange(32 * i, 32 * i + 32) =~= part.subrange(32 * i, 32 * i + 32));
            } else {
                assert(all.subrange(32 * i, 32 * i + 32) =~= members[n]@);
            }
        }
    }
}

/// What a group's id is the hash of holds the name, the number of members in
/// one byte, each member, and the founder, and nothing else.
pub proof fn lemma_group_id_input(name: Seq<char>, members: Seq<[u8; 32]>, founder: Seq<u8>)
    requires
        founder.len() == 32,
    ensures
        ({
            let input = group_id_input(name, members, founder);
            let n = encode_utf8(name).len() as int;
            &&& input.len() == n + 1 + 32 * members.len() + 32
            &&& input.take(n) == encode_utf8(name)
            &&& input[n] == members.len() as u8
            &&& forall|i: int|
                0 <= i < members.len() ==> (#[trigger] members[i])@ == input.subrange(
                    n + 1 + 32 * i,
                    n + 1 + 32 * i + 32,
                )
            &&& input.skip(input.len() - 32) == founder
        }),
{
    lemma_joined_keys(members);
    let input = group_id_input(name, members, founder);
    let n = encode_utf8(name).len() as int;
    let keys = joined_keys(members);
    assert(input.take(n) =~= encode_utf8(name));
    assert(input.skip(input.len() - 32) =~= founder);
    assert forall|i: int| 0 <= i < members.len() implies (#[trigger] members[i])@ == input.subrange(
        n + 1 + 32 * i,
        n + 1 + 32 * i + 32,
    ) by {
        assert(members[i]@ == keys.subrange(32 * i, 32 * i + 32));
        assert(input.subrange(n + 1 + 32 * i, n + 1 + 32 * i + 32) =~= keys.subrange(
            32 * i,
            32 * i + 32,
        ));
    }
}

/// Two groups of one name and founder with other members, or in another order,
/// have other ids as far as the hash tells its inputs apart.
pub proof fn lemma_group_id_tells_members(
    name: Seq<char>,
    a: Seq<[u8; 32]>,
    b: Seq<[u8; 32]>,
    founder: Seq<u8>,
)
    requires
        founder.len() == 32,
        group_id_input(name, a, founder) == group_id_input(name, b, founder),
    ensures
        a == b,
{
    lemma_group_id_input(name, a, founder);
    lemma_group_id_input(name, b, founder);
    assert(a.len() == b.len());
    assert forall|i: int| 0 <= i < a.len() implies a[i] == b[i] by {
        assert(a[i]@ == b[i]@);
        lemma_array32_ext(a[i], b[i]);
    }
    assert(a =~= b);
}

/// The wait before another attempt to connect doubles, but never exceeds the
/// cap, and never falls below what it was up to there.
pub proof fn lemma_doubled_delay(delay: u64)
    ensures
        doubled_delay(delay) <= BACKOFF_CAP_SECS,
        doubled_delay(delay) == 2 * delay || (doubled_delay(delay) == BACKOFF_CAP_SECS && 2 * delay
            > BACKOFF_CAP_SECS),
        delay <= BACKOFF_CAP_SECS ==> doubled_delay(delay) >= delay,
        BACKOFF_CAP_SECS == 30,
{
}

/// A one-to-one envelope belongs to the chat with its sender, whatever it holds;
/// a group envelope to the group that its header names.
pub proof fn lemma_chat_of_envelope(env: EncryptedEnvelope)
    ensures
        env.kind is Direct ==> chat_of_envelope(env) == ChatId::Peer(env.sender),
        chat_of_envelope(env) is Peer ==> chat_of_envelope(env).key_spec() == env.sender,
        chat_of_envelope(env) is Group ==> env.kind is Group && (
        wire::group_header_fields_of(env.header@) matches Ok(f) && is_verifying_key(f.3)
            && chat_of_envelope(env).key_spec() == array_of(f.0)),
        env.kind is Group && (wire::group_header_fields_of(env.header@) matches Ok(f)
            && is_verifying_key(f.3)) ==> chat_of_envelope(env) is Group,
{
}

/// What an opened envelope is taken for: a one-to-one message is one of its
/// sender, or an invitation; a group message is one of its group, by its sender;
/// an invitation comes one to one only.
pub proof fn lemma_opened_as(env: EncryptedEnvelope, plaintext: Seq<u8>, t: Taken)
    requires
        opened_as(env, plaintext, t),
    ensures
        t is Chat || t is Invite,
        t is Invite ==> env.kind is Direct,
        t matches Taken::Chat { chat, text, sender } ==> {
            &&& env.kind is Direct ==> chat == ChatId::Peer(env.sender) && sender is None
            &&& env.kind is Group ==> chat == chat_of_envelope(env) && text@ == lossy_text_of(
                plaintext,
            )
            &&& chat is Group ==> sender == Some(env.sender)
            &&& chat is Peer ==> sender is None
        },
{
}

/// A chat message that went out one to one is shown as it was typed: what the
/// bytes of a text open as is that text, in the chat with the sender.
pub proof fn lemma_text_arrives(env: EncryptedEnvelope, text: Seq<char>, bytes: Seq<u8>, t: Taken)
    requires
        env.kind is Direct,
        wire::variant_of(bytes) == Some(0u32),
        wire::chat_fields_of(bytes) == Some((0u32, text)),
        opened_as(env, bytes, t),
    ensures
        t matches Taken::Chat { chat, text: shown, sender } && chat == ChatId::Peer(env.sender)
            && shown@ == text && sender is None,
{
}

/// An invitation arrives as it went out: under the group, the name and the
/// sender-key state that its bytes hold.
pub proof fn lemma_invitation_arrives(
    env: EncryptedEnvelope,
    group: [u8; 32],
    name: Seq<char>,
    state: SenderKeyState,
    bytes: Seq<u8>,
    t: Taken,
)
    requires
        env.kind is Direct,
        wire::variant_of(bytes) == Some(1u32),
        wire::invite_fields_of(bytes) == Some(
            (
                1u32,
                group@,
                name,
                state.member_id@,
                state.chain_key.0@,
                state.signing_priv@,
                state.signing_pub@,
                state.generation,
            ),
        ),
        is_verifying_key(state.signing_pub@),
        opened_as(env, bytes, t),
    ensures
        t matches Taken::Invite { group: g, name: n, state: s } && g == group && n@ == name && s
            == state,
{
    let p = choose|p: Option<P2pPayload>| #[trigger]
        payload_is(bytes, p) && match p {
            Some(P2pPayload::Chat(text)) => t matches Taken::Chat { chat, text: u, sender } && chat
                == ChatId::Peer(env.sender) && u@ == text@ && sender is None,
            Some(P2pPayload::GroupDist { group, name, state }) => t matches Taken::Invite {
                group: g,
                name: n,
                state: s,
            } && g == group && n@ == name@ && s == state,
            None => t matches Taken::Chat { chat, text: u, sender } && chat == ChatId::Peer(
                env.sender,
            ) && u@ == lossy_text_of(bytes) && sender is None,
        };
    lemma_invite_round_trip(group, name, state, bytes, p);
}

/// A group of the client's own has the given name and exactly the given members;
/// other groups keep theirs, and neither what is noted of invitations nor the
/// config changes.
pub proof fn lemma_group_made(
    before: BridgeState,
    name: Seq<char>,
    members: Seq<[u8; 32]>,
    group: [u8; 32],
    payload: Seq<u8>,
    after: BridgeState,
    other: [u8; 32],
)
    requires
        group_made_of(before, name, members, group, payload, after),
        other != group,
    ensures
        roster_of(after, group) == members,
        name_of(after, group) == name,
        roster_of(after, other) == roster_of(before, other),
        name_of(after, other) == name_of(before, other),
        after.dist_sent == before.dist_sent,
        after.config == before.config,
        after.last_delivered_id == before.last_delivered_id,
        after.interval == before.interval && after.grace == before.grace,
        group@ == primitives::sha256_of(
            group_id_input(name, members, before.session.identity.verifying@),
        ),
        after.session.groups.contains_key(group),
        exists|own: SenderKeyState|
            exports(after.session.groups[group], own) && payload == #[trigger] wire::invite_bytes_of(
                group@,
                name,
                own.member_id@,
                own.chain_key.0@,
                own.signing_priv@,
                own.signing_pub@,
                own.generation,
            ),
{
    let own = choose|own: SenderKeyState|
        exports(after.session.groups[group], own) && payload == #[trigger] invite_bytes(
            group,
            name,
            own,
        );
    assert(payload == wire::invite_bytes_of(
        group@,
        name,
        own.member_id@,
        own.chain_key.0@,
        own.signing_priv@,
        own.signing_pub@,
        own.generation,
    ));
}

/// Inviting a member sends the invitation to that member or tells of a failure;
/// that it went out is noted exactly where it did, for that member and group
/// alone, and rosters, names and the config stay.
pub proof fn lemma_invited(
    before: BridgeState,
    group: [u8; 32],
    member: [u8; 32],
    payload: Seq<u8>,
    after: BridgeState,
    step: InviteStep,
    edge: Edge,
)
    requires
        invited(before, group, member, payload, after, step),
    ensures
        step is Send ==> after.dist_sent.contains(Edge { group, peer: member }),
        step is Failed ==> after.dist_sent == before.dist_sent,
        edge != (Edge { group, peer: member }) ==> (after.dist_sent.contains(edge)
            <==> before.dist_sent.contains(edge)),
        after.rosters == before.rosters,
        after.names == before.names,
        after.config == before.config,
        after.last_delivered_id == before.last_delivered_id,
        step matches InviteStep::Send(env) ==> direct_sent(
            before.session,
            member,
            payload,
            after.session,
            Ok(env),
        ),
        step matches InviteStep::Failed(ev) ==> ev@ is Error,
{
}

/// Taking in a peer's sender-key state records the group's name and the peer's
/// state, answers with the client's own state unless it went out before, notes
/// that it went out exactly where it did, and leaves rosters, other names and
/// other groups' sessions as they are.
pub proof fn lemma_distribution_taken(
    before: BridgeState,
    from: [u8; 32],
    group: [u8; 32],
    name: Seq<char>,
    state: SenderKeyState,
    mid: SessionState,
    after: BridgeState,
    step: DistStep,
    other: [u8; 32],
    edge: Edge,
)
    requires
        distribution_taken(before, from, group, name, state, mid, after, step),
        other != group,
    ensures
        name_of(after, group) == name,
        name_of(after, other) == name_of(before, other),
        after.rosters == before.rosters,
        after.config == before.config,
        after.last_delivered_id == before.last_delivered_id,
        before.dist_sent.contains(Edge { group, peer: from }) <==> step is Settled,
        step is Answer ==> after.dist_sent.contains(Edge { group, peer: from }),
        step is Failed ==> after.dist_sent == before.dist_sent,
        edge != (Edge { group, peer: from }) ==> (after.dist_sent.contains(edge)
            <==> before.dist_sent.contains(edge)),
        after.session.groups == mid.groups.insert(group, with_peer(mid.groups[group], state)),
        after.session == (SessionState {
            groups: after.session.groups,
            ratchets: after.session.ratchets,
            ..before.session
        }),
        before.session.groups.contains_key(group) ==> mid == before.session,
        !before.session.groups.contains_key(group) ==> group_created(before.session, group, mid),
        mid.groups.contains_key(group),
        step is Settled ==> after.session.ratchets == before.session.ratchets,
        step matches DistStep::Answer(env) ==> exists|own: SenderKeyState|
            exports(with_peer(mid.groups[group], state), own) && direct_sent(
                imported(mid, group, state),
                from,
                #[trigger] wire::invite_bytes_of(
                    group@,
                    name,
                    own.member_id@,
                    own.chain_key.0@,
                    own.signing_priv@,
                    own.signing_pub@,
                    own.generation,
                ),
                after.session,
                Ok(env),
            ),
{
    let edge2 = Edge { group, peer: from };
    let known = imported(mid, group, state);
    if !before.dist_sent.contains(edge2) && send_obstacle(
        known,
        from,
        encode_utf8(name).len(),
        NAME_LIMIT,
        "group name too long"@,
    ) is None {
        let (own, sent) = choose|own: SenderKeyState, sent: Result<EncryptedEnvelope, ClientError>|
         #[trigger]
            answered(known, group, from, name, own, after.session, sent) && match sent {
                Ok(env) => step == DistStep::Answer(env) && after == (BridgeState {
                    session: after.session,
                    dist_sent: before.dist_sent.insert(edge2),
                    names: before.names.insert(group, name),
                    ..before
                }),
                Err(e) => (step matches DistStep::Failed(ev) && ev@ == EventModel::Error(
                    answer_refusal(from, humanized(e)),
                )) && after == (BridgeState {
                    session: after.session,
                    names: before.names.insert(group, name),
                    ..before
                }),
            };
        let bytes = wire::invite_bytes_of(
            group@,
            name,
            own.member_id@,
            own.chain_key.0@,
            own.signing_priv@,
            own.signing_pub@,
            own.generation,
        );
        assert(answered(known, group, from, name, own, after.session, sent));
        assert(direct_sent(known, from, bytes, after.session, sent));
    }
}

/// Importing a peer's state touches the group's session alone.
pub proof fn lemma_imported(s: SessionState, group: [u8; 32], state: SenderKeyState, other: [u8; 32])
    requires
        other != group,
    ensures
        imported(s, group, state).groups.contains_key(group),
        imported(s, group, state).groups[group] == with_peer(s.groups[group], state),
        imported(s, group, state).groups.contains_key(other) == s.groups.contains_key(other),
        imported(s, group, state).groups[other] == s.groups[other],
        imported(s, group, state) == (SessionState {
            groups: imported(s, group, state).groups,
            ..s
        }),
{
}

/// What cannot be sent to a peer is told: a text of the limit or more bytes, and
/// a message for which the counter has no room; anything else can.
pub proof fn lemma_send_obstacle(s: SessionState, peer: [u8; 32], len: nat, limit: u64, t: Seq<char>)
    ensures
        send_obstacle(s, peer, len, limit, t) is None <==> len < limit && may_send(s, peer),
        len >= limit ==> send_obstacle(s, peer, len, limit, t) == Some(t),
        len < limit && !may_send(s, peer) ==> send_obstacle(s, peer, len, limit, t) == Some(
            "message counter used up"@,
        ),
        group_obstacle(s, peer, len) is None <==> len < primitives::SEAL_LIMIT && may_send_group(
            s,
            peer,
        ),
{
}

/// An envelope that was made is handed on as it is; a failure is told under the
/// chat and the id of the message, for its reason in words.
pub proof fn lemma_composed(
    before: SessionState,
    chat: ChatId,
    local_id: u64,
    sent: Result<EncryptedEnvelope, ClientError>,
    r: Result<EncryptedEnvelope, Event>,
)
    requires
        composed(before, chat, local_id, sent, r),
    ensures
        r is Ok <==> sent is Ok,
        sent matches Ok(env) ==> (r matches Ok(out) && out == env),
        sent matches Err(e) ==> (r matches Err(ev) && (ev@ matches EventModel::SendFailed {
            chat: c,
            local_id: l,
            reason,
        } && c == chat && l == local_id && reason == humanized(e))),
{
}

/// The user is told of the identity by its own public key and fingerprint.
pub proof fn lemma_ready_event(s: SessionState)
    ensures
        ready_event(s) matches EventModel::Ready { identity_pub, identity_fingerprint }
            && identity_pub == s.identity.verifying.bytes && identity_fingerprint == array_of(
            primitives::sha256_of(s.identity.verifying@),
        ),
{
}

/// Contents of a one-to-one message open as what they are or as nothing: bytes
/// that start with another number than those of a text or an invitation hold
/// neither.
pub proof fn lemma_payload_kinds(bytes: Seq<u8>, r: Option<P2pPayload>)
    requires
        payload_is(bytes, r),
    ensures
        r matches Some(P2pPayload::Chat(_)) ==> wire::variant_of(bytes) == Some(0u32),
        r matches Some(P2pPayload::GroupDist { .. }) ==> wire::variant_of(bytes) == Some(1u32),
        r matches Some(P2pPayload::GroupDist { state, .. }) ==> is_verifying_key(
            state.signing_pub@,
        ),
        wire::variant_of(bytes) == Some(0u32) && wire::chat_fields_of(bytes) is Some ==> r is Some,
{
}

/// Errors of different kinds are told in different words, those of the store
/// aside, which are told in their own.
pub proof fn lemma_errors_told_apart(a: ClientError, b: ClientError)
    requires
        !(a is Store) && !(b is Store),
        humanized(a) == humanized(b),
    ensures
        a is NoSession == b is NoSession,
        a is NoGroupSession == b is NoGroupSession,
        a is GroupSenderMismatch == b is GroupSenderMismatch,
        a is NoOneTimePreKey == b is NoOneTimePreKey,
        a is NotConnected == b is NotConnected,
        a is Io == b is Io,
        a is Timeout == b is Timeout,
        a is Crypto == b is Crypto,
        a is Protocol == b is Protocol,
        a is Postcard == b is Postcard,
        a is Sqlite == b is Sqlite,
{
    lemma_error_words(a);
    lemma_error_words(b);
}

/// The length and the first character of the words tell the kind of an error.
proof fn lemma_error_words(e: ClientError)
    requires
        !(e is Store),
    ensures
        ({
            let t = humanized(e);
            (t.len() as int, t[0]) == (match e {
                ClientError::NoSession => (39int, 'n'),
                ClientError::NoGroupSession(_) => (31int, 'n'),
                ClientError::GroupSenderMismatch => (54int, 'g'),
                ClientError::NoOneTimePreKey(_) => (23int, 'm'),
                ClientError::NotConnected => (23int, 'n'),
                ClientError::Io(_) => (13int, 'n'),
                ClientError::Timeout => (20int, 'c'),
                ClientError::Crypto(_) => (19int, 'c'),
                ClientError::Protocol(_) => (14int, 'p'),
                ClientError::Postcard(_) => (14int, 'e'),
                _ => (17int, 'l'),
            })
        }),
{
    reveal_strlit("no secure session with this contact yet");
    reveal_strlit("no group session for this group");
    reveal_strlit("group message sender does not match its claimed author");
    reveal_strlit("missing one-time prekey");
    reveal_strlit("not connected to server");
    reveal_strlit("network error");
    reveal_strlit("connection timed out");
    reveal_strlit("cryptographic error");
    reveal_strlit("protocol error");
    reveal_strlit("encoding error");
    reveal_strlit("local store error");
}

/// An error of the store is told as it is, but for one that mentions a wrong
/// passphrase or a store that exists, which is told in short.
pub proof fn lemma_store_errors(s: String)
    ensures
        mentions(s@, "wrong passphrase"@) ==> humanized(ClientError::Store(s)) == "wrong passphrase"@,
        !mentions(s@, "wrong passphrase"@) && !mentions(s@, "already exists"@) ==> humanized(
            ClientError::Store(s),
        ) == s@,
        !mentions(s@, "wrong passphrase"@) && mentions(s@, "already exists"@) ==> humanized(
            ClientError::Store(s),
        ) == "a store already exists for this identity"@,
{
}

/// The errors of the relay have different names.
pub proof fn lemma_server_errors_told_apart(a: ServerError, b: ServerError)
    requires
        server_error_name(a) == server_error_name(b),
    ensures
        a == b,
{
    reveal_strlit("UnknownRecipient");
    reveal_strlit("InvalidSignature");
    reveal_strlit("BadSender");
    reveal_strlit("MalformedFrame");
    reveal_strlit("TooLarge");
    reveal_strlit("NotRegistered");
    assert("UnknownRecipient"@[0] == 'U' && "InvalidSignature"@[0] == 'I');
    assert("UnknownRecipient"@.len() == 16 && "InvalidSignature"@.len() == 16);
    assert("BadSender"@.len() == 9 && "MalformedFrame"@.len() == 14);
    assert("TooLarge"@.len() == 8 && "NotRegistered"@.len() == 13);
}

/// What is told of a failure names the peer by the whole key, and ends with the
/// reason.
pub proof fn lemma_failures_name_peer(peer: [u8; 32], reason: Seq<char>)
    ensures
        refusal_text(peer, reason) == "failed to decrypt message from "@ + hex_chars(peer@) + ": "@
            + reason,
        invite_failed_text(peer, reason) == "group invite to "@ + hex_chars(peer@) + " failed: "@
            + reason,
        answer_refusal(peer, reason) == "could not ack group dist to "@ + hex_chars(peer@) + ": "@
            + reason,
        invite_refusal(peer, ClientError::NoSession) == "cannot invite "@ + hex_chars(peer@)
            + ": no 1:1 session yet (send them a message first)"@,
        invite_refusal(peer, ClientError::NotConnected) == humanized(ClientError::NotConnected),
{
}

/// A text in words that has another in it mentions it.
pub proof fn lemma_mentions(before: Seq<char>, part: Seq<char>, after: Seq<char>)
    ensures
        mentions(before + part + after, part),
{
    lemma_part_found(before, part, after);
}

/// A message that is not sent is told of under its chat and id, with the reason.
pub proof fn lemma_send_refused(ev: Event, chat: ChatId, local_id: u64, reason: Seq<char>)
    requires
        send_refused(ev, chat, local_id, reason),
    ensures
        ev@ matches EventModel::SendFailed { chat: c, local_id: l, reason: r } && c == chat && l
            == local_id && r == reason,
{
}

/// The contents of a one-to-one message are encoded as what they are: a text as a
/// text, an invitation with every part of the state.
pub proof fn lemma_payload_bytes(p: P2pPayload)
    ensures
        p matches P2pPayload::Chat(text) ==> payload_bytes(p) == wire::chat_bytes_of(text@),
        p matches P2pPayload::GroupDist { group, name, state } ==> payload_bytes(p)
            == wire::invite_bytes_of(
            group@,
            name@,
            state.member_id@,
            state.chain_key.0@,
            state.signing_priv@,
            state.signing_pub@,
            state.generation,
        ),
{
}

/// A group has the roster and the name that were recorded of it, and none before.
pub proof fn lemma_recorded(s: BridgeState, group: [u8; 32])
    ensures
        s.rosters.contains_key(group) ==> roster_of(s, group) == s.rosters[group],
        !s.rosters.contains_key(group) ==> roster_of(s, group).len() == 0,
        s.names.contains_key(group) ==> name_of(s, group) == s.names[group],
        !s.names.contains_key(group) ==> name_of(s, group).len() == 0,
{
}

/// A one-to-one message that holds neither a text nor an invitation is shown as the
/// text that its bytes are.
pub proof fn lemma_bare_text(env: EncryptedEnvelope, plaintext: Seq<u8>, t: Taken)
    requires
        env.kind is Direct,
        wire::variant_of(plaintext) is None,
        opened_as(env, plaintext, t),
    ensures
        t matches Taken::Chat { chat, text, sender } && chat == ChatId::Peer(env.sender) && text@
            == lossy_text_of(plaintext) && sender is None,
{
}

} // verus!
