//! The command line: what typed lines mean, what frames of the relay lead to,
//! and what is printed.
use crate::client::error::ClientError;
use crate::client::session::{
    direct_sent, envelope_received, may_send, receivable, session_started, ClientSession,
};
use crate::gui::bridge::{server_error_name, server_error_text};
use crate::gui::views::{
    key_of_text, lemma_key_text_round_trip, parse_key, KeyTextError,
};
use crate::hexadecimal;
use crate::hexadecimal::hex_chars;
use crate::primitives;
use crate::protocol::message::{EncryptedEnvelope, PreKeyBundle, ServerMessage};
use crate::text::{
    chars_of, find_space, first_space, is_space, lemma_first_space, lemma_trimmed,
    lemma_trimmed_alone, lossy_text, lossy_text_of, same_text, trim, trimmed,
};
use vstd::prelude::*;

verus! {

/// The address of the relay unless another is given.
pub const DEFAULT_ADDR: &'static str = "127.0.0.1:7000";

// ---- The relay's address -----------------------------------------------------------------

/// The address behind the first `--server`, from a place on, that has one;
/// `parsed` holds, for each argument, the socket address that it stands for.
pub open spec fn flag_addr(args: Seq<String>, parsed: Seq<Option<String>>, i: int) -> Option<
    Seq<char>,
>
    decreases args.len() - i,
{
    if i < 0 || i >= args.len() {
        None
    } else if args[i]@ != "--server"@ {
        flag_addr(args, parsed, i + 1)
    } else if i + 1 >= args.len() {
        None
    } else if parsed[i + 1] is Some {
        Some(parsed[i + 1].unwrap()@)
    } else {
        flag_addr(args, parsed, i + 2)
    }
}

/// The address of the relay: from the first `--server` with an address behind
/// it, else from the environment, else the default. `parsed` holds for each
/// argument the address that it stands for, and `env` the address that the
/// environment variable stands for, where there is one.
pub fn server_addr_from(args: &Vec<String>, parsed: &Vec<Option<String>>, env: Option<String>) -> (r:
    String)
    requires
        parsed@.len() == args@.len(),
    ensures
        r@ == (match flag_addr(args@, parsed@, 0) {
            Some(a) => a,
            None => match env {
                Some(e) => e@,
                None => DEFAULT_ADDR@,
            },
        }),
{
    let n: usize = args.len();
    let mut i: usize = 0;
    while i < n
        invariant
            n == args@.len(),
            parsed@.len() == n,
            0 <= i <= n,
            flag_addr(args@, parsed@, 0) == flag_addr(args@, parsed@, i as int),
        decreases n - i,
    {
        if same_text(args[i].as_str(), "--server") {
            if i + 1 < n {
                if let Some(a) = &parsed[i + 1] {
                    return a.clone();
                }
                i = i + 2;
            } else {
                i = i + 1;
            }
        } else {
            i = i + 1;
        }
    }
    match env {
        Some(e) => e,
        None => DEFAULT_ADDR.to_owned(),
    }
}

// ---- Typed lines --------------------------------------------------------------------------

/// Bytes as lower-case digits.
pub fn hex_encode(bytes: &[u8]) -> (r: String)
    ensures
        r@ == hex_chars(bytes@),
{
    hexadecimal::encode(bytes)
}

/// A store error with a given text.
pub open spec fn is_input_error(e: ClientError, text: Seq<char>) -> bool {
    e matches ClientError::Store(s) && s@ == text
}

/// Reads a key from 64 digits of either case, white space around them aside.
pub fn parse_pub(s: &str) -> (r: Result<[u8; 32], ClientError>)
    ensures
        match key_of_text(s@) {
            Ok(k) => r matches Ok(a) && a@ == k,
            Err(KeyTextError::Length) => r matches Err(e) && is_input_error(
                e,
                "expected 64 hex chars (32 bytes)"@,
            ),
            Err(KeyTextError::Digit) => r matches Err(e) && is_input_error(e, "bad hex digit"@),
        },
{
    match parse_key(s) {
        Ok(k) => Ok(k),
        Err(KeyTextError::Length) => Err(
            ClientError::Store("expected 64 hex chars (32 bytes)".to_owned()),
        ),
        Err(KeyTextError::Digit) => Err(ClientError::Store("bad hex digit".to_owned())),
    }
}

/// A text in two: what stands before its first white space, and what stands
/// behind, both without white space at their ends.
pub open spec fn in_two(s: Seq<char>) -> Option<(Seq<char>, Seq<char>)> {
    let t = trimmed(s);
    match first_space(t, 0) {
        Some(i) => Some((trimmed(t.take(i)), trimmed(t.subrange(i + 1, t.len() as int)))),
        None => None,
    }
}

/// Splits a text in two at its first white space.
pub fn split_two(s: &str) -> (r: Result<(String, String), ClientError>)
    ensures
        match in_two(s@) {
            Some(p) => r matches Ok(out) && out.0@ == p.0 && out.1@ == p.1,
            None => r matches Err(e) && is_input_error(e, "expected <arg> <value>"@),
        },
{
    let t: &str = trim(s);
    let chars: Vec<char> = chars_of(t);
    let n: usize = chars.len();
    match find_space(&chars) {
        Some(i) => {
            let a: &str = trim(t.substring_char(0, i));
            let b: &str = trim(t.substring_char(i + 1, n));
            assert(t@.subrange(0, i as int) =~= t@.take(i as int));
            Ok((a.to_owned(), b.to_owned()))
        },
        None => Err(ClientError::Store("expected <arg> <value>".to_owned())),
    }
}

/// What a typed line asks for.
pub enum Line {
    Nothing,
    Quit,
    Help,
    WhoAmI,
    Contacts,
    Add { identity_pub: [u8; 32], nickname: String },
    Msg { peer: [u8; 32], text: String },
    Unknown(String),
}

/// The first word of a line and the rest, without white space at its ends.
pub open spec fn command_of(line: Seq<char>) -> (Seq<char>, Seq<char>) {
    match first_space(line, 0) {
        Some(i) => (line.take(i), trimmed(line.subrange(i + 1, line.len() as int))),
        None => (line, Seq::empty()),
    }
}

/// A key and a text behind it, or the error where there are not both.
pub open spec fn key_and_text(
    rest: Seq<char>,
    r: Result<([u8; 32], Seq<char>), ClientError>,
) -> bool {
    match in_two(rest) {
        None => r matches Err(e) && is_input_error(e, "expected <arg> <value>"@),
        Some((a, b)) => match key_of_text(a) {
            Ok(k) => r matches Ok(out) && out.0@ == k && out.1 == b,
            Err(KeyTextError::Length) => r matches Err(e) && is_input_error(
                e,
                "expected 64 hex chars (32 bytes)"@,
            ),
            Err(KeyTextError::Digit) => r matches Err(e) && is_input_error(e, "bad hex digit"@),
        },
    }
}

/// A key and a text behind it as a result.
pub open spec fn pair_view(r: Result<([u8; 32], String), ClientError>) -> Result<
    ([u8; 32], Seq<char>),
    ClientError,
> {
    match r {
        Ok(p) => Ok((p.0, p.1@)),
        Err(e) => Err(e),
    }
}

/// Reads a key and the text behind it.
fn read_key_and_text(rest: &str) -> (r: Result<([u8; 32], String), ClientError>)
    ensures
        key_and_text(rest@, pair_view(r)),
{
    let (a, b): (String, String) = match split_two(rest) {
        Ok(p) => p,
        Err(e) => {
            return Err(e);
        },
    };
    match parse_pub(a.as_str()) {
        Ok(k) => Ok((k, b)),
        Err(e) => Err(e),
    }
}

/// What a line means.
pub open spec fn line_means(line: Seq<char>, r: Result<Line, ClientError>) -> bool {
    let (cmd, rest) = command_of(line);
    if cmd.len() == 0 {
        r matches Ok(l) && l is Nothing
    } else if cmd == "/quit"@ || cmd == "/exit"@ {
        r matches Ok(l) && l is Quit
    } else if cmd == "/help"@ {
        r matches Ok(l) && l is Help
    } else if cmd == "/whoami"@ {
        r matches Ok(l) && l is WhoAmI
    } else if cmd == "/contacts"@ {
        r matches Ok(l) && l is Contacts
    } else if cmd == "/add"@ {
        match r {
            Ok(l) => l matches Line::Add { identity_pub, nickname } && key_and_text(
                rest,
                Ok((identity_pub, nickname@)),
            ),
            Err(e) => key_and_text(rest, Err(e)),
        }
    } else if cmd == "/msg"@ {
        match r {
            Ok(l) => l matches Line::Msg { peer, text } && key_and_text(rest, Ok((peer, text@))),
            Err(e) => key_and_text(rest, Err(e)),
        }
    } else {
        r matches Ok(Line::Unknown(s)) && s@ == cmd
    }
}

/// Reads a line, already without white space at its ends.
pub fn parse_line(line: &str) -> (r: Result<Line, ClientError>)
    ensures
        line_means(line@, r),
{
    let chars: Vec<char> = chars_of(line);
    let n: usize = chars.len();
    let (cmd, rest): (&str, &str) = match find_space(&chars) {
        Some(i) => {
            assert(line@.subrange(0, i as int) =~= line@.take(i as int));
            (line.substring_char(0, i), trim(line.substring_char(i + 1, n)))
        },
        None => {
            assert(line@.subrange(n as int, n as int) =~= Seq::<char>::empty());
            (line, line.substring_char(n, n))
        },
    };
    if cmd.is_empty() {
        Ok(Line::Nothing)
    } else if same_text(cmd, "/quit") || same_text(cmd, "/exit") {
        Ok(Line::Quit)
    } else if same_text(cmd, "/help") {
        Ok(Line::Help)
    } else if same_text(cmd, "/whoami") {
        Ok(Line::WhoAmI)
    } else if same_text(cmd, "/contacts") {
        Ok(Line::Contacts)
    } else if same_text(cmd, "/add") {
        match read_key_and_text(rest) {
            Ok((identity_pub, nickname)) => Ok(Line::Add { identity_pub, nickname }),
            Err(e) => Err(e),
        }
    } else if same_text(cmd, "/msg") {
        match read_key_and_text(rest) {
            Ok((peer, text)) => Ok(Line::Msg { peer, text }),
            Err(e) => Err(e),
        }
    } else {
        Ok(Line::Unknown(cmd.to_owned()))
    }
}

/// Reads a typed line.
pub fn read_line(typed: &str) -> (r: Result<Line, ClientError>)
    ensures
        line_means(trimmed(typed@), r),
{
    parse_line(trim(typed))
}

// ---- Frames of the relay --------------------------------------------------------------------

/// What a frame leads to.
pub enum Step {
    /// The acknowledgement is here.
    Done,
    /// A fetched bundle is here.
    Fetched(Option<PreKeyBundle>),
    /// Take in envelopes.
    Deliver(Vec<EncryptedEnvelope>),
    /// Envelopes came where none are expected; they are left alone.
    Discard(usize),
    /// Nothing to do.
    Wait,
    /// Print a text.
    Print(String),
    /// The relay is gone.
    Gone,
    /// Give up.
    Fail(ClientError),
}

/// An error of the relay as an error of the client.
pub open spec fn is_server_error(e: ClientError, s: crate::protocol::message::ServerError) -> bool {
    is_input_error(e, "server: "@ + server_error_name(s))
}

/// What a frame leads to after registering.
pub fn on_register_frame(frame: Option<ServerMessage>) -> (r: Step)
    ensures
        match frame {
            Some(ServerMessage::AckOk) => r is Done,
            Some(ServerMessage::Delivered(envs)) => r matches Step::Discard(n) && n == envs@.len(),
            Some(ServerMessage::Error(s)) => r matches Step::Fail(e) && is_server_error(e, s),
            Some(_) => r is Wait,
            None => r matches Step::Fail(e) && e is NotConnected,
        },
{
    match frame {
        Some(ServerMessage::AckOk) => Step::Done,
        Some(ServerMessage::Delivered(envs)) => Step::Discard(envs.len()),
        Some(ServerMessage::Error(s)) => Step::Fail(ClientError::Store(server_error_text(s))),
        Some(_) => Step::Wait,
        None => Step::Fail(ClientError::NotConnected),
    }
}

/// What a frame leads to after subscribing.
pub fn on_subscribe_frame(frame: Option<ServerMessage>) -> (r: Step)
    ensures
        match frame {
            Some(ServerMessage::AckOk) => r is Done,
            Some(ServerMessage::Delivered(envs)) => r matches Step::Deliver(e) && e@ == envs@,
            Some(ServerMessage::Error(s)) => r matches Step::Fail(e) && is_server_error(e, s),
            Some(_) => r is Wait,
            None => r matches Step::Fail(e) && e is NotConnected,
        },
{
    match frame {
        Some(ServerMessage::AckOk) => Step::Done,
        Some(ServerMessage::Delivered(envs)) => Step::Deliver(envs),
        Some(ServerMessage::Error(s)) => Step::Fail(ClientError::Store(server_error_text(s))),
        Some(_) => Step::Wait,
        None => Step::Fail(ClientError::NotConnected),
    }
}

/// What a frame leads to while a bundle is awaited.
pub fn on_fetch_frame(frame: Option<ServerMessage>) -> (r: Step)
    ensures
        match frame {
            Some(ServerMessage::Bundle(b)) => r == Step::Fetched(b),
            Some(ServerMessage::Delivered(envs)) => r matches Step::Deliver(e) && e@ == envs@,
            Some(ServerMessage::Error(s)) => r matches Step::Fail(e) && is_server_error(e, s),
            Some(_) => r is Wait,
            None => r matches Step::Fail(e) && e is NotConnected,
        },
{
    match frame {
        Some(ServerMessage::Bundle(b)) => Step::Fetched(b),
        Some(ServerMessage::Delivered(envs)) => Step::Deliver(envs),
        Some(ServerMessage::Error(s)) => Step::Fail(ClientError::Store(server_error_text(s))),
        Some(_) => Step::Wait,
        None => Step::Fail(ClientError::NotConnected),
    }
}

/// What a frame leads to between typed lines.
pub fn on_frame(frame: Option<ServerMessage>) -> (r: Step)
    ensures
        match frame {
            Some(ServerMessage::Delivered(envs)) => r matches Step::Deliver(e) && e@ == envs@,
            Some(ServerMessage::Error(s)) => r matches Step::Print(t) && t@ == "server error: "@
                + server_error_name(s),
            Some(_) => r is Wait,
            None => r is Gone,
        },
{
    match frame {
        Some(ServerMessage::Delivered(envs)) => Step::Deliver(envs),
        Some(ServerMessage::Error(s)) => {
            let named: String = server_error_text(s);
            let mut out: String = "server error: ".to_owned();
            proof {
                reveal_strlit("server: ");
            }
            let tail: &str = named.as_str().substring_char(8, named.as_str().unicode_len());
            assert(tail@ =~= server_error_name(s));
            out.append(tail);
            Step::Print(out)
        },
        Some(_) => Step::Wait,
        None => Step::Gone,
    }
}

// ---- Messages ---------------------------------------------------------------------------------

/// What is printed of an envelope, and whether it is acknowledged.
pub open spec fn printed(
    env: EncryptedEnvelope,
    out: Result<(Vec<u8>, [u8; 32]), ClientError>,
    text: Seq<char>,
    ack: bool,
) -> bool {
    match out {
        Ok((plaintext, sender)) => ack && text == "<- "@ + hex_chars(sender@) + ": "@
            + lossy_text_of(plaintext@),
        Err(e) => !ack && text == refusal_line(env.sender, e.message()),
    }
}

/// What is printed of an envelope that does not open, for a reason in words.
pub open spec fn refusal_line(sender: [u8; 32], reason: Seq<char>) -> Seq<char> {
    "<- failed to decrypt from "@ + hex_chars(sender@) + ": "@ + reason
}

/// What is printed of an envelope that does not open.
fn refuse(sender: &[u8; 32], reason: &str) -> (r: String)
    ensures
        r@ == refusal_line(*sender, reason@),
{
    let mut s: String = "<- failed to decrypt from ".to_owned();
    s.append(hex_encode(sender).as_str());
    s.append(": ");
    s.append(reason);
    s
}

/// Opens a delivered envelope: what is printed, and whether it is acknowledged.
/// One that the receive counters have no room for is refused unopened.
pub fn handle_incoming(env: &EncryptedEnvelope, session: &mut ClientSession) -> (r: (String, bool))
    requires
        old(session).wf(),
    ensures
        final(session).wf(),
        if receivable(old(session)@, *env) {
            exists|out: Result<(Vec<u8>, [u8; 32]), ClientError>| #[trigger]
                envelope_received(old(session)@, *env, final(session)@, out) && printed(
                    *env,
                    out,
                    r.0@,
                    r.1,
                )
        } else {
            r.0@ == refusal_line(env.sender, "receive counter used up"@) && !r.1 && final(session)@
                == old(session)@
        },
{
    let ghost before = session@;
    let out: Result<(Vec<u8>, [u8; 32]), ClientError> = match session.receive_checked(env) {
        Some(out) => out,
        None => {
            return (refuse(&env.sender, "receive counter used up"), false);
        },
    };
    let ghost kept = out;
    assert(envelope_received(before, *env, session@, kept));
    match out {
        Ok((plaintext, sender)) => {
            let mut s: String = "<- ".to_owned();
            s.append(hex_encode(&sender).as_str());
            s.append(": ");
            s.append(lossy_text(&plaintext).as_str());
            assert(printed(*env, kept, s@, true));
            (s, true)
        },
        Err(e) => {
            let s: String = refuse(&env.sender, e.to_string().as_str());
            assert(printed(*env, kept, s@, false));
            (s, false)
        },
    }
}

/// Encrypts the first message to a peer against the fetched bundle.
pub fn first_message(session: &mut ClientSession, bundle: Option<PreKeyBundle>, text: &[u8]) -> (r: Result<
    EncryptedEnvelope,
    ClientError,
>)
    requires
        old(session).wf(),
    ensures
        final(session).wf(),
        match bundle {
            None => final(session)@ == old(session)@ && (r matches Err(e) && is_input_error(
                e,
                "peer not registered"@,
            )),
            Some(b) => if text@.len() >= primitives::SEAL_LIMIT {
                final(session)@ == old(session)@ && (r matches Err(e) && is_input_error(
                    e,
                    "message too long"@,
                ))
            } else {
                session_started(old(session)@, b, text@, final(session)@, r)
            },
        },
{
    match bundle {
        None => Err(ClientError::Store("peer not registered".to_owned())),
        Some(b) => {
            if text.len() as u64 >= primitives::SEAL_LIMIT {
                return Err(ClientError::Store("message too long".to_owned()));
            }
            session.start_session(&b, text)
        },
    }
}

/// Encrypts a message on the session with a peer.
pub fn next_message(session: &mut ClientSession, peer: &[u8; 32], text: &[u8]) -> (r: Result<
    EncryptedEnvelope,
    ClientError,
>)
    requires
        old(session).wf(),
    ensures
        final(session).wf(),
        if text@.len() >= primitives::SEAL_LIMIT {
            final(session)@ == old(session)@ && (r matches Err(e) && is_input_error(
                e,
                "message too long"@,
            ))
        } else if !may_send(old(session)@, *peer) {
            final(session)@ == old(session)@ && (r matches Err(e) && is_input_error(
                e,
                "message counter used up"@,
            ))
        } else {
            direct_sent(old(session)@, *peer, text@, final(session)@, r)
        },
{
    if text.len() as u64 >= primitives::SEAL_LIMIT {
        return Err(ClientError::Store("message too long".to_owned()));
    }
    if !session.can_send(peer) {
        return Err(ClientError::Store("message counter used up".to_owned()));
    }
    session.send(peer, text)
}

// ---- Laws -------------------------------------------------------------------------------------

/// An address from the arguments stands directly behind a `--server`; without
/// that flag there is none.
pub proof fn lemma_flag_addr(args: Seq<String>, parsed: Seq<Option<String>>, from: int)
    requires
        0 <= from,
        parsed.len() == args.len(),
    ensures
        match flag_addr(args, parsed, from) {
            Some(a) => exists|i: int|
                from <= i < args.len() - 1 && (#[trigger] args[i])@ == "--server"@ && (parsed[i
                    + 1] matches Some(s) && s@ == a),
            None => true,
        },
        (forall|i: int| from <= i < args.len() ==> (#[trigger] args[i])@ != "--server"@)
            ==> flag_addr(args, parsed, from) is None,
    decreases args.len() - from,
{
    if from < args.len() {
        if args[from]@ != "--server"@ {
            lemma_flag_addr(args, parsed, from + 1);
        } else if from + 1 < args.len() && parsed[from + 1] is None {
            lemma_flag_addr(args, parsed, from + 2);
        }
    }
}

/// The first `--server` with an address behind it is the one that counts.
pub proof fn lemma_first_flag(args: Seq<String>, parsed: Seq<Option<String>>, from: int, k: int)
    requires
        0 <= from <= k < args.len() - 1,
        parsed.len() == args.len(),
        forall|i: int| from <= i < k ==> (#[trigger] args[i])@ != "--server"@,
        args[k]@ == "--server"@,
        parsed[k + 1] is Some,
    ensures
        flag_addr(args, parsed, from) == Some(parsed[k + 1].unwrap()@),
    decreases k - from,
{
    if from < k {
        lemma_first_flag(args, parsed, from + 1, k);
    }
}

/// A text in two is its first word and what stands behind it, with nothing but
/// white space between and around them; a text of one word is not in two.
pub proof fn lemma_in_two(s: Seq<char>)
    ensures
        match in_two(s) {
            Some((a, b)) => {
                let t = trimmed(s);
                &&& a.len() > 0
                &&& forall|i: int| 0 <= i < a.len() ==> !is_space(#[trigger] a[i])
                &&& a.len() + b.len() <= t.len()
                &&& t.take(a.len() as int) == a
                &&& t.skip(t.len() - b.len()) == b
                &&& forall|i: int| a.len() <= i < t.len() - b.len() ==> is_space(#[trigger] t[i])
                &&& b.len() > 0 && !is_space(b[0])
            },
            None => forall|i: int| 0 <= i < trimmed(s).len() ==> !is_space(#[trigger] trimmed(s)[i]),
        },
{
    let t = trimmed(s);
    lemma_trimmed(s);
    lemma_first_space(t, 0);
    if let Some(i) = first_space(t, 0) {
        let head = t.take(i);
        let tail = t.subrange(i + 1, t.len() as int);
        assert(i > 0);
        assert(head[0] == t[0] && head.last() == t[i - 1]);
        lemma_trimmed_alone(head);
        lemma_trimmed(tail);
        let b = trimmed(tail);
        assert(i < t.len() - 1);
        assert(tail.last() == t.last());
        assert(b.len() > 0);
        let k = choose|k: int| #[trigger] crate::text::leaves(tail, b, k);
        assert(k + b.len() == tail.len()) by {
            if k + b.len() < tail.len() {
                assert(is_space(tail[tail.len() - 1]));
            }
        }
        assert(t.take(head.len() as int) =~= head);
        assert(tail.subrange(k, k + b.len()) == b);
        assert(t.skip(t.len() - b.len()) =~= b);
        assert forall|j: int| head.len() <= j < t.len() - b.len() implies is_space(#[trigger] t[j]) by {
            if j > i {
                assert(tail[j - i - 1] == t[j]);
            }
        }
    }
}

/// A word that has a text behind one space is the command, and the text without
/// white space at its ends what it is about.
proof fn lemma_command_of(word: Seq<char>, rest: Seq<char>)
    requires
        forall|i: int| 0 <= i < word.len() ==> !is_space(#[trigger] word[i]),
    ensures
        command_of(word) == (word, Seq::<char>::empty()),
        command_of(word + seq![' '] + rest) == (word, trimmed(rest)),
{
    let line = word + seq![' '] + rest;
    lemma_first_space(word, 0);
    lemma_first_space(line, 0);
    assert(line[word.len() as int] == ' ');
    assert forall|i: int| 0 <= i < word.len() implies !is_space(#[trigger] line[i]) by {
        assert(line[i] == word[i]);
    }
    assert(line.take(word.len() as int) =~= word);
    assert(line.subrange(word.len() as int + 1, line.len() as int) =~= rest);
}

/// The words of the command line and what they ask for.
pub proof fn lemma_words(r: Result<Line, ClientError>)
    ensures
        line_means(Seq::empty(), r) ==> (r matches Ok(l) && l is Nothing),
        line_means("/quit"@, r) ==> (r matches Ok(l) && l is Quit),
        line_means("/exit"@, r) ==> (r matches Ok(l) && l is Quit),
        line_means("/help"@, r) ==> (r matches Ok(l) && l is Help),
        line_means("/whoami"@, r) ==> (r matches Ok(l) && l is WhoAmI),
        line_means("/contacts"@, r) ==> (r matches Ok(l) && l is Contacts),
        line_means("/add"@, r) ==> r is Err,
        line_means("/msg"@, r) ==> r is Err,
{
    reveal_strlit("/quit");
    reveal_strlit("/exit");
    reveal_strlit("/help");
    reveal_strlit("/whoami");
    reveal_strlit("/contacts");
    reveal_strlit("/add");
    reveal_strlit("/msg");
    let none = Seq::<char>::empty();
    lemma_command_of(none, none);
    lemma_command_of("/quit"@, none);
    lemma_command_of("/exit"@, none);
    lemma_command_of("/help"@, none);
    lemma_command_of("/whoami"@, none);
    lemma_command_of("/contacts"@, none);
    lemma_command_of("/add"@, none);
    lemma_command_of("/msg"@, none);
    lemma_trimmed(none);
    lemma_in_two(none);
    assert(trimmed(none) =~= none);
    assert("/contacts"@[1] != "/quit"@[1]);
    assert("/add"@[1] == 'a' && "/msg"@[1] == 'm' && "/help"@[1] == 'h' && "/whoami"@[1] == 'w'
        && "/contacts"@[1] == 'c' && "/quit"@[1] == 'q' && "/exit"@[1] == 'e');
}

/// A key in digits and a text behind it are read as that key and that text.
proof fn lemma_key_and_text(key: Seq<u8>, text: Seq<char>, r: Result<([u8; 32], Seq<char>), ClientError>)
    requires
        key.len() == 32,
        text.len() > 0,
        !is_space(text[0]),
        !is_space(text.last()),
        key_and_text(hex_chars(key) + seq![' '] + text, r),
    ensures
        r matches Ok(out) && out.0@ == key && out.1 == text,
{
    let digits = hex_chars(key);
    let t = digits + seq![' '] + text;
    hexadecimal::lemma_hex_chars(key);
    assert forall|i: int| 0 <= i < digits.len() implies !is_space(#[trigger] digits[i]) by {
        let j = i / 2;
        assert(digits[2 * j] == hexadecimal::digit_char(key[j] as int / 16));
        if i != 2 * j {
            assert(i == 2 * j + 1);
        }
    }
    assert(t[0] == digits[0] && t.last() == text.last());
    lemma_trimmed_alone(t);
    lemma_first_space(t, 0);
    assert(t[digits.len() as int] == ' ');
    assert forall|i: int| 0 <= i < digits.len() implies !is_space(#[trigger] t[i]) by {
        assert(t[i] == digits[i]);
    }
    assert(first_space(t, 0) == Some(digits.len() as int));
    assert(t.take(digits.len() as int) =~= digits);
    assert(t.subrange(digits.len() as int + 1, t.len() as int) =~= text);
    lemma_trimmed_alone(digits);
    lemma_trimmed_alone(text);
    lemma_key_text_round_trip(key);
}

/// `/msg` with a key and a text sends that text to that key, and `/add` with a key
/// and a name records that key under that name.
pub proof fn lemma_key_commands(key: Seq<u8>, text: Seq<char>, r: Result<Line, ClientError>)
    requires
        key.len() == 32,
        text.len() > 0,
        !is_space(text[0]),
        !is_space(text.last()),
    ensures
        line_means("/msg"@ + seq![' '] + (hex_chars(key) + seq![' '] + text), r) ==> (
        r matches Ok(Line::Msg { peer, text: said }) && peer@ == key && said@ == text),
        line_means("/add"@ + seq![' '] + (hex_chars(key) + seq![' '] + text), r) ==> (
        r matches Ok(Line::Add { identity_pub, nickname }) && identity_pub@ == key && nickname@
            == text),
{
    let rest = hex_chars(key) + seq![' '] + text;
    reveal_strlit("/quit");
    reveal_strlit("/exit");
    reveal_strlit("/help");
    reveal_strlit("/whoami");
    reveal_strlit("/contacts");
    reveal_strlit("/add");
    reveal_strlit("/msg");
    assert("/add"@[1] == 'a' && "/msg"@[1] == 'm' && "/help"@[1] == 'h' && "/whoami"@[1] == 'w'
        && "/contacts"@[1] == 'c' && "/quit"@[1] == 'q' && "/exit"@[1] == 'e');
    lemma_command_of("/msg"@, rest);
    lemma_command_of("/add"@, rest);
    hexadecimal::lemma_hex_chars(key);
    let j: int = 0;
    assert(hex_chars(key)[2 * j] == hexadecimal::digit_char(key[j] as int / 16));
    assert(rest[0] == hex_chars(key)[0] && rest.last() == text.last());
    lemma_trimmed_alone(rest);
    if line_means("/msg"@ + seq![' '] + rest, r) {
        match r {
            Ok(Line::Msg { peer, text: said }) => {
                lemma_key_and_text(key, text, Ok((peer, said@)));
            },
            Err(e) => {
                lemma_key_and_text(key, text, Err(e));
            },
            _ => {},
        }
    }
    if line_means("/add"@ + seq![' '] + rest, r) {
        match r {
            Ok(Line::Add { identity_pub, nickname }) => {
                lemma_key_and_text(key, text, Ok((identity_pub, nickname@)));
            },
            Err(e) => {
                lemma_key_and_text(key, text, Err(e));
            },
            _ => {},
        }
    }
}

/// An envelope is acknowledged exactly where it opened; then its whole text is
/// printed behind the sender's key, else the reason.
pub proof fn lemma_printed(
    env: EncryptedEnvelope,
    out: Result<(Vec<u8>, [u8; 32]), ClientError>,
    text: Seq<char>,
    ack: bool,
)
    requires
        printed(env, out, text, ack),
    ensures
        ack <==> out is Ok,
        out matches Ok(p) ==> text == "<- "@ + hex_chars(p.1@) + ": "@ + lossy_text_of(p.0@),
        out matches Err(e) ==> text == "<- failed to decrypt from "@ + hex_chars(env.sender@) + ": "@
            + e.message(),
{
}

/// An error of typed input has its text, and one of the relay the name of what the
/// relay reported.
pub proof fn lemma_error_texts(
    e: ClientError,
    text: Seq<char>,
    s: crate::protocol::message::ServerError,
)
    ensures
        is_input_error(e, text) <==> (e matches ClientError::Store(t) && t@ == text),
        is_server_error(e, s) <==> (e matches ClientError::Store(t) && t@ == "server: "@
            + server_error_name(s)),
{
}

/// A word that is none of the commands is named as unknown.
pub proof fn lemma_unknown_word(word: Seq<char>, r: Result<Line, ClientError>)
    requires
        line_means(word, r),
        word.len() > 0,
        word[0] != '/',
        forall|i: int| 0 <= i < word.len() ==> !is_space(#[trigger] word[i]),
    ensures
        r matches Ok(Line::Unknown(s)) && s@ == word,
{
    lemma_command_of(word, Seq::empty());
    reveal_strlit("/quit");
    reveal_strlit("/exit");
    reveal_strlit("/help");
    reveal_strlit("/whoami");
    reveal_strlit("/contacts");
    reveal_strlit("/add");
    reveal_strlit("/msg");
    assert("/quit"@[0] == '/' && "/exit"@[0] == '/' && "/help"@[0] == '/' && "/whoami"@[0] == '/');
    assert("/contacts"@[0] == '/' && "/add"@[0] == '/' && "/msg"@[0] == '/');
}

} // verus!
