# untitled_messenger

An end-to-end encrypted messenger, verified with Verus: X3DH key agreement
(with an optional ML-KEM-768 secret), the Double Ratchet, group Sender Keys, the
client's session and encrypted store, the framing of the wire protocol, and the
state machines behind a desktop shell and a terminal client.

## Layout

- `src/` is the library. Every function in it is verified; what it needs from
  other crates (ciphers, curves, hashes, the postcard encoding) it reaches
  through the trusted functions in `primitives.rs` and `wire.rs` (and a few of
  std in `text.rs`, `hexadecimal.rs` and `gui/bridge.rs`).
  - `bytes`, `hexadecimal`, `text`, `keymap`: byte strings, texts and maps.
  - `crypto`: keys, AEAD and key derivation, ML-KEM, identities and prekeys,
    X3DH, the Double Ratchet, Sender Keys.
  - `protocol`: messages of the relay and their frames.
  - `client`: envelopes, the session and its record, the store, the terminal
    client's commands.
  - `gui`: the shell's state, its panels and searches, and what the bridge
    between the shell and the relay decides.
- `tests/` runs the library with the real crates.
- `app/` is the program around it: sockets, the database, files, widgets.

## What is proved

Contracts are stated over models: a session is a `SessionState`, a ratchet a
`RatchetState`, the shell an `AppState`, and each operation is a function or a
relation on them. Among the laws proved from the contracts:

- both ends of a key agreement derive one root key;
- an end in step with another decrypts what the other sends, in whatever order
  the messages of a chain and of the next one come in, also after losses, as
  long as the bounded cache has room for the keys of those overtaken, and stays
  in step; a message key is used once;
- a direct message that does not open changes nothing, so that those after it
  still open;
- a member of a group decrypts what another sends, and no message twice;
- a message under a stale bundle still opens after the signed prekey was
  rotated;
- a group message whose sender is not its author is refused;
- a session, a message and a key come back from the store as they went in;
- pages of history make up the whole thread;
- an unread count grows with each message until the chat is opened;
- a search shows a row exactly where the query occurs in one of its texts, and
  marks something of a name exactly where it shows it for that name;
- later times have later texts, and the text of a key is read back as the key.
