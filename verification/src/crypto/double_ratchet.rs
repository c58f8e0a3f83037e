//! The Double Ratchet for one-to-one messages.
//!
//! Each direction has a symmetric chain that yields one key per message; a
//! message under a new Diffie-Hellman key starts new chains. Keys of messages
//! that were overtaken wait in a bounded cache.
use crate::bytes::{append, append_le32, le32, lemma_le32, to_vec, same32};
use crate::crypto::aead::{
    chain_after, chain_message_key, fresh_chain_key, kdf_chain, kdf_root_dh,
    lemma_chain_after_add, next_chain_key, next_root_key, open, random_nonce, seal,
    unsealed,
};
use crate::crypto::error::CryptoError;
use crate::crypto::keys::{PublicKey, StaticSecret};
use crate::crypto::x3dh::SessionInit;
use crate::primitives;
use vstd::prelude::*;

verus! {

/// How many keys of overtaken messages are kept.
pub const MAX_SKIPPED: usize = 2000;

/// What travels in the clear with a message.
#[derive(Clone, Copy, Debug)]
pub struct Header {
    pub dh_pub: PublicKey,
    pub pn: u32,
    pub n: u32,
    pub nonce: [u8; 24],
}

/// An encrypted message.
#[derive(Debug)]
pub struct Encrypted {
    pub header: Header,
    pub ciphertext: Vec<u8>,
}

impl Clone for Encrypted {
    fn clone(&self) -> (r: Self)
        ensures
            r.header == self.header,
            r.ciphertext@ == self.ciphertext@,
    {
        Encrypted { header: self.header, ciphertext: to_vec(&self.ciphertext) }
    }
}

// ---- Model -------------------------------------------------------------------

/// A cached message key: that of message `n` of the sending chain of the
/// Diffie-Hellman key `dh_pub`.
pub struct Skipped {
    pub dh_pub: Seq<u8>,
    pub n: u32,
    pub key: Seq<u8>,
}

/// The state of a session. The cache lists keys in the order they came in.
pub struct RatchetState {
    pub root_key: Seq<u8>,
    pub dh_priv: Seq<u8>,
    pub dh_pub: Seq<u8>,
    pub peer_dh_pub: Option<Seq<u8>>,
    pub ns: u32,
    pub nr: u32,
    pub pn: u32,
    pub cks: Option<Seq<u8>>,
    pub ckr: Option<Seq<u8>>,
    pub skipped: Seq<Skipped>,
}

/// The bytes of a header that the message's tag covers.
pub open spec fn header_aad_of(h: Header) -> Seq<u8> {
    h.dh_pub@ + le32(h.pn) + le32(h.n) + h.nonce@
}

/// Whether the cache holds the key of message `n` under `dh_pub`.
pub open spec fn cached(c: Seq<Skipped>, dh_pub: Seq<u8>, n: u32) -> bool {
    exists|i: int| #![trigger c[i]] 0 <= i < c.len() && c[i].dh_pub == dh_pub && c[i].n == n
}

/// The place of the key of message `n` under `dh_pub`.
pub open spec fn cache_place(c: Seq<Skipped>, dh_pub: Seq<u8>, n: u32) -> int {
    choose|i: int| #![trigger c[i]] 0 <= i < c.len() && c[i].dh_pub == dh_pub && c[i].n == n
}

/// No message has two keys in the cache.
pub open spec fn distinct(c: Seq<Skipped>) -> bool {
    forall|i: int, j: int|
        #![trigger c[i], c[j]]
        0 <= i < j < c.len() ==> !(c[i].dh_pub == c[j].dh_pub && c[i].n == c[j].n)
}

/// The entry with the lowest message number, the earliest among equals.
pub open spec fn is_oldest(c: Seq<Skipped>, i: int) -> bool {
    &&& 0 <= i < c.len()
    &&& forall|j: int|
        #![trigger c[j]]
        0 <= j < c.len() ==> c[i].n <= c[j].n && (j < i ==> c[i].n < c[j].n)
}

/// The cache with one place free: a full one loses its oldest entry.
pub open spec fn make_room(c: Seq<Skipped>) -> Seq<Skipped> {
    if c.len() >= MAX_SKIPPED {
        c.remove(choose|i: int| is_oldest(c, i))
    } else {
        c
    }
}

/// The cache after a key is put in.
pub open spec fn cache_insert(c: Seq<Skipped>, dh_pub: Seq<u8>, n: u32, key: Seq<u8>) -> Seq<Skipped> {
    let room = make_room(c);
    let entry = Skipped { dh_pub, n, key };
    if cached(room, dh_pub, n) {
        room.update(cache_place(room, dh_pub, n), entry)
    } else {
        room.push(entry)
    }
}

/// The cache and the chain key after the keys of messages `from..to` of the
/// chain at `ck` are put in the cache.
pub open spec fn skip(c: Seq<Skipped>, dh_pub: Seq<u8>, from: int, to: int, ck: Seq<u8>) -> (
    Seq<Skipped>,
    Seq<u8>,
)
    decreases to - from,
{
    if from >= to {
        (c, ck)
    } else {
        skip(
            cache_insert(c, dh_pub, from as u32, chain_message_key(ck)),
            dh_pub,
            from + 1,
            to,
            next_chain_key(ck),
        )
    }
}

/// The larger of two counters.
pub open spec fn larger(a: u32, b: u32) -> u32 {
    if a < b {
        b
    } else {
        a
    }
}

/// Whether a header carries another Diffie-Hellman key than the last one
/// seen.
pub open spec fn new_sender_key(s: RatchetState, h: Header) -> bool {
    s.peer_dh_pub != Some(h.dh_pub@)
}

/// The state after the keys of the old receiving chain below `h.pn` are put
/// in the cache.
pub open spec fn finish_chain(s: RatchetState, h: Header) -> RatchetState {
    match (s.peer_dh_pub, s.ckr) {
        (Some(peer), Some(ck)) => {
            let out = skip(s.skipped, peer, s.nr as int, h.pn as int, ck);
            RatchetState { skipped: out.0, ckr: Some(out.1), nr: larger(s.nr, h.pn), ..s }
        },
        _ => s,
    }
}

/// The state after a Diffie-Hellman ratchet to the key in `h`, with `fresh`
/// as the new own secret.
pub open spec fn dh_ratchet(s: RatchetState, h: Header, fresh: Seq<u8>) -> RatchetState {
    let done = finish_chain(s, h);
    let dh_recv = primitives::x25519_shared_of(s.dh_priv, h.dh_pub@);
    let middle_root = next_root_key(s.root_key, dh_recv);
    let dh_send = primitives::x25519_shared_of(fresh, h.dh_pub@);
    RatchetState {
        root_key: next_root_key(middle_root, dh_send),
        dh_priv: fresh,
        dh_pub: primitives::x25519_public_of(fresh),
        peer_dh_pub: Some(h.dh_pub@),
        ns: 0,
        nr: 0,
        pn: s.ns,
        cks: Some(fresh_chain_key(middle_root, dh_send)),
        ckr: Some(fresh_chain_key(s.root_key, dh_recv)),
        skipped: done.skipped,
    }
}

/// The state in which the message key is taken from the receiving chain.
pub open spec fn ratcheted(s: RatchetState, h: Header, fresh: Seq<u8>) -> RatchetState {
    if new_sender_key(s, h) {
        dh_ratchet(s, h, fresh)
    } else {
        s
    }
}

/// The state after a message with header `h` is received, and the message's
/// key. Neither depends on the ciphertext, and the key does not depend on
/// `fresh`.
pub open spec fn receive_step(s: RatchetState, h: Header, fresh: Seq<u8>) -> (
    RatchetState,
    Option<Seq<u8>>,
) {
    if cached(s.skipped, h.dh_pub@, h.n) {
        let i = cache_place(s.skipped, h.dh_pub@, h.n);
        (RatchetState { skipped: s.skipped.remove(i), ..s }, Some(s.skipped[i].key))
    } else {
        let t = ratcheted(s, h, fresh);
        match t.ckr {
            None => (t, None),
            Some(ck) => {
                let out = skip(t.skipped, h.dh_pub@, t.nr as int, h.n as int, ck);
                (
                    RatchetState {
                        skipped: out.0,
                        ckr: Some(next_chain_key(out.1)),
                        nr: (larger(t.nr, h.n) + 1) as u32,
                        ..t
                    },
                    Some(chain_message_key(out.1)),
                )
            },
        }
    }
}

/// Whether the receive counter has room for a message with header `h`.
pub open spec fn counter_fits(s: RatchetState, h: Header) -> bool {
    ||| cached(s.skipped, h.dh_pub@, h.n)
    ||| !new_sender_key(s, h) && s.ckr is None
    ||| if new_sender_key(s, h) {
        h.n < u32::MAX
    } else {
        larger(s.nr, h.n) < u32::MAX
    }
}

/// The state after a message is sent.
pub open spec fn send_step(s: RatchetState) -> RatchetState {
    RatchetState { cks: Some(next_chain_key(s.cks.unwrap())), ns: (s.ns + 1) as u32, ..s }
}

/// What decrypting gives: the plaintext, or the error of a missing chain or
/// of a tag that does not verify.
pub open spec fn opens_to(key: Option<Seq<u8>>, m: Encrypted, r: Result<Vec<u8>, CryptoError>) -> bool {
    match key {
        None => r == Err::<Vec<u8>, CryptoError>(CryptoError::InvalidState),
        Some(k) => match unsealed(
            k,
            m.header.nonce@,
            header_aad_of(m.header),
            m.ciphertext@,
        ) {
            Some(p) => r matches Ok(v) && v@ == p,
            None => r == Err::<Vec<u8>, CryptoError>(CryptoError::DecryptionFailed),
        },
    }
}

// ---- Two ends of a conversation ------------------------------------------------

/// `b` has yet to see the Diffie-Hellman key that `a` sends under: `a` reached
/// its root key and sending chain from `b`'s root key.
pub open spec fn awaits_ratchet(a: RatchetState, b: RatchetState) -> bool {
    let dh = primitives::x25519_shared_of(a.dh_priv, b.dh_pub);
    &&& b.peer_dh_pub != Some(a.dh_pub)
    &&& a.root_key == next_root_key(b.root_key, dh)
    &&& a.cks == Some(chain_after(fresh_chain_key(b.root_key, dh), a.ns as nat))
}

/// Both ends reach one value from `a`'s and `b`'s current Diffie-Hellman keys.
pub open spec fn agreed(a: RatchetState, b: RatchetState) -> bool {
    primitives::x25519_shared_of(b.dh_priv, a.dh_pub) == primitives::x25519_shared_of(
        a.dh_priv,
        b.dh_pub,
    )
}

/// `b` receives on the chain that `a` sends on, and is not ahead of it.
pub open spec fn shares_chain(a: RatchetState, b: RatchetState) -> bool {
    &&& b.peer_dh_pub == Some(a.dh_pub)
    &&& b.ckr is Some
    &&& b.nr <= a.ns
    &&& a.cks == Some(chain_after(b.ckr.unwrap(), (a.ns - b.nr) as nat))
}

/// `b` is in step with what `a` sends.
pub open spec fn linked(a: RatchetState, b: RatchetState) -> bool {
    &&& a.dh_priv.len() == 32
    &&& a.dh_pub == primitives::x25519_public_of(a.dh_priv)
    &&& awaits_ratchet(a, b) || shares_chain(a, b)
}

/// `h` is the header of the next message that `a` sends.
pub open spec fn next_header_of(a: RatchetState, h: Header) -> bool {
    h.dh_pub@ == a.dh_pub && h.n == a.ns
}

/// A message that `a` sends next is decrypted by `b` with the key that `a`
/// encrypts it with; once it is `opened`, `b` is in step with `a`'s next
/// message, and where `b` ratcheted, it agreed with `a` on the new chain and `a`
/// is in step with what `b` sends.
pub open spec fn delivers(
    a: RatchetState,
    b: RatchetState,
    after: RatchetState,
    key: Option<Seq<u8>>,
    opened: bool,
) -> bool {
    &&& key == Some(chain_message_key(a.cks.unwrap()))
    &&& awaits_ratchet(a, b) ==> agreed(a, b)
    &&& opened ==> linked(send_step(a), after)
    &&& opened && awaits_ratchet(a, b) && a.peer_dh_pub != Some(after.dh_pub) ==> linked(
        after,
        send_step(a),
    )
}

/// The next message of any sender that an end is in step with is delivered,
/// unless its key waits in the cache.
pub open spec fn delivers_next(
    before: RatchetState,
    h: Header,
    after: RatchetState,
    key: Option<Seq<u8>>,
    opened: bool,
) -> bool {
    forall|a: RatchetState| #[trigger]
        linked(a, before) && next_header_of(a, h) && !cached(before.skipped, a.dh_pub, a.ns)
            ==> delivers(a, before, after, key, opened)
}

/// What decrypting does. The message key, and the state after a message that
/// opens, are those of [`receive_step`], with the own secret of a new ratchet
/// step as `fresh`; a message that does not open changes nothing. The next
/// message of any sender that this end is in step with is delivered.
pub open spec fn decrypted(
    before: RatchetState,
    m: Encrypted,
    after: RatchetState,
    r: Result<Vec<u8>, CryptoError>,
) -> bool {
    let step = receive_step(before, m.header, after.dh_priv);
    &&& opens_to(step.1, m, r)
    &&& after == (if r is Ok {
        step.0
    } else {
        before
    })
    &&& delivers_next(before, m.header, after, step.1, r is Ok)
}

/// A message that one end sends is decrypted by an end in step with it, and
/// they stay in step; where the receiver ratcheted, the sender is in step with
/// the receiver's replies too.
pub proof fn lemma_delivery(
    a: RatchetState,
    b: RatchetState,
    plaintext: Seq<u8>,
    a_after: RatchetState,
    m: Encrypted,
    b_after: RatchetState,
    r: Result<Vec<u8>, CryptoError>,
)
    requires
        sent(a, plaintext, a_after, Ok(m)),
        decrypted(b, m, b_after, r),
        linked(a, b),
        !cached(b.skipped, a.dh_pub, a.ns),
    ensures
        r matches Ok(v) && v@ == plaintext,
        linked(a_after, b_after),
        awaits_ratchet(a, b) && a.peer_dh_pub != Some(b_after.dh_pub) ==> linked(b_after, a_after),
{
    assert(next_header_of(a, m.header));
}

/// A message that is lost, or that does not open, does no harm: an end in step
/// with the sender is in step with the sender's message after it.
pub proof fn lemma_gap(a: RatchetState, b: RatchetState)
    requires
        linked(a, b),
        a.ns < u32::MAX,
    ensures
        linked(send_step(a), b),
{
    let next = send_step(a);
    if awaits_ratchet(a, b) {
        assert(awaits_ratchet(next, b));
    } else {
        let k = (a.ns - b.nr) as nat;
        assert(chain_after(b.ckr.unwrap(), k + 1) == next_chain_key(chain_after(b.ckr.unwrap(), k)));
        assert(shares_chain(next, b));
    }
}

/// A message that does not open is dropped without poisoning the ratchet:
/// nothing changes, and the messages that follow it are delivered as if it
/// had been lost.
pub proof fn lemma_bad_message_dropped(
    a: RatchetState,
    b: RatchetState,
    m: Encrypted,
    b_after: RatchetState,
    r: Result<Vec<u8>, CryptoError>,
)
    requires
        decrypted(b, m, b_after, r),
        r is Err,
        linked(a, b),
        a.ns < u32::MAX,
    ensures
        b_after == b,
        linked(a, b_after),
        linked(send_step(a), b_after),
{
    lemma_gap(a, b);
}

// ---- Lemmas ---------------------------------------------------------------------

/// The message key does not depend on the own secret of a new ratchet step.
proof fn lemma_key_without_secret(s: RatchetState, h: Header, x: Seq<u8>, y: Seq<u8>)
    ensures
        receive_step(s, h, x).1 == receive_step(s, h, y).1,
{
}

/// An entry is found at its place.
pub proof fn lemma_place(c: Seq<Skipped>, i: int)
    requires
        distinct(c),
        0 <= i < c.len(),
    ensures
        cached(c, c[i].dh_pub, c[i].n),
        cache_place(c, c[i].dh_pub, c[i].n) == i,
{
    let j = cache_place(c, c[i].dh_pub, c[i].n);
    assert(0 <= j < c.len() && c[j].dh_pub == c[i].dh_pub && c[j].n == c[i].n);
    if i < j {
        assert(!(c[i].dh_pub == c[j].dh_pub && c[i].n == c[j].n));
    } else if j < i {
        assert(!(c[j].dh_pub == c[i].dh_pub && c[j].n == c[i].n));
    }
}

/// There is one oldest entry.
proof fn lemma_oldest(c: Seq<Skipped>, i: int)
    requires
        is_oldest(c, i),
    ensures
        (choose|k: int| is_oldest(c, k)) == i,
{
    let k = choose|k: int| is_oldest(c, k);
    assert(is_oldest(c, k));
    assert(c[k].n <= c[i].n && c[i].n <= c[k].n);
}

/// A cache with one place free holds one key per message.
proof fn lemma_room_keeps_distinct(c: Seq<Skipped>)
    requires
        distinct(c),
        c.len() >= MAX_SKIPPED ==> exists|i: int| is_oldest(c, i),
    ensures
        distinct(make_room(c)),
{
    if c.len() >= MAX_SKIPPED {
        let room = make_room(c);
        let k = choose|i: int| is_oldest(c, i);
        assert forall|i: int, j: int|
            #![trigger room[i], room[j]]
            0 <= i < j < room.len() implies !(room[i].dh_pub == room[j].dh_pub && room[i].n
            == room[j].n) by {
            let i2 = if i < k { i } else { i + 1 };
            let j2 = if j < k { j } else { j + 1 };
            assert(room[i] == c[i2] && room[j] == c[j2]);
        }
    }
}

/// A key more leaves one key per message, and no more than the cache may hold.
pub proof fn lemma_insert_keeps_distinct(c: Seq<Skipped>, dh_pub: Seq<u8>, n: u32, key: Seq<u8>)
    requires
        distinct(c),
        c.len() <= MAX_SKIPPED,
        c.len() >= MAX_SKIPPED ==> exists|i: int| is_oldest(c, i),
    ensures
        distinct(cache_insert(c, dh_pub, n, key)),
        cache_insert(c, dh_pub, n, key).len() <= MAX_SKIPPED,
{
    let room = make_room(c);
    lemma_room_keeps_distinct(c);
    let out = cache_insert(c, dh_pub, n, key);
    if cached(room, dh_pub, n) {
        let p = cache_place(room, dh_pub, n);
        assert(0 <= p < room.len() && room[p].dh_pub == dh_pub && room[p].n == n);
        assert forall|i: int, j: int|
            #![trigger out[i], out[j]]
            0 <= i < j < out.len() implies !(out[i].dh_pub == out[j].dh_pub && out[i].n
            == out[j].n) by {
            assert(out[i].dh_pub == room[i].dh_pub && out[i].n == room[i].n);
            assert(out[j].dh_pub == room[j].dh_pub && out[j].n == room[j].n);
        }
    } else {
        assert forall|i: int, j: int|
            #![trigger out[i], out[j]]
            0 <= i < j < out.len() implies !(out[i].dh_pub == out[j].dh_pub && out[i].n
            == out[j].n) by {
            assert(out[i] == room[i]);
            if j < room.len() {
                assert(out[j] == room[j]);
            }
        }
    }
}

/// Skipping moves the chain on by the number of skipped messages.
pub proof fn lemma_skip_chain(c: Seq<Skipped>, dh_pub: Seq<u8>, from: int, to: int, ck: Seq<u8>)
    ensures
        skip(c, dh_pub, from, to, ck).1 == chain_after(
            ck,
            if from < to {
                (to - from) as nat
            } else {
                0
            },
        ),
    decreases to - from,
{
    if from < to {
        let c1 = cache_insert(c, dh_pub, from as u32, chain_message_key(ck));
        lemma_skip_chain(c1, dh_pub, from + 1, to, next_chain_key(ck));
        assert(chain_after(ck, 1) == next_chain_key(ck)) by {
            assert(chain_after(ck, 0) == ck);
        }
        lemma_chain_after_add(ck, 1, (to - from - 1) as nat);
    }
}

/// A key taken from the cache is gone: the cache holds no second one for the
/// same message.
pub proof fn lemma_cached_key_used_once(s: RatchetState, h: Header, fresh: Seq<u8>)
    requires
        distinct(s.skipped),
        cached(s.skipped, h.dh_pub@, h.n),
    ensures
        !cached(receive_step(s, h, fresh).0.skipped, h.dh_pub@, h.n),
{
    let c = s.skipped;
    let p = cache_place(c, h.dh_pub@, h.n);
    assert(0 <= p < c.len() && c[p].dh_pub == h.dh_pub@ && c[p].n == h.n);
    let left = c.remove(p);
    if cached(left, h.dh_pub@, h.n) {
        let i = cache_place(left, h.dh_pub@, h.n);
        assert(0 <= i < left.len() && left[i].dh_pub == h.dh_pub@ && left[i].n == h.n);
        let i2 = if i < p { i } else { i + 1 };
        assert(left[i] == c[i2]);
        assert(c[i2].dh_pub == c[p].dh_pub && c[i2].n == c[p].n);
    }
}

// ---- Session -----------------------------------------------------------------------

/// A cached message key.
#[derive(Clone, Copy)]
struct SkippedKey {
    dh_pub: PublicKey,
    n: u32,
    key: [u8; 32],
}

/// The contents of a cached message key.
spec fn model_of(k: SkippedKey) -> Skipped {
    Skipped { dh_pub: k.dh_pub@, n: k.n, key: k.key@ }
}

/// The contents of the cache.
spec fn cache_of(keys: Seq<SkippedKey>) -> Seq<Skipped> {
    keys.map_values(|k: SkippedKey| model_of(k))
}

/// The bytes of a header that the message's tag covers.
fn header_aad(h: &Header) -> (r: Vec<u8>)
    ensures
        r@ == header_aad_of(*h),
{
    let mut aad: Vec<u8> = Vec::new();
    append(&mut aad, &h.dh_pub.bytes);
    append_le32(&mut aad, h.pn);
    append_le32(&mut aad, h.n);
    append(&mut aad, &h.nonce);
    assert(aad@ =~= header_aad_of(*h));
    aad
}

/// The place of a key in the cache.
fn find_key(keys: &Vec<SkippedKey>, dh_pub: &PublicKey, n: u32) -> (r: Option<usize>)
    requires
        distinct(cache_of(keys@)),
    ensures
        r is Some <==> cached(cache_of(keys@), dh_pub@, n),
        r matches Some(i) ==> i < keys@.len() && cache_place(cache_of(keys@), dh_pub@, n) == i,
{
    let ghost c = cache_of(keys@);
    let mut i: usize = 0;
    while i < keys.len()
        invariant
            0 <= i <= keys@.len(),
            c == cache_of(keys@),
            distinct(c),
            forall|j: int|
                #![trigger c[j]]
                0 <= j < i ==> !(c[j].dh_pub == dh_pub@ && c[j].n == n),
        decreases keys@.len() - i,
    {
        if keys[i].n == n && keys[i].dh_pub == *dh_pub {
            proof {
                assert(c[i as int] == model_of(keys@[i as int]));
                lemma_place(c, i as int);
            }
            return Some(i);
        }
        assert(c[i as int] == model_of(keys@[i as int]));
        i = i + 1;
    }
    None
}

/// Drops the oldest key of a full cache.
fn evict_if_full(keys: &mut Vec<SkippedKey>)
    requires
        old(keys)@.len() <= MAX_SKIPPED,
    ensures
        cache_of(final(keys)@) == make_room(cache_of(old(keys)@)),
        final(keys)@.len() < MAX_SKIPPED,
        old(keys)@.len() >= MAX_SKIPPED ==> exists|i: int| is_oldest(cache_of(old(keys)@), i),
{
    if keys.len() >= MAX_SKIPPED {
        let ghost c = cache_of(keys@);
        let mut best: usize = 0;
        let mut i: usize = 1;
        while i < keys.len()
            invariant
                c == cache_of(keys@),
                best < i <= keys@.len(),
                forall|j: int|
                    #![trigger c[j]]
                    0 <= j < i ==> c[best as int].n <= c[j].n && (j < best ==> c[best as int].n
                        < c[j].n),
            decreases keys@.len() - i,
        {
            assert(c[i as int] == model_of(keys@[i as int]));
            assert(c[best as int] == model_of(keys@[best as int]));
            if keys[i].n < keys[best].n {
                best = i;
            }
            i = i + 1;
        }
        proof {
            assert(is_oldest(c, best as int));
            lemma_oldest(c, best as int);
        }
        keys.remove(best);
        assert(cache_of(keys@) =~= c.remove(best as int));
    }
}

/// Puts a key in the cache.
fn store_key(keys: &mut Vec<SkippedKey>, dh_pub: PublicKey, n: u32, key: [u8; 32])
    requires
        distinct(cache_of(old(keys)@)),
        old(keys)@.len() <= MAX_SKIPPED,
    ensures
        cache_of(final(keys)@) == cache_insert(cache_of(old(keys)@), dh_pub@, n, key@),
        distinct(cache_of(final(keys)@)),
        final(keys)@.len() <= MAX_SKIPPED,
{
    let ghost c = cache_of(keys@);
    evict_if_full(keys);
    proof {
        lemma_insert_keeps_distinct(c, dh_pub@, n, key@);
        lemma_room_keeps_distinct(c);
    }
    let entry = SkippedKey { dh_pub, n, key };
    match find_key(keys, &dh_pub, n) {
        Some(i) => {
            let ghost room = cache_of(keys@);
            keys[i] = entry;
            assert(cache_of(keys@) =~= room.update(i as int, model_of(entry)));
        },
        None => {
            let ghost room = cache_of(keys@);
            keys.push(entry);
            assert(cache_of(keys@) =~= room.push(model_of(entry)));
        },
    }
}

/// One end of a one-to-one conversation.
pub struct RatchetSession {
    root_key: [u8; 32],
    dh_priv: StaticSecret,
    dh_pub: PublicKey,
    /// The peer's current Diffie-Hellman key; `None` until the first message
    /// comes in.
    peer_dh_pub: Option<PublicKey>,
    ns: u32,
    nr: u32,
    pn: u32,
    cks: Option<[u8; 32]>,
    ckr: Option<[u8; 32]>,
    skipped: Vec<SkippedKey>,
}

impl View for RatchetSession {
    type V = RatchetState;

    closed spec fn view(&self) -> RatchetState {
        RatchetState {
            root_key: self.root_key@,
            dh_priv: self.dh_priv@,
            dh_pub: self.dh_pub@,
            peer_dh_pub: match self.peer_dh_pub {
                Some(k) => Some(k@),
                None => None,
            },
            ns: self.ns,
            nr: self.nr,
            pn: self.pn,
            cks: primitives::view_of32(self.cks),
            ckr: primitives::view_of32(self.ckr),
            skipped: cache_of(self.skipped@),
        }
    }
}

/// A well-formed state: the own keys belong together, and the cache is
/// bounded and holds one key per message.
pub open spec fn state_wf(s: RatchetState) -> bool {
    &&& s.dh_pub == primitives::x25519_public_of(s.dh_priv)
    &&& s.dh_priv.len() == 32
    &&& distinct(s.skipped)
    &&& s.skipped.len() <= MAX_SKIPPED
}

impl RatchetSession {
    /// The state is well-formed.
    pub open spec fn wf(&self) -> bool {
        state_wf(self@)
    }

    /// The initiator's end, which can send at once.
    pub fn init_alice(session_init: &SessionInit) -> (r: Result<Self, CryptoError>)
        ensures
            r matches Ok(s) && s.wf() && s@ == alice_start(*session_init, s@.dh_priv),
    {
        Self::init_alice_with(session_init, StaticSecret::random())
    }

    /// The initiator's end with a given Diffie-Hellman secret.
    pub fn init_alice_with(session_init: &SessionInit, dh_priv: StaticSecret) -> (r: Result<
        Self,
        CryptoError,
    >)
        ensures
            r matches Ok(s) && s.wf() && s@ == alice_start(*session_init, dh_priv@),
    {
        let dh_pub = PublicKey::of_secret(&dh_priv);
        let dh_output = dh_priv.diffie_hellman(&session_init.bob_signed_prekey_pub);
        let (new_root, cks) = kdf_root_dh(&session_init.root_key, &dh_output);
        let s = RatchetSession {
            root_key: new_root,
            dh_priv,
            dh_pub,
            peer_dh_pub: Some(session_init.bob_signed_prekey_pub),
            ns: 0,
            nr: 0,
            pn: 0,
            cks: Some(cks),
            ckr: None,
            skipped: Vec::new(),
        };
        assert(s@.skipped =~= Seq::<Skipped>::empty());
        Ok(s)
    }

    /// The responder's end, which cannot send before it has received.
    pub fn init_bob(session_init: &SessionInit, bob_signed_priv: &StaticSecret) -> (r: Result<
        Self,
        CryptoError,
    >)
        ensures
            r matches Ok(s) && s.wf() && s@ == bob_start(*session_init, bob_signed_priv@),
    {
        let s = RatchetSession {
            root_key: session_init.root_key,
            dh_priv: *bob_signed_priv,
            dh_pub: PublicKey::of_secret(bob_signed_priv),
            peer_dh_pub: None,
            ns: 0,
            nr: 0,
            pn: 0,
            cks: None,
            ckr: None,
            skipped: Vec::new(),
        };
        assert(s@.skipped =~= Seq::<Skipped>::empty());
        Ok(s)
    }

    /// Encrypts the next message of the sending chain. Fails, with nothing
    /// changed, where there is no sending chain yet.
    pub fn encrypt(&mut self, plaintext: &[u8]) -> (r: Result<Encrypted, CryptoError>)
        requires
            old(self).wf(),
            old(self)@.ns < u32::MAX,
            plaintext@.len() < primitives::SEAL_LIMIT,
        ensures
            final(self).wf(),
            sent(old(self)@, plaintext@, final(self)@, r),
    {
        self.encrypt_with(plaintext, random_nonce())
    }

    /// Encrypts the next message of the sending chain under a given nonce.
    pub fn encrypt_with(&mut self, plaintext: &[u8], nonce: [u8; 24]) -> (r: Result<
        Encrypted,
        CryptoError,
    >)
        requires
            old(self).wf(),
            old(self)@.ns < u32::MAX,
            plaintext@.len() < primitives::SEAL_LIMIT,
        ensures
            final(self).wf(),
            sent(old(self)@, plaintext@, final(self)@, r),
            r matches Ok(m) ==> m.header.nonce == nonce,
    {
        let cks = match self.cks {
            Some(ck) => ck,
            None => {
                return Err(CryptoError::InvalidState);
            },
        };
        let (new_cks, msg_key) = kdf_chain(&cks);
        self.cks = Some(new_cks);
        let header = Header { dh_pub: self.dh_pub, pn: self.pn, n: self.ns, nonce };
        let aad = header_aad(&header);
        let ciphertext = seal(&msg_key, &nonce, &aad, plaintext);
        self.ns = self.ns + 1;
        Ok(Encrypted { header, ciphertext })
    }

    /// Puts the keys of the messages below `until` of the receiving chain at
    /// `ck` in the cache and returns the chain key after them.
    fn skip_to(&mut self, peer: PublicKey, ck: [u8; 32], until: u32) -> (r: [u8; 32])
        requires
            old(self).wf(),
        ensures
            final(self).wf(),
            ({
                let out = skip(old(self)@.skipped, peer@, old(self)@.nr as int, until as int, ck@);
                &&& r@ == out.1
                &&& final(self)@ == RatchetState {
                    skipped: out.0,
                    nr: larger(old(self)@.nr, until),
                    ..old(self)@
                }
            }),
    {
        let mut ck: [u8; 32] = ck;
        let ghost goal = skip(self@.skipped, peer@, self@.nr as int, until as int, ck@);
        let ghost start = self@;
        while self.nr < until
            invariant
                self.wf(),
                goal == skip(self@.skipped, peer@, self@.nr as int, until as int, ck@),
                self@ == (RatchetState { skipped: self@.skipped, nr: self@.nr, ..start }),
                start.nr <= self@.nr,
                self@.nr <= until || self@.nr == start.nr,
            decreases until - self.nr,
        {
            let (new_ck, mk) = kdf_chain(&ck);
            let n: u32 = self.nr;
            store_key(&mut self.skipped, peer, n, mk);
            ck = new_ck;
            self.nr = n + 1;
        }
        ck
    }

    /// Decrypts a message. A message of a chain that this end does not know
    /// yet moves the Diffie-Hellman ratchet on; keys of messages that the
    /// sender sent before this one, and that have not come in, are cached.
    /// A message that does not open changes nothing.
    pub fn decrypt(&mut self, message: &Encrypted) -> (r: Result<Vec<u8>, CryptoError>)
        requires
            old(self).wf(),
            counter_fits(old(self)@, message.header),
        ensures
            final(self).wf(),
            decrypted(old(self)@, *message, final(self)@, r),
    {
        self.decrypt_with(message, StaticSecret::random())
    }

    /// Whether the receive counter has room for a message with this header.
    pub fn has_room_for(&self, header: &Header) -> (r: bool)
        requires
            self.wf(),
        ensures
            r == counter_fits(self@, *header),
    {
        if find_key(&self.skipped, &header.dh_pub, header.n).is_some() {
            return true;
        }
        let new_sender = match self.peer_dh_pub {
            Some(p) => !(p == header.dh_pub),
            None => true,
        };
        if new_sender {
            header.n < u32::MAX
        } else {
            self.ckr.is_none() || (self.nr < u32::MAX && header.n < u32::MAX)
        }
    }

    /// The number of messages sent on the current chain.
    pub fn sent_count(&self) -> (r: u32)
        ensures
            r == self@.ns,
    {
        self.ns
    }

    /// Decrypts a message, taking `fresh` as the own secret of a new
    /// Diffie-Hellman ratchet step.
    pub fn decrypt_with(&mut self, message: &Encrypted, fresh: StaticSecret) -> (r: Result<
        Vec<u8>,
        CryptoError,
    >)
        requires
            old(self).wf(),
            counter_fits(old(self)@, message.header),
        ensures
            final(self).wf(),
            r is Ok ==> final(self)@ == receive_step(old(self)@, message.header, fresh@).0,
            decrypted(old(self)@, *message, final(self)@, r),
    {
        let ghost start = self@;
        let mut next: RatchetSession = self.clone();
        let key = next.advance(&message.header, fresh);
        proof {
            lemma_key_without_secret(start, message.header, fresh@, start.dh_priv);
        }
        let msg_key = match key {
            Some(k) => k,
            None => {
                return Err(CryptoError::InvalidState);
            },
        };
        let aad = header_aad(&message.header);
        let opened = open(&msg_key, &message.header.nonce, &aad, &message.ciphertext);
        if opened.is_ok() {
            *self = next;
        }
        opened
    }

    /// Moves the state on to the message with this header and returns the
    /// message's key, `None` where there is no chain to take it from.
    fn advance(&mut self, header: &Header, fresh: StaticSecret) -> (r: Option<[u8; 32]>)
        requires
            old(self).wf(),
            counter_fits(old(self)@, *header),
        ensures
            final(self).wf(),
            ({
                let step = receive_step(old(self)@, *header, fresh@);
                &&& final(self)@ == step.0
                &&& primitives::view_of32(r) == step.1
                &&& delivers_next(old(self)@, *header, step.0, step.1, true)
            }),
    {
        let ghost start = self@;
        let ghost h = *header;
        let header_pub = header.dh_pub;
        if let Some(i) = find_key(&self.skipped, &header_pub, header.n) {
            let msg_key = self.skipped[i].key;
            self.skipped.remove(i);
            proof {
                assert(self@.skipped =~= start.skipped.remove(i as int));
                assert(start.skipped[i as int].key == msg_key@);
                let left = self@.skipped;
                assert forall|a: int, b: int|
                    #![trigger left[a], left[b]]
                    0 <= a < b < left.len() implies !(left[a].dh_pub == left[b].dh_pub && left[a].n
                    == left[b].n) by {
                    let a2 = if a < i { a } else { a + 1 };
                    let b2 = if b < i { b } else { b + 1 };
                    assert(left[a] == start.skipped[a2] && left[b] == start.skipped[b2]);
                }
            }
            return Some(msg_key);
        }
        let new_sender = match self.peer_dh_pub {
            Some(p) => !(p == header_pub),
            None => true,
        };
        assert(new_sender == new_sender_key(start, h));
        if new_sender {
            if let Some(old_peer) = self.peer_dh_pub {
                if let Some(ckr) = self.ckr {
                    let done = self.skip_to(old_peer, ckr, header.pn);
                    self.ckr = Some(done);
                }
            }
            assert(self@ == finish_chain(start, h));

            // Receiving chain: own old secret with the peer's new key.
            self.peer_dh_pub = Some(header_pub);
            let dh_recv = self.dh_priv.diffie_hellman(&header_pub);
            let (middle_root, new_ckr) = kdf_root_dh(&self.root_key, &dh_recv);
            self.ckr = Some(new_ckr);
            self.pn = self.ns;
            self.nr = 0;

            // Sending chain: own new secret with the peer's new key.
            self.dh_priv = fresh;
            self.dh_pub = PublicKey::of_secret(&fresh);
            let dh_send = fresh.diffie_hellman(&header_pub);
            let (new_root, new_cks) = kdf_root_dh(&middle_root, &dh_send);
            self.root_key = new_root;
            self.cks = Some(new_cks);
            self.ns = 0;
            assert(self@ == dh_ratchet(start, h, fresh@));
            proof {
                // The sender's secret reaches the same value.
                assert forall|a: RatchetState| #[trigger] linked(a, start) && next_header_of(a, h) implies dh_recv@
                    == primitives::x25519_shared_of(a.dh_priv, start.dh_pub) by {
                    assert(header_pub@ == primitives::x25519_public_of(a.dh_priv));
                }
            }
        }
        let ghost t = self@;
        assert(t == ratcheted(start, h, fresh@));
        proof {
            assert forall|a: RatchetState| #[trigger] linked(a, start) && next_header_of(a, h) implies t.ckr is Some
                && t.nr <= a.ns && a.cks == Some(chain_after(t.ckr.unwrap(), (a.ns - t.nr) as nat))
                && t.peer_dh_pub == Some(a.dh_pub) && (awaits_ratchet(a, start) ==> agreed(a, start))
                && (awaits_ratchet(a, start) && a.peer_dh_pub != Some(t.dh_pub) ==> awaits_ratchet(
                t,
                a,
            )) by {
                if new_sender {
                    assert(awaits_ratchet(a, start));
                    assert(chain_after(t.cks.unwrap(), 0) == t.cks.unwrap());
                } else {
                    assert(shares_chain(a, start));
                }
            }
        }
        let ckr = match self.ckr {
            Some(ck) => ck,
            None => {
                return None;
            },
        };
        let at = self.skip_to(header_pub, ckr, header.n);
        let (new_ckr, msg_key) = kdf_chain(&at);
        self.ckr = Some(new_ckr);
        self.nr = self.nr + 1;
        proof {
            lemma_skip_chain(t.skipped, header_pub@, t.nr as int, h.n as int, ckr@);
            assert forall|a: RatchetState| #[trigger] linked(a, start) && next_header_of(a, h) implies delivers(
                a,
                start,
                self@,
                Some(msg_key@),
                true,
            ) by {
                assert(at@ == a.cks.unwrap());
                assert(chain_after(new_ckr@, 0) == new_ckr@);
                assert(shares_chain(send_step(a), self@));
            }
        }
        Some(msg_key)
    }
}

impl Clone for RatchetSession {
    fn clone(&self) -> (r: Self)
        ensures
            r@ == self@,
    {
        let mut skipped: Vec<SkippedKey> = Vec::new();
        let mut i: usize = 0;
        while i < self.skipped.len()
            invariant
                0 <= i <= self.skipped@.len(),
                skipped@ == self.skipped@.take(i as int),
            decreases self.skipped@.len() - i,
        {
            skipped.push(self.skipped[i]);
            i = i + 1;
            assert(skipped@ =~= self.skipped@.take(i as int));
        }
        assert(skipped@ =~= self.skipped@);
        RatchetSession {
            root_key: self.root_key,
            dh_priv: self.dh_priv,
            dh_pub: self.dh_pub,
            peer_dh_pub: self.peer_dh_pub,
            ns: self.ns,
            nr: self.nr,
            pn: self.pn,
            cks: self.cks,
            ckr: self.ckr,
            skipped,
        }
    }
}

/// The initiator's state at the start, with the Diffie-Hellman secret
/// `dh_priv`.
pub open spec fn alice_start(init: SessionInit, dh_priv: Seq<u8>) -> RatchetState {
    let dh = primitives::x25519_shared_of(dh_priv, init.bob_signed_prekey_pub@);
    RatchetState {
        root_key: next_root_key(init.root_key@, dh),
        dh_priv,
        dh_pub: primitives::x25519_public_of(dh_priv),
        peer_dh_pub: Some(init.bob_signed_prekey_pub@),
        ns: 0,
        nr: 0,
        pn: 0,
        cks: Some(fresh_chain_key(init.root_key@, dh)),
        ckr: None,
        skipped: Seq::empty(),
    }
}

/// The responder's state at the start.
pub open spec fn bob_start(init: SessionInit, signed_priv: Seq<u8>) -> RatchetState {
    RatchetState {
        root_key: init.root_key@,
        dh_priv: signed_priv,
        dh_pub: primitives::x25519_public_of(signed_priv),
        peer_dh_pub: None,
        ns: 0,
        nr: 0,
        pn: 0,
        cks: None,
        ckr: None,
        skipped: Seq::empty(),
    }
}

/// What encrypting does: without a sending chain nothing but an error;
/// otherwise a message under the chain's next key, which that key opens.
pub open spec fn sent(
    before: RatchetState,
    plaintext: Seq<u8>,
    after: RatchetState,
    r: Result<Encrypted, CryptoError>,
) -> bool {
    match before.cks {
        None => after == before && r == Err::<Encrypted, CryptoError>(CryptoError::InvalidState),
        Some(ck) => {
            &&& after == send_step(before)
            &&& r matches Ok(m)
            &&& m.header.dh_pub@ == before.dh_pub
            &&& m.header.pn == before.pn
            &&& m.header.n == before.ns
            &&& m.ciphertext@ == primitives::sealed_of(
                chain_message_key(ck),
                m.header.nonce@,
                header_aad_of(m.header),
                plaintext,
            )
            &&& m.ciphertext@.len() == plaintext.len() + 16
            &&& unsealed(
                chain_message_key(ck),
                m.header.nonce@,
                header_aad_of(m.header),
                m.ciphertext@,
            ) == Some(plaintext)
        },
    }
}

/// Two ends that start from the same root key are in step: the responder
/// awaits the initiator's first message.
pub proof fn lemma_start_linked(alice: SessionInit, bob: SessionInit, dh_priv: Seq<u8>, signed_priv: Seq<u8>)
    requires
        alice.root_key@ == bob.root_key@,
        alice.bob_signed_prekey_pub@ == primitives::x25519_public_of(signed_priv),
        dh_priv.len() == 32,
    ensures
        linked(alice_start(alice, dh_priv), bob_start(bob, signed_priv)),
{
    let a = alice_start(alice, dh_priv);
    assert(chain_after(a.cks.unwrap(), 0) == a.cks.unwrap());
}

// ---- Keeping a session ------------------------------------------------------------

/// A session as plain data, to be kept and taken up again.
pub struct RatchetRecord {
    pub root_key: [u8; 32],
    pub dh_priv: [u8; 32],
    pub dh_pub: [u8; 32],
    pub peer_dh_pub: Option<[u8; 32]>,
    pub ns: u32,
    pub nr: u32,
    pub pn: u32,
    pub cks: Option<[u8; 32]>,
    pub ckr: Option<[u8; 32]>,
    /// Cached message keys: Diffie-Hellman key, message number, key.
    pub skipped: Vec<([u8; 32], u32, [u8; 32])>,
}

/// Cached message keys of a record.
pub open spec fn record_cache(s: Seq<([u8; 32], u32, [u8; 32])>) -> Seq<Skipped> {
    s.map_values(
        |e: ([u8; 32], u32, [u8; 32])| Skipped { dh_pub: e.0@, n: e.1, key: e.2@ },
    )
}

impl View for RatchetRecord {
    type V = RatchetState;

    open spec fn view(&self) -> RatchetState {
        RatchetState {
            root_key: self.root_key@,
            dh_priv: self.dh_priv@,
            dh_pub: self.dh_pub@,
            peer_dh_pub: primitives::view_of32(self.peer_dh_pub),
            ns: self.ns,
            nr: self.nr,
            pn: self.pn,
            cks: primitives::view_of32(self.cks),
            ckr: primitives::view_of32(self.ckr),
            skipped: record_cache(self.skipped@),
        }
    }
}

/// Whether a record's cache holds one key per message.
fn cache_distinct(s: &Vec<([u8; 32], u32, [u8; 32])>) -> (r: bool)
    ensures
        r == distinct(record_cache(s@)),
{
    let ghost c = record_cache(s@);
    let mut i: usize = 0;
    while i < s.len()
        invariant
            c == record_cache(s@),
            0 <= i <= s@.len(),
            forall|a: int, b: int|
                #![trigger c[a], c[b]]
                0 <= a < b < c.len() && a < i ==> !(c[a].dh_pub == c[b].dh_pub && c[a].n == c[b].n),
        decreases s@.len() - i,
    {
        let mut j: usize = i + 1;
        while j < s.len()
            invariant
                c == record_cache(s@),
                0 <= i < j <= s@.len(),
                forall|b: int|
                    #![trigger c[b]]
                    i < b < j ==> !(c[i as int].dh_pub == c[b].dh_pub && c[i as int].n == c[b].n),
            decreases s@.len() - j,
        {
            assert(c[i as int].dh_pub == s@[i as int].0@ && c[j as int].dh_pub == s@[j as int].0@);
            if s[i].1 == s[j].1 && same32(&s[i].0, &s[j].0) {
                return false;
            }
            j = j + 1;
        }
        i = i + 1;
    }
    true
}

impl RatchetSession {
    /// The session as plain data.
    pub fn to_record(&self) -> (r: RatchetRecord)
        ensures
            r@ == self@,
    {
        let mut skipped: Vec<([u8; 32], u32, [u8; 32])> = Vec::new();
        let mut i: usize = 0;
        while i < self.skipped.len()
            invariant
                0 <= i <= self.skipped@.len(),
                record_cache(skipped@) == cache_of(self.skipped@).take(i as int),
            decreases self.skipped@.len() - i,
        {
            let e = &self.skipped[i];
            let ghost before = skipped@;
            skipped.push((e.dh_pub.bytes, e.n, e.key));
            assert(record_cache(skipped@) =~= record_cache(before).push(
                Skipped { dh_pub: e.dh_pub@, n: e.n, key: e.key@ },
            ));
            assert(cache_of(self.skipped@)[i as int] == model_of(*e));
            i = i + 1;
            assert(record_cache(skipped@) =~= cache_of(self.skipped@).take(i as int));
        }
        assert(record_cache(skipped@) =~= cache_of(self.skipped@));
        RatchetRecord {
            root_key: self.root_key,
            dh_priv: self.dh_priv.bytes,
            dh_pub: self.dh_pub.bytes,
            peer_dh_pub: match self.peer_dh_pub {
                Some(k) => Some(k.bytes),
                None => None,
            },
            ns: self.ns,
            nr: self.nr,
            pn: self.pn,
            cks: self.cks,
            ckr: self.ckr,
            skipped,
        }
    }

    /// The session of a record; `None` where its own keys do not belong
    /// together or its cache is too large or holds two keys of one message.
    pub fn from_record(record: &RatchetRecord) -> (r: Option<Self>)
        ensures
            match r {
                Some(s) => state_wf(record@) && s@ == record@,
                None => !state_wf(record@),
            },
    {
        let dh_pub: [u8; 32] = primitives::x25519_public(&record.dh_priv);
        if !same32(&dh_pub, &record.dh_pub) {
            return None;
        }
        if record.skipped.len() > MAX_SKIPPED || !cache_distinct(&record.skipped) {
            return None;
        }
        let mut skipped: Vec<SkippedKey> = Vec::new();
        let mut i: usize = 0;
        while i < record.skipped.len()
            invariant
                0 <= i <= record.skipped@.len(),
                cache_of(skipped@) == record_cache(record.skipped@).take(i as int),
            decreases record.skipped@.len() - i,
        {
            let e = &record.skipped[i];
            let ghost before = skipped@;
            skipped.push(SkippedKey { dh_pub: PublicKey { bytes: e.0 }, n: e.1, key: e.2 });
            assert(cache_of(skipped@) =~= cache_of(before).push(
                Skipped { dh_pub: e.0@, n: e.1, key: e.2@ },
            ));
            assert(record_cache(record.skipped@)[i as int] == (Skipped {
                dh_pub: e.0@,
                n: e.1,
                key: e.2@,
            }));
            i = i + 1;
            assert(cache_of(skipped@) =~= record_cache(record.skipped@).take(i as int));
        }
        assert(cache_of(skipped@) =~= record_cache(record.skipped@));
        Some(
            RatchetSession {
                root_key: record.root_key,
                dh_priv: StaticSecret { bytes: record.dh_priv },
                dh_pub: PublicKey { bytes: record.dh_pub },
                peer_dh_pub: match record.peer_dh_pub {
                    Some(k) => Some(PublicKey { bytes: k }),
                    None => None,
                },
                ns: record.ns,
                nr: record.nr,
                pn: record.pn,
                cks: record.cks,
                ckr: record.ckr,
                skipped,
            },
        )
    }
}

// ---- Laws ---------------------------------------------------------------------------

/// The tag of a message covers every field of its header: the key, both
/// numbers and the nonce stand in what is covered, and headers that differ in
/// any of them are covered differently.
pub proof fn lemma_header_covered(a: Header, b: Header)
    ensures
        header_aad_of(a).len() == 64,
        header_aad_of(a).subrange(0, 32) == a.dh_pub@,
        header_aad_of(a).subrange(32, 36) == le32(a.pn),
        header_aad_of(a).subrange(36, 40) == le32(a.n),
        header_aad_of(a).subrange(40, 64) == a.nonce@,
        header_aad_of(a) == header_aad_of(b) ==> a.dh_pub@ == b.dh_pub@ && a.pn == b.pn && a.n
            == b.n && a.nonce@ == b.nonce@,
{
    let (x, y) = (header_aad_of(a), header_aad_of(b));
    assert(x.subrange(0, 32) =~= a.dh_pub@);
    assert(x.subrange(32, 36) =~= le32(a.pn));
    assert(x.subrange(36, 40) =~= le32(a.n));
    assert(x.subrange(40, 64) =~= a.nonce@);
    if x == y {
        assert(y.subrange(0, 32) =~= b.dh_pub@);
        assert(y.subrange(32, 36) =~= le32(b.pn));
        assert(y.subrange(36, 40) =~= le32(b.n));
        assert(y.subrange(40, 64) =~= b.nonce@);
        lemma_le32(a.pn, b.pn);
        lemma_le32(a.n, b.n);
    }
}

/// A cache that holds anything has an oldest entry.
proof fn lemma_oldest_exists(c: Seq<Skipped>)
    requires
        c.len() > 0,
    ensures
        exists|i: int| is_oldest(c, i),
    decreases c.len(),
{
    if c.len() == 1 {
        assert(is_oldest(c, 0));
    } else {
        let rest = c.drop_last();
        let n = c.len() - 1;
        lemma_oldest_exists(rest);
        let i = choose|i: int| is_oldest(rest, i);
        assert(rest[i] == c[i]);
        if c[n].n < c[i].n {
            assert forall|j: int| #![trigger c[j]] 0 <= j < c.len() implies c[n].n <= c[j].n && (j < n
                ==> c[n].n < c[j].n) by {
                if j < n {
                    assert(rest[j] == c[j]);
                }
            }
            assert(is_oldest(c, n));
        } else {
            assert forall|j: int| #![trigger c[j]] 0 <= j < c.len() implies c[i].n <= c[j].n && (j < i
                ==> c[i].n < c[j].n) by {
                if j < n {
                    assert(rest[j] == c[j]);
                }
            }
            assert(is_oldest(c, i));
        }
    }
}

/// A cache with room is left as it is. A full one loses one entry, no other has
/// a lower number, and the others stay in their order.
pub proof fn lemma_room(c: Seq<Skipped>)
    ensures
        MAX_SKIPPED == 2000,
        c.len() < 2000 ==> make_room(c) == c,
        c.len() >= 2000 ==> exists|i: int|
            0 <= i < c.len() && make_room(c) == c.subrange(0, i) + c.subrange(
                i + 1,
                c.len() as int,
            ) && (forall|j: int| 0 <= j < c.len() ==> (#[trigger] c[i]).n <= (#[trigger] c[j]).n),
{
    if c.len() >= 2000 {
        lemma_oldest_exists(c);
        let i = choose|i: int| is_oldest(c, i);
        assert(make_room(c) =~= c.subrange(0, i) + c.subrange(i + 1, c.len() as int));
        let entry = c[i];
    }
}

/// A key that is put in the cache is found there under its chain and number, and
/// another key stays unless it is the one that makes room.
pub proof fn lemma_key_put_in(c: Seq<Skipped>, dh_pub: Seq<u8>, n: u32, key: Seq<u8>, i: int)
    requires
        distinct(c),
        c.len() <= MAX_SKIPPED,
    ensures
        ({
            let after = cache_insert(c, dh_pub, n, key);
            &&& exists|k: int|
                0 <= k < after.len() && (#[trigger] after[k]).dh_pub == dh_pub && after[k].n == n
                    && after[k].key == key
            &&& after.len() <= MAX_SKIPPED
            &&& 0 <= i < c.len() < MAX_SKIPPED && !(c[i].dh_pub == dh_pub && c[i].n == n)
                ==> after.contains(c[i])
        }),
{
    if c.len() >= MAX_SKIPPED {
        lemma_oldest_exists(c);
    }
    lemma_insert_keeps_distinct(c, dh_pub, n, key);
    let room = make_room(c);
    let after = cache_insert(c, dh_pub, n, key);
    if cached(room, dh_pub, n) {
        let p = cache_place(room, dh_pub, n);
        assert(0 <= p < room.len() && room[p].dh_pub == dh_pub && room[p].n == n);
        assert(after[p].key == key);
        if 0 <= i < c.len() < MAX_SKIPPED && !(c[i].dh_pub == dh_pub && c[i].n == n) {
            assert(after[i] == c[i]);
        }
    } else {
        let p = room.len() as int;
        assert(after[p].key == key);
        if 0 <= i < c.len() < MAX_SKIPPED {
            assert(after[i] == c[i]);
        }
    }
}

/// Sending moves the sending chain and its counter on by one and nothing else,
/// so that no two messages share a key's number.
pub proof fn lemma_send_step(s: RatchetState)
    requires
        s.cks is Some,
        s.ns < u32::MAX,
    ensures
        send_step(s).ns == s.ns + 1,
        send_step(s).cks == Some(primitives::hmac_sha256_of(s.cks.unwrap(), seq![2u8])),
        send_step(s) == (RatchetState { ns: send_step(s).ns, cks: send_step(s).cks, ..s }),
{
}

/// What goes out names the sending key, the length of the chain before and the
/// number of the message, and is sealed under the message key of the chain with
/// all of that covered.
pub proof fn lemma_sent_message(before: RatchetState, plaintext: Seq<u8>, after: RatchetState, m: Encrypted)
    requires
        sent(before, plaintext, after, Ok(m)),
    ensures
        before.cks is Some,
        m.header.dh_pub@ == before.dh_pub,
        m.header.pn == before.pn,
        m.header.n == before.ns,
        m.ciphertext@ == primitives::sealed_of(
            primitives::hmac_sha256_of(before.cks.unwrap(), seq![1u8]),
            m.header.nonce@,
            m.header.dh_pub@ + le32(m.header.pn) + le32(m.header.n) + m.header.nonce@,
            plaintext,
        ),
        after == send_step(before),
{
}

/// A Diffie-Hellman ratchet mixes two agreements into the root key, one after the
/// other: the own secret so far with the peer's new key, which starts the
/// receiving chain, and the fresh secret with it, which starts the sending chain.
/// The counters start again, and the length of the old sending chain is kept.
pub proof fn lemma_dh_ratchet(s: RatchetState, h: Header, fresh: Seq<u8>)
    ensures
        ({
            let t = dh_ratchet(s, h, fresh);
            let receiving = primitives::x25519_shared_of(s.dh_priv, h.dh_pub@);
            let sending = primitives::x25519_shared_of(fresh, h.dh_pub@);
            let middle = next_root_key(s.root_key, receiving);
            &&& t.ckr == Some(fresh_chain_key(s.root_key, receiving))
            &&& t.cks == Some(fresh_chain_key(middle, sending))
            &&& t.root_key == next_root_key(middle, sending)
            &&& t.dh_priv == fresh
            &&& t.dh_pub == primitives::x25519_public_of(fresh)
            &&& t.peer_dh_pub == Some(h.dh_pub@)
            &&& t.ns == 0 && t.nr == 0
            &&& t.pn == s.ns
            &&& s.ckr is None || s.peer_dh_pub is None || h.pn <= s.nr ==> t.skipped == s.skipped
        }),
{
}

/// A message on the chain at hand is opened with the key that many steps along
/// the chain yield; the chain moves on behind it, and its counter with it.
pub proof fn lemma_on_chain(s: RatchetState, h: Header, fresh: Seq<u8>)
    requires
        !cached(s.skipped, h.dh_pub@, h.n),
        s.peer_dh_pub == Some(h.dh_pub@),
        s.ckr is Some,
        s.nr <= h.n < u32::MAX,
    ensures
        ({
            let (t, key) = receive_step(s, h, fresh);
            let steps = (h.n - s.nr) as nat;
            &&& key == Some(chain_message_key(chain_after(s.ckr.unwrap(), steps)))
            &&& t.ckr == Some(chain_after(s.ckr.unwrap(), steps + 1))
            &&& t.nr == h.n + 1
            &&& t == (RatchetState { ckr: t.ckr, nr: t.nr, skipped: t.skipped, ..s })
            &&& h.n == s.nr ==> t.skipped == s.skipped
        }),
{
    lemma_skip_chain(s.skipped, h.dh_pub@, s.nr as int, h.n as int, s.ckr.unwrap());
    let steps = (h.n - s.nr) as nat;
    assert(chain_after(s.ckr.unwrap(), steps + 1) == next_chain_key(
        chain_after(s.ckr.unwrap(), steps),
    ));
}

/// A message whose key waits in the cache is opened with that key, which is then
/// gone; nothing else changes.
pub proof fn lemma_from_cache(s: RatchetState, h: Header, fresh: Seq<u8>, i: int)
    requires
        distinct(s.skipped),
        0 <= i < s.skipped.len(),
        s.skipped[i].dh_pub == h.dh_pub@,
        s.skipped[i].n == h.n,
    ensures
        receive_step(s, h, fresh).1 == Some(s.skipped[i].key),
        receive_step(s, h, fresh).0.skipped.len() == s.skipped.len() - 1,
        receive_step(s, h, fresh).0 == (RatchetState { skipped: s.skipped.remove(i), ..s }),
{
    lemma_place(s.skipped, i);
}

/// A received message is opened under its key with its whole header covered, or
/// refused.
pub proof fn lemma_opens_to(key: Option<Seq<u8>>, m: Encrypted, r: Result<Vec<u8>, CryptoError>)
    requires
        opens_to(key, m, r),
    ensures
        key is None ==> r == Err::<Vec<u8>, CryptoError>(CryptoError::InvalidState),
        key matches Some(k) ==> (match r {
            Ok(v) => unsealed(
                k,
                m.header.nonce@,
                m.header.dh_pub@ + le32(m.header.pn) + le32(m.header.n) + m.header.nonce@,
                m.ciphertext@,
            ) == Some(v@),
            Err(e) => e == CryptoError::DecryptionFailed && unsealed(
                k,
                m.header.nonce@,
                m.header.dh_pub@ + le32(m.header.pn) + le32(m.header.n) + m.header.nonce@,
                m.ciphertext@,
            ) is None,
        }),
{
}

/// The initiator starts with a sending chain, from the agreement of a secret of
/// its own with the signed prekey; the responder starts with the signed prekey as
/// its own key and no chain yet.
pub proof fn lemma_starts(init: SessionInit, dh_priv: Seq<u8>, signed_priv: Seq<u8>)
    ensures
        ({
            let a = alice_start(init, dh_priv);
            let dh = primitives::x25519_shared_of(dh_priv, init.bob_signed_prekey_pub@);
            &&& a.root_key == next_root_key(init.root_key@, dh)
            &&& a.cks == Some(fresh_chain_key(init.root_key@, dh))
            &&& a.ckr is None
            &&& a.dh_priv == dh_priv && a.dh_pub == primitives::x25519_public_of(dh_priv)
            &&& a.peer_dh_pub == Some(init.bob_signed_prekey_pub@)
            &&& a.ns == 0 && a.nr == 0 && a.pn == 0 && a.skipped.len() == 0
        }),
        ({
            let b = bob_start(init, signed_priv);
            &&& b.root_key == init.root_key@
            &&& b.cks is None && b.ckr is None && b.peer_dh_pub is None
            &&& b.dh_priv == signed_priv && b.dh_pub == primitives::x25519_public_of(signed_priv)
            &&& b.ns == 0 && b.nr == 0 && b.pn == 0 && b.skipped.len() == 0
        }),
{
}

/// A message under a new key of the peer starts new chains: it is opened with the
/// key that many steps along the chain that the root key and the agreement with the
/// new key give; the own key is replaced, and the old chain's length kept.
pub proof fn lemma_new_chain(s: RatchetState, h: Header, fresh: Seq<u8>)
    requires
        !cached(s.skipped, h.dh_pub@, h.n),
        s.peer_dh_pub != Some(h.dh_pub@),
        h.n < u32::MAX,
    ensures
        ({
            let (t, key) = receive_step(s, h, fresh);
            let agreed = primitives::x25519_shared_of(s.dh_priv, h.dh_pub@);
            let chain = fresh_chain_key(s.root_key, agreed);
            &&& key == Some(chain_message_key(chain_after(chain, h.n as nat)))
            &&& t.ckr == Some(chain_after(chain, h.n as nat + 1))
            &&& t.nr == h.n + 1
            &&& t.peer_dh_pub == Some(h.dh_pub@)
            &&& t.dh_priv == fresh && t.dh_pub == primitives::x25519_public_of(fresh)
            &&& t.ns == 0 && t.pn == s.ns
            &&& t.root_key == next_root_key(
                next_root_key(s.root_key, agreed),
                primitives::x25519_shared_of(fresh, h.dh_pub@),
            )
        }),
{
    let t = dh_ratchet(s, h, fresh);
    let chain = t.ckr.unwrap();
    lemma_skip_chain(t.skipped, h.dh_pub@, 0, h.n as int, chain);
    assert(chain_after(chain, h.n as nat + 1) == next_chain_key(chain_after(chain, h.n as nat)));
}

/// The counters have room for a message unless its number or the number of the
/// last one received is the largest there is; a message whose key waits in the
/// cache needs none.
pub proof fn lemma_counter_fits(s: RatchetState, h: Header)
    ensures
        cached(s.skipped, h.dh_pub@, h.n) ==> counter_fits(s, h),
        h.n < u32::MAX && s.nr < u32::MAX ==> counter_fits(s, h),
        h.n == u32::MAX && s.peer_dh_pub != Some(h.dh_pub@) && !cached(s.skipped, h.dh_pub@, h.n)
            ==> !counter_fits(s, h),
{
}

/// A well-formed state holds the two halves of one key, and a cache of at most
/// 2000 keys, no two of them for one message.
pub proof fn lemma_state_wf(s: RatchetState, i: int, j: int)
    requires
        state_wf(s),
    ensures
        s.dh_pub == primitives::x25519_public_of(s.dh_priv),
        s.skipped.len() <= 2000,
        0 <= i < j < s.skipped.len() ==> s.skipped[i].dh_pub != s.skipped[j].dh_pub || s.skipped[i].n
            != s.skipped[j].n,
{
}

/// A message that opens gives what its key opens it to and moves the state on by
/// it; one that does not leaves the state as it is.
pub proof fn lemma_decrypted(
    before: RatchetState,
    m: Encrypted,
    after: RatchetState,
    r: Result<Vec<u8>, CryptoError>,
)
    requires
        decrypted(before, m, after, r),
    ensures
        r is Err ==> after == before,
        r is Ok ==> after == receive_step(before, m.header, after.dh_priv).0,
        r matches Ok(v) ==> (receive_step(before, m.header, after.dh_priv).1 matches Some(k)
            && unsealed(
            k,
            m.header.nonce@,
            m.header.dh_pub@ + le32(m.header.pn) + le32(m.header.n) + m.header.nonce@,
            m.ciphertext@,
        ) == Some(v@)),
{
}

} // verus!
