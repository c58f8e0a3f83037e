//! Delivery over the Double Ratchet: messages that come in any order, also over
//! a Diffie-Hellman ratchet step.
use crate::crypto::aead::{
    chain_after, chain_message_key, fresh_chain_key, lemma_chain_after_add, next_chain_key,
};
use crate::crypto::double_ratchet::{
    agreed, awaits_ratchet, cache_insert, cache_place, cached, decrypted, delivers, distinct, finish_chain,
    lemma_gap, lemma_insert_keeps_distinct, lemma_place, lemma_skip_chain, linked, new_sender_key,
    next_header_of, ratcheted, receive_step, send_step, sent, shares_chain, skip, Encrypted, Header,
    RatchetState, Skipped, MAX_SKIPPED,
};
use crate::crypto::error::CryptoError;
use crate::primitives;
use vstd::prelude::*;

verus! {

// ---- The cache -----------------------------------------------------------------

/// The cached key of message `n` under `dh_pub`.
pub open spec fn key_for(c: Seq<Skipped>, dh_pub: Seq<u8>, n: u32) -> Option<Seq<u8>> {
    if cached(c, dh_pub, n) {
        Some(c[cache_place(c, dh_pub, n)].key)
    } else {
        None
    }
}

/// An entry's key is the key of its message.
proof fn lemma_key_at(c: Seq<Skipped>, i: int)
    requires
        distinct(c),
        0 <= i < c.len(),
    ensures
        key_for(c, c[i].dh_pub, c[i].n) == Some(c[i].key),
{
    lemma_place(c, i);
}

/// A cached message has an entry.
proof fn lemma_entry(c: Seq<Skipped>, dh_pub: Seq<u8>, n: u32)
    requires
        cached(c, dh_pub, n),
    ensures
        ({
            let i = cache_place(c, dh_pub, n);
            0 <= i < c.len() && c[i].dh_pub == dh_pub && c[i].n == n
        }),
{
}

/// Where there is room, a key that is put in is found, and the others stay.
proof fn lemma_insert_key(c: Seq<Skipped>, dh_pub: Seq<u8>, n: u32, key: Seq<u8>)
    requires
        distinct(c),
        c.len() < MAX_SKIPPED,
    ensures
        ({
            let out = cache_insert(c, dh_pub, n, key);
            &&& distinct(out)
            &&& out.len() <= c.len() + 1
            &&& forall|q: Seq<u8>, k: u32| #[trigger]
                key_for(out, q, k) == (if q == dh_pub && k == n {
                    Some(key)
                } else {
                    key_for(c, q, k)
                })
        }),
{
    let out = cache_insert(c, dh_pub, n, key);
    lemma_insert_keeps_distinct(c, dh_pub, n, key);
    let place = if cached(c, dh_pub, n) {
        cache_place(c, dh_pub, n)
    } else {
        c.len() as int
    };
    if cached(c, dh_pub, n) {
        lemma_entry(c, dh_pub, n);
    }
    assert(out[place] == (Skipped { dh_pub, n, key }));
    assert forall|q: Seq<u8>, k: u32| #[trigger]
        key_for(out, q, k) == (if q == dh_pub && k == n {
            Some(key)
        } else {
            key_for(c, q, k)
        }) by {
        if q == dh_pub && k == n {
            lemma_key_at(out, place);
        } else if cached(c, q, k) {
            lemma_entry(c, q, k);
            let i = cache_place(c, q, k);
            assert(out[i] == c[i]);
            lemma_key_at(out, i);
        } else if cached(out, q, k) {
            lemma_entry(out, q, k);
            let i = cache_place(out, q, k);
            assert(i != place);
            assert(c[i] == out[i]);
            assert(cached(c, q, k));
        }
    }
}

/// A key that is taken out is gone, and the others stay.
proof fn lemma_remove_key(c: Seq<Skipped>, p: int)
    requires
        distinct(c),
        0 <= p < c.len(),
    ensures
        distinct(c.remove(p)),
        forall|q: Seq<u8>, k: u32| #[trigger]
            key_for(c.remove(p), q, k) == (if q == c[p].dh_pub && k == c[p].n {
                None
            } else {
                key_for(c, q, k)
            }),
{
    let out = c.remove(p);
    assert forall|i: int, j: int| #![trigger out[i], out[j]] 0 <= i < j < out.len() implies !(
    out[i].dh_pub == out[j].dh_pub && out[i].n == out[j].n) by {
        let i2 = if i < p { i } else { i + 1 };
        let j2 = if j < p { j } else { j + 1 };
        assert(out[i] == c[i2] && out[j] == c[j2]);
    }
    assert forall|q: Seq<u8>, k: u32| #[trigger]
        key_for(out, q, k) == (if q == c[p].dh_pub && k == c[p].n {
            None
        } else {
            key_for(c, q, k)
        }) by {
        if cached(out, q, k) {
            lemma_entry(out, q, k);
            let i = cache_place(out, q, k);
            let i2 = if i < p { i } else { i + 1 };
            assert(out[i] == c[i2]);
            lemma_key_at(c, i2);
            lemma_key_at(c, p);
            lemma_place(c, i2);
            lemma_place(c, p);
        } else if cached(c, q, k) {
            lemma_entry(c, q, k);
            let i = cache_place(c, q, k);
            if i != p {
                let i2 = if i < p { i } else { i - 1 };
                assert(out[i2] == c[i]);
                assert(cached(out, q, k));
            }
        }
    }
}

/// Where there is room, skipping puts in the key of each skipped message, the
/// one that the chain yields for it, and the other keys stay.
proof fn lemma_skip_keys(c: Seq<Skipped>, dh_pub: Seq<u8>, from: int, to: int, ck: Seq<u8>)
    requires
        distinct(c),
        0 <= from,
        to <= u32::MAX,
        c.len() + (to - from) <= MAX_SKIPPED || from >= to,
    ensures
        ({
            let out = skip(c, dh_pub, from, to, ck).0;
            &&& distinct(out)
            &&& out.len() <= c.len() + (if from < to {
                to - from
            } else {
                0
            })
            &&& forall|q: Seq<u8>, k: u32| #[trigger]
                key_for(out, q, k) == (if q == dh_pub && from <= k < to {
                    Some(chain_message_key(chain_after(ck, (k - from) as nat)))
                } else {
                    key_for(c, q, k)
                })
        }),
    decreases to - from,
{
    if from < to {
        let c1 = cache_insert(c, dh_pub, from as u32, chain_message_key(ck));
        let out = skip(c, dh_pub, from, to, ck).0;
        lemma_insert_key(c, dh_pub, from as u32, chain_message_key(ck));
        lemma_skip_keys(c1, dh_pub, from + 1, to, next_chain_key(ck));
        assert(chain_after(ck, 0) == ck);
        assert(chain_after(ck, 1) == next_chain_key(ck));
        assert forall|q: Seq<u8>, k: u32| #[trigger]
            key_for(out, q, k) == (if q == dh_pub && from <= k < to {
                Some(chain_message_key(chain_after(ck, (k - from) as nat)))
            } else {
                key_for(c, q, k)
            }) by {
            if q == dh_pub && from < k < to {
                lemma_chain_after_add(ck, 1, (k - from - 1) as nat);
            }
            assert(key_for(c1, q, k) == (if q == dh_pub && k == from as u32 {
                Some(chain_message_key(ck))
            } else {
                key_for(c, q, k)
            }));
        }
    }
}

// ---- Messages on their way --------------------------------------------------------

/// How many message numbers lie from one up to another.
pub open spec fn gap(from: u32, to: u32) -> int {
    if from < to {
        to - from
    } else {
        0
    }
}

/// How many keys of a receiving chain wait to be put in the cache when its
/// sender leaves it after `pn` messages.
pub open spec fn old_gap(b: RatchetState, pn: u32) -> int {
    if b.peer_dh_pub is Some && b.ckr is Some {
        gap(b.nr, pn)
    } else {
        0
    }
}

/// The cache has room for every key that a message with header `h` leaves
/// waiting, so that none is dropped.
pub open spec fn fits(b: RatchetState, h: Header) -> bool {
    ||| cached(b.skipped, h.dh_pub@, h.n)
    ||| b.skipped.len() + (if new_sender_key(b, h) {
        old_gap(b, h.pn) + h.n
    } else {
        gap(b.nr, h.n)
    }) <= MAX_SKIPPED
}

/// The cache holds no key of a message that the receiving chain has not reached.
pub open spec fn is_tidy(b: RatchetState) -> bool {
    forall|q: Seq<u8>, n: u32|
        b.peer_dh_pub == Some(q) && b.nr <= n ==> !#[trigger] cached(b.skipped, q, n)
}

/// The cache holds no key of a sender's Diffie-Hellman key.
pub open spec fn is_unseen(b: RatchetState, dh_pub: Seq<u8>) -> bool {
    forall|n: u32| !#[trigger] cached(b.skipped, dh_pub, n)
}

/// The message that `a` sends next has not reached `b`: its key waits in the
/// cache, or `b` is in step with `a`.
pub open spec fn in_transit(a: RatchetState, b: RatchetState) -> bool {
    if cached(b.skipped, a.dh_pub, a.ns) {
        a.cks is Some && key_for(b.skipped, a.dh_pub, a.ns) == Some(
            chain_message_key(a.cks.unwrap()),
        )
    } else {
        linked(a, b)
    }
}

/// The message that `a` sends next is of a chain that `b` has seen nothing of.
pub open spec fn on_new_chain(a: RatchetState, b: RatchetState) -> bool {
    !cached(b.skipped, a.dh_pub, a.ns) && awaits_ratchet(a, b)
}

/// A message that has not reached an end is decrypted by it.
pub proof fn lemma_in_transit_opens(
    a: RatchetState,
    b: RatchetState,
    plaintext: Seq<u8>,
    m: Encrypted,
    after: RatchetState,
    r: Result<Vec<u8>, CryptoError>,
)
    requires
        in_transit(a, b),
        sent(a, plaintext, send_step(a), Ok(m)),
        decrypted(b, m, after, r),
    ensures
        r matches Ok(v) && v@ == plaintext,
        after == receive_step(b, m.header, after.dh_priv).0,
{
    assert(next_header_of(a, m.header));
}

/// Two messages go together: those of one chain differ in their number, and one
/// of an older chain than that of the Diffie-Hellman key `next` counts among the
/// messages that the sender sent before it.
pub open spec fn go_together(x: RatchetState, y: RatchetState, next: Seq<u8>) -> bool {
    &&& x.dh_pub == y.dh_pub ==> x.dh_priv == y.dh_priv && x.ns != y.ns
    &&& x.dh_pub != next && y.dh_pub == next ==> x.ns < y.pn
}

/// Every message of the new chain is one of the chain of `next`, of which the
/// cache holds nothing.
pub open spec fn is_next_chain(x: RatchetState, b: RatchetState, next: Seq<u8>) -> bool {
    on_new_chain(x, b) ==> x.dh_pub == next && is_unseen(b, next)
}

/// The state after a message whose key waits in the cache.
proof fn lemma_cached_step(b: RatchetState, h: Header, fresh: Seq<u8>)
    requires
        distinct(b.skipped),
        cached(b.skipped, h.dh_pub@, h.n),
    ensures
        ({
            let after = receive_step(b, h, fresh).0;
            &&& after == (RatchetState { skipped: after.skipped, ..b })
            &&& distinct(after.skipped)
            &&& after.skipped.len() == b.skipped.len() - 1
            &&& forall|q: Seq<u8>, k: u32| #[trigger]
                key_for(after.skipped, q, k) == (if q == h.dh_pub@ && k == h.n {
                    None
                } else {
                    key_for(b.skipped, q, k)
                })
        }),
{
    lemma_entry(b.skipped, h.dh_pub@, h.n);
    lemma_remove_key(b.skipped, cache_place(b.skipped, h.dh_pub@, h.n));
}

/// The state after a message of the chain that an end receives on.
proof fn lemma_chain_step(b: RatchetState, h: Header, fresh: Seq<u8>)
    requires
        distinct(b.skipped),
        !cached(b.skipped, h.dh_pub@, h.n),
        !new_sender_key(b, h),
        b.ckr is Some,
        b.nr <= h.n < u32::MAX,
        fits(b, h),
    ensures
        ({
            let after = receive_step(b, h, fresh).0;
            let ck = b.ckr.unwrap();
            &&& after == (RatchetState {
                skipped: after.skipped,
                nr: (h.n + 1) as u32,
                ckr: Some(chain_after(ck, (h.n - b.nr + 1) as nat)),
                ..b
            })
            &&& distinct(after.skipped)
            &&& after.skipped.len() <= b.skipped.len() + (h.n - b.nr)
            &&& forall|q: Seq<u8>, k: u32| #[trigger]
                key_for(after.skipped, q, k) == (if q == h.dh_pub@ && b.nr <= k < h.n {
                    Some(chain_message_key(chain_after(ck, (k - b.nr) as nat)))
                } else {
                    key_for(b.skipped, q, k)
                })
        }),
{
    let ck = b.ckr.unwrap();
    lemma_skip_chain(b.skipped, h.dh_pub@, b.nr as int, h.n as int, ck);
    lemma_skip_keys(b.skipped, h.dh_pub@, b.nr as int, h.n as int, ck);
}

/// The chain that `a`'s messages are on for an end that awaits them.
pub open spec fn awaited_chain(a: RatchetState, b: RatchetState) -> Seq<u8> {
    fresh_chain_key(b.root_key, primitives::x25519_shared_of(a.dh_priv, b.dh_pub))
}

/// The state after a message that moves the Diffie-Hellman ratchet on.
proof fn lemma_ratchet_step(y: RatchetState, b: RatchetState, h: Header, fresh: Seq<u8>)
    requires
        distinct(b.skipped),
        next_header_of(y, h),
        !cached(b.skipped, h.dh_pub@, h.n),
        awaits_ratchet(y, b),
        agreed(y, b),
        h.n < u32::MAX,
        fits(b, h),
    ensures
        ({
            let after = receive_step(b, h, fresh).0;
            let ck = awaited_chain(y, b);
            &&& after.peer_dh_pub == Some(y.dh_pub)
            &&& after.nr == h.n + 1
            &&& after.ckr == Some(chain_after(ck, (h.n + 1) as nat))
            &&& distinct(after.skipped)
            &&& after.skipped.len() <= b.skipped.len() + old_gap(b, h.pn) + h.n
            &&& forall|q: Seq<u8>, k: u32| #[trigger]
                key_for(after.skipped, q, k) == (if q == y.dh_pub && k < h.n {
                    Some(chain_message_key(chain_after(ck, k as nat)))
                } else if b.peer_dh_pub == Some(q) && b.ckr is Some && b.nr <= k < h.pn {
                    Some(chain_message_key(chain_after(b.ckr.unwrap(), (k - b.nr) as nat)))
                } else {
                    key_for(b.skipped, q, k)
                })
        }),
{
    let t = ratcheted(b, h, fresh);
    let ck = awaited_chain(y, b);
    assert(t.ckr == Some(ck) && t.nr == 0);
    let done = finish_chain(b, h).skipped;
    if b.peer_dh_pub is Some && b.ckr is Some {
        lemma_skip_keys(
            b.skipped,
            b.peer_dh_pub.unwrap(),
            b.nr as int,
            h.pn as int,
            b.ckr.unwrap(),
        );
    }
    assert(t.skipped == done);
    lemma_skip_chain(done, h.dh_pub@, 0, h.n as int, ck);
    lemma_skip_keys(done, h.dh_pub@, 0, h.n as int, ck);
}

/// Keys of messages on their way are kept when another message is received:
/// what had not reached the receiver is still decrypted afterwards.
pub proof fn lemma_in_transit_kept(
    x: RatchetState,
    y: RatchetState,
    b: RatchetState,
    next: Seq<u8>,
    plaintext: Seq<u8>,
    m: Encrypted,
    after: RatchetState,
    r: Result<Vec<u8>, CryptoError>,
)
    requires
        in_transit(x, b),
        in_transit(y, b),
        go_together(x, y, next),
        is_next_chain(x, b, next),
        is_next_chain(y, b, next),
        distinct(b.skipped),
        is_tidy(b),
        sent(y, plaintext, send_step(y), Ok(m)),
        y.ns < u32::MAX,
        decrypted(b, m, after, r),
        fits(b, m.header),
    ensures
        in_transit(x, after),
        is_next_chain(x, after, next),
{
    lemma_in_transit_opens(y, b, plaintext, m, after, r);
    let h = m.header;
    let fresh = after.dh_priv;
    assert(next_header_of(y, h));
    let was = key_for(b.skipped, x.dh_pub, x.ns);
    let is = key_for(after.skipped, x.dh_pub, x.ns);
    if cached(b.skipped, h.dh_pub@, h.n) {
        lemma_cached_step(b, h, fresh);
        assert(is == was);
        if on_new_chain(x, after) {
            assert(on_new_chain(x, b));
            assert forall|n: u32| !#[trigger] cached(after.skipped, next, n) by {
                assert(key_for(after.skipped, next, n) is None || cached(b.skipped, next, n));
            }
        }
    } else if awaits_ratchet(y, b) {
        assert(delivers(y, b, after, receive_step(b, h, fresh).1, r is Ok));
        lemma_ratchet_step(y, b, h, fresh);
        assert(on_new_chain(y, b));
        if was is Some {
            assert(x.dh_pub != next);
            assert(is == was);
        } else if awaits_ratchet(x, b) {
            assert(on_new_chain(x, b));
            if x.ns < y.ns {
                assert(is is Some);
            } else {
                lemma_chain_after_add(
                    awaited_chain(y, b),
                    (y.ns + 1) as nat,
                    (x.ns - y.ns - 1) as nat,
                );
                assert(shares_chain(x, after));
            }
        } else {
            assert(shares_chain(x, b));
            assert(is is Some);
        }
    } else {
        assert(shares_chain(y, b));
        lemma_chain_step(b, h, fresh);
        let ck = b.ckr.unwrap();
        if was is Some {
            assert(is == was);
        } else if awaits_ratchet(x, b) {
            assert(on_new_chain(x, b));
            assert forall|n: u32| !#[trigger] cached(after.skipped, next, n) by {
                assert(key_for(after.skipped, next, n) == key_for(b.skipped, next, n));
                assert(!cached(b.skipped, next, n));
            }
            assert(awaits_ratchet(x, after));
        } else {
            assert(shares_chain(x, b));
            if x.ns < y.ns {
                assert(is is Some);
            } else {
                lemma_chain_after_add(
                    ck,
                    (y.ns - b.nr + 1) as nat,
                    (x.ns - y.ns - 1) as nat,
                );
                assert(shares_chain(x, after));
            }
        }
    }
}

/// A receiver stays in order when it receives a message: one key per message in
/// the cache, and none that its chain has not reached.
pub proof fn lemma_receiver_stays_tidy(
    y: RatchetState,
    b: RatchetState,
    next: Seq<u8>,
    plaintext: Seq<u8>,
    m: Encrypted,
    after: RatchetState,
    r: Result<Vec<u8>, CryptoError>,
)
    requires
        in_transit(y, b),
        is_next_chain(y, b, next),
        distinct(b.skipped),
        is_tidy(b),
        sent(y, plaintext, send_step(y), Ok(m)),
        y.ns < u32::MAX,
        decrypted(b, m, after, r),
        fits(b, m.header),
    ensures
        distinct(after.skipped),
        is_tidy(after),
{
    lemma_in_transit_opens(y, b, plaintext, m, after, r);
    let h = m.header;
    let fresh = after.dh_priv;
    assert(next_header_of(y, h));
    let waits = cached(b.skipped, h.dh_pub@, h.n);
    if waits {
        lemma_cached_step(b, h, fresh);
    } else if awaits_ratchet(y, b) {
        assert(delivers(y, b, after, receive_step(b, h, fresh).1, r is Ok));
        lemma_ratchet_step(y, b, h, fresh);
        assert(on_new_chain(y, b));
    } else {
        assert(shares_chain(y, b));
        lemma_chain_step(b, h, fresh);
    }
    assert forall|q: Seq<u8>, n: u32|
        after.peer_dh_pub == Some(q) && after.nr <= n implies !#[trigger] cached(
        after.skipped,
        q,
        n,
    ) by {
        assert(key_for(after.skipped, q, n) is None || cached(b.skipped, q, n));
    }
}

// ---- Any order ------------------------------------------------------------------------

/// Message `i` is the one that a sender in state `x[i]` sends next, with the
/// plaintext `p[i]`. States behind the last message have not sent theirs.
pub open spec fn posted(x: Seq<RatchetState>, p: Seq<Seq<u8>>, m: Seq<Encrypted>) -> bool {
    &&& p.len() == m.len()
    &&& m.len() <= x.len()
    &&& forall|i: int|
        0 <= i < m.len() ==> (#[trigger] x[i]).ns < u32::MAX && sent(
            x[i],
            p[i],
            send_step(x[i]),
            Ok(m[i]),
        )
}

/// All messages go together.
pub open spec fn all_go_together(x: Seq<RatchetState>, next: Seq<u8>) -> bool {
    forall|i: int, j: int|
        #![trigger x[i], x[j]]
        0 <= i < x.len() && 0 <= j < x.len() && i != j ==> go_together(x[i], x[j], next)
}

/// An end is in order, and no message but those that `came` has reached it.
pub open spec fn others_in_transit(
    x: Seq<RatchetState>,
    came: Seq<int>,
    b: RatchetState,
    next: Seq<u8>,
) -> bool {
    &&& distinct(b.skipped)
    &&& is_tidy(b)
    &&& forall|i: int|
        0 <= i < x.len() && !came.contains(i) ==> in_transit(#[trigger] x[i], b) && is_next_chain(
            x[i],
            b,
            next,
        )
}

/// Messages come in in some order, each at most once.
pub open spec fn is_order(order: Seq<int>, count: int) -> bool {
    &&& order.no_duplicates()
    &&& forall|j: int| 0 <= j < order.len() ==> 0 <= #[trigger] order[j] < count
}

/// An end in state `b[j]` decrypts message `order[j]`, which gives `r[j]`.
pub open spec fn came_in(
    m: Seq<Encrypted>,
    order: Seq<int>,
    b: Seq<RatchetState>,
    r: Seq<Result<Vec<u8>, CryptoError>>,
) -> bool {
    &&& b.len() == order.len() + 1
    &&& r.len() == order.len()
    &&& forall|j: int|
        0 <= j < order.len() ==> decrypted(b[j], m[#[trigger] order[j]], b[j + 1], r[j])
}

/// No key had to be dropped for want of room.
pub open spec fn all_fit(m: Seq<Encrypted>, order: Seq<int>, b: Seq<RatchetState>) -> bool {
    forall|j: int| 0 <= j < order.len() ==> fits(b[j], m[#[trigger] order[j]].header)
}

/// Decrypting gave a plaintext.
pub open spec fn gave(r: Result<Vec<u8>, CryptoError>, plaintext: Seq<u8>) -> bool {
    r matches Ok(v) && v@ == plaintext
}

/// Each message gave its plaintext.
pub open spec fn all_open(
    p: Seq<Seq<u8>>,
    order: Seq<int>,
    r: Seq<Result<Vec<u8>, CryptoError>>,
) -> bool {
    forall|j: int| 0 <= j < order.len() ==> gave(r[j], p[#[trigger] order[j]])
}

/// All messages but the last come in in an order that leaves the last out.
proof fn lemma_all_but_last(
    m: Seq<Encrypted>,
    order: Seq<int>,
    b: Seq<RatchetState>,
    r: Seq<Result<Vec<u8>, CryptoError>>,
)
    requires
        order.len() > 0,
        is_order(order, m.len() as int),
        came_in(m, order, b, r),
    ensures
        ({
            let k = order.len() - 1;
            let first = order.drop_last();
            let i = order[k];
            &&& is_order(first, m.len() as int)
            &&& came_in(m, first, b.drop_last(), r.drop_last())
            &&& all_fit(m, order, b) <==> all_fit(m, first, b.drop_last()) && fits(
                b[k],
                m[i].header,
            )
            &&& b.drop_last()[0] == b[0]
            &&& b.drop_last().last() == b[k]
            &&& b.last() == b[k + 1]
            &&& 0 <= i < m.len()
            &&& !first.contains(i)
            &&& forall|j: int| order.contains(j) <==> #[trigger] first.contains(j) || j == i
            &&& decrypted(b[k], m[i], b[k + 1], r[k])
        }),
{
    let k = order.len() - 1;
    let first = order.drop_last();
    let b1 = b.drop_last();
    let r1 = r.drop_last();
    let i = order[k];
    assert forall|j: int| 0 <= j < first.len() implies decrypted(
        b1[j],
        m[#[trigger] first[j]],
        b1[j + 1],
        r1[j],
    ) && 0 <= first[j] < m.len() by {
        assert(first[j] == order[j]);
    }
    if all_fit(m, order, b) {
        assert(fits(b[k], m[order[k]].header));
        assert forall|j: int| 0 <= j < first.len() implies fits(b1[j], m[#[trigger] first[j]].header) by {
            assert(first[j] == order[j]);
            assert(fits(b[j], m[order[j]].header));
        }
    }
    if all_fit(m, first, b1) && fits(b[k], m[i].header) {
        assert forall|j: int| 0 <= j < order.len() implies fits(b[j], m[#[trigger] order[j]].header) by {
            if j < k {
                assert(first[j] == order[j]);
                assert(fits(b1[j], m[first[j]].header));
            }
        }
    }
    assert forall|j: int| order.contains(j) <==> #[trigger] first.contains(j) || j == i by {
        if order.contains(j) {
            let l = choose|l: int| 0 <= l < order.len() && order[l] == j;
            if l < k {
                assert(first[l] == j);
            }
        }
        if first.contains(j) {
            let l = choose|l: int| 0 <= l < first.len() && first[l] == j;
            assert(order[l] == j);
        }
        assert(order[k] == i);
    }
    if first.contains(i) {
        let l = choose|l: int| 0 <= l < first.len() && first[l] == i;
        assert(order[l] == order[k]);
    }
    assert(decrypted(b[k], m[order[k]], b[k + 1], r[k]));
}

/// Messages are decrypted in whatever order they come in, each once, as long as
/// no key has to be dropped: messages of the chain that the receiver is on, of
/// the sender's next chain, and of older ones whose keys wait. Those that have
/// not come in are still decrypted when they do.
pub proof fn lemma_any_order(
    x: Seq<RatchetState>,
    p: Seq<Seq<u8>>,
    m: Seq<Encrypted>,
    next: Seq<u8>,
    order: Seq<int>,
    b: Seq<RatchetState>,
    r: Seq<Result<Vec<u8>, CryptoError>>,
)
    requires
        posted(x, p, m),
        all_go_together(x, next),
        is_order(order, m.len() as int),
        came_in(m, order, b, r),
        all_fit(m, order, b),
        others_in_transit(x, Seq::empty(), b[0], next),
    ensures
        all_open(p, order, r),
        others_in_transit(x, order, b.last(), next),
    decreases order.len(),
{
    if order.len() == 0 {
        assert(order =~= Seq::empty());
    } else {
        let k = order.len() - 1;
        let first = order.drop_last();
        let r1 = r.drop_last();
        lemma_all_but_last(m, order, b, r);
        lemma_any_order(x, p, m, next, first, b.drop_last(), r1);
        let i = order[k];
        lemma_one_more(x, p, m, next, first, i, b[k], b[k + 1], r[k]);
        assert forall|j: int| 0 <= j < order.len() implies gave(r[j], p[#[trigger] order[j]]) by {
            if j < k {
                assert(gave(r1[j], p[first[j]]));
            }
        }
        assert forall|j: int| 0 <= j < x.len() && !order.contains(j) implies in_transit(
            #[trigger] x[j],
            b[k + 1],
        ) && is_next_chain(x[j], b[k + 1], next) by {
            assert(!first.contains(j) && j != i);
        }
    }
}

/// One message more that comes in gives its plaintext, and the others stay on
/// their way.
proof fn lemma_one_more(
    x: Seq<RatchetState>,
    p: Seq<Seq<u8>>,
    m: Seq<Encrypted>,
    next: Seq<u8>,
    came: Seq<int>,
    i: int,
    before: RatchetState,
    after: RatchetState,
    r: Result<Vec<u8>, CryptoError>,
)
    requires
        posted(x, p, m),
        all_go_together(x, next),
        others_in_transit(x, came, before, next),
        0 <= i < m.len(),
        !came.contains(i),
        decrypted(before, m[i], after, r),
        fits(before, m[i].header),
    ensures
        gave(r, p[i]),
        distinct(after.skipped),
        is_tidy(after),
        forall|j: int|
            0 <= j < x.len() && !came.contains(j) && j != i ==> in_transit(#[trigger] x[j], after)
                && is_next_chain(x[j], after, next),
{
    let y = x[i];
    lemma_in_transit_opens(y, before, p[i], m[i], after, r);
    lemma_receiver_stays_tidy(y, before, next, p[i], m[i], after, r);
    assert forall|j: int| 0 <= j < x.len() && !came.contains(j) && j != i implies in_transit(
        #[trigger] x[j],
        after,
    ) && is_next_chain(x[j], after, next) by {
        assert(go_together(x[j], x[i], next));
        lemma_in_transit_kept(x[j], y, before, next, p[i], m[i], after, r);
    }
}

// ---- A run of messages ---------------------------------------------------------------------

/// A sender goes through the states `a`, sending message `i` of plaintext `p[i]`
/// in state `a[i]`.
pub open spec fn is_run(a: Seq<RatchetState>, p: Seq<Seq<u8>>, m: Seq<Encrypted>) -> bool {
    &&& a.len() == m.len() + 1
    &&& p.len() == m.len()
    &&& a[0].ns + m.len() <= u32::MAX
    &&& forall|i: int| 0 <= i < m.len() ==> sent(a[i], p[i], a[i + 1], Ok(#[trigger] m[i]))
}

/// The cache has room for the keys of a run up to message number `until`, all
/// but the one of the message that comes in, whatever the order.
pub open spec fn run_fits(a: RatchetState, b: RatchetState, until: u32) -> bool {
    b.skipped.len() + (if b.peer_dh_pub == Some(a.dh_pub) {
        until - b.nr
    } else {
        old_gap(b, a.pn) + until
    }) <= MAX_SKIPPED + 1
}

/// Each state of a run is the first one moved on.
proof fn lemma_run(a: Seq<RatchetState>, p: Seq<Seq<u8>>, m: Seq<Encrypted>, b: RatchetState, i: int)
    requires
        is_run(a, p, m),
        0 <= i <= m.len(),
        linked(a[0], b),
    ensures
        a[i].ns == a[0].ns + i,
        a[i].dh_pub == a[0].dh_pub,
        a[i].dh_priv == a[0].dh_priv,
        a[i].pn == a[0].pn,
        linked(a[i], b),
        i < m.len() ==> a[i + 1] == send_step(a[i]),
    decreases i,
{
    if i > 0 {
        lemma_run(a, p, m, b, i - 1);
        assert(sent(a[i - 1], p[i - 1], a[i], Ok(m[i - 1])));
        lemma_gap(a[i - 1], b);
    }
    if i < m.len() {
        assert(sent(a[i], p[i], a[i + 1], Ok(m[i])));
    }
}

/// The messages of a run are posted, go together and are all on their way to a
/// receiver that is in step with its start and has none of their keys.
proof fn lemma_run_in_transit(
    a: Seq<RatchetState>,
    p: Seq<Seq<u8>>,
    m: Seq<Encrypted>,
    b: RatchetState,
)
    requires
        is_run(a, p, m),
        linked(a[0], b),
        distinct(b.skipped),
        is_tidy(b),
        b.peer_dh_pub == Some(a[0].dh_pub) || is_unseen(b, a[0].dh_pub),
    ensures
        posted(a, p, m),
        all_go_together(a, a[0].dh_pub),
        others_in_transit(a, Seq::empty(), b, a[0].dh_pub),
{
    assert forall|i: int| 0 <= i < m.len() implies (#[trigger] a[i]).ns < u32::MAX && sent(
        a[i],
        p[i],
        send_step(a[i]),
        Ok(m[i]),
    ) by {
        lemma_run(a, p, m, b, i);
        assert(sent(a[i], p[i], a[i + 1], Ok(m[i])));
    }
    assert forall|i: int, j: int|
        #![trigger a[i], a[j]]
        0 <= i < a.len() && 0 <= j < a.len() && i != j implies go_together(
        a[i],
        a[j],
        a[0].dh_pub,
    ) by {
        lemma_run(a, p, m, b, i);
        lemma_run(a, p, m, b, j);
    }
    assert forall|i: int| 0 <= i < a.len() implies in_transit(#[trigger] a[i], b) && is_next_chain(
        a[i],
        b,
        a[0].dh_pub,
    ) by {
        lemma_run(a, p, m, b, i);
        assert(!cached(b.skipped, a[i].dh_pub, a[i].ns));
    }
}

/// An end on its way through a run: it is on the run's chain or has seen nothing
/// of it, and has no key of the message after the run.
pub open spec fn on_run(a: RatchetState, b: RatchetState, until: u32) -> bool {
    &&& b.peer_dh_pub == Some(a.dh_pub) || is_unseen(b, a.dh_pub)
    &&& !cached(b.skipped, a.dh_pub, until)
}

/// Where the cache has room for the rest of a run, it has room for any message
/// of it, and for the rest after that message.
proof fn lemma_run_step(
    y: RatchetState,
    b: RatchetState,
    until: u32,
    plaintext: Seq<u8>,
    m: Encrypted,
    after: RatchetState,
    r: Result<Vec<u8>, CryptoError>,
)
    requires
        in_transit(y, b),
        distinct(b.skipped),
        on_run(y, b, until),
        y.ns < until,
        sent(y, plaintext, send_step(y), Ok(m)),
        decrypted(b, m, after, r),
        run_fits(y, b, until) || fits(b, m.header),
    ensures
        fits(b, m.header),
        on_run(y, after, until),
        run_fits(y, b, until) ==> run_fits(y, after, until),
{
    let h = m.header;
    let fresh = after.dh_priv;
    assert(next_header_of(y, h));
    lemma_in_transit_opens(y, b, plaintext, m, after, r);
    if cached(b.skipped, h.dh_pub@, h.n) {
        lemma_cached_step(b, h, fresh);
        if is_unseen(b, y.dh_pub) {
            assert(!cached(b.skipped, y.dh_pub, h.n));
        }
    } else if awaits_ratchet(y, b) {
        assert(delivers(y, b, after, receive_step(b, h, fresh).1, r is Ok));
        lemma_ratchet_step(y, b, h, fresh);
    } else {
        assert(shares_chain(y, b));
        lemma_chain_step(b, h, fresh);
    }
    assert(key_for(after.skipped, y.dh_pub, until) is None);
}

/// Where the cache has room for a run, it has room in whatever order the
/// messages come in.
proof fn lemma_run_states(
    a: Seq<RatchetState>,
    p: Seq<Seq<u8>>,
    m: Seq<Encrypted>,
    order: Seq<int>,
    b: Seq<RatchetState>,
    r: Seq<Result<Vec<u8>, CryptoError>>,
)
    requires
        is_run(a, p, m),
        is_order(order, m.len() as int),
        came_in(m, order, b, r),
        linked(a[0], b[0]),
        distinct(b[0].skipped),
        is_tidy(b[0]),
        b[0].peer_dh_pub == Some(a[0].dh_pub) || is_unseen(b[0], a[0].dh_pub),
        run_fits(a[0], b[0], a.last().ns) || all_fit(m, order, b),
    ensures
        all_fit(m, order, b),
        on_run(a[0], b.last(), a.last().ns),
        run_fits(a[0], b[0], a.last().ns) ==> run_fits(a[0], b.last(), a.last().ns),
        all_open(p, order, r),
        others_in_transit(a, order, b.last(), a[0].dh_pub),
    decreases order.len(),
{
    let next = a[0].dh_pub;
    lemma_run_in_transit(a, p, m, b[0]);
    lemma_run(a, p, m, b[0], m.len() as int);
    if order.len() > 0 {
        let k = order.len() - 1;
        let i = order[k];
        let first = order.drop_last();
        lemma_all_but_last(m, order, b, r);
        lemma_run_states(a, p, m, first, b.drop_last(), r.drop_last());
        lemma_run(a, p, m, b[0], i);
        assert(in_transit(a[i], b[k]));
        assert(sent(a[i], p[i], a[i + 1], Ok(m[i])));
        lemma_run_step(a[i], b[k], a.last().ns, p[i], m[i], b[k + 1], r[k]);
    } else {
        assert(!cached(b[0].skipped, next, a.last().ns));
    }
    lemma_any_order(a, p, m, next, order, b, r);
}

/// A run of messages is decrypted in whatever order it comes in, each message
/// once, by a receiver that is in step with its start, whether it is on the
/// sender's chain already or awaits the ratchet step to it. Messages that are
/// lost do no harm. The cache must have room for the keys of the messages that
/// are overtaken. Afterwards the receiver is in step with the sender, and what
/// has not come in is still decrypted when it does.
pub proof fn lemma_run_in_any_order(
    a: Seq<RatchetState>,
    p: Seq<Seq<u8>>,
    m: Seq<Encrypted>,
    order: Seq<int>,
    b: Seq<RatchetState>,
    r: Seq<Result<Vec<u8>, CryptoError>>,
)
    requires
        is_run(a, p, m),
        is_order(order, m.len() as int),
        came_in(m, order, b, r),
        linked(a[0], b[0]),
        distinct(b[0].skipped),
        is_tidy(b[0]),
        b[0].peer_dh_pub == Some(a[0].dh_pub) || is_unseen(b[0], a[0].dh_pub),
        run_fits(a[0], b[0], a.last().ns) || all_fit(m, order, b),
    ensures
        all_open(p, order, r),
        linked(a.last(), b.last()),
        forall|i: int|
            0 <= i < m.len() && !order.contains(i) ==> in_transit(#[trigger] a[i], b.last()),
        distinct(b.last().skipped),
        is_tidy(b.last()),
        b.last().peer_dh_pub == Some(a[0].dh_pub) || is_unseen(b.last(), a[0].dh_pub),
{
    lemma_run_states(a, p, m, order, b, r);
    let k = m.len() as int;
    assert(!order.contains(k)) by {
        if order.contains(k) {
            let j = choose|j: int| 0 <= j < order.len() && order[j] == k;
            assert(order[j] < k);
        }
    }
    assert(in_transit(a[k], b.last()));
    lemma_run(a, p, m, b[0], k);
}

/// A run on a receiver's chain and one on the sender's next chain.
pub open spec fn are_runs(
    a1: Seq<RatchetState>,
    p1: Seq<Seq<u8>>,
    m1: Seq<Encrypted>,
    a2: Seq<RatchetState>,
    p2: Seq<Seq<u8>>,
    m2: Seq<Encrypted>,
    b: RatchetState,
) -> bool {
    &&& is_run(a1, p1, m1)
    &&& is_run(a2, p2, m2)
    &&& a2[0].dh_pub != a1[0].dh_pub
    &&& a2[0].pn == a1.last().ns
    &&& linked(a1[0], b)
    &&& b.peer_dh_pub == Some(a1[0].dh_pub)
    &&& linked(a2[0], b)
    &&& is_unseen(b, a2[0].dh_pub)
    &&& distinct(b.skipped)
    &&& is_tidy(b)
}

/// A state of the second run put behind the first.
proof fn lemma_second_state(a1: Seq<RatchetState>, a2: Seq<RatchetState>, k: int, i: int)
    requires
        0 <= k,
        a1.len() == k + 1,
        k <= i < k + a2.len(),
    ensures
        (a1.drop_last() + a2)[i] == a2[i - k],
{
}

/// The messages of two runs are posted.
proof fn lemma_runs_posted(
    a1: Seq<RatchetState>,
    p1: Seq<Seq<u8>>,
    m1: Seq<Encrypted>,
    a2: Seq<RatchetState>,
    p2: Seq<Seq<u8>>,
    m2: Seq<Encrypted>,
)
    requires
        a1.len() == m1.len() + 1,
        a2.len() == m2.len() + 1,
        posted(a1, p1, m1),
        posted(a2, p2, m2),
    ensures
        posted(a1.drop_last() + a2, p1 + p2, m1 + m2),
{
    let k = m1.len() as int;
    let x = a1.drop_last() + a2;
    let (p, m) = (p1 + p2, m1 + m2);
    assert forall|i: int| 0 <= i < m.len() implies (#[trigger] x[i]).ns < u32::MAX && sent(
        x[i],
        p[i],
        send_step(x[i]),
        Ok(m[i]),
    ) by {
        if i < k {
            assert(x[i] == a1[i] && p[i] == p1[i] && m[i] == m1[i]);
        } else {
            lemma_second_state(a1, a2, k, i);
            assert(x[i] == a2[i - k] && p[i] == p2[i - k] && m[i] == m2[i - k]);
        }
    }
}

/// Two messages of two runs go together.
proof fn lemma_runs_together(
    a1: Seq<RatchetState>,
    p1: Seq<Seq<u8>>,
    m1: Seq<Encrypted>,
    a2: Seq<RatchetState>,
    p2: Seq<Seq<u8>>,
    m2: Seq<Encrypted>,
    b: RatchetState,
    i: int,
    j: int,
)
    requires
        are_runs(a1, p1, m1, a2, p2, m2, b),
        0 <= i < m1.len() + a2.len(),
        0 <= j < m1.len() + a2.len(),
        i != j,
    ensures
        ({
            let x = a1.drop_last() + a2;
            go_together(x[i], x[j], a2[0].dh_pub)
        }),
{
    let k = m1.len() as int;
    let x = a1.drop_last() + a2;
    lemma_run(a1, p1, m1, b, k);
    if i < k {
        lemma_run(a1, p1, m1, b, i);
        assert(x[i] == a1[i]);
    } else {
        lemma_run(a2, p2, m2, b, i - k);
        lemma_second_state(a1, a2, k, i);
    }
    if j < k {
        lemma_run(a1, p1, m1, b, j);
        assert(x[j] == a1[j]);
    } else {
        lemma_run(a2, p2, m2, b, j - k);
        lemma_second_state(a1, a2, k, j);
    }
}

/// The messages of two runs are on their way.
proof fn lemma_runs_in_transit(
    a1: Seq<RatchetState>,
    p1: Seq<Seq<u8>>,
    m1: Seq<Encrypted>,
    a2: Seq<RatchetState>,
    p2: Seq<Seq<u8>>,
    m2: Seq<Encrypted>,
    b: RatchetState,
)
    requires
        are_runs(a1, p1, m1, a2, p2, m2, b),
        others_in_transit(a1, Seq::empty(), b, a1[0].dh_pub),
        others_in_transit(a2, Seq::empty(), b, a2[0].dh_pub),
    ensures
        others_in_transit(a1.drop_last() + a2, Seq::empty(), b, a2[0].dh_pub),
{
    let k = m1.len() as int;
    let x = a1.drop_last() + a2;
    let next = a2[0].dh_pub;
    assert forall|i: int| 0 <= i < x.len() implies in_transit(#[trigger] x[i], b)
        && is_next_chain(x[i], b, next) by {
        if i < k {
            lemma_run(a1, p1, m1, b, i);
            assert(x[i] == a1[i]);
            assert(in_transit(a1[i], b));
            assert(!awaits_ratchet(a1[i], b));
        } else {
            lemma_second_state(a1, a2, k, i);
            assert(in_transit(a2[i - k], b));
        }
    }
}

/// Over a ratchet step too: the rest of a run on the chain that the receiver is
/// on, and a run on the sender's next chain, are decrypted in whatever order
/// their messages come in. The keys of the messages of the old chain that are
/// overtaken by one of the new chain wait until these come in.
pub proof fn lemma_runs_in_any_order(
    a1: Seq<RatchetState>,
    p1: Seq<Seq<u8>>,
    m1: Seq<Encrypted>,
    a2: Seq<RatchetState>,
    p2: Seq<Seq<u8>>,
    m2: Seq<Encrypted>,
    order: Seq<int>,
    b: Seq<RatchetState>,
    r: Seq<Result<Vec<u8>, CryptoError>>,
)
    requires
        are_runs(a1, p1, m1, a2, p2, m2, b[0]),
        is_order(order, (m1 + m2).len() as int),
        came_in(m1 + m2, order, b, r),
        all_fit(m1 + m2, order, b),
    ensures
        all_open(p1 + p2, order, r),
        others_in_transit(a1.drop_last() + a2, order, b.last(), a2[0].dh_pub),
{
    let x = a1.drop_last() + a2;
    let next = a2[0].dh_pub;
    lemma_run_in_transit(a1, p1, m1, b[0]);
    lemma_run_in_transit(a2, p2, m2, b[0]);
    lemma_runs_posted(a1, p1, m1, a2, p2, m2);
    lemma_runs_in_transit(a1, p1, m1, a2, p2, m2, b[0]);
    assert(all_go_together(x, next)) by {
        assert forall|i: int, j: int|
            #![trigger x[i], x[j]]
            0 <= i < x.len() && 0 <= j < x.len() && i != j implies go_together(
            x[i],
            x[j],
            next,
        ) by {
            lemma_runs_together(a1, p1, m1, a2, p2, m2, b[0], i, j);
        }
    }
    lemma_any_order(x, p1 + p2, m1 + m2, next, order, b, r);
}

/// What an end sends makes no difference to the messages on their way to it.
pub proof fn lemma_sending_keeps_transit(a: RatchetState, b: RatchetState)
    requires
        in_transit(a, b),
    ensures
        in_transit(a, send_step(b)),
{
}

// ---- Overtaken messages --------------------------------------------------------------

/// A message that overtakes others of its chain leaves the key of each of them in
/// the cache, and every key that waited there; it leaves none of its own.
pub proof fn lemma_overtaken_kept(b: RatchetState, h: Header, fresh: Seq<u8>, q: Seq<u8>, k: u32)
    requires
        distinct(b.skipped),
        !cached(b.skipped, h.dh_pub@, h.n),
        b.peer_dh_pub == Some(h.dh_pub@),
        b.ckr is Some,
        b.nr <= h.n < u32::MAX,
        b.skipped.len() + (h.n - b.nr) <= MAX_SKIPPED,
    ensures
        ({
            let after = receive_step(b, h, fresh).0;
            key_for(after.skipped, q, k) == (if q == h.dh_pub@ && b.nr <= k < h.n {
                Some(chain_message_key(chain_after(b.ckr.unwrap(), (k - b.nr) as nat)))
            } else {
                key_for(b.skipped, q, k)
            })
        }),
{
    lemma_skip_keys(b.skipped, h.dh_pub@, b.nr as int, h.n as int, b.ckr.unwrap());
}

/// A message of a new chain leaves in the cache the key of each message of the old
/// chain that the sender says to have sent and that has not come in, the key of
/// each earlier message of the new chain, and every key that waited there.
pub proof fn lemma_old_chain_kept(b: RatchetState, h: Header, fresh: Seq<u8>, q: Seq<u8>, k: u32)
    requires
        distinct(b.skipped),
        !cached(b.skipped, h.dh_pub@, h.n),
        b.peer_dh_pub != Some(h.dh_pub@),
        h.n < u32::MAX,
        b.skipped.len() + (if b.nr < h.pn {
            h.pn - b.nr
        } else {
            0
        }) + h.n <= MAX_SKIPPED,
    ensures
        ({
            let after = receive_step(b, h, fresh).0;
            let chain = fresh_chain_key(
                b.root_key,
                primitives::x25519_shared_of(b.dh_priv, h.dh_pub@),
            );
            key_for(after.skipped, q, k) == (if q == h.dh_pub@ && k < h.n {
                Some(chain_message_key(chain_after(chain, k as nat)))
            } else if b.peer_dh_pub == Some(q) && b.ckr is Some && b.nr <= k < h.pn {
                Some(chain_message_key(chain_after(b.ckr.unwrap(), (k - b.nr) as nat)))
            } else {
                key_for(b.skipped, q, k)
            })
        }),
{
    let t = ratcheted(b, h, fresh);
    let done = finish_chain(b, h).skipped;
    if b.peer_dh_pub is Some && b.ckr is Some {
        lemma_skip_keys(
            b.skipped,
            b.peer_dh_pub.unwrap(),
            b.nr as int,
            h.pn as int,
            b.ckr.unwrap(),
        );
    }
    assert(t.skipped == done);
    lemma_skip_keys(done, h.dh_pub@, 0, h.n as int, t.ckr.unwrap());
}

} // verus!
