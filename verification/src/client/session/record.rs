//! A client's state as plain data, to be kept in the store and taken up again.
use crate::bytes::{lemma_array32_ext, same32, to_vec};
use crate::client::session::{group_wf, session_wf, ClientSession, SessionState};
use crate::crypto::double_ratchet::{state_wf, RatchetRecord, RatchetSession};
use crate::crypto::identity::{fingerprint_spec, IdentityKey, OneTimePreKey, SignedPreKey};
use crate::crypto::kem::PqDecapsulationKey;
use crate::crypto::sender_keys::{GroupSession, PeerState};
use crate::keymap::{
    all_distinct, has_key, key_place, keys_distinct, lemma_key_place, pairs_map,
    KeyMap,
};
use crate::primitives;
use vstd::prelude::*;

verus! {

/// A client's state as plain data.
pub struct SessionRecord {
    pub identity: IdentityKey,
    pub signed_prekey: SignedPreKey,
    pub previous_signed_prekeys: Vec<(u32, SignedPreKey)>,
    pub one_time_prekeys: Vec<(u32, OneTimePreKey)>,
    pub pq_seed: Vec<u8>,
    pub ratchets: Vec<([u8; 32], RatchetRecord)>,
    pub groups: Vec<([u8; 32], GroupSession)>,
}

impl View for SessionRecord {
    type V = SessionState;

    open spec fn view(&self) -> SessionState {
        SessionState {
            identity: self.identity,
            signed: self.signed_prekey,
            previous: pairs_map(self.previous_signed_prekeys@),
            one_time: self.one_time_prekeys@,
            pq_seed: self.pq_seed@,
            ratchets: pairs_map(self.ratchets@).map_values(|r: RatchetRecord| r@),
            groups: pairs_map(self.groups@).map_values(|g: GroupSession| g@),
        }
    }
}

/// A record can be taken up: its state is consistent and no key occurs twice in
/// a list.
pub open spec fn record_wf(r: SessionRecord) -> bool {
    &&& session_wf(r@)
    &&& keys_distinct(r.previous_signed_prekeys@)
    &&& keys_distinct(r.ratchets@)
    &&& keys_distinct(r.groups@)
    &&& forall|i: int| 0 <= i < r.groups@.len() ==> (#[trigger] r.groups@[i]).1.peer_states.wf()
}

/// What taking up a record gives.
pub open spec fn taken_up(record: SessionRecord, r: Option<ClientSession>) -> bool {
    match r {
        Some(s) => record_wf(record) && s.wf() && s@ == record@,
        None => !record_wf(record),
    }
}

/// A copy of a group session.
fn copy_group(g: &GroupSession) -> (r: GroupSession)
    ensures
        r@ == g@,
        r.peer_states.entries@ == g.peer_states.entries@,
        r.self_state == g.self_state,
        r.group_id == g.group_id,
{
    let mut entries: Vec<([u8; 32], PeerState)> = Vec::new();
    let mut i: usize = 0;
    while i < g.peer_states.entries.len()
        invariant
            0 <= i <= g.peer_states.entries@.len(),
            entries@ == g.peer_states.entries@.take(i as int),
        decreases g.peer_states.entries@.len() - i,
    {
        entries.push(g.peer_states.entries[i]);
        i = i + 1;
        assert(entries@ =~= g.peer_states.entries@.take(i as int));
    }
    assert(entries@ =~= g.peer_states.entries@);
    GroupSession {
        group_id: g.group_id,
        self_state: g.self_state,
        peer_states: KeyMap { entries },
    }
}

/// Two lists of pairs with the same keys, and values of one view, stand for maps
/// of one view.
proof fn lemma_same_pairs<A, B, S>(
    a: Seq<([u8; 32], A)>,
    b: Seq<([u8; 32], B)>,
    f: spec_fn(A) -> S,
    g: spec_fn(B) -> S,
)
    requires
        keys_distinct(a),
        a.len() == b.len(),
        forall|i: int|
            #![trigger a[i]]
            #![trigger b[i]]
            0 <= i < a.len() ==> a[i].0 == b[i].0 && f(a[i].1) == g(b[i].1),
    ensures
        keys_distinct(b),
        pairs_map(a).map_values(f) == pairs_map(b).map_values(g),
{
    assert forall|i: int, j: int|
        #![trigger b[i], b[j]]
        0 <= i < j < b.len() implies b[i].0 != b[j].0 by {
        assert(a[i].0 == b[i].0 && a[j].0 == b[j].0);
    }
    let x = pairs_map(a).map_values(f);
    let y = pairs_map(b).map_values(g);
    assert forall|k: [u8; 32]| x.contains_key(k) == y.contains_key(k) by {
        if has_key(a, k) {
            let i = key_place(a, k);
            assert(a[i].0 == k && b[i].0 == k);
        }
        if has_key(b, k) {
            let i = key_place(b, k);
            assert(a[i].0 == k && b[i].0 == k);
        }
    }
    assert forall|k: [u8; 32]| x.contains_key(k) implies x[k] == y[k] by {
        let i = key_place(a, k);
        assert(a[i].0 == k && b[i].0 == k);
        lemma_key_place(a, i);
        lemma_key_place(b, i);
    }
    assert(x =~= y);
}

impl ClientSession {
    /// The state as plain data.
    pub fn to_record(&self) -> (r: SessionRecord)
        requires
            self.wf(),
        ensures
            r@ == self@,
            record_wf(r),
    {
        let mut previous: Vec<(u32, SignedPreKey)> = Vec::new();
        let mut i: usize = 0;
        while i < self.previous_signed_prekeys.entries.len()
            invariant
                0 <= i <= self.previous_signed_prekeys.entries@.len(),
                previous@ == self.previous_signed_prekeys.entries@.take(i as int),
            decreases self.previous_signed_prekeys.entries@.len() - i,
        {
            previous.push(self.previous_signed_prekeys.entries[i]);
            i = i + 1;
            assert(previous@ =~= self.previous_signed_prekeys.entries@.take(i as int));
        }
        assert(previous@ =~= self.previous_signed_prekeys.entries@);
        let mut one_time: Vec<(u32, OneTimePreKey)> = Vec::new();
        i = 0;
        while i < self.one_time_prekeys.entries.len()
            invariant
                0 <= i <= self.one_time_prekeys.entries@.len(),
                one_time@ == self.one_time_prekeys.entries@.take(i as int),
            decreases self.one_time_prekeys.entries@.len() - i,
        {
            one_time.push(self.one_time_prekeys.entries[i]);
            i = i + 1;
            assert(one_time@ =~= self.one_time_prekeys.entries@.take(i as int));
        }
        assert(one_time@ =~= self.one_time_prekeys.entries@);
        let mut ratchets: Vec<([u8; 32], RatchetRecord)> = Vec::new();
        i = 0;
        while i < self.ratchets.entries.len()
            invariant
                0 <= i <= self.ratchets.entries@.len(),
                ratchets@.len() == i,
                forall|j: int|
                    #![trigger ratchets@[j]]
                    0 <= j < i ==> ratchets@[j].0 == self.ratchets.entries@[j].0 && ratchets@[j].1@
                        == self.ratchets.entries@[j].1@,
            decreases self.ratchets.entries@.len() - i,
        {
            let record = self.ratchets.entries[i].1.to_record();
            ratchets.push((self.ratchets.entries[i].0, record));
            i = i + 1;
        }
        let mut groups: Vec<([u8; 32], GroupSession)> = Vec::new();
        i = 0;
        while i < self.groups.entries.len()
            invariant
                self.wf(),
                0 <= i <= self.groups.entries@.len(),
                groups@.len() == i,
                forall|j: int|
                    #![trigger groups@[j]]
                    0 <= j < i ==> groups@[j].0 == self.groups.entries@[j].0 && groups@[j].1@
                        == self.groups.entries@[j].1@ && groups@[j].1.peer_states.wf(),
            decreases self.groups.entries@.len() - i,
        {
            proof {
                lemma_key_place(self.groups.entries@, i as int);
                let k = self.groups.entries@[i as int].0;
                assert(self.groups@.contains_key(k));
                assert(self.groups@[k].wf());
            }
            groups.push((self.groups.entries[i].0, copy_group(&self.groups.entries[i].1)));
            i = i + 1;
        }
        proof {
            lemma_same_pairs(
                self.ratchets.entries@,
                ratchets@,
                |r: RatchetSession| r@,
                |r: RatchetRecord| r@,
            );
            lemma_same_pairs(
                self.groups.entries@,
                groups@,
                |g: GroupSession| g@,
                |g: GroupSession| g@,
            );
        }
        SessionRecord {
            identity: self.identity,
            signed_prekey: self.signed_prekey,
            previous_signed_prekeys: previous,
            one_time_prekeys: one_time,
            pq_seed: to_vec(&self.pq_decapsulation_key.0),
            ratchets,
            groups,
        }
    }

    /// Takes up a state again; `None` where the record is not consistent.
    pub fn from_record(record: &SessionRecord) -> (r: Option<Self>)
        ensures
            taken_up(*record, r),
    {
        let ghost state = record@;
        if !keys_ok(record) {
            return None;
        }
        let mut previous: Vec<(u32, SignedPreKey)> = Vec::new();
        let mut i: usize = 0;
        while i < record.previous_signed_prekeys.len()
            invariant
                0 <= i <= record.previous_signed_prekeys@.len(),
                previous@ == record.previous_signed_prekeys@.take(i as int),
            decreases record.previous_signed_prekeys@.len() - i,
        {
            previous.push(record.previous_signed_prekeys[i]);
            i = i + 1;
            assert(previous@ =~= record.previous_signed_prekeys@.take(i as int));
        }
        assert(previous@ =~= record.previous_signed_prekeys@);
        let mut one_time: Vec<(u32, OneTimePreKey)> = Vec::new();
        i = 0;
        while i < record.one_time_prekeys.len()
            invariant
                0 <= i <= record.one_time_prekeys@.len(),
                one_time@ == record.one_time_prekeys@.take(i as int),
            decreases record.one_time_prekeys@.len() - i,
        {
            one_time.push(record.one_time_prekeys[i]);
            i = i + 1;
            assert(one_time@ =~= record.one_time_prekeys@.take(i as int));
        }
        assert(one_time@ =~= record.one_time_prekeys@);
        let mut ratchets: Vec<([u8; 32], RatchetSession)> = Vec::new();
        i = 0;
        while i < record.ratchets.len()
            invariant
                keys_distinct(record.ratchets@),
                0 <= i <= record.ratchets@.len(),
                ratchets@.len() == i,
                forall|j: int|
                    #![trigger ratchets@[j]]
                    0 <= j < i ==> ratchets@[j].0 == record.ratchets@[j].0 && ratchets@[j].1@
                        == record.ratchets@[j].1@ && state_wf(ratchets@[j].1@),
            decreases record.ratchets@.len() - i,
        {
            match RatchetSession::from_record(&record.ratchets[i].1) {
                Some(s) => {
                    ratchets.push((record.ratchets[i].0, s));
                },
                None => {
                    proof {
                        lemma_key_place(record.ratchets@, i as int);
                        let k = record.ratchets@[i as int].0;
                        assert(record@.ratchets.contains_key(k));
                        assert(!state_wf(record@.ratchets[k]));
                    }
                    return None;
                },
            }
            i = i + 1;
        }
        let mut groups: Vec<([u8; 32], GroupSession)> = Vec::new();
        i = 0;
        while i < record.groups.len()
            invariant
                0 <= i <= record.groups@.len(),
                groups@.len() == i,
                forall|j: int|
                    #![trigger groups@[j]]
                    0 <= j < i ==> groups@[j].0 == record.groups@[j].0 && groups@[j].1@
                        == record.groups@[j].1@ && groups@[j].1.peer_states.entries@
                        == record.groups@[j].1.peer_states.entries@,
            decreases record.groups@.len() - i,
        {
            groups.push((record.groups[i].0, copy_group(&record.groups[i].1)));
            i = i + 1;
        }
        proof {
            lemma_same_pairs(
                record.ratchets@,
                ratchets@,
                |r: RatchetRecord| r@,
                |r: RatchetSession| r@,
            );
            lemma_same_pairs(
                record.groups@,
                groups@,
                |g: GroupSession| g@,
                |g: GroupSession| g@,
            );
        }
        let s = ClientSession {
            identity: record.identity,
            signed_prekey: record.signed_prekey,
            previous_signed_prekeys: KeyMap { entries: previous },
            one_time_prekeys: KeyMap { entries: one_time },
            pq_decapsulation_key: PqDecapsulationKey(to_vec(&record.pq_seed)),
            ratchets: KeyMap { entries: ratchets },
            groups: KeyMap { entries: groups },
        };
        proof {
            assert(s@ == record@);
            assert forall|k: [u8; 32]| #[trigger] s@.ratchets.contains_key(k) implies state_wf(
                s@.ratchets[k],
            ) by {
                let i = key_place(ratchets@, k);
                assert(ratchets@[i].0 == k);
                lemma_key_place(ratchets@, i);
            }
            assert forall|k: [u8; 32]| #[trigger] s.groups@.contains_key(k) implies s.groups@[k].wf() by {
                let i = key_place(groups@, k);
                assert(groups@[i].0 == k);
                lemma_key_place(groups@, i);
                lemma_key_place(record.groups@, i);
                assert(state.groups.contains_key(k));
                assert(group_wf(state, k));
                assert(groups@[i].1@ == record.groups@[i].1@);
            }
        }
        Some(s)
    }
}

/// Everything but the ratchets of a record is consistent.
pub open spec fn keys_consistent(r: SessionRecord) -> bool {
    let s = r@;
    &&& s.identity.wf()
    &&& primitives::ed25519_point(s.identity.verifying@)
    &&& s.signed.wf()
    &&& s.signed.signed_by(s.identity.verifying@)
    &&& forall|id: u32| #[trigger] s.previous.contains_key(id) ==> s.previous[id].wf()
    &&& keys_distinct(s.one_time)
    &&& forall|i: int|
        #![trigger s.one_time[i]]
        0 <= i < s.one_time.len() ==> s.one_time[i].1.wf() && s.one_time[i].1.id
            == s.one_time[i].0
    &&& s.pq_seed.len() == 64
    &&& forall|k: [u8; 32]| #[trigger] s.groups.contains_key(k) ==> group_wf(s, k)
    &&& keys_distinct(r.previous_signed_prekeys@)
    &&& keys_distinct(r.ratchets@)
    &&& keys_distinct(r.groups@)
    &&& forall|i: int| 0 <= i < r.groups@.len() ==> (#[trigger] r.groups@[i]).1.peer_states.wf()
}

/// Whether everything but the ratchets of a record is consistent.
fn keys_ok(record: &SessionRecord) -> (r: bool)
    ensures
        r == keys_consistent(*record),
{
    let ghost s = record@;
    let verifying: [u8; 32] = primitives::ed25519_public(&record.identity.signing.bytes);
    if !same32(&verifying, &record.identity.verifying.bytes) {
        return false;
    }
    let signed_pub: [u8; 32] = primitives::x25519_public(&record.signed_prekey.priv_key.bytes);
    if !same32(&signed_pub, &record.signed_prekey.pub_key.bytes) {
        return false;
    }
    if record.signed_prekey.verify_signature(&record.identity.verifying).is_err() {
        return false;
    }
    if record.pq_seed.len() != 64 || !all_distinct(&record.previous_signed_prekeys)
        || !all_distinct(&record.one_time_prekeys) || !all_distinct(&record.ratchets)
        || !all_distinct(&record.groups) {
        return false;
    }
    let mut i: usize = 0;
    while i < record.previous_signed_prekeys.len()
        invariant
            s == record@,
            keys_distinct(record.previous_signed_prekeys@),
            0 <= i <= record.previous_signed_prekeys@.len(),
            forall|j: int|
                #![trigger record.previous_signed_prekeys@[j]]
                0 <= j < i ==> record.previous_signed_prekeys@[j].1.wf(),
        decreases record.previous_signed_prekeys@.len() - i,
    {
        let p: SignedPreKey = record.previous_signed_prekeys[i].1;
        let public: [u8; 32] = primitives::x25519_public(&p.priv_key.bytes);
        if !same32(&public, &p.pub_key.bytes) {
            proof {
                lemma_key_place(record.previous_signed_prekeys@, i as int);
                let id = record.previous_signed_prekeys@[i as int].0;
                assert(s.previous.contains_key(id) && !s.previous[id].wf());
            }
            return false;
        }
        i = i + 1;
    }
    assert forall|id: u32| #[trigger] s.previous.contains_key(id) implies s.previous[id].wf() by {
        let j = key_place(record.previous_signed_prekeys@, id);
        assert(record.previous_signed_prekeys@[j].0 == id);
        lemma_key_place(record.previous_signed_prekeys@, j);
    }
    i = 0;
    while i < record.one_time_prekeys.len()
        invariant
            s == record@,
            0 <= i <= record.one_time_prekeys@.len(),
            forall|j: int|
                #![trigger s.one_time[j]]
                0 <= j < i ==> s.one_time[j].1.wf() && s.one_time[j].1.id == s.one_time[j].0,
        decreases record.one_time_prekeys@.len() - i,
    {
        let p: OneTimePreKey = record.one_time_prekeys[i].1;
        let public: [u8; 32] = primitives::x25519_public(&p.priv_key.bytes);
        assert(s.one_time[i as int].1 == p);
        if p.id != record.one_time_prekeys[i].0 || !same32(&public, &p.pub_key.bytes) {
            return false;
        }
        i = i + 1;
    }
    let me: [u8; 32] = record.identity.fingerprint();
    i = 0;
    while i < record.groups.len()
        invariant
            s == record@,
            me@ == fingerprint_spec(s.identity.verifying@),
            keys_distinct(record.groups@),
            0 <= i <= record.groups@.len(),
            forall|j: int|
                #![trigger record.groups@[j]]
                0 <= j < i ==> group_consistent(record.groups@[j], me),
        decreases record.groups@.len() - i,
    {
        if !group_ok(&record.groups[i], &me) {
            proof {
                lemma_key_place(record.groups@, i as int);
                let k = record.groups@[i as int].0;
                assert(s.groups.contains_key(k));
                assert(s.groups[k] == record.groups@[i as int].1@);
                if group_wf(s, k) {
                    lemma_array32_ext(s.groups[k].member_id, me);
                    assert(!record.groups@[i as int].1.peer_states.wf());
                }
            }
            return false;
        }
        i = i + 1;
    }
    assert forall|k: [u8; 32]| #[trigger] s.groups.contains_key(k) implies group_wf(s, k) by {
        let j = key_place(record.groups@, k);
        assert(record.groups@[j].0 == k);
        lemma_key_place(record.groups@, j);
        assert(group_consistent(record.groups@[j], me));
    }
    true
}

/// A listed group session is consistent, its own member being `me`.
pub open spec fn group_consistent(e: ([u8; 32], GroupSession), me: [u8; 32]) -> bool {
    &&& e.1.group_id == e.0
    &&& e.1.self_state.member_id == me
    &&& e.1.self_state.signing_pub@ == primitives::ed25519_public_of(e.1.self_state.signing_priv@)
    &&& primitives::ed25519_point(e.1.self_state.signing_pub@)
    &&& e.1.peer_states.wf()
}

/// Whether a listed group session is consistent.
fn group_ok(e: &([u8; 32], GroupSession), me: &[u8; 32]) -> (r: bool)
    ensures
        r == group_consistent(*e, *me),
{
    let public: [u8; 32] = primitives::ed25519_public(&e.1.self_state.signing_priv.bytes);
    same32(&e.1.group_id, &e.0) && same32(&e.1.self_state.member_id, me) && same32(
        &public,
        &e.1.self_state.signing_pub.bytes,
    ) && all_distinct(&e.1.peer_states.entries)
}

/// What is kept is taken up again: from the record of a state comes a session
/// with that state.
pub proof fn lemma_record_round_trip(s: SessionState, r: SessionRecord, out: Option<ClientSession>)
    requires
        r@ == s,
        record_wf(r),
        taken_up(r, out),
    ensures
        out matches Some(c) && c@ == s,
{
}

/// What is taken up is what was kept, field by field, and only where it is whole:
/// its keys belong together and no list has a key twice.
pub proof fn lemma_taken_up(record: SessionRecord, s: ClientSession)
    requires
        taken_up(record, Some(s)),
    ensures
        s@.identity == record.identity,
        s@.signed == record.signed_prekey,
        s@.previous == pairs_map(record.previous_signed_prekeys@),
        s@.one_time == record.one_time_prekeys@,
        s@.pq_seed == record.pq_seed@,
        session_wf(s@),
        keys_distinct(record.previous_signed_prekeys@),
        keys_distinct(record.ratchets@),
        keys_distinct(record.groups@),
        forall|i: int|
            0 <= i < record.ratchets@.len() ==> s@.ratchets.contains_key(
                (#[trigger] record.ratchets@[i]).0,
            ) && s@.ratchets[record.ratchets@[i].0] == record.ratchets@[i].1@,
        forall|i: int|
            0 <= i < record.groups@.len() ==> s@.groups.contains_key(
                (#[trigger] record.groups@[i]).0,
            ) && s@.groups[record.groups@[i].0] == record.groups@[i].1@,
{
    assert forall|i: int| 0 <= i < record.ratchets@.len() implies s@.ratchets.contains_key(
        (#[trigger] record.ratchets@[i]).0,
    ) && s@.ratchets[record.ratchets@[i].0] == record.ratchets@[i].1@ by {
        lemma_key_place(record.ratchets@, i);
    }
    assert forall|i: int| 0 <= i < record.groups@.len() implies s@.groups.contains_key(
        (#[trigger] record.groups@[i]).0,
    ) && s@.groups[record.groups@[i].0] == record.groups@[i].1@ by {
        lemma_key_place(record.groups@, i);
    }
}

} // verus!
