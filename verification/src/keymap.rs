//! A map with few entries, held as a list of key-value pairs in the order in
//! which the keys came in.
use crate::bytes::same32;
use vstd::prelude::*;

verus! {

/// A key that can be compared.
pub trait Key: Copy {
    fn same(&self, other: &Self) -> (r: bool)
        ensures
            r == (*self == *other),
    ;
}

impl Key for u32 {
    fn same(&self, other: &u32) -> (r: bool) {
        *self == *other
    }
}

impl Key for [u8; 32] {
    fn same(&self, other: &[u8; 32]) -> (r: bool) {
        same32(self, other)
    }
}

/// Whether some pair has the key.
pub open spec fn has_key<K, V>(s: Seq<(K, V)>, k: K) -> bool {
    exists|i: int| #![trigger s[i]] 0 <= i < s.len() && s[i].0 == k
}

/// The place of a pair with the key.
pub open spec fn key_place<K, V>(s: Seq<(K, V)>, k: K) -> int {
    choose|i: int| #![trigger s[i]] 0 <= i < s.len() && s[i].0 == k
}

/// No key occurs twice.
pub open spec fn keys_distinct<K, V>(s: Seq<(K, V)>) -> bool {
    forall|i: int, j: int| #![trigger s[i], s[j]] 0 <= i < j < s.len() ==> s[i].0 != s[j].0
}

/// The map that a list of pairs stands for.
pub open spec fn pairs_map<K, V>(s: Seq<(K, V)>) -> Map<K, V> {
    Map::new(|k: K| has_key(s, k), |k: K| s[key_place(s, k)].1)
}

/// In a list without repeated keys a key has one place.
pub proof fn lemma_key_place<K, V>(s: Seq<(K, V)>, i: int)
    requires
        keys_distinct(s),
        0 <= i < s.len(),
    ensures
        has_key(s, s[i].0),
        key_place(s, s[i].0) == i,
        pairs_map(s).contains_key(s[i].0),
        pairs_map(s)[s[i].0] == s[i].1,
{
    let j = key_place(s, s[i].0);
    assert(0 <= j < s.len() && s[j].0 == s[i].0);
    if i < j {
        assert(s[i].0 != s[j].0);
    } else if j < i {
        assert(s[j].0 != s[i].0);
    }
}

/// A pair with a new key at the end of the list is a new entry of the map.
pub proof fn lemma_pairs_push<K, V>(s: Seq<(K, V)>, k: K, v: V)
    requires
        keys_distinct(s),
        !has_key(s, k),
    ensures
        keys_distinct(s.push((k, v))),
        pairs_map(s.push((k, v))) == pairs_map(s).insert(k, v),
{
    let t = s.push((k, v));
    assert forall|i: int, j: int| #![trigger t[i], t[j]] 0 <= i < j < t.len() implies t[i].0
        != t[j].0 by {
        assert(t[i] == s[i]);
        if j < s.len() {
            assert(t[j] == s[j]);
        }
    }
    assert forall|q: K| pairs_map(t).contains_key(q) == pairs_map(s).insert(k, v).contains_key(q) by {
        if has_key(s, q) {
            let i = key_place(s, q);
            assert(0 <= i < s.len() && s[i].0 == q);
            assert(t[i].0 == q);
        }
        if has_key(t, q) {
            let i = key_place(t, q);
            assert(0 <= i < t.len() && t[i].0 == q);
            if i < s.len() {
                assert(s[i].0 == q);
            }
        }
        assert(t[s.len() as int].0 == k);
    }
    assert forall|q: K| #[trigger] pairs_map(t).contains_key(q) implies pairs_map(t)[q] == pairs_map(
        s,
    ).insert(k, v)[q] by {
        let i = key_place(t, q);
        assert(0 <= i < t.len() && t[i].0 == q);
        lemma_key_place(t, i);
        if i < s.len() {
            assert(s[i] == t[i]);
            lemma_key_place(s, i);
        }
    }
    assert(pairs_map(t) =~= pairs_map(s).insert(k, v));
}

/// Another value at a place is another value of the key.
pub proof fn lemma_pairs_update<K, V>(s: Seq<(K, V)>, i: int, v: V)
    requires
        keys_distinct(s),
        0 <= i < s.len(),
    ensures
        keys_distinct(s.update(i, (s[i].0, v))),
        pairs_map(s.update(i, (s[i].0, v))) == pairs_map(s).insert(s[i].0, v),
{
    let t = s.update(i, (s[i].0, v));
    assert forall|a: int, b: int| #![trigger t[a], t[b]] 0 <= a < b < t.len() implies t[a].0
        != t[b].0 by {
        assert(s[a].0 == t[a].0 && s[b].0 == t[b].0);
    }
    assert forall|q: K| pairs_map(t).contains_key(q) == pairs_map(s).insert(s[i].0, v).contains_key(
        q,
    ) by {
        if has_key(s, q) {
            let j = key_place(s, q);
            assert(0 <= j < s.len() && s[j].0 == q);
            assert(t[j].0 == q);
        }
        if has_key(t, q) {
            let j = key_place(t, q);
            assert(0 <= j < t.len() && t[j].0 == q);
            assert(s[j].0 == q);
        }
        assert(t[i].0 == s[i].0);
    }
    assert forall|q: K| #[trigger] pairs_map(t).contains_key(q) implies pairs_map(t)[q] == pairs_map(
        s,
    ).insert(s[i].0, v)[q] by {
        let j = key_place(t, q);
        assert(0 <= j < t.len() && t[j].0 == q);
        lemma_key_place(t, j);
        lemma_key_place(s, j);
        assert(s[j].0 == t[j].0);
    }
    assert(pairs_map(t) =~= pairs_map(s).insert(s[i].0, v));
}

/// Without a place the map is without its key.
pub proof fn lemma_pairs_remove<K, V>(s: Seq<(K, V)>, i: int)
    requires
        keys_distinct(s),
        0 <= i < s.len(),
    ensures
        keys_distinct(s.remove(i)),
        pairs_map(s.remove(i)) == pairs_map(s).remove(s[i].0),
{
    let t = s.remove(i);
    let k = s[i].0;
    assert forall|a: int, b: int| #![trigger t[a], t[b]] 0 <= a < b < t.len() implies t[a].0
        != t[b].0 by {
        let a2 = if a < i { a } else { a + 1 };
        let b2 = if b < i { b } else { b + 1 };
        assert(t[a] == s[a2] && t[b] == s[b2]);
    }
    assert forall|q: K| pairs_map(t).contains_key(q) == pairs_map(s).remove(k).contains_key(q) by {
        if has_key(t, q) {
            let j = key_place(t, q);
            assert(0 <= j < t.len() && t[j].0 == q);
            let j2 = if j < i { j } else { j + 1 };
            assert(s[j2] == t[j]);
            assert(s[j2].0 != s[i].0);
        }
        if has_key(s, q) && q != k {
            let j = key_place(s, q);
            assert(0 <= j < s.len() && s[j].0 == q);
            let j2 = if j < i { j } else { j - 1 };
            assert(t[j2] == s[j]);
        }
    }
    assert forall|q: K| #[trigger] pairs_map(t).contains_key(q) implies pairs_map(t)[q] == pairs_map(
        s,
    ).remove(k)[q] by {
        let j = key_place(t, q);
        assert(0 <= j < t.len() && t[j].0 == q);
        lemma_key_place(t, j);
        let j2 = if j < i { j } else { j + 1 };
        assert(s[j2] == t[j]);
        lemma_key_place(s, j2);
    }
    assert(pairs_map(t) =~= pairs_map(s).remove(k));
}

/// A map from keys to values.
pub struct KeyMap<K, V> {
    pub entries: Vec<(K, V)>,
}

impl<K, V> View for KeyMap<K, V> {
    type V = Map<K, V>;

    open spec fn view(&self) -> Map<K, V> {
        pairs_map(self.entries@)
    }
}

impl<K: Key, V> KeyMap<K, V> {
    /// No key occurs twice.
    pub open spec fn wf(&self) -> bool {
        keys_distinct(self.entries@)
    }

    /// The empty map.
    pub fn new() -> (r: Self)
        ensures
            r.wf(),
            r@ == Map::<K, V>::empty(),
            r.entries@ == Seq::<(K, V)>::empty(),
    {
        let r = KeyMap { entries: Vec::new() };
        assert(r@ =~= Map::<K, V>::empty());
        r
    }

    /// The number of entries.
    pub fn len(&self) -> (r: usize)
        ensures
            r == self.entries@.len(),
    {
        self.entries.len()
    }

    /// The place of a key in the list.
    pub fn index_of(&self, k: &K) -> (r: Option<usize>)
        requires
            self.wf(),
        ensures
            r is Some <==> self@.contains_key(*k),
            r matches Some(i) ==> i < self.entries@.len() && self.entries@[i as int].0 == *k
                && self@[*k] == self.entries@[i as int].1,
    {
        let mut i: usize = 0;
        while i < self.entries.len()
            invariant
                self.wf(),
                0 <= i <= self.entries@.len(),
                forall|j: int|
                    #![trigger self.entries@[j]]
                    0 <= j < i ==> self.entries@[j].0 != *k,
            decreases self.entries@.len() - i,
        {
            if self.entries[i].0.same(k) {
                proof {
                    lemma_key_place(self.entries@, i as int);
                }
                return Some(i);
            }
            i = i + 1;
        }
        None
    }

    /// Whether a key is in the map.
    pub fn contains(&self, k: &K) -> (r: bool)
        requires
            self.wf(),
        ensures
            r == self@.contains_key(*k),
    {
        self.index_of(k).is_some()
    }

    /// The value of a key.
    pub fn get(&self, k: &K) -> (r: Option<&V>)
        requires
            self.wf(),
        ensures
            match r {
                Some(v) => self@.contains_key(*k) && *v == self@[*k],
                None => !self@.contains_key(*k),
            },
    {
        match self.index_of(k) {
            Some(i) => Some(&self.entries[i].1),
            None => None,
        }
    }

    /// The value of a key, to be changed in place.
    pub fn get_mut(&mut self, k: &K) -> (r: Option<&mut V>)
        requires
            old(self).wf(),
        ensures
            final(self).wf(),
            match r {
                Some(v) => old(self)@.contains_key(*k) && *v == old(self)@[*k] && final(self)@
                    == old(self)@.insert(*k, *final(v)),
                None => !old(self)@.contains_key(*k) && *final(self) == *old(self),
            },
    {
        match self.index_of(k) {
            Some(i) => {
                let ghost s = self.entries@;
                let v: &mut V = &mut self.entries[i].1;
                proof {
                    lemma_pairs_update(s, i as int, *final(v));
                }
                Some(v)
            },
            None => None,
        }
    }

    /// Sets the value of a key; a new key goes to the end of the list.
    pub fn insert(&mut self, k: K, v: V)
        requires
            old(self).wf(),
        ensures
            final(self).wf(),
            final(self)@ == old(self)@.insert(k, v),
            old(self)@.contains_key(k) ==> final(self).entries@.len() == old(self).entries@.len(),
            !old(self)@.contains_key(k) ==> final(self).entries@ == old(self).entries@.push((k, v)),
    {
        match self.index_of(&k) {
            Some(i) => {
                proof {
                    lemma_pairs_update(self.entries@, i as int, v);
                }
                self.entries[i] = (k, v);
            },
            None => {
                proof {
                    lemma_pairs_push(self.entries@, k, v);
                }
                self.entries.push((k, v));
            },
        }
    }

    /// Takes a key out of the map.
    pub fn remove(&mut self, k: &K) -> (r: Option<V>)
        requires
            old(self).wf(),
        ensures
            final(self).wf(),
            final(self)@ == old(self)@.remove(*k),
            match r {
                Some(v) => old(self)@.contains_key(*k) && v == old(self)@[*k],
                None => !old(self)@.contains_key(*k) && *final(self) == *old(self),
            },
    {
        match self.index_of(k) {
            Some(i) => {
                proof {
                    lemma_pairs_remove(self.entries@, i as int);
                }
                let pair = self.entries.remove(i);
                Some(pair.1)
            },
            None => {
                assert(self@ =~= self@.remove(*k));
                None
            },
        }
    }
}

/// Whether no key occurs twice in a list of pairs.
pub fn all_distinct<K: Key, V>(s: &Vec<(K, V)>) -> (r: bool)
    ensures
        r == keys_distinct(s@),
{
    let mut i: usize = 0;
    while i < s.len()
        invariant
            0 <= i <= s@.len(),
            forall|a: int, b: int|
                #![trigger s@[a], s@[b]]
                0 <= a < b < s@.len() && a < i ==> s@[a].0 != s@[b].0,
        decreases s@.len() - i,
    {
        let mut j: usize = i + 1;
        while j < s.len()
            invariant
                0 <= i < j <= s@.len(),
                forall|b: int| #![trigger s@[b]] i < b < j ==> s@[i as int].0 != s@[b].0,
            decreases s@.len() - j,
        {
            if s[i].0.same(&s[j].0) {
                return false;
            }
            j = j + 1;
        }
        i = i + 1;
    }
    true
}

/// The sum of the values of a map.
pub open spec fn map_total<K>(m: Map<K, u32>) -> int
    decreases m.dom().len(),
    when m.dom().finite()
{
    if m.dom().len() == 0 {
        0
    } else {
        let k = m.dom().choose();
        m[k] + map_total(m.remove(k))
    }
}

/// Any key can be counted first.
pub proof fn lemma_map_total<K>(m: Map<K, u32>, k: K)
    requires
        m.dom().finite(),
        m.contains_key(k),
    ensures
        map_total(m) == m[k] + map_total(m.remove(k)),
    decreases m.dom().len(),
{
    assert(m.dom().len() > 0) by {
        if m.dom().len() == 0 {
            assert(m.dom() =~= Set::<K>::empty());
        }
    }
    let c = m.dom().choose();
    if c != k {
        let without_c = m.remove(c);
        let without_k = m.remove(k);
        assert(without_c.dom() =~= m.dom().remove(c));
        assert(without_k.dom() =~= m.dom().remove(k));
        lemma_map_total(without_c, k);
        lemma_map_total(without_k, c);
        assert(without_c.remove(k) =~= without_k.remove(c));
    }
}

/// The map of a list of pairs is finite.
pub proof fn lemma_pairs_finite<K, V>(s: Seq<(K, V)>)
    ensures
        pairs_map(s).dom().finite(),
    decreases s.len(),
{
    if s.len() == 0 {
        assert(pairs_map(s).dom() =~= Set::<K>::empty());
    } else {
        let rest = s.drop_last();
        lemma_pairs_finite(rest);
        assert forall|k: K| has_key(s, k) == (has_key(rest, k) || k == s.last().0) by {
            if has_key(s, k) && k != s.last().0 {
                let i = choose|i: int| #![trigger s[i]] 0 <= i < s.len() && s[i].0 == k;
                assert(rest[i].0 == k);
            }
            if has_key(rest, k) {
                let i = choose|i: int| #![trigger rest[i]] 0 <= i < rest.len() && rest[i].0 == k;
                assert(s[i].0 == k);
            }
            assert(s[s.len() - 1].0 == s.last().0);
        }
        assert(pairs_map(s).dom() =~= pairs_map(rest).dom().insert(s.last().0));
    }
}

/// A set with few elements.
pub struct KeySet<K> {
    pub map: KeyMap<K, ()>,
}

impl<K> View for KeySet<K> {
    type V = Set<K>;

    open spec fn view(&self) -> Set<K> {
        self.map@.dom()
    }
}

impl<K: Key> KeySet<K> {
    /// No element occurs twice.
    pub open spec fn wf(&self) -> bool {
        self.map.wf()
    }

    /// The empty set.
    pub fn new() -> (r: Self)
        ensures
            r.wf(),
            r@ == Set::<K>::empty(),
    {
        let r = KeySet { map: KeyMap::new() };
        assert(r@ =~= Set::<K>::empty());
        r
    }

    /// The number of elements.
    pub fn len(&self) -> (r: usize)
        ensures
            r == self.map.entries@.len(),
    {
        self.map.len()
    }

    /// Whether a key is in the set.
    pub fn contains(&self, k: &K) -> (r: bool)
        requires
            self.wf(),
        ensures
            r == self@.contains(*k),
    {
        self.map.contains(k)
    }

    /// Adds a key; whether it is new.
    pub fn insert(&mut self, k: K) -> (r: bool)
        requires
            old(self).wf(),
        ensures
            final(self).wf(),
            final(self)@ == old(self)@.insert(k),
            r == !old(self)@.contains(k),
    {
        let fresh: bool = !self.map.contains(&k);
        self.map.insert(k, ());
        assert(self@ =~= old(self)@.insert(k));
        fresh
    }

    /// Takes a key out of the set; whether it was in it.
    pub fn remove(&mut self, k: &K) -> (r: bool)
        requires
            old(self).wf(),
        ensures
            final(self).wf(),
            final(self)@ == old(self)@.remove(*k),
            r == old(self)@.contains(*k),
    {
        let found: bool = self.map.remove(k).is_some();
        assert(self@ =~= old(self)@.remove(*k));
        found
    }
}

} // verus!
