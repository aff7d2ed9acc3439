//! A small map backed by a vector of key/value pairs, kept in insertion order.
use vstd::prelude::*;
use vstd::laws_eq::obeys_concrete_eq;

verus! {

/// No key occurs twice in the pair sequence.
pub open spec fn keys_unique<K, V>(s: Seq<(K, V)>) -> bool {
    forall|i: int, j: int| 0 <= i < s.len() && 0 <= j < s.len() && i != j ==> #[trigger] s[i].0 != #[trigger] s[j].0
}

/// The map that a pair sequence describes; later pairs win (irrelevant when keys are unique).
pub open spec fn pairs_to_map<K, V>(s: Seq<(K, V)>) -> Map<K, V>
    decreases s.len(),
{
    if s.len() == 0 {
        Map::empty()
    } else {
        pairs_to_map(s.drop_last()).insert(s.last().0, s.last().1)
    }
}

/// Whether some pair of the sequence carries key `k`.
pub open spec fn has_key<K, V>(s: Seq<(K, V)>, k: K) -> bool {
    exists|i: int| 0 <= i < s.len() && #[trigger] s[i].0 == k
}

/// A key is in the described map exactly when some pair carries it.
pub proof fn lemma_pairs_to_map_dom<K, V>(s: Seq<(K, V)>, k: K)
    ensures
        pairs_to_map(s).dom().contains(k) <==> has_key(s, k),
    decreases s.len(),
{
    if s.len() > 0 {
        lemma_pairs_to_map_dom(s.drop_last(), k);
        if has_key(s, k) && s.last().0 != k {
            let i = choose|i: int| 0 <= i < s.len() && #[trigger] s[i].0 == k;
            assert(s.drop_last()[i].0 == k);
        }
        if has_key(s.drop_last(), k) {
            let i = choose|i: int| 0 <= i < s.drop_last().len() && #[trigger] s.drop_last()[i].0 == k;
            assert(s[i].0 == k);
        }
        if s.last().0 == k {
            assert(s[s.len() - 1].0 == k);
        }
    }
}

/// With unique keys, the value stored for the key of pair `i` is the value of pair `i`.
pub proof fn lemma_pairs_to_map_index<K, V>(s: Seq<(K, V)>, i: int)
    requires
        keys_unique(s),
        0 <= i < s.len(),
    ensures
        pairs_to_map(s).dom().contains(s[i].0),
        pairs_to_map(s)[s[i].0] == s[i].1,
    decreases s.len(),
{
    if i < s.len() - 1 {
        let t = s.drop_last();
        assert(keys_unique(t)) by {
            assert forall|a: int, b: int| 0 <= a < t.len() && 0 <= b < t.len() && a != b implies #[trigger] t[a].0 != #[trigger] t[b].0 by {
                assert(t[a] == s[a] && t[b] == s[b]);
            }
        }
        lemma_pairs_to_map_index(t, i);
        assert(t[i] == s[i]);
        assert(s[i].0 != s[s.len() - 1].0);
    }
}

/// With unique keys, the described map has as many keys as the sequence has pairs.
pub proof fn lemma_pairs_to_map_len<K, V>(s: Seq<(K, V)>)
    requires
        keys_unique(s),
    ensures
        pairs_to_map(s).dom().finite(),
        pairs_to_map(s).dom().len() == s.len(),
    decreases s.len(),
{
    if s.len() > 0 {
        let t = s.drop_last();
        assert(keys_unique(t)) by {
            assert forall|a: int, b: int| 0 <= a < t.len() && 0 <= b < t.len() && a != b implies #[trigger] t[a].0 != #[trigger] t[b].0 by {
                assert(t[a] == s[a] && t[b] == s[b]);
            }
        }
        lemma_pairs_to_map_len(t);
        lemma_pairs_to_map_dom(t, s.last().0);
        if has_key(t, s.last().0) {
            let i = choose|i: int| 0 <= i < t.len() && #[trigger] t[i].0 == s.last().0;
            assert(s[i].0 == s[s.len() - 1].0);
        }
    }
}

/// Two sequences with unique keys that hold the same pairs (up to order) describe the same map.
pub proof fn lemma_pairs_to_map_same_pairs<K, V>(s: Seq<(K, V)>, t: Seq<(K, V)>)
    requires
        keys_unique(s),
        keys_unique(t),
        forall|i: int| 0 <= i < s.len() ==> t.contains(#[trigger] s[i]),
        forall|j: int| 0 <= j < t.len() ==> s.contains(#[trigger] t[j]),
    ensures
        pairs_to_map(s) == pairs_to_map(t),
{
    assert forall|k: K| #[trigger] pairs_to_map(s).dom().contains(k) == pairs_to_map(t).dom().contains(k) by {
        lemma_pairs_to_map_dom(s, k);
        lemma_pairs_to_map_dom(t, k);
        if has_key(s, k) {
            let i = choose|i: int| 0 <= i < s.len() && #[trigger] s[i].0 == k;
            assert(t.contains(s[i]));
            let j = choose|j: int| 0 <= j < t.len() && t[j] == s[i];
            assert(t[j].0 == k);
        }
        if has_key(t, k) {
            let j = choose|j: int| 0 <= j < t.len() && #[trigger] t[j].0 == k;
            assert(s.contains(t[j]));
            let i = choose|i: int| 0 <= i < s.len() && s[i] == t[j];
            assert(s[i].0 == k);
        }
    }
    assert forall|k: K| #[trigger] pairs_to_map(s).dom().contains(k) implies pairs_to_map(s)[k] == pairs_to_map(t)[k] by {
        lemma_pairs_to_map_dom(s, k);
        let i = choose|i: int| 0 <= i < s.len() && #[trigger] s[i].0 == k;
        assert(t.contains(s[i]));
        let j = choose|j: int| 0 <= j < t.len() && t[j] == s[i];
        lemma_pairs_to_map_index(s, i);
        lemma_pairs_to_map_index(t, j);
    }
    assert(pairs_to_map(s) =~= pairs_to_map(t));
}

/// Replacing the value of pair `i` replaces the value stored under its key.
pub proof fn lemma_pairs_to_map_update<K, V>(s: Seq<(K, V)>, i: int, v: V)
    requires
        keys_unique(s),
        0 <= i < s.len(),
    ensures
        keys_unique(s.update(i, (s[i].0, v))),
        pairs_to_map(s.update(i, (s[i].0, v))) == pairs_to_map(s).insert(s[i].0, v),
    decreases s.len(),
{
    let u = s.update(i, (s[i].0, v));
    assert(keys_unique(u)) by {
        assert forall|a: int, b: int| 0 <= a < u.len() && 0 <= b < u.len() && a != b implies #[trigger] u[a].0 != #[trigger] u[b].0 by {
            assert(u[a].0 == s[a].0 && u[b].0 == s[b].0);
        }
    }
    if i == s.len() - 1 {
        assert(u.drop_last() == s.drop_last());
        assert(pairs_to_map(u) =~= pairs_to_map(s).insert(s[i].0, v));
    } else {
        let t = s.drop_last();
        assert(keys_unique(t)) by {
            assert forall|a: int, b: int| 0 <= a < t.len() && 0 <= b < t.len() && a != b implies #[trigger] t[a].0 != #[trigger] t[b].0 by {
                assert(t[a] == s[a] && t[b] == s[b]);
            }
        }
        lemma_pairs_to_map_update(t, i, v);
        assert(u.drop_last() == t.update(i, (t[i].0, v)));
        assert(s[i].0 != s[s.len() - 1].0);
        assert(pairs_to_map(u) =~= pairs_to_map(s).insert(s[i].0, v));
    }
}

/// Removing pair `i` by moving the last pair into its place removes its key from the map.
pub proof fn lemma_pairs_to_map_swap_remove<K, V>(s: Seq<(K, V)>, i: int)
    requires
        keys_unique(s),
        0 <= i < s.len(),
    ensures
        keys_unique(s.update(i, s.last()).drop_last()),
        pairs_to_map(s.update(i, s.last()).drop_last()) == pairs_to_map(s).remove(s[i].0),
{
    let n = s.len();
    let t = s.update(i, s.last()).drop_last();
    assert forall|j: int| 0 <= j < t.len() implies #[trigger] t[j] == (if j == i { s[n - 1] } else { s[j] }) by {}
    assert(keys_unique(t)) by {
        assert forall|a: int, b: int| 0 <= a < t.len() && 0 <= b < t.len() && a != b implies #[trigger] t[a].0 != #[trigger] t[b].0 by {
            let ia = if a == i { n - 1 } else { a };
            let ib = if b == i { n - 1 } else { b };
            assert(t[a] == s[ia] && t[b] == s[ib]);
        }
    }
    let k = s[i].0;
    assert forall|key: K| #[trigger] pairs_to_map(t).dom().contains(key) == pairs_to_map(s).remove(k).dom().contains(key) by {
        lemma_pairs_to_map_dom(t, key);
        lemma_pairs_to_map_dom(s, key);
        if has_key(t, key) {
            let j = choose|j: int| 0 <= j < t.len() && #[trigger] t[j].0 == key;
            let ij = if j == i { n - 1 } else { j };
            assert(s[ij].0 == key);
            assert(ij != i);
        }
        if has_key(s, key) && key != k {
            let j = choose|j: int| 0 <= j < s.len() && #[trigger] s[j].0 == key;
            assert(j != i);
            if j == n - 1 {
                assert(t[i].0 == key);
            } else {
                assert(t[j].0 == key);
            }
        }
    }
    assert forall|key: K| #[trigger] pairs_to_map(t).dom().contains(key) implies pairs_to_map(t)[key] == pairs_to_map(s)[key] by {
        lemma_pairs_to_map_dom(t, key);
        let j = choose|j: int| 0 <= j < t.len() && #[trigger] t[j].0 == key;
        let ij = if j == i { n - 1 } else { j };
        lemma_pairs_to_map_index(t, j);
        lemma_pairs_to_map_index(s, ij);
    }
    assert(pairs_to_map(t) =~= pairs_to_map(s).remove(k));
}

/// Appending a pair with a new key keeps the keys unique and adds that key to the map.
pub proof fn lemma_pairs_to_map_push<K, V>(s: Seq<(K, V)>, k: K, v: V)
    requires
        keys_unique(s),
        !has_key(s, k),
    ensures
        keys_unique(s.push((k, v))),
        pairs_to_map(s.push((k, v))) == pairs_to_map(s).insert(k, v),
{
    let t = s.push((k, v));
    assert(t.drop_last() == s);
    assert forall|i: int, j: int| 0 <= i < t.len() && 0 <= j < t.len() && i != j implies #[trigger] t[i].0 != #[trigger] t[j].0 by {
        if i == t.len() - 1 {
            assert(s[j] == t[j]);
        } else if j == t.len() - 1 {
            assert(s[i] == t[i]);
        } else {
            assert(s[i] == t[i] && s[j] == t[j]);
        }
    }
}

/// A map from `K` to `V` stored as a vector of pairs in insertion order.
/// Lookups are linear; keys are compared with `==`.
#[derive(Debug, Clone)]
pub struct VecMap<K, V> {
    inner: Vec<(K, V)>,
}

impl<K, V> View for VecMap<K, V> {
    type V = Map<K, V>;

    open spec fn view(&self) -> Map<K, V> {
        pairs_to_map(self.entries())
    }
}

impl<K, V> VecMap<K, V> {
    /// The stored pairs, in insertion order (removal moves the last pair into the gap).
    pub closed spec fn entries(&self) -> Seq<(K, V)> {
        self.inner@
    }

    /// The well-formedness invariant: no key is stored twice.
    pub open spec fn wf(&self) -> bool {
        keys_unique(self.entries())
    }
}

impl<K: PartialEq, V> VecMap<K, V> {

    /// Creates an empty map.
    pub fn new() -> (r: Self)
        ensures
            r.wf(),
            r.entries() == Seq::<(K, V)>::empty(),
            r@ == Map::<K, V>::empty(),
    {
        VecMap { inner: Vec::new() }
    }

    /// Number of stored pairs, which is the number of keys.
    pub fn len(&self) -> (r: usize)
        requires
            self.wf(),
        ensures
            r == self.entries().len(),
            r == self@.dom().len(),
            self@.dom().finite(),
    {
        proof {
            lemma_pairs_to_map_len(self.entries());
        }
        self.inner.len()
    }

    /// Whether the map holds no key.
    pub fn is_empty(&self) -> (r: bool)
        requires
            self.wf(),
        ensures
            r == (self@.dom().len() == 0),
            r == (self.entries().len() == 0),
    {
        self.len() == 0
    }

    /// Removes every pair.
    pub fn clear(&mut self)
        ensures
            final(self).wf(),
            final(self).entries() == Seq::<(K, V)>::empty(),
            final(self)@ == Map::<K, V>::empty(),
    {
        self.inner.clear();
    }

    /// Index of the pair with key `key`, if any.
    fn find_index(&self, key: &K) -> (r: Option<usize>)
        requires
            obeys_concrete_eq::<K>(),
        ensures
            match r {
                Some(i) => i < self.entries().len() && self.entries()[i as int].0 == *key,
                None => !has_key(self.entries(), *key),
            },
    {
        proof {
            reveal(obeys_concrete_eq);
        }
        let mut idx: usize = 0;
        while idx < self.inner.len()
            invariant
                obeys_concrete_eq::<K>(),
                idx <= self.inner@.len(),
                forall|j: int| 0 <= j < idx ==> #[trigger] self.inner@[j].0 != *key,
            decreases self.inner@.len() - idx,
        {
            proof {
                reveal(obeys_concrete_eq);
            }
            if self.inner[idx].0 == *key {
                return Some(idx);
            }
            idx = idx + 1;
        }
        None
    }

    /// Whether `key` is stored.
    pub fn contains_key(&self, key: &K) -> (r: bool)
        requires
            obeys_concrete_eq::<K>(),
        ensures
            r == self@.dom().contains(*key),
            r == has_key(self.entries(), *key),
    {
        proof {
            lemma_pairs_to_map_dom(self.entries(), *key);
        }
        self.find_index(key).is_some()
    }

    /// Same as `contains_key`.
    pub fn contains(&self, key: &K) -> (r: bool)
        requires
            obeys_concrete_eq::<K>(),
        ensures
            r == self@.dom().contains(*key),
    {
        self.contains_key(key)
    }

    /// Stores `value` under `key` if `key` is not stored yet; an existing value is never
    /// overwritten. Returns whether the pair was added.
    pub fn insert(&mut self, key: K, value: V) -> (r: bool)
        requires
            old(self).wf(),
            obeys_concrete_eq::<K>(),
        ensures
            final(self).wf(),
            r == !old(self)@.dom().contains(key),
            r ==> final(self).entries() == old(self).entries().push((key, value)),
            r ==> final(self)@ == old(self)@.insert(key, value),
            !r ==> final(self).entries() == old(self).entries(),
            !r ==> final(self)@ == old(self)@,
    {
        if self.contains_key(&key) {
            false
        } else {
            proof {
                lemma_pairs_to_map_push(self.entries(), key, value);
            }
            self.inner.push((key, value));
            true
        }
    }

    /// The value stored under `key`, if any.
    pub fn get(&self, key: &K) -> (r: Option<&V>)
        requires
            self.wf(),
            obeys_concrete_eq::<K>(),
        ensures
            r == (if self@.dom().contains(*key) { Some(&self@[*key]) } else { None }),
    {
        proof {
            lemma_pairs_to_map_dom(self.entries(), *key);
        }
        match self.find_index(key) {
            Some(i) => {
                proof {
                    lemma_pairs_to_map_index(self.entries(), i as int);
                }
                Some(&self.inner[i].1)
            },
            None => None,
        }
    }

    /// A mutable reference to the value stored under `key`, if any.
    pub fn get_mut(&mut self, key: &K) -> (r: Option<&mut V>)
        requires
            old(self).wf(),
            obeys_concrete_eq::<K>(),
        ensures
            r is Some <==> old(self)@.dom().contains(*key),
            r is None ==> *final(self) == *old(self),
            r matches Some(v) ==> {
                &&& *v == old(self)@[*key]
                &&& final(self).wf()
                &&& final(self)@ == old(self)@.insert(*key, *final(v))
            },
    {
        proof {
            lemma_pairs_to_map_dom(self.entries(), *key);
        }
        match self.find_index(key) {
            Some(i) => {
                proof {
                    lemma_pairs_to_map_index(self.entries(), i as int);
                    let s = self.entries();
                    assert forall|v: V| #![trigger s.update(i as int, (s[i as int].0, v))]
                        keys_unique(s.update(i as int, (s[i as int].0, v)))
                        && pairs_to_map(s.update(i as int, (s[i as int].0, v))) == pairs_to_map(s).insert(s[i as int].0, v) by {
                        lemma_pairs_to_map_update(s, i as int, v);
                    }
                }
                Some(&mut self.inner[i].1)
            },
            None => None,
        }
    }

    /// Removes `key` and returns its value. The last pair moves into the freed slot.
    pub fn remove(&mut self, key: &K) -> (r: Option<V>)
        requires
            old(self).wf(),
            obeys_concrete_eq::<K>(),
        ensures
            final(self).wf(),
            r == (if old(self)@.dom().contains(*key) { Some(old(self)@[*key]) } else { None }),
            final(self)@ == old(self)@.remove(*key),
            !old(self)@.dom().contains(*key) ==> final(self).entries() == old(self).entries(),
            old(self)@.dom().contains(*key) ==> exists|i: int| 0 <= i < old(self).entries().len()
                && (#[trigger] old(self).entries()[i]).0 == *key
                && final(self).entries() == old(self).entries().update(i, old(self).entries().last()).drop_last(),
    {
        proof {
            lemma_pairs_to_map_dom(self.entries(), *key);
        }
        match self.find_index(key) {
            Some(i) => {
                proof {
                    lemma_pairs_to_map_index(self.entries(), i as int);
                    lemma_pairs_to_map_swap_remove(self.entries(), i as int);
                }
                let pair = self.inner.swap_remove(i);
                Some(pair.1)
            },
            None => {
                proof {
                    assert(pairs_to_map(self.entries()) =~= pairs_to_map(self.entries()).remove(*key));
                }
                None
            },
        }
    }

    /// The keys in storage order.
    pub fn keys(&self) -> (r: Vec<&K>)
        ensures
            r@.len() == self.entries().len(),
            forall|i: int| 0 <= i < r@.len() ==> *r@[i] == self.entries()[i].0,
    {
        let mut r: Vec<&K> = Vec::new();
        let mut i: usize = 0;
        while i < self.inner.len()
            invariant
                i <= self.inner@.len(),
                r@.len() == i,
                forall|j: int| 0 <= j < i ==> *r@[j] == self.inner@[j].0,
            decreases self.inner@.len() - i,
        {
            r.push(&self.inner[i].0);
            i = i + 1;
        }
        r
    }

    /// The values in storage order.
    pub fn values(&self) -> (r: Vec<&V>)
        ensures
            r@.len() == self.entries().len(),
            forall|i: int| 0 <= i < r@.len() ==> *r@[i] == self.entries()[i].1,
    {
        let mut r: Vec<&V> = Vec::new();
        let mut i: usize = 0;
        while i < self.inner.len()
            invariant
                i <= self.inner@.len(),
                r@.len() == i,
                forall|j: int| 0 <= j < i ==> *r@[j] == self.inner@[j].1,
            decreases self.inner@.len() - i,
        {
            r.push(&self.inner[i].1);
            i = i + 1;
        }
        r
    }

    /// The stored pairs in storage order.
    pub fn iter(&self) -> (r: &[(K, V)])
        ensures
            r@ == self.entries(),
    {
        self.inner.as_slice()
    }

    /// The entry for `key`, to look it up or fill it in.
    pub fn entry(&mut self, key: K) -> (r: Entry<'_, K, V>)
        ensures
            *r.map == *old(self),
            r.key == key,
            *final(self) == *final(r.map),
    {
        Entry { map: self, key }
    }
}

/// A place in a `VecMap` for one key, which may or may not be filled yet.
pub struct Entry<'a, K, V> {
    pub map: &'a mut VecMap<K, V>,
    pub key: K,
}

impl<'a, K: PartialEq, V> Entry<'a, K, V> {
    /// The value stored under the entry's key; if there is none, `V::default()` is stored first.
    pub fn or_default(self) -> (r: &'a mut V)
        where
            V: Default,
        requires
            old(self.map).wf(),
            obeys_concrete_eq::<K>(),
        ensures
            final(self.map).wf(),
            old(self.map)@.dom().contains(self.key) ==> *r == old(self.map)@[self.key],
            !old(self.map)@.dom().contains(self.key) ==> call_ensures(V::default, (), *r),
            final(self.map)@ == old(self.map)@.insert(self.key, *final(r)),
            old(self.map)@.dom().contains(self.key) ==> exists|i: int| 0 <= i < old(self.map).entries().len()
                && (#[trigger] old(self.map).entries()[i]).0 == self.key
                && final(self.map).entries() == old(self.map).entries().update(i, (self.key, *final(r))),
            !old(self.map)@.dom().contains(self.key) ==> final(self.map).entries() == old(self.map).entries().push((self.key, *final(r))),
    {
        let map = self.map;
        let key = self.key;
        proof {
            lemma_pairs_to_map_dom(map.entries(), key);
        }
        match map.find_index(&key) {
            Some(i) => {
                proof {
                    lemma_pairs_to_map_index(map.entries(), i as int);
                    let s = map.entries();
                    assert forall|v: V| #![trigger s.update(i as int, (s[i as int].0, v))]
                        keys_unique(s.update(i as int, (s[i as int].0, v)))
                        && pairs_to_map(s.update(i as int, (s[i as int].0, v))) == pairs_to_map(s).insert(s[i as int].0, v) by {
                        lemma_pairs_to_map_update(s, i as int, v);
                    }
                }
                &mut map.inner[i].1
            },
            None => {
                let v = V::default();
                let ghost s = map.entries();
                proof {
                    lemma_pairs_to_map_push(s, key, v);
                }
                map.inner.push((key, v));
                let last = map.inner.len() - 1;
                proof {
                    let s2 = map.entries();
                    assert forall|w: V| #![trigger s2.update(last as int, (s2[last as int].0, w))]
                        keys_unique(s2.update(last as int, (s2[last as int].0, w)))
                        && pairs_to_map(s2.update(last as int, (s2[last as int].0, w))) == pairs_to_map(s).insert(key, w) by {
                        lemma_pairs_to_map_update(s2, last as int, w);
                        assert(pairs_to_map(s).insert(key, v).insert(key, w) =~= pairs_to_map(s).insert(key, w));
                    }
                }
                &mut map.inner[last].1
            },
        }
    }

    /// The value stored under the entry's key; if there is none, the result of `default()` is
    /// stored first (`default` is only called in that case).
    pub fn or_insert_with<F>(self, default: F) -> (r: &'a mut V)
        where
            F: FnOnce() -> V,
        requires
            call_requires(default, ()),
            old(self.map).wf(),
            obeys_concrete_eq::<K>(),
        ensures
            final(self.map).wf(),
            old(self.map)@.dom().contains(self.key) ==> *r == old(self.map)@[self.key],
            !old(self.map)@.dom().contains(self.key) ==> call_ensures(default, (), *r),
            final(self.map)@ == old(self.map)@.insert(self.key, *final(r)),
            old(self.map)@.dom().contains(self.key) ==> exists|i: int| 0 <= i < old(self.map).entries().len()
                && (#[trigger] old(self.map).entries()[i]).0 == self.key
                && final(self.map).entries() == old(self.map).entries().update(i, (self.key, *final(r))),
            !old(self.map)@.dom().contains(self.key) ==> final(self.map).entries() == old(self.map).entries().push((self.key, *final(r))),
    {
        let map = self.map;
        let key = self.key;
        proof {
            lemma_pairs_to_map_dom(map.entries(), key);
        }
        match map.find_index(&key) {
            Some(i) => {
                proof {
                    lemma_pairs_to_map_index(map.entries(), i as int);
                    let s = map.entries();
                    assert forall|v: V| #![trigger s.update(i as int, (s[i as int].0, v))]
                        keys_unique(s.update(i as int, (s[i as int].0, v)))
                        && pairs_to_map(s.update(i as int, (s[i as int].0, v))) == pairs_to_map(s).insert(s[i as int].0, v) by {
                        lemma_pairs_to_map_update(s, i as int, v);
                    }
                }
                &mut map.inner[i].1
            },
            None => {
                let v = default();
                let ghost s = map.entries();
                proof {
                    lemma_pairs_to_map_push(s, key, v);
                }
                map.inner.push((key, v));
                let last = map.inner.len() - 1;
                proof {
                    let s2 = map.entries();
                    assert forall|w: V| #![trigger s2.update(last as int, (s2[last as int].0, w))]
                        keys_unique(s2.update(last as int, (s2[last as int].0, w)))
                        && pairs_to_map(s2.update(last as int, (s2[last as int].0, w))) == pairs_to_map(s).insert(key, w) by {
                        lemma_pairs_to_map_update(s2, last as int, w);
                        assert(pairs_to_map(s).insert(key, v).insert(key, w) =~= pairs_to_map(s).insert(key, w));
                    }
                }
                &mut map.inner[last].1
            },
        }
    }
}

impl<K, V> Default for VecMap<K, V> {
    fn default() -> (r: Self)
        ensures
            r.entries() == Seq::<(K, V)>::empty(),
            r@ == Map::<K, V>::empty(),
    {
        VecMap { inner: Vec::new() }
    }
}

/// What `==` on two `VecMap`s computes: equally many pairs, and every pair of `a` occurs in `b`.
pub open spec fn same_pairs<K, V>(a: Seq<(K, V)>, b: Seq<(K, V)>) -> bool {
    &&& a.len() == b.len()
    &&& forall|i: int| 0 <= i < a.len() ==> b.contains(#[trigger] a[i])
}

impl<K: PartialEq, V: PartialEq> PartialEq for VecMap<K, V> {
    fn eq(&self, other: &Self) -> (r: bool) {
        if self.inner.len() != other.inner.len() {
            return false;
        }
        let ghost law = obeys_concrete_eq::<K>() && obeys_concrete_eq::<V>();
        let mut i: usize = 0;
        while i < self.inner.len()
            invariant
                law == (obeys_concrete_eq::<K>() && obeys_concrete_eq::<V>()),
                i <= self.inner@.len(),
                self.inner@.len() == other.inner@.len(),
                law ==> forall|k: int| 0 <= k < i ==> other.inner@.contains(#[trigger] self.inner@[k]),
            decreases self.inner@.len() - i,
        {
            let mut found = false;
            let mut j: usize = 0;
            while j < other.inner.len()
                invariant
                    law == (obeys_concrete_eq::<K>() && obeys_concrete_eq::<V>()),
                    i < self.inner@.len(),
                    j <= other.inner@.len(),
                    self.inner@.len() == other.inner@.len(),
                    law && found ==> other.inner@.contains(self.inner@[i as int]),
                    law && !found ==> forall|k: int| 0 <= k < j ==> #[trigger] other.inner@[k] != self.inner@[i as int],
                decreases other.inner@.len() - j,
            {
                proof {
                    reveal(obeys_concrete_eq);
                }
                if !found && other.inner[j].0 == self.inner[i].0 && other.inner[j].1 == self.inner[i].1 {
                    found = true;
                    proof {
                        if law {
                            assert(other.inner@[j as int] == self.inner@[i as int]);
                        }
                    }
                }
                j = j + 1;
            }
            if !found {
                proof {
                    if law {
                        assert(!other.inner@.contains(self.inner@[i as int]));
                    }
                }
                return false;
            }
            i = i + 1;
        }
        true
    }
}

impl<K: PartialEq, V: PartialEq> vstd::std_specs::cmp::PartialEqSpecImpl for VecMap<K, V> {
    open spec fn obeys_eq_spec() -> bool {
        obeys_concrete_eq::<K>() && obeys_concrete_eq::<V>()
    }

    open spec fn eq_spec(&self, other: &Self) -> bool {
        same_pairs(self.entries(), other.entries())
    }
}

/// The pairs that `iter` and `keys` list are exactly what `contains_key` and `get` see: a key is
/// in the map when some stored pair carries it, each stored pair's value is the one `get` gives
/// for its key, and there are as many pairs as keys.
pub proof fn lemma_entries_are_the_map<K, V>(m: VecMap<K, V>)
    requires
        m.wf(),
    ensures
        forall|k: K| #[trigger] m@.dom().contains(k) <==> has_key(m.entries(), k),
        forall|i: int| 0 <= i < m.entries().len() ==> m@.dom().contains(#[trigger] m.entries()[i].0)
            && m@[m.entries()[i].0] == m.entries()[i].1,
        m@.dom().finite(),
        m@.dom().len() == m.entries().len(),
{
    assert forall|k: K| #[trigger] m@.dom().contains(k) <==> has_key(m.entries(), k) by {
        lemma_pairs_to_map_dom(m.entries(), k);
    }
    assert forall|i: int| 0 <= i < m.entries().len() implies m@.dom().contains(#[trigger] m.entries()[i].0)
        && m@[m.entries()[i].0] == m.entries()[i].1 by {
        lemma_pairs_to_map_index(m.entries(), i);
    }
    lemma_pairs_to_map_len(m.entries());
}

/// Two well-formed maps are `==` exactly when they map the same keys to the same values, in
/// whatever order their pairs were inserted.
pub proof fn lemma_eq_is_map_equality<K, V>(a: VecMap<K, V>, b: VecMap<K, V>)
    requires
        a.wf(),
        b.wf(),
    ensures
        same_pairs(a.entries(), b.entries()) <==> a@ == b@,
{
    let s = a.entries();
    let t = b.entries();
    lemma_pairs_to_map_len(s);
    lemma_pairs_to_map_len(t);
    if same_pairs(s, t) {
        assert forall|k: K| pairs_to_map(s).dom().contains(k) implies #[trigger] pairs_to_map(t).dom().contains(k)
            && pairs_to_map(s)[k] == pairs_to_map(t)[k] by {
            lemma_pairs_to_map_dom(s, k);
            let i = choose|i: int| 0 <= i < s.len() && #[trigger] s[i].0 == k;
            assert(t.contains(s[i]));
            let j = choose|j: int| 0 <= j < t.len() && t[j] == s[i];
            lemma_pairs_to_map_index(s, i);
            lemma_pairs_to_map_index(t, j);
        }
        vstd::set_lib::lemma_subset_equality(pairs_to_map(s).dom(), pairs_to_map(t).dom());
        assert(pairs_to_map(s) =~= pairs_to_map(t));
    }
    if a@ == b@ {
        assert forall|i: int| 0 <= i < s.len() implies t.contains(#[trigger] s[i]) by {
            lemma_pairs_to_map_index(s, i);
            lemma_pairs_to_map_dom(t, s[i].0);
            let j = choose|j: int| 0 <= j < t.len() && #[trigger] t[j].0 == s[i].0;
            lemma_pairs_to_map_index(t, j);
            assert(t[j] == s[i]);
        }
    }
}

} // verus!
