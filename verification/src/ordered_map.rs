use vstd::prelude::*;

verus! {

/// A key of an [`OrderedMap`]: a plain value whose executable comparison
/// agrees with equality in specifications.
pub trait MapKey: Copy {
    /// Whether the two keys are the same.
    fn same(&self, other: &Self) -> (b: bool)
        ensures
            b == (*self == *other),
    ;
}

impl MapKey for u32 {
    fn same(&self, other: &Self) -> (b: bool) {
        *self == *other
    }
}

/// No key occurs twice among the entries.
pub open spec fn distinct_keys<K, V>(s: Seq<(K, V)>) -> bool {
    forall|i: int, j: int| 0 <= i < j < s.len() ==> s[i].0 != s[j].0
}

/// Some entry of `s` has key `k`.
pub open spec fn has_key<K, V>(s: Seq<(K, V)>, k: K) -> bool {
    exists|i: int| 0 <= i < s.len() && #[trigger] s[i].0 == k
}

/// An index at which `k` is found; meaningful when `has_key(s, k)`.
pub open spec fn position_of<K, V>(s: Seq<(K, V)>, k: K) -> int {
    choose|i: int| 0 <= i < s.len() && #[trigger] s[i].0 == k
}

/// The value stored under `k`; meaningful when `has_key(s, k)`.
pub open spec fn value_of<K, V>(s: Seq<(K, V)>, k: K) -> V {
    s[position_of(s, k)].1
}

/// The value stored under `k`, if any.
pub open spec fn lookup<K, V>(s: Seq<(K, V)>, k: K) -> Option<V> {
    if has_key(s, k) {
        Some(value_of(s, k))
    } else {
        None
    }
}

/// `s` with `k` bound to `v`: an existing entry keeps its place, a new one goes last.
pub open spec fn put<K, V>(s: Seq<(K, V)>, k: K, v: V) -> Seq<(K, V)> {
    if has_key(s, k) {
        s.update(position_of(s, k), (k, v))
    } else {
        s.push((k, v))
    }
}

/// `s` without the entry for `k`; the other entries keep their order.
pub open spec fn delete<K, V>(s: Seq<(K, V)>, k: K) -> Seq<(K, V)> {
    if has_key(s, k) {
        s.remove(position_of(s, k))
    } else {
        s
    }
}

/// In a sequence with distinct keys, the place of a key is the only index that holds it.
pub proof fn lemma_position_unique<K, V>(s: Seq<(K, V)>, i: int)
    requires
        distinct_keys(s),
        0 <= i < s.len(),
    ensures
        has_key(s, s[i].0),
        position_of(s, s[i].0) == i,
{
    assert(s[i].0 == s[i].0);
    let p = position_of(s, s[i].0);
    assert(0 <= p < s.len() && s[p].0 == s[i].0);
    if p < i {
        assert(s[p].0 != s[i].0);
    } else if i < p {
        assert(s[i].0 != s[p].0);
    }
}

/// `put` keeps the keys distinct, binds `k` to `v` and leaves every other key as it was.
pub proof fn lemma_put<K, V>(s: Seq<(K, V)>, k: K, v: V)
    requires
        distinct_keys(s),
    ensures
        distinct_keys(put(s, k, v)),
        has_key(put(s, k, v), k),
        value_of(put(s, k, v), k) == v,
        forall|o: K| o != k ==> has_key(put(s, k, v), o) == has_key(s, o),
        forall|o: K| o != k && has_key(s, o) ==> value_of(put(s, k, v), o) == value_of(s, o),
{
    let t = put(s, k, v);
    let p = if has_key(s, k) {
        position_of(s, k)
    } else {
        s.len() as int
    };
    assert(t[p].0 == k);
    assert forall|i: int, j: int| 0 <= i < j < t.len() implies t[i].0 != t[j].0 by {
        if j < s.len() {
            assert(s[i].0 != s[j].0);
        } else {
            assert(s[i].0 != k);
        }
    }
    lemma_position_unique(t, p);
    assert forall|o: K| o != k implies has_key(t, o) == has_key(s, o) by {
        if has_key(s, o) {
            let q = position_of(s, o);
            assert(t[q].0 == o);
        }
        if has_key(t, o) {
            let q = position_of(t, o);
            assert(s[q].0 == o);
        }
    }
    assert forall|o: K| o != k && has_key(s, o) implies value_of(t, o) == value_of(s, o) by {
        let q = position_of(s, o);
        assert(t[q].0 == o);
        lemma_position_unique(t, q);
    }
}

/// `delete` keeps the keys distinct, unbinds `k` and leaves every other key as it was.
pub proof fn lemma_delete<K, V>(s: Seq<(K, V)>, k: K)
    requires
        distinct_keys(s),
    ensures
        distinct_keys(delete(s, k)),
        !has_key(delete(s, k), k),
        forall|o: K| o != k ==> has_key(delete(s, k), o) == has_key(s, o),
        forall|o: K| o != k && has_key(s, o) ==> value_of(delete(s, k), o) == value_of(s, o),
{
    let t = delete(s, k);
    if has_key(s, k) {
        let p = position_of(s, k);
        assert forall|i: int| 0 <= i < t.len() implies t[i] == s[if i < p { i } else { i + 1 }] by {}
        assert forall|i: int, j: int| 0 <= i < j < t.len() implies t[i].0 != t[j].0 by {
            let a = if i < p { i } else { i + 1 };
            let b = if j < p { j } else { j + 1 };
            assert(s[a].0 != s[b].0);
        }
        if has_key(t, k) {
            let q = position_of(t, k);
            let a = if q < p { q } else { q + 1 };
            assert(s[a].0 == k);
            lemma_position_unique(s, a);
        }
        assert forall|o: K| o != k implies has_key(t, o) == has_key(s, o) by {
            if has_key(s, o) {
                let q = position_of(s, o);
                let a = if q < p { q } else { q - 1 };
                assert(t[a].0 == o);
            }
            if has_key(t, o) {
                let q = position_of(t, o);
                let a = if q < p { q } else { q + 1 };
                assert(s[a].0 == o);
            }
        }
        assert forall|o: K| o != k && has_key(s, o) implies value_of(t, o) == value_of(s, o) by {
            let q = position_of(s, o);
            let a = if q < p { q } else { q - 1 };
            assert(t[a].0 == o);
            lemma_position_unique(t, a);
        }
    }
}

/// The value found under a key stands at some index of the sequence.
pub proof fn lemma_lookup_index<K, V>(s: Seq<(K, V)>, k: K)
    ensures
        has_key(s, k) ==> 0 <= position_of(s, k) < s.len() && s[position_of(s, k)] == (
            k,
            value_of(s, k),
        ),
{
}

/// The entries of `s` with each value replaced by its view.
pub open spec fn deep<K, V: View>(s: Seq<(K, V)>) -> Seq<(K, V::V)> {
    Seq::new(s.len(), |i: int| (s[i].0, s[i].1@))
}

/// Taking views changes no key: lookups, insertions and removals go through.
pub proof fn lemma_deep<K, V: View>(s: Seq<(K, V)>)
    requires
        distinct_keys(s),
    ensures
        distinct_keys(deep(s)),
        forall|k: K| has_key(deep(s), k) == has_key(s, k),
        forall|k: K| has_key(s, k) ==> position_of(deep(s), k) == position_of(s, k),
        forall|k: K| has_key(s, k) ==> value_of(deep(s), k) == value_of(s, k)@,
        forall|k: K, v: V| #[trigger] deep(put(s, k, v)) == put(deep(s), k, v@),
        forall|k: K| #[trigger] deep(delete(s, k)) == delete(deep(s), k),
{
    let d = deep(s);
    assert forall|k: K| has_key(d, k) == has_key(s, k) by {
        if has_key(s, k) {
            let p = position_of(s, k);
            assert(d[p].0 == k);
        }
        if has_key(d, k) {
            let p = position_of(d, k);
            assert(s[p].0 == k);
        }
    }
    assert forall|k: K| has_key(s, k) implies position_of(d, k) == position_of(s, k) by {
        let p = position_of(s, k);
        assert(d[p].0 == k);
        lemma_position_unique(d, p);
    }
    assert forall|k: K, v: V| #[trigger] deep(put(s, k, v)) == put(d, k, v@) by {
        assert(deep(put(s, k, v)) =~= put(d, k, v@));
    }
    assert forall|k: K| #[trigger] deep(delete(s, k)) == delete(d, k) by {
        assert(deep(delete(s, k)) =~= delete(d, k));
    }
}

/// Replacing the value of an entry changes no key.
pub proof fn lemma_update_keys<K, V>(s: Seq<(K, V)>, i: int, v: V)
    requires
        0 <= i < s.len(),
    ensures
        forall|k: K| has_key(s.update(i, (s[i].0, v)), k) == has_key(s, k),
        distinct_keys(s) ==> distinct_keys(s.update(i, (s[i].0, v))),
{
    let t = s.update(i, (s[i].0, v));
    assert forall|k: K| has_key(t, k) == has_key(s, k) by {
        if has_key(s, k) {
            let p = position_of(s, k);
            assert(t[p].0 == k);
        }
        if has_key(t, k) {
            let p = position_of(t, k);
            assert(s[p].0 == k);
        }
    }
    if distinct_keys(s) {
        lemma_same_keys(s, t);
    }
}

/// Binding a key twice is binding it to the second value.
pub proof fn lemma_put_twice<K, V>(s: Seq<(K, V)>, k: K, v: V, w: V)
    requires
        distinct_keys(s),
    ensures
        put(put(s, k, v), k, w) == put(s, k, w),
{
    let t = put(s, k, v);
    lemma_put(s, k, v);
    if has_key(s, k) {
        let p = position_of(s, k);
        assert(t[p].0 == k);
        lemma_position_unique(t, p);
        assert(put(t, k, w) =~= put(s, k, w));
    } else {
        let p = s.len() as int;
        assert(t[p].0 == k);
        lemma_position_unique(t, p);
        assert(put(t, k, w) =~= put(s, k, w));
    }
}

/// Two sequences that hold the same keys at the same places hold them
/// equally often: if no key occurs twice in the one, none does in the other.
pub proof fn lemma_same_keys<K, V, W>(s: Seq<(K, V)>, t: Seq<(K, W)>)
    requires
        distinct_keys(s),
        s.len() == t.len(),
        forall|i: int| 0 <= i < s.len() ==> (#[trigger] t[i]).0 == s[i].0,
    ensures
        distinct_keys(t),
{
    assert forall|a: int, b: int| 0 <= a < b < t.len() implies t[a].0 != t[b].0 by {
        assert(s[a].0 != s[b].0);
    }
}

/// A map that keeps its entries in the order in which their keys were first
/// inserted, so that every walk over it is reproducible. It serves where a
/// hash map of the standard library cannot be reasoned about: where the key
/// is a `Connection`, which is made of two numbers, and where the values are
/// changed in place or walked to be changed.
pub struct OrderedMap<K, V> {
    entries: Vec<(K, V)>,
}

impl<K, V> View for OrderedMap<K, V> {
    type V = Seq<(K, V)>;

    closed spec fn view(&self) -> Seq<(K, V)> {
        self.entries@
    }
}

impl<K: MapKey, V> OrderedMap<K, V> {
    /// The entries hold no key twice.
    pub open spec fn wf(&self) -> bool {
        distinct_keys(self@)
    }

    /// The map without entries.
    pub fn new() -> (m: Self)
        ensures
            m@ == Seq::<(K, V)>::empty(),
            m.wf(),
    {
        OrderedMap { entries: Vec::new() }
    }

    /// The number of entries.
    pub fn len(&self) -> (n: usize)
        ensures
            n == self@.len(),
    {
        self.entries.len()
    }

    /// Whether the map has no entry.
    pub fn is_empty(&self) -> (b: bool)
        ensures
            b == (self@.len() == 0),
    {
        self.entries.len() == 0
    }

    /// The index of the entry for `key`, if there is one.
    pub fn position(&self, key: &K) -> (r: Option<usize>)
        requires
            self.wf(),
        ensures
            r is Some == has_key(self@, *key),
            r matches Some(i) ==> i == position_of(self@, *key) && i < self@.len() && self@[i as int].0 == *key,
    {
        let mut i: usize = 0;
        while i < self.entries.len()
            invariant
                i <= self.entries.len(),
                self.wf(),
                forall|j: int| 0 <= j < i ==> self@[j].0 != *key,
            decreases self.entries.len() - i,
        {
            if self.entries[i].0.same(key) {
                proof {
                    lemma_position_unique(self@, i as int);
                }
                return Some(i);
            }
            i += 1;
        }
        None
    }

    /// Whether `key` is bound.
    pub fn contains_key(&self, key: &K) -> (b: bool)
        requires
            self.wf(),
        ensures
            b == has_key(self@, *key),
    {
        self.position(key).is_some()
    }

    /// The value that `key` is bound to, if it is bound.
    pub fn get(&self, key: &K) -> (r: Option<&V>)
        requires
            self.wf(),
        ensures
            r is Some == has_key(self@, *key),
            r matches Some(v) ==> *v == value_of(self@, *key),
    {
        match self.position(key) {
            Some(i) => Some(&self.entries[i].1),
            None => None,
        }
    }

    /// The key of the `i`-th entry.
    pub fn key_at(&self, i: usize) -> (k: K)
        requires
            i < self@.len(),
        ensures
            k == self@[i as int].0,
    {
        self.entries[i].0
    }

    /// The value of the `i`-th entry.
    pub fn value_at(&self, i: usize) -> (v: &V)
        requires
            i < self@.len(),
        ensures
            *v == self@[i as int].1,
    {
        &self.entries[i].1
    }

    /// The value of the `i`-th entry, to be changed in place.
    pub fn value_at_mut(&mut self, i: usize) -> (v: &mut V)
        requires
            i < old(self)@.len(),
        ensures
            *v == old(self)@[i as int].1,
            final(self)@ == old(self)@.update(i as int, (old(self)@[i as int].0, *final(v))),
            old(self).wf() ==> final(self).wf(),
    {
        &mut self.entries[i].1
    }

    /// Binds `key` to `value`; returns the value that was bound before.
    pub fn insert(&mut self, key: K, value: V) -> (prev: Option<V>)
        requires
            old(self).wf(),
        ensures
            final(self).wf(),
            final(self)@ == put(old(self)@, key, value),
            prev == lookup(old(self)@, key),
    {
        proof {
            lemma_put(self@, key, value);
        }
        match self.position(&key) {
            Some(i) => {
                let mut entry = (key, value);
                core::mem::swap(&mut self.entries[i], &mut entry);
                assert(self@ =~= put(old(self)@, key, value));
                Some(entry.1)
            },
            None => {
                self.entries.push((key, value));
                None
            },
        }
    }

    /// Unbinds `key`; returns the value that was bound.
    pub fn remove(&mut self, key: &K) -> (prev: Option<V>)
        requires
            old(self).wf(),
        ensures
            final(self).wf(),
            final(self)@ == delete(old(self)@, *key),
            prev == lookup(old(self)@, *key),
    {
        proof {
            lemma_delete(self@, *key);
        }
        match self.position(key) {
            Some(i) => {
                let (_, prev) = self.entries.remove(i);
                Some(prev)
            },
            None => None,
        }
    }

    /// Takes the `i`-th entry out; the entries behind it move up.
    pub fn remove_at(&mut self, i: usize) -> (entry: (K, V))
        requires
            old(self).wf(),
            i < old(self)@.len(),
        ensures
            final(self).wf(),
            entry == old(self)@[i as int],
            final(self)@ == old(self)@.remove(i as int),
            final(self)@ == delete(old(self)@, entry.0),
    {
        proof {
            lemma_position_unique(self@, i as int);
            lemma_delete(self@, self@[i as int].0);
        }
        self.entries.remove(i)
    }
}

} // verus!
