//! A small map whose keys are compared by value, kept in insertion order.
use vstd::prelude::*;

verus! {

/// A key: a value that can be compared with another.
pub trait Key: Copy {
    /// Whether two keys are the same value.
    fn same_key(&self, other: &Self) -> (b: bool)
        ensures
            b == (*self == *other),
    ;
}

impl Key for u64 {
    fn same_key(&self, other: &Self) -> (b: bool) {
        *self == *other
    }
}

/// A map from keys to values. No key occurs twice.
pub struct KeyMap<K: Key, V> {
    pub entries: Vec<(K, V)>,
}

/// The first position of a key in a list of entries.
pub open spec fn position<K, V>(s: Seq<(K, V)>, k: K) -> int {
    choose|i: int| 0 <= i < s.len() && (#[trigger] s[i]).0 == k
}

/// A list of entries with a key mapped to a value: in its place, or at the end.
pub open spec fn upsert<K, V>(s: Seq<(K, V)>, k: K, v: V) -> Seq<(K, V)> {
    if exists|i: int| 0 <= i < s.len() && (#[trigger] s[i]).0 == k {
        s.update(position(s, k), (k, v))
    } else {
        s.push((k, v))
    }
}

impl<K: Key, V> KeyMap<K, V> {
    /// No key occurs twice.
    pub open spec fn wf(&self) -> bool {
        forall|i: int, j: int|
            0 <= i < j < self.entries@.len() ==> (#[trigger] self.entries@[i]).0 != (
            #[trigger] self.entries@[j]).0
    }

    /// The key is in the map.
    pub open spec fn has(&self, k: K) -> bool {
        exists|i: int| 0 <= i < self.entries@.len() && (#[trigger] self.entries@[i]).0 == k
    }
}

impl<K: Key, V> View for KeyMap<K, V> {
    type V = Map<K, V>;

    open spec fn view(&self) -> Map<K, V> {
        Map::new(|k: K| self.has(k), |k: K| self.entries@[position(self.entries@, k)].1)
    }
}

/// An entry of a map without repeated keys is what its key maps to.
pub proof fn lemma_entry<K: Key, V>(m: KeyMap<K, V>, i: int)
    requires
        m.wf(),
        0 <= i < m.entries@.len(),
    ensures
        m@.dom().contains(m.entries@[i].0),
        m@[m.entries@[i].0] == m.entries@[i].1,
        position(m.entries@, m.entries@[i].0) == i,
{
    let k = m.entries@[i].0;
    assert(m.has(k));
    let p = position(m.entries@, k);
    assert(0 <= p < m.entries@.len() && m.entries@[p].0 == k);
    if p < i {
        assert(m.entries@[p].0 != m.entries@[i].0);
    } else if i < p {
        assert(m.entries@[i].0 != m.entries@[p].0);
    }
}

/// A map holds finitely many keys, as many as it has entries.
pub proof fn lemma_finite<K: Key, V>(m: KeyMap<K, V>)
    ensures
        m@.dom().finite(),
        m.wf() ==> m@.dom().len() == m.entries@.len(),
{
    let keys = m.entries@.map_values(|e: (K, V)| e.0);
    assert(m@.dom() =~= keys.to_set()) by {
        assert forall|k: K| m@.dom().contains(k) == keys.to_set().contains(k) by {
            if m.has(k) {
                let i = choose|i: int| 0 <= i < m.entries@.len() && (#[trigger] m.entries@[i]).0 == k;
                assert(keys[i] == k);
            }
            if keys.to_set().contains(k) {
                let i = choose|i: int| 0 <= i < keys.len() && keys[i] == k;
                assert(m.entries@[i].0 == k);
            }
        }
    }
    vstd::seq_lib::seq_to_set_is_finite(keys);
    if m.wf() {
        assert(keys.no_duplicates()) by {
            assert forall|i: int, j: int| 0 <= i < keys.len() && 0 <= j < keys.len() && i
                != j implies keys[i] != keys[j] by {
                if i < j {
                    assert(m.entries@[i].0 != m.entries@[j].0);
                } else {
                    assert(m.entries@[j].0 != m.entries@[i].0);
                }
            }
        }
        keys.unique_seq_to_set();
    }
}

impl<K: Key, V> KeyMap<K, V> {
    /// The empty map.
    pub fn new() -> (r: Self)
        ensures
            r.wf(),
            r@ == Map::<K, V>::empty(),
            r.entries@.len() == 0,
    {
        KeyMap { entries: Vec::new() }
    }

    /// How many keys the map holds.
    pub fn len(&self) -> (n: usize)
        ensures
            n == self.entries@.len(),
    {
        self.entries.len()
    }

    /// The position of a key among the entries.
    pub fn find(&self, k: &K) -> (r: Option<usize>)
        requires
            self.wf(),
        ensures
            r is Some <==> self@.dom().contains(*k),
            r matches Some(i) ==> i < self.entries@.len() && self.entries@[i as int].0 == *k
                && self@[*k] == self.entries@[i as int].1,
    {
        let mut i: usize = 0;
        while i < self.entries.len()
            invariant
                i <= self.entries@.len(),
                self.wf(),
                forall|j: int| 0 <= j < i ==> (#[trigger] self.entries@[j]).0 != *k,
            decreases self.entries@.len() - i,
        {
            if self.entries[i].0.same_key(k) {
                proof {
                    lemma_entry(*self, i as int);
                }
                return Some(i);
            }
            i = i + 1;
        }
        None
    }

    /// Whether the map holds a key.
    pub fn contains_key(&self, k: &K) -> (b: bool)
        requires
            self.wf(),
        ensures
            b == self@.dom().contains(*k),
    {
        self.find(k).is_some()
    }

    /// What a key maps to.
    pub fn get(&self, k: &K) -> (r: Option<&V>)
        requires
            self.wf(),
        ensures
            r is Some <==> self@.dom().contains(*k),
            r matches Some(v) ==> *v == self@[*k],
    {
        match self.find(k) {
            Some(i) => Some(&self.entries[i].1),
            None => None,
        }
    }

    /// Access to what a key maps to.
    pub fn get_mut(&mut self, k: &K) -> (r: Option<&mut V>)
        requires
            old(self).wf(),
        ensures
            r is Some <==> old(self)@.dom().contains(*k),
            r is None ==> *final(self) == *old(self),
            r matches Some(v) ==> *v == old(self)@[*k] && final(self).entries@
                == old(self).entries@.update(position(old(self).entries@, *k), (*k, *final(v))),
    {
        match self.find(k) {
            Some(i) => {
                proof {
                    lemma_entry(*self, i as int);
                }
                Some(&mut self.entries[i].1)
            },
            None => None,
        }
    }

    /// Maps a key to a value, in place of what it mapped to before.
    pub fn insert(&mut self, k: K, v: V)
        requires
            old(self).wf(),
        ensures
            final(self).wf(),
            final(self)@ == old(self)@.insert(k, v),
            final(self).entries@ == upsert(old(self).entries@, k, v),
    {
        let ghost before = *self;
        match self.find(&k) {
            Some(i) => {
                self.entries.set(i, (k, v));
                proof {
                    lemma_entry(before, i as int);
                    lemma_update(before, *self, i as int, k, v);
                }
            },
            None => {
                self.entries.push((k, v));
                proof {
                    let s = self.entries@;
                    assert forall|a: int, b: int| 0 <= a < b < s.len() implies (#[trigger] s[a]).0 != (
                    #[trigger] s[b]).0 by {
                        if b == s.len() - 1 {
                            assert(before.entries@[a].0 == s[a].0);
                            assert(before.has(s[a].0));
                        } else {
                            assert(before.entries@[a].0 != before.entries@[b].0);
                        }
                    }
                    assert forall|q: K| self@.dom().contains(q) == before@.insert(k, v).dom().contains(q) by {
                        if self.has(q) {
                            let p = position(s, q);
                            assert(0 <= p < s.len() && s[p].0 == q);
                            if p < before.entries@.len() {
                                assert(before.entries@[p].0 == q);
                            }
                        }
                        if before.has(q) {
                            let p = position(before.entries@, q);
                            assert(s[p].0 == q);
                        }
                        if q == k {
                            assert(s[s.len() - 1].0 == q);
                        }
                    }
                    assert forall|q: K| self@.dom().contains(q) implies self@[q] == before@.insert(k, v)[q] by {
                        let p = position(s, q);
                        assert(0 <= p < s.len() && s[p].0 == q);
                        lemma_entry(*self, p);
                        if p < before.entries@.len() {
                            lemma_entry(before, p);
                        }
                        if q == k {
                            lemma_entry(*self, s.len() - 1);
                        }
                    }
                    assert(self@ =~= before@.insert(k, v));
                }
            },
        }
    }

    /// Takes a key out, and gives what it mapped to.
    pub fn remove(&mut self, k: &K) -> (r: Option<V>)
        requires
            old(self).wf(),
        ensures
            final(self).wf(),
            final(self)@ == old(self)@.remove(*k),
            r is Some <==> old(self)@.dom().contains(*k),
            r matches Some(v) ==> v == old(self)@[*k],
    {
        let ghost before = *self;
        match self.find(k) {
            Some(i) => {
                let e = self.entries.remove(i);
                proof {
                    let s = self.entries@;
                    let i = i as int;
                    assert(s =~= before.entries@.remove(i));
                    assert forall|a: int, b: int| 0 <= a < b < s.len() implies (#[trigger] s[a]).0 != (
                    #[trigger] s[b]).0 by {
                        let a2 = if a < i { a } else { a + 1 };
                        let b2 = if b < i { b } else { b + 1 };
                        assert(before.entries@[a2].0 != before.entries@[b2].0);
                    }
                    assert forall|q: K| self@.dom().contains(q) == before@.remove(*k).dom().contains(q) by {
                        if self.has(q) {
                            let p = position(s, q);
                            assert(0 <= p < s.len() && s[p].0 == q);
                            let p2 = if p < i { p } else { p + 1 };
                            assert(before.entries@[p2].0 == q);
                            if p2 < i {
                                assert(before.entries@[p2].0 != before.entries@[i].0);
                            } else {
                                assert(before.entries@[i].0 != before.entries@[p2].0);
                            }
                        }
                        if before.has(q) && q != *k {
                            let p = position(before.entries@, q);
                            let p2 = if p < i { p } else { p - 1 };
                            assert(s[p2].0 == q);
                        }
                    }
                    assert forall|q: K| self@.dom().contains(q) implies self@[q] == before@.remove(*k)[q] by {
                        let p = position(s, q);
                        assert(0 <= p < s.len() && s[p].0 == q);
                        lemma_entry(*self, p);
                        let p2 = if p < i { p } else { p + 1 };
                        lemma_entry(before, p2);
                    }
                    assert(self@ =~= before@.remove(*k));
                }
                Some(e.1)
            },
            None => {
                proof {
                    assert(self@ =~= before@.remove(*k));
                }
                None
            },
        }
    }
}

/// Writing through `get_mut` maps the key to what was written.
pub proof fn lemma_get_mut<K: Key, V>(before: KeyMap<K, V>, after: KeyMap<K, V>, k: K, v: V)
    requires
        before.wf(),
        before@.dom().contains(k),
        after.entries@ == before.entries@.update(position(before.entries@, k), (k, v)),
    ensures
        after.wf(),
        after@ == before@.insert(k, v),
{
    let i = position(before.entries@, k);
    assert(0 <= i < before.entries@.len() && before.entries@[i].0 == k);
    lemma_update(before, after, i, k, v);
}

/// Replacing the value of an entry replaces what its key maps to.
proof fn lemma_update<K: Key, V>(before: KeyMap<K, V>, after: KeyMap<K, V>, i: int, k: K, v: V)
    requires
        before.wf(),
        0 <= i < before.entries@.len(),
        before.entries@[i].0 == k,
        after.entries@ == before.entries@.update(i, (k, v)),
    ensures
        after.wf(),
        after@ == before@.insert(k, v),
{
    assert forall|a: int, b: int| 0 <= a < b < after.entries@.len() implies (
    #[trigger] after.entries@[a]).0 != (#[trigger] after.entries@[b]).0 by {
        assert(before.entries@[a].0 != before.entries@[b].0);
    }
    lemma_entry(before, i);
    assert forall|q: K| after@.dom().contains(q) == before@.insert(k, v).dom().contains(q) by {
        lemma_same_keys(before, after, q);
    }
    assert forall|q: K| after@.dom().contains(q) implies after@[q] == before@.insert(k, v)[q] by {
        let p = position(after.entries@, q);
        assert(0 <= p < after.entries@.len() && after.entries@[p].0 == q);
        lemma_entry(after, p);
        lemma_entry(before, p);
        if q == k {
            lemma_entry(after, i);
        }
    }
    assert(after@ =~= before@.insert(k, v));
}

proof fn lemma_same_keys<K: Key, V>(a: KeyMap<K, V>, b: KeyMap<K, V>, q: K)
    requires
        a.entries@.len() == b.entries@.len(),
        forall|i: int| 0 <= i < a.entries@.len() ==> (#[trigger] a.entries@[i]).0 == b.entries@[i].0,
    ensures
        a.has(q) == b.has(q),
{
    if a.has(q) {
        let p = position(a.entries@, q);
        assert(0 <= p < a.entries@.len() && a.entries@[p].0 == q);
        assert(b.entries@[p].0 == q);
    }
    if b.has(q) {
        let p = position(b.entries@, q);
        assert(0 <= p < b.entries@.len() && b.entries@[p].0 == q);
        assert(a.entries@[p].0 == q);
    }
}

} // verus!
