//! A small map whose keys are texts, kept in the order in which they were last
//! written.
use crate::text::{same_text, text};
use vstd::prelude::*;

verus! {

/// A map from texts to values. No text occurs twice.
#[derive(Debug)]
pub struct TextMap<V> {
    pub entries: Vec<(String, V)>,
}

/// Where a text stands in a list of entries.
pub open spec fn place<V>(s: Seq<(String, V)>, k: Seq<char>) -> int {
    choose|i: int| 0 <= i < s.len() && (#[trigger] s[i]).0@ == k
}

/// A text stands in a list of entries.
pub open spec fn stands_in<V>(s: Seq<(String, V)>, k: Seq<char>) -> bool {
    exists|i: int| 0 <= i < s.len() && (#[trigger] s[i]).0@ == k
}

/// What a list of entries maps texts to.
pub open spec fn entries_map<V>(s: Seq<(String, V)>) -> Map<Seq<char>, V> {
    Map::new(|k: Seq<char>| stands_in(s, k), |k: Seq<char>| s[place(s, k)].1)
}

/// No text occurs twice in a list of entries.
pub open spec fn no_text_twice<V>(s: Seq<(String, V)>) -> bool {
    forall|i: int, j: int| 0 <= i < j < s.len() ==> (#[trigger] s[i]).0@ != (#[trigger] s[j]).0@
}

impl<V> View for TextMap<V> {
    type V = Map<Seq<char>, V>;

    open spec fn view(&self) -> Map<Seq<char>, V> {
        entries_map(self.entries@)
    }
}

/// An entry of a list without repeated texts is what its text maps to.
pub proof fn lemma_place<V>(s: Seq<(String, V)>, i: int)
    requires
        no_text_twice(s),
        0 <= i < s.len(),
    ensures
        entries_map(s).dom().contains(s[i].0@),
        entries_map(s)[s[i].0@] == s[i].1,
        place(s, s[i].0@) == i,
{
    let k = s[i].0@;
    let p = place(s, k);
    assert(0 <= p < s.len() && s[p].0@ == k);
    if p < i {
        assert(s[p].0@ != s[i].0@);
    } else if i < p {
        assert(s[i].0@ != s[p].0@);
    }
}

proof fn lemma_push_entry<V>(s: Seq<(String, V)>, k: String, v: V)
    requires
        no_text_twice(s),
        !stands_in(s, k@),
    ensures
        no_text_twice(s.push((k, v))),
        entries_map(s.push((k, v))) == entries_map(s).insert(k@, v),
{
    let t = s.push((k, v));
    assert forall|i: int, j: int| 0 <= i < j < t.len() implies (#[trigger] t[i]).0@ != (
    #[trigger] t[j]).0@ by {
        if j == s.len() {
            assert(s[i].0@ == t[i].0@);
        } else {
            assert(s[i].0@ != s[j].0@);
        }
    }
    assert forall|q: Seq<char>| stands_in(t, q) == (stands_in(s, q) || q == k@) by {
        if stands_in(t, q) {
            let i = place(t, q);
            assert(0 <= i < t.len() && t[i].0@ == q);
            if i < s.len() {
                assert(s[i].0@ == q);
            }
        }
        if stands_in(s, q) {
            let i = place(s, q);
            assert(t[i].0@ == q);
        }
        if q == k@ {
            assert(t[s.len() as int].0@ == q);
        }
    }
    assert forall|q: Seq<char>| stands_in(t, q) implies entries_map(t)[q] == entries_map(s).insert(
        k@,
        v,
    )[q] by {
        let i = place(t, q);
        assert(0 <= i < t.len() && t[i].0@ == q);
        lemma_place(t, i);
        if i < s.len() {
            lemma_place(s, i);
        }
        if q == k@ {
            lemma_place(t, s.len() as int);
        }
    }
    assert(entries_map(t) =~= entries_map(s).insert(k@, v));
}

proof fn lemma_remove_entry<V>(s: Seq<(String, V)>, i: int)
    requires
        no_text_twice(s),
        0 <= i < s.len(),
    ensures
        no_text_twice(s.remove(i)),
        entries_map(s.remove(i)) == entries_map(s).remove(s[i].0@),
{
    let t = s.remove(i);
    let k = s[i].0@;
    assert forall|a: int, b: int| 0 <= a < b < t.len() implies (#[trigger] t[a]).0@ != (
    #[trigger] t[b]).0@ by {
        let a2 = if a < i { a } else { a + 1 };
        let b2 = if b < i { b } else { b + 1 };
        assert(s[a2].0@ != s[b2].0@);
    }
    assert forall|q: Seq<char>| stands_in(t, q) == (stands_in(s, q) && q != k) by {
        if stands_in(t, q) {
            let p = place(t, q);
            assert(0 <= p < t.len() && t[p].0@ == q);
            let p2 = if p < i { p } else { p + 1 };
            assert(s[p2].0@ == q);
            if p2 < i {
                assert(s[p2].0@ != s[i].0@);
            } else {
                assert(s[i].0@ != s[p2].0@);
            }
        }
        if stands_in(s, q) && q != k {
            let p = place(s, q);
            let p2 = if p < i { p } else { p - 1 };
            assert(t[p2].0@ == q);
        }
    }
    assert forall|q: Seq<char>| stands_in(t, q) implies entries_map(t)[q] == entries_map(s).remove(
        k,
    )[q] by {
        let p = place(t, q);
        assert(0 <= p < t.len() && t[p].0@ == q);
        lemma_place(t, p);
        let p2 = if p < i { p } else { p + 1 };
        lemma_place(s, p2);
    }
    assert(entries_map(t) =~= entries_map(s).remove(k));
}

impl<V> TextMap<V> {
    /// No text occurs twice.
    pub open spec fn wf(&self) -> bool {
        no_text_twice(self.entries@)
    }

    /// The empty map.
    pub fn new() -> (r: Self)
        ensures
            r.wf(),
            r@ == Map::<Seq<char>, V>::empty(),
            r.entries@.len() == 0,
    {
        TextMap { entries: Vec::new() }
    }

    /// The position of a text among the entries.
    pub fn find(&self, k: &str) -> (r: Option<usize>)
        requires
            self.wf(),
        ensures
            r is Some <==> self@.dom().contains(k@),
            r matches Some(i) ==> i < self.entries@.len() && self.entries@[i as int].0@ == k@
                && self@[k@] == self.entries@[i as int].1,
    {
        let mut i: usize = 0;
        while i < self.entries.len()
            invariant
                i <= self.entries@.len(),
                self.wf(),
                forall|j: int| 0 <= j < i ==> (#[trigger] self.entries@[j]).0@ != k@,
            decreases self.entries@.len() - i,
        {
            if same_text(self.entries[i].0.as_str(), k) {
                proof {
                    lemma_place(self.entries@, i as int);
                }
                return Some(i);
            }
            i = i + 1;
        }
        None
    }

    /// What a text maps to.
    pub fn get(&self, k: &str) -> (r: Option<&V>)
        requires
            self.wf(),
        ensures
            r is Some <==> self@.dom().contains(k@),
            r matches Some(v) ==> *v == self@[k@],
    {
        match self.find(k) {
            Some(i) => Some(&self.entries[i].1),
            None => None,
        }
    }

    /// Takes a text out, and gives what it mapped to.
    pub fn remove(&mut self, k: &str) -> (r: Option<V>)
        requires
            old(self).wf(),
        ensures
            final(self).wf(),
            final(self)@ == old(self)@.remove(k@),
            r is Some <==> old(self)@.dom().contains(k@),
            r matches Some(v) ==> v == old(self)@[k@],
    {
        let ghost before = self.entries@;
        match self.find(k) {
            Some(i) => {
                let e = self.entries.remove(i);
                proof {
                    assert(self.entries@ =~= before.remove(i as int));
                    lemma_remove_entry(before, i as int);
                }
                Some(e.1)
            },
            None => {
                assert(self@ =~= entries_map(before).remove(k@));
                None
            },
        }
    }

    /// Maps a text to a value, in place of what it mapped to before.
    pub fn insert(&mut self, k: &str, v: V)
        requires
            old(self).wf(),
        ensures
            final(self).wf(),
            final(self)@ == old(self)@.insert(k@, v),
    {
        let ghost before = self@;
        let earlier = self.remove(k);
        let key = text(k);
        proof {
            assert(!stands_in(self.entries@, key@)) by {
                assert(!self@.dom().contains(k@));
            }
            lemma_push_entry(self.entries@, key, v);
        }
        self.entries.push((key, v));
        assert(before.remove(k@).insert(k@, v) =~= before.insert(k@, v));
    }
}

} // verus!
