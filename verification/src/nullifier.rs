//! The nullifiers of the ballots that have been taken: one ballot for each.
use crate::field;
use crate::field::FieldElement;
use crate::keymap::{Key, KeyMap};
use vstd::prelude::*;

verus! {

/// How far the ballot with a nullifier has come.
#[derive(Clone, Copy, Debug, PartialEq, Eq, Structural)]
pub enum NullifierState {
    /// The ballot waits to be ordered.
    Locked,
    /// The ballot counts.
    Commit,
}

/// A nullifier as a key: the limbs of its number.
#[derive(Clone, Copy, Debug, PartialEq, Eq, Structural)]
pub struct NullifierKey {
    pub l0: u64,
    pub l1: u64,
    pub l2: u64,
    pub l3: u64,
}

impl Key for NullifierKey {
    fn same_key(&self, other: &Self) -> (b: bool) {
        *self == *other
    }
}

impl NullifierKey {
    /// The number that the key stands for.
    pub open spec fn value(&self) -> int {
        field::limbs_value(self.l0, self.l1, self.l2, self.l3)
    }
}

/// The key of a number.
pub open spec fn key_for(n: int) -> NullifierKey {
    choose|k: NullifierKey| k.value() == n
}

/// A key is the key of its number.
pub proof fn lemma_key_for(k: NullifierKey)
    ensures
        key_for(k.value()) == k,
{
    let j = key_for(k.value());
    assert(k.value() == k.value());
    assert(j.value() == k.value());
    field::lemma_limbs_injective(j.l0, j.l1, j.l2, j.l3, k.l0, k.l1, k.l2, k.l3);
}

/// Different nullifiers have different keys.
pub proof fn law_keys_tell_nullifiers_apart(a: FieldElement, b: FieldElement)
    ensures
        key_for(a@) == key_for(b@) <==> a@ == b@,
{
    field::lemma_field_range(a);
    field::lemma_field_range(b);
    lemma_key_exists(a@);
    lemma_key_exists(b@);
}

proof fn lemma_key_exists(n: int)
    requires
        0 <= n < field::field_order(),
    ensures
        key_for(n).value() == n,
{
    let w = 0x10000000000000000int;
    let k = NullifierKey {
        l0: (n % w) as u64,
        l1: (n / w % w) as u64,
        l2: (n / w / w % w) as u64,
        l3: (n / w / w / w) as u64,
    };
    assert(k.value() == n);
}

fn key_of(nullifier: &FieldElement) -> (k: NullifierKey)
    ensures
        k == key_for(nullifier@),
        k.value() == nullifier@,
{
    let l = nullifier.limbs();
    let k = NullifierKey { l0: l[0], l1: l[1], l2: l[2], l3: l[3] };
    proof {
        lemma_key_for(k);
    }
    k
}

/// The key of a nullifier in a store of bytes.
pub fn stored_key(nullifier: &FieldElement) -> (r: Vec<u8>)
    ensures
        r@.len() == 32,
        field::le_value(r@) == nullifier@,
{
    nullifier.to_bytes()
}

/// What is known of nullifiers.
pub type NullifierMap = Map<NullifierKey, NullifierState>;

/// The map after a nullifier is locked, where it was free.
pub open spec fn locked(m: NullifierMap, k: NullifierKey) -> NullifierMap {
    if m.dom().contains(k) {
        m
    } else {
        m.insert(k, NullifierState::Locked)
    }
}

/// The map after nullifiers are committed.
pub open spec fn committed(m: NullifierMap, ks: Seq<NullifierKey>) -> NullifierMap
    decreases ks.len(),
{
    if ks.len() == 0 {
        m
    } else {
        committed(m, ks.drop_last()).insert(ks.last(), NullifierState::Commit)
    }
}

/// The map after nullifiers are unlocked.
pub open spec fn unlocked(m: NullifierMap, ks: Seq<NullifierKey>) -> NullifierMap
    decreases ks.len(),
{
    if ks.len() == 0 {
        m
    } else {
        unlocked(m, ks.drop_last()).remove(ks.last())
    }
}

/// The keys of a list of nullifiers.
pub open spec fn keys_of(nullifiers: Seq<FieldElement>) -> Seq<NullifierKey> {
    Seq::new(nullifiers.len(), |i: int| key_for(nullifiers[i]@))
}

/// The state that a nullifier that is to be locked is written in, where
/// `known` tells that it has one already. `None` is a refusal.
pub fn lock_decision(known: bool) -> (r: Option<NullifierState>)
    ensures
        r == (if known {
            None
        } else {
            Some(NullifierState::Locked)
        }),
{
    if known {
        None
    } else {
        Some(NullifierState::Locked)
    }
}

/// The state that a nullifier that is to be committed alone is written in,
/// where `known` tells that it has one already. `None` is a refusal.
pub fn commit_decision(known: bool) -> (r: Option<NullifierState>)
    ensures
        r == (if known {
            None
        } else {
            Some(NullifierState::Commit)
        }),
{
    if known {
        None
    } else {
        Some(NullifierState::Commit)
    }
}

/// The nullifiers that have been taken.
pub struct NullifierDB {
    pub states: KeyMap<NullifierKey, NullifierState>,
}

impl View for NullifierDB {
    type V = NullifierMap;

    open spec fn view(&self) -> NullifierMap {
        self.states@
    }
}

impl NullifierDB {
    pub open spec fn wf(&self) -> bool {
        self.states.wf()
    }

    /// No nullifier has been taken.
    pub fn new() -> (r: Self)
        ensures
            r.wf(),
            r@ == NullifierMap::empty(),
    {
        NullifierDB { states: KeyMap::new() }
    }

    /// Locks a nullifier, and tells whether it was free.
    pub fn verify(&mut self, nullifier: &FieldElement) -> (fresh: bool)
        requires
            old(self).wf(),
        ensures
            final(self).wf(),
            fresh == !old(self)@.dom().contains(key_for(nullifier@)),
            final(self)@ == locked(old(self)@, key_for(nullifier@)),
    {
        let key = key_of(nullifier);
        match lock_decision(self.states.contains_key(&key)) {
            Some(state) => {
                self.states.insert(key, state);
                true
            },
            None => false,
        }
    }

    /// Commits a nullifier that is free, and tells whether it was.
    pub fn commit(&mut self, nullifier: &FieldElement) -> (done: bool)
        requires
            old(self).wf(),
        ensures
            final(self).wf(),
            done == !old(self)@.dom().contains(key_for(nullifier@)),
            !done ==> final(self)@ == old(self)@,
            done ==> final(self)@ == old(self)@.insert(
                key_for(nullifier@),
                NullifierState::Commit,
            ),
    {
        let key = key_of(nullifier);
        match commit_decision(self.states.contains_key(&key)) {
            Some(state) => {
                self.states.insert(key, state);
                true
            },
            None => false,
        }
    }

    /// Commits nullifiers, whatever their state.
    pub fn commit_batch(&mut self, nullifiers: &Vec<FieldElement>)
        requires
            old(self).wf(),
        ensures
            final(self).wf(),
            final(self)@ == committed(old(self)@, keys_of(nullifiers@)),
    {
        let ghost before = self@;
        let ghost ks = keys_of(nullifiers@);
        let mut i: usize = 0;
        while i < nullifiers.len()
            invariant
                i <= nullifiers@.len(),
                ks == keys_of(nullifiers@),
                self.wf(),
                self@ == committed(before, ks.take(i as int)),
            decreases nullifiers@.len() - i,
        {
            let key = key_of(&nullifiers[i]);
            self.states.insert(key, NullifierState::Commit);
            proof {
                assert(ks.take(i + 1).drop_last() =~= ks.take(i as int));
            }
            i = i + 1;
        }
        assert(ks.take(i as int) =~= ks);
    }

    /// Forgets nullifiers.
    pub fn unlock_batch(&mut self, nullifiers: &Vec<FieldElement>)
        requires
            old(self).wf(),
        ensures
            final(self).wf(),
            final(self)@ == unlocked(old(self)@, keys_of(nullifiers@)),
    {
        let ghost before = self@;
        let ghost ks = keys_of(nullifiers@);
        let mut i: usize = 0;
        while i < nullifiers.len()
            invariant
                i <= nullifiers@.len(),
                ks == keys_of(nullifiers@),
                self.wf(),
                self@ == unlocked(before, ks.take(i as int)),
            decreases nullifiers@.len() - i,
        {
            let key = key_of(&nullifiers[i]);
            let taken = self.states.remove(&key);
            proof {
                assert(ks.take(i + 1).drop_last() =~= ks.take(i as int));
            }
            i = i + 1;
        }
        assert(ks.take(i as int) =~= ks);
    }
}

/// Where committing leads: the batch is committed, and nothing else changes.
proof fn lemma_committed(m: NullifierMap, ks: Seq<NullifierKey>, k: NullifierKey)
    ensures
        committed(m, ks).dom().contains(k) == (m.dom().contains(k) || ks.contains(k)),
        ks.contains(k) ==> committed(m, ks)[k] == NullifierState::Commit,
        !ks.contains(k) && m.dom().contains(k) ==> committed(m, ks)[k] == m[k],
    decreases ks.len(),
{
    if ks.len() > 0 {
        let front = ks.drop_last();
        lemma_committed(m, front, k);
        assert(ks =~= front.push(ks.last()));
        if ks.contains(k) && k != ks.last() {
            let i = choose|i: int| 0 <= i < ks.len() && ks[i] == k;
            assert(front[i] == k);
        }
        if front.contains(k) {
            let i = choose|i: int| 0 <= i < front.len() && front[i] == k;
            assert(ks[i] == k);
        }
        if k == ks.last() {
            assert(ks[ks.len() - 1] == k);
        }
    }
}

/// Where unlocking leads: the batch is gone, and nothing else changes.
proof fn lemma_unlocked(m: NullifierMap, ks: Seq<NullifierKey>, k: NullifierKey)
    ensures
        unlocked(m, ks).dom().contains(k) == (m.dom().contains(k) && !ks.contains(k)),
        unlocked(m, ks).dom().contains(k) ==> unlocked(m, ks)[k] == m[k],
    decreases ks.len(),
{
    if ks.len() > 0 {
        let front = ks.drop_last();
        lemma_unlocked(m, front, k);
        if ks.contains(k) && k != ks.last() {
            let i = choose|i: int| 0 <= i < ks.len() && ks[i] == k;
            assert(front[i] == k);
        }
        if front.contains(k) {
            let i = choose|i: int| 0 <= i < front.len() && front[i] == k;
            assert(ks[i] == k);
        }
        if k == ks.last() {
            assert(ks[ks.len() - 1] == k);
        }
    }
}

/// A nullifier that has been taken stays taken, whatever else is locked or
/// committed: its second ballot is refused.
pub proof fn law_taken_stays_taken(
    m: NullifierMap,
    k: NullifierKey,
    other: NullifierKey,
    batch: Seq<NullifierKey>,
)
    requires
        m.dom().contains(k),
    ensures
        locked(m, other).dom().contains(k),
        committed(m, batch).dom().contains(k),
{
    lemma_committed(m, batch, k);
}

/// A nullifier is taken after it has been locked.
pub proof fn law_locked_is_taken(m: NullifierMap, k: NullifierKey)
    ensures
        locked(m, k).dom().contains(k),
{
}

/// Unlocking takes back locking: a free nullifier is free again, and nothing
/// else changes.
pub proof fn law_unlock_undoes_lock(m: NullifierMap, k: NullifierKey)
    requires
        !m.dom().contains(k),
    ensures
        unlocked(locked(m, k), seq![k]) == m,
{
    let ks = seq![k];
    assert(ks.drop_last() =~= Seq::<NullifierKey>::empty());
    assert(unlocked(locked(m, k), ks.drop_last()) == locked(m, k));
    assert(unlocked(locked(m, k), ks) =~= m);
}

/// A committed batch is committed, an unlocked batch is free, and neither
/// touches other nullifiers.
pub proof fn law_batches(m: NullifierMap, ks: Seq<NullifierKey>, k: NullifierKey)
    ensures
        ks.contains(k) ==> committed(m, ks).dom().contains(k) && committed(m, ks)[k]
            == NullifierState::Commit,
        ks.contains(k) ==> !unlocked(m, ks).dom().contains(k),
        !ks.contains(k) ==> (committed(m, ks).dom().contains(k) == m.dom().contains(k)) && (
        unlocked(m, ks).dom().contains(k) == m.dom().contains(k)),
        !ks.contains(k) && m.dom().contains(k) ==> committed(m, ks)[k] == m[k] && unlocked(m, ks)[k]
            == m[k],
{
    lemma_committed(m, ks, k);
    lemma_unlocked(m, ks, k);
}

/// Locking touches one nullifier: a free one becomes locked, one that is known stays in
/// its state, and the others are as they were.
pub proof fn law_locking_touches_one(m: NullifierMap, k: NullifierKey, other: NullifierKey)
    ensures
        !m.dom().contains(k) ==> locked(m, k)[k] == NullifierState::Locked,
        m.dom().contains(k) ==> locked(m, k)[k] == m[k],
        other != k ==> locked(m, k).dom().contains(other) == m.dom().contains(other),
        m.dom().contains(other) ==> locked(m, k)[other] == m[other],
{
}

} // verus!
