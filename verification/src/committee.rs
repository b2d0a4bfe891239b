//! The voting committee and the aggregation of its members' votes.
use crate::modular;
use vstd::prelude::*;

verus! {

/// The position of a member in the committee.
pub type AuthorityIndex = u64;

/// A weight of votes.
pub type Stake = u64;

/// The most members that a committee has.
pub const MAX_COMMITTEE: usize = 128;

/// The weight that each position contributes to a set of members.
pub open spec fn stake_term(stakes: Seq<u64>, set: Set<u64>) -> spec_fn(int) -> int {
    |a: int|
        if set.contains(a as u64) {
            stakes[a] as int
        } else {
            0
        }
}

/// The weight of a set of members.
pub open spec fn stake_of(stakes: Seq<u64>, set: Set<u64>) -> int {
    modular::sum(stakes.len(), stake_term(stakes, set))
}

/// The weight of the whole committee.
pub open spec fn total_stake(stakes: Seq<u64>) -> int {
    modular::sum(stakes.len(), |a: int| stakes[a] as int)
}

/// A set of members holds more than two thirds of the weight, rounded down.
pub open spec fn quorum(stakes: Seq<u64>, set: Set<u64>) -> bool {
    stake_of(stakes, set) > 2 * total_stake(stakes) / 3
}

proof fn lemma_sum_le(k: nat, f: spec_fn(int) -> int, g: spec_fn(int) -> int)
    requires
        forall|i: int| 0 <= i < k ==> #[trigger] f(i) <= g(i),
    ensures
        modular::sum(k, f) <= modular::sum(k, g),
    decreases k,
{
    if k > 0 {
        assert(f(k - 1) <= g(k - 1));
        lemma_sum_le((k - 1) as nat, f, g);
    }
}

proof fn lemma_sum_update(k: nat, f: spec_fn(int) -> int, g: spec_fn(int) -> int, at: int, d: int)
    requires
        0 <= at < k,
        forall|i: int| 0 <= i < k && i != at ==> #[trigger] f(i) == g(i),
        g(at) == f(at) + d,
    ensures
        modular::sum(k, g) == modular::sum(k, f) + d,
    decreases k,
{
    if at == k - 1 {
        modular::lemma_sum_ext((k - 1) as nat, f, g);
    } else {
        assert(f(k - 1) == g(k - 1));
        lemma_sum_update((k - 1) as nat, f, g, at, d);
    }
}

/// A larger set weighs no less.
pub proof fn lemma_stake_monotone(stakes: Seq<u64>, s: Set<u64>, t: Set<u64>)
    requires
        s.subset_of(t),
    ensures
        stake_of(stakes, s) <= stake_of(stakes, t),
        quorum(stakes, s) ==> quorum(stakes, t),
{
    assert forall|i: int| 0 <= i < stakes.len() implies #[trigger] stake_term(stakes, s)(i)
        <= stake_term(stakes, t)(i) by {}
    lemma_sum_le(stakes.len(), stake_term(stakes, s), stake_term(stakes, t));
}

/// No set weighs more than the committee.
pub proof fn lemma_stake_bounded(stakes: Seq<u64>, s: Set<u64>)
    ensures
        0 <= stake_of(stakes, s) <= total_stake(stakes),
{
    let f = stake_term(stakes, s);
    let g = |a: int| stakes[a] as int;
    assert forall|i: int| 0 <= i < stakes.len() implies #[trigger] f(i) <= g(i) by {}
    lemma_sum_le(stakes.len(), f, g);
    let z = |i: int| 0int;
    assert forall|i: int| 0 <= i < stakes.len() implies #[trigger] z(i) <= f(i) by {}
    lemma_sum_le(stakes.len(), z, f);
    modular::lemma_sum_zero(stakes.len());
}

/// A new member adds its weight.
pub proof fn lemma_stake_insert(stakes: Seq<u64>, s: Set<u64>, a: u64)
    requires
        a < stakes.len(),
        stakes.len() <= u64::MAX,
        !s.contains(a),
    ensures
        stake_of(stakes, s.insert(a)) == stake_of(stakes, s) + stakes[a as int],
{
    let f = stake_term(stakes, s);
    let g = stake_term(stakes, s.insert(a));
    assert forall|i: int| 0 <= i < stakes.len() && i != a implies #[trigger] f(i) == g(i) by {
        assert((i as u64) != a);
    }
    lemma_sum_update(stakes.len(), f, g, a as int, stakes[a as int] as int);
}

/// Nobody weighs nothing.
pub proof fn lemma_stake_empty(stakes: Seq<u64>)
    ensures
        stake_of(stakes, Set::<u64>::empty()) == 0,
{
    let f = stake_term(stakes, Set::<u64>::empty());
    let z = |i: int| 0int;
    assert forall|i: int| 0 <= i < stakes.len() implies #[trigger] f(i) == z(i) by {}
    modular::lemma_sum_ext(stakes.len(), f, z);
    modular::lemma_sum_zero(stakes.len());
}

/// The stakes are those of a committee: it has members, no more than the
/// limit, each with a weight, and their total is a machine number.
pub open spec fn valid_stakes(stakes: Seq<u64>) -> bool {
    &&& 0 < stakes.len() <= MAX_COMMITTEE
    &&& forall|i: int| 0 <= i < stakes.len() ==> #[trigger] stakes[i] > 0
    &&& total_stake(stakes) <= u64::MAX
}

/// The members' weights, and the thresholds that follow from them.
pub struct Committee {
    stakes: Vec<Stake>,
    total: Stake,
    quorum_threshold: Stake,
}

impl Committee {
    /// The weight of each member.
    pub closed spec fn stakes(&self) -> Seq<u64> {
        self.stakes@
    }

    #[verifier::type_invariant]
    spec fn inv(self) -> bool {
        &&& valid_stakes(self.stakes@)
        &&& self.total == total_stake(self.stakes@)
        &&& self.quorum_threshold == 2 * total_stake(self.stakes@) / 3
    }

    /// A committee of members with these weights, where they are valid.
    pub fn new(stakes: Vec<Stake>) -> (r: Option<Committee>)
        ensures
            r is Some <==> valid_stakes(stakes@),
            r matches Some(c) ==> c.stakes() == stakes@,
    {
        if stakes.len() == 0 || stakes.len() > MAX_COMMITTEE {
            return None;
        }
        let ghost f = |a: int| stakes@[a] as int;
        let mut total: u64 = 0;
        let mut i: usize = 0;
        while i < stakes.len()
            invariant
                i <= stakes.len(),
                f == (|a: int| stakes@[a] as int),
                total == modular::sum(i as nat, f),
                forall|j: int| 0 <= j < i ==> #[trigger] stakes[j] > 0,
            decreases stakes.len() - i,
        {
            if stakes[i] == 0 {
                assert(!(stakes@[i as int] > 0));
                return None;
            }
            assert(modular::sum((i + 1) as nat, f) == modular::sum(i as nat, f) + f(i as int));
            match total.checked_add(stakes[i]) {
                Some(t) => {
                    total = t;
                },
                None => {
                    proof {
                        lemma_prefix_le(stakes@, (i + 1) as nat);
                    }
                    return None;
                },
            }
            i = i + 1;
        }
        let quorum_threshold: u64 = ((total as u128) * 2 / 3) as u64;
        Some(Committee { stakes, total, quorum_threshold })
    }

    /// How many members the committee has.
    pub fn len(&self) -> (n: usize)
        ensures
            n == self.stakes().len(),
            valid_stakes(self.stakes()),
    {
        proof {
            use_type_invariant(self);
        }
        self.stakes.len()
    }

    /// Whether an index is a member's.
    pub fn known_authority(&self, authority: AuthorityIndex) -> (b: bool)
        ensures
            b == (authority < self.stakes().len()),
    {
        proof {
            use_type_invariant(self);
        }
        authority < self.stakes.len() as u64
    }

    /// The weight of a member.
    pub fn get_stake(&self, authority: AuthorityIndex) -> (r: Option<Stake>)
        ensures
            r is Some <==> authority < self.stakes().len(),
            r matches Some(s) ==> s == self.stakes()[authority as int],
    {
        proof {
            use_type_invariant(self);
        }
        if self.known_authority(authority) {
            Some(self.stakes[authority as usize])
        } else {
            None
        }
    }

    /// The weight of the whole committee.
    pub fn total_stake(&self) -> (r: Stake)
        ensures
            r == total_stake(self.stakes()),
    {
        proof {
            use_type_invariant(self);
        }
        self.total
    }

    /// Whether a weight is more than two thirds of the total, rounded down.
    pub fn is_quorum(&self, amount: Stake) -> (b: bool)
        ensures
            b == (amount > 2 * total_stake(self.stakes()) / 3),
    {
        proof {
            use_type_invariant(self);
        }
        amount > self.quorum_threshold
    }
}

proof fn lemma_prefix_le(stakes: Seq<u64>, k: nat)
    requires
        k <= stakes.len(),
    ensures
        modular::sum(k, |a: int| stakes[a] as int) <= total_stake(stakes),
    decreases stakes.len() - k,
{
    let f = |a: int| stakes[a] as int;
    if k < stakes.len() {
        assert(modular::sum(k + 1, f) == modular::sum(k, f) + f(k as int));
        lemma_prefix_le(stakes, k + 1);
    }
}

/// The votes of committee members for one thing, each counted once.
pub struct StakeAggregator {
    pub voters: Vec<AuthorityIndex>,
    pub stake: Stake,
}

impl StakeAggregator {
    /// Who has voted.
    pub open spec fn set(&self) -> Set<u64> {
        self.voters@.to_set()
    }

    /// The voters are members, none is listed twice, and the weight is theirs.
    pub open spec fn wf(&self, stakes: Seq<u64>) -> bool {
        &&& self.voters@.no_duplicates()
        &&& forall|i: int| 0 <= i < self.voters@.len() ==> #[trigger] self.voters@[i] < stakes.len()
        &&& self.stake == stake_of(stakes, self.set())
    }

    /// No votes yet.
    pub fn new() -> (r: Self)
        ensures
            r.set() == Set::<u64>::empty(),
            r.voters@ == Seq::<u64>::empty(),
            forall|stakes: Seq<u64>| #[trigger] r.wf(stakes),
    {
        let r = StakeAggregator { voters: Vec::new(), stake: 0 };
        proof {
            assert(r.set() =~= Set::<u64>::empty());
            assert forall|stakes: Seq<u64>| #[trigger] r.wf(stakes) by {
                lemma_stake_empty(stakes);
            }
        }
        r
    }

    /// Whether a member has voted.
    pub fn contains(&self, vote: AuthorityIndex) -> (b: bool)
        ensures
            b == self.set().contains(vote),
    {
        let mut i: usize = 0;
        while i < self.voters.len()
            invariant
                i <= self.voters@.len(),
                forall|j: int| 0 <= j < i ==> self.voters@[j] != vote,
            decreases self.voters@.len() - i,
        {
            if self.voters[i] == vote {
                assert(self.voters@[i as int] == vote);
                return true;
            }
            i = i + 1;
        }
        false
    }

    /// Counts a member's vote, and tells whether there is a quorum.
    pub fn add(&mut self, vote: AuthorityIndex, committee: &Committee) -> (b: bool)
        requires
            old(self).wf(committee.stakes()),
            vote < committee.stakes().len(),
        ensures
            final(self).wf(committee.stakes()),
            final(self).set() == old(self).set().insert(vote),
            b == quorum(committee.stakes(), final(self).set()),
            old(self).set().contains(vote) ==> final(self).voters@ == old(self).voters@,
            !old(self).set().contains(vote) ==> final(self).voters@ == old(self).voters@.push(vote),
    {
        let ghost stakes = committee.stakes();
        let ghost before = *self;
        if !self.contains(vote) {
            let stake: u64 = committee.get_stake(vote).unwrap();
            let total: u64 = committee.total_stake();
            let n: usize = committee.len();
            proof {
                lemma_stake_insert(stakes, before.set(), vote);
                lemma_stake_bounded(stakes, before.set().insert(vote));
            }
            self.voters.push(vote);
            self.stake = self.stake + stake;
            proof {
                assert(self.set() =~= before.set().insert(vote)) by {
                    assert forall|x: u64| self.set().contains(x) == before.set().insert(vote).contains(x) by {
                        if before.set().contains(x) {
                            let i = choose|i: int| 0 <= i < before.voters@.len() && before.voters@[i] == x;
                            assert(self.voters@[i] == x);
                        }
                        if x == vote {
                            assert(self.voters@[before.voters@.len() as int] == x);
                        }
                        if self.set().contains(x) && x != vote {
                            let i = choose|i: int| 0 <= i < self.voters@.len() && self.voters@[i] == x;
                            assert(before.voters@[i] == x);
                        }
                    }
                }
                assert(self.voters@.no_duplicates()) by {
                    assert forall|i: int, j: int| 0 <= i < self.voters@.len() && 0 <= j
                        < self.voters@.len() && i != j implies self.voters@[i] != self.voters@[j] by {
                        if i == before.voters@.len() {
                            assert(before.voters@[j] != vote) by {
                                if before.voters@[j] == vote {
                                    assert(before.set().contains(vote));
                                }
                            }
                        } else if j == before.voters@.len() {
                            assert(before.voters@[i] != vote) by {
                                if before.voters@[i] == vote {
                                    assert(before.set().contains(vote));
                                }
                            }
                        }
                    }
                }
            }
        } else {
            assert(before.set().insert(vote) =~= before.set());
        }
        committee.is_quorum(self.stake)
    }

    /// Whether the votes are a quorum.
    pub fn is_quorum(&self, committee: &Committee) -> (b: bool)
        requires
            self.wf(committee.stakes()),
        ensures
            b == quorum(committee.stakes(), self.set()),
    {
        committee.is_quorum(self.stake)
    }
}

/// Two quorums of a committee have a member in common.
pub proof fn law_quorums_intersect(stakes: Seq<u64>, s: Set<u64>, t: Set<u64>)
    requires
        valid_stakes(stakes),
        quorum(stakes, s),
        quorum(stakes, t),
    ensures
        exists|a: u64| a < stakes.len() && s.contains(a) && t.contains(a),
{
    if forall|a: u64| !(a < stakes.len() && s.contains(a) && t.contains(a)) {
        let f = stake_term(stakes, s);
        let g = stake_term(stakes, t);
        let fg = |i: int| f(i) + g(i);
        let w = |a: int| stakes[a] as int;
        assert forall|i: int| 0 <= i < stakes.len() implies #[trigger] fg(i) <= w(i) by {
            let a = i as u64;
            assert(a < stakes.len());
        }
        lemma_sum_le(stakes.len(), fg, w);
        modular::lemma_sum_plus(stakes.len(), f, g);
        let n = total_stake(stakes);
        assert(stake_of(stakes, s) + stake_of(stakes, t) <= n);
        lemma_stake_bounded(stakes, s);
    }
}

/// A quorum is more than two thirds of the weight.
pub proof fn law_quorum_is_more_than_two_thirds(stakes: Seq<u64>, s: Set<u64>)
    ensures
        quorum(stakes, s) <==> 3 * stake_of(stakes, s) > 2 * total_stake(stakes),
{
}

/// The weight of a set is that of its members: nobody weighs nothing, a member that is
/// not in it yet adds its own weight, whatever is no member adds nothing, and all
/// members together have the whole weight.
pub proof fn law_weights_add_up(stakes: Seq<u64>, s: Set<u64>, a: u64)
    requires
        stakes.len() <= u64::MAX,
    ensures
        stake_of(stakes, Set::empty()) == 0,
        a < stakes.len() && !s.contains(a) ==> stake_of(stakes, s.insert(a)) == stake_of(stakes, s)
            + stakes[a as int],
        a >= stakes.len() ==> stake_of(stakes, s.insert(a)) == stake_of(stakes, s),
        (forall|m: u64| m < stakes.len() ==> s.contains(m)) ==> stake_of(stakes, s) == total_stake(
            stakes,
        ),
        stakes.len() > 0 ==> total_stake(stakes) == total_stake(stakes.drop_last()) + stakes.last(),
        stakes.len() == 0 ==> total_stake(stakes) == 0,
{
    lemma_stake_empty(stakes);
    if a < stakes.len() && !s.contains(a) {
        lemma_stake_insert(stakes, s, a);
    }
    let f = stake_term(stakes, s);
    if a >= stakes.len() {
        let g = stake_term(stakes, s.insert(a));
        assert forall|i: int| 0 <= i < stakes.len() implies #[trigger] f(i) == g(i) by {
            assert((i as u64) != a);
        }
        modular::lemma_sum_ext(stakes.len(), f, g);
    }
    let w = |x: int| stakes[x] as int;
    if forall|m: u64| m < stakes.len() ==> s.contains(m) {
        assert forall|i: int| 0 <= i < stakes.len() implies #[trigger] f(i) == w(i) by {
            assert(s.contains(i as u64));
        }
        modular::lemma_sum_ext(stakes.len(), f, w);
    }
    if stakes.len() > 0 {
        let rest = stakes.drop_last();
        let v = |x: int| rest[x] as int;
        assert forall|i: int| 0 <= i < rest.len() implies #[trigger] v(i) == w(i) by {}
        modular::lemma_sum_ext(rest.len(), v, w);
    }
}

proof fn lemma_unit_stake(stakes: Seq<u64>, s: Set<u64>)
    requires
        stakes.len() <= u64::MAX,
        forall|i: int| 0 <= i < stakes.len() ==> #[trigger] stakes[i] == 1,
        s.finite(),
        forall|a: u64| #[trigger] s.contains(a) ==> a < stakes.len(),
    ensures
        stake_of(stakes, s) == s.len(),
    decreases s.len(),
{
    if s.len() == 0 {
        assert(s =~= Set::empty());
        lemma_stake_empty(stakes);
    } else {
        let a = s.choose();
        let rest = s.remove(a);
        lemma_unit_stake(stakes, rest);
        lemma_stake_insert(stakes, rest, a);
        assert(rest.insert(a) =~= s);
    }
}

proof fn lemma_unit_committee(stakes: Seq<u64>)
    requires
        forall|i: int| 0 <= i < stakes.len() ==> #[trigger] stakes[i] == 1,
    ensures
        total_stake(stakes) == stakes.len(),
    decreases stakes.len(),
{
    if stakes.len() > 0 {
        let rest = stakes.drop_last();
        lemma_unit_committee(rest);
        let v = |x: int| rest[x] as int;
        let w = |x: int| stakes[x] as int;
        assert forall|i: int| 0 <= i < rest.len() implies #[trigger] v(i) == w(i) by {}
        modular::lemma_sum_ext(rest.len(), v, w);
    }
}

/// Among members of the same weight a quorum is more than two thirds of them.
pub proof fn law_quorum_of_equal_members(stakes: Seq<u64>, s: Set<u64>)
    requires
        stakes.len() <= u64::MAX,
        forall|i: int| 0 <= i < stakes.len() ==> #[trigger] stakes[i] == 1,
        s.finite(),
        forall|a: u64| #[trigger] s.contains(a) ==> a < stakes.len(),
    ensures
        quorum(stakes, s) <==> 3 * s.len() > 2 * stakes.len(),
{
    lemma_unit_stake(stakes, s);
    lemma_unit_committee(stakes);
}

/// A run of consecutive offsets.
#[derive(Clone, Copy, Debug, PartialEq, Eq, Structural)]
pub struct OffsetRange {
    pub start: u64,
    pub end: u64,
}

/// Gathers offsets into runs of consecutive ones.
#[derive(Clone, Copy, Debug, PartialEq, Eq, Structural)]
pub struct VoteRangeBuilder {
    pub range: Option<OffsetRange>,
}

impl VoteRangeBuilder {
    /// No run yet.
    pub fn new() -> (r: Self)
        ensures
            r.range is None,
    {
        VoteRangeBuilder { range: None }
    }

    /// Adds an offset: it extends the current run, or ends it and starts
    /// another. A run that has ended is given back.
    pub fn add(&mut self, offset: u64) -> (r: Option<OffsetRange>)
        requires
            offset < u64::MAX,
        ensures
            match old(self).range {
                Some(run) => if run.end == offset {
                    r is None && final(self).range == Some(
                        OffsetRange { start: run.start, end: (offset + 1) as u64 },
                    )
                } else {
                    r == Some(run) && final(self).range == Some(
                        OffsetRange { start: offset, end: (offset + 1) as u64 },
                    )
                },
                None => r is None && final(self).range == Some(
                    OffsetRange { start: offset, end: (offset + 1) as u64 },
                ),
            },
    {
        match self.range {
            Some(run) => {
                if run.end == offset {
                    self.range = Some(OffsetRange { start: run.start, end: offset + 1 });
                    None
                } else {
                    self.range = Some(OffsetRange { start: offset, end: offset + 1 });
                    Some(run)
                }
            },
            None => {
                self.range = Some(OffsetRange { start: offset, end: offset + 1 });
                None
            },
        }
    }

    /// The run that has not ended.
    pub fn finish(self) -> (r: Option<OffsetRange>)
        ensures
            r == self.range,
    {
        self.range
    }
}

} // verus!
