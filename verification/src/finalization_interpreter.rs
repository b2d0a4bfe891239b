//! Finalization on the fast path: votes for blocks or transactions are
//! gathered along the graph of blocks, and what a quorum of authors has seen a
//! quorum of votes for is final.
use crate::committee;
use crate::committee::{AuthorityIndex, Committee, StakeAggregator};
use crate::keymap;
use crate::keymap::{Key, KeyMap};
use crate::types::{
    BaseStatement, BlockReference, BlockStore, RoundNumber, StatementBlock, TransactionLocator, Vote,
};
use vstd::prelude::*;

verus! {

/// The blocks of a graph, by their references.
pub type Graph = Map<BlockReference, StatementBlock>;

/// The transactions that have been finalized, in the order in which they were.
pub struct VoteLedger {
    pub finalized: Vec<TransactionLocator>,
}

/// A list of finalized transactions continues another one, and repeats none.
#[verifier::opaque]
pub open spec fn continues(a: Seq<TransactionLocator>, b: Seq<TransactionLocator>) -> bool {
    &&& a.len() <= b.len()
    &&& b.take(a.len() as int) == a
    &&& a.no_duplicates() ==> b.no_duplicates()
}

/// A list continues itself.
pub proof fn lemma_continues_refl(a: Seq<TransactionLocator>)
    ensures
        continues(a, a),
{
    reveal(continues);
    assert(a.take(a.len() as int) =~= a);
}

/// What continues a continuation continues the first list.
pub proof fn lemma_continues_trans(
    a: Seq<TransactionLocator>,
    b: Seq<TransactionLocator>,
    c: Seq<TransactionLocator>,
)
    requires
        continues(a, b),
        continues(b, c),
    ensures
        continues(a, c),
{
    reveal(continues);
    assert(c.take(a.len() as int) =~= c.take(b.len() as int).take(a.len() as int));
}

impl VoteLedger {
    /// The finalized transactions.
    pub open spec fn set(&self) -> Set<TransactionLocator> {
        self.finalized@.to_set()
    }

    /// Nothing is finalized.
    pub fn new() -> (r: Self)
        ensures
            r.finalized@ == Seq::<TransactionLocator>::empty(),
            r.set() == Set::<TransactionLocator>::empty(),
    {
        let r = VoteLedger { finalized: Vec::new() };
        assert(r.set() =~= Set::<TransactionLocator>::empty());
        r
    }

    /// Whether a transaction is finalized.
    pub fn is_vote_finalized(&self, vote: &TransactionLocator) -> (b: bool)
        ensures
            b == self.set().contains(*vote),
    {
        let mut i: usize = 0;
        while i < self.finalized.len()
            invariant
                i <= self.finalized@.len(),
                forall|j: int| 0 <= j < i ==> self.finalized@[j] != *vote,
            decreases self.finalized@.len() - i,
        {
            if self.finalized[i].same_key(vote) {
                assert(self.finalized@[i as int] == *vote);
                return true;
            }
            i = i + 1;
        }
        false
    }

    /// Finalizes a transaction, and tells whether it was not before.
    pub fn insert(&mut self, vote: TransactionLocator) -> (fresh: bool)
        ensures
            fresh == !old(self).set().contains(vote),
            final(self).set() == old(self).set().insert(vote),
            fresh ==> final(self).finalized@ == old(self).finalized@.push(vote),
            !fresh ==> final(self).finalized@ == old(self).finalized@,
            continues(old(self).finalized@, final(self).finalized@),
    {
        let ghost before = *self;
        if self.is_vote_finalized(&vote) {
            proof {
                lemma_continues_refl(self.finalized@);
            }
            assert(before.set().insert(vote) =~= before.set());
            return false;
        }
        self.finalized.push(vote);
        proof {
            lemma_push_set(before.finalized@, vote);
            reveal(continues);
            let a = before.finalized@;
            let b = self.finalized@;
            assert(b.take(a.len() as int) =~= a);
            if a.no_duplicates() {
                assert forall|i: int, j: int| 0 <= i < b.len() && 0 <= j < b.len() && i != j implies b[i]
                    != b[j] by {
                    if i == a.len() {
                        assert(a.contains(a[j]));
                    } else if j == a.len() {
                        assert(a.contains(a[i]));
                    } else {
                        assert(a[i] != a[j]);
                    }
                }
            }
        }
        true
    }
}

/// A list's set grows by what is appended.
pub proof fn lemma_push_set<A>(s: Seq<A>, a: A)
    ensures
        s.push(a).to_set() == s.to_set().insert(a),
{
    assert forall|x: A| s.push(a).to_set().contains(x) == s.to_set().insert(a).contains(x) by {
        if s.contains(x) {
            let i = choose|i: int| 0 <= i < s.len() && s[i] == x;
            assert(s.push(a)[i] == x);
        }
        if x == a {
            assert(s.push(a)[s.len() as int] == x);
        }
        if s.push(a).contains(x) && x != a {
            let i = choose|i: int| 0 <= i < s.push(a).len() && s.push(a)[i] == x;
            assert(s[i] == x);
        }
    }
    assert(s.push(a).to_set() =~= s.to_set().insert(a));
}

/// What votes are for: blocks as a whole, or single transactions.
pub trait VoteTarget: Key {
    /// What a block votes for itself.
    spec fn direct_votes(block: StatementBlock) -> Seq<Self>;

    /// A block whose own quorum of votes counts towards finality.
    spec fn certifying(block: StatementBlock) -> bool;

    /// Votes for the target are no longer taken.
    spec fn closed_by(ledger: Set<TransactionLocator>, t: Self) -> bool;

    /// The block's own votes leave out what is final already.
    spec fn leaves_out_final() -> bool;

    /// The transactions that become final with the target.
    spec fn covered(graph: Graph, t: Self) -> Set<TransactionLocator>;

    proof fn closed_stays(a: Set<TransactionLocator>, b: Set<TransactionLocator>, t: Self)
        requires
            a.subset_of(b),
        ensures
            Self::closed_by(a, t) ==> Self::closed_by(b, t),
    ;

    fn direct_votes_of(block: &StatementBlock) -> (r: Vec<Self>)
        ensures
            r@ == Self::direct_votes(*block),
    ;

    fn is_certifying(block: &StatementBlock) -> (b: bool)
        ensures
            b == Self::certifying(*block),
    ;

    fn is_closed_by(ledger: &VoteLedger, t: &Self) -> (b: bool)
        ensures
            b == Self::closed_by(ledger.set(), *t),
    ;

    fn leaves_out_final_votes() -> (b: bool)
        ensures
            b == Self::leaves_out_final(),
    ;

    fn record(ledger: &mut VoteLedger, store: &BlockStore, t: &Self)
        requires
            store.wf(),
        ensures
            final(ledger).set() == old(ledger).set().union(Self::covered(store@, *t)),
            continues(old(ledger).finalized@, final(ledger).finalized@),
    ;
}

impl VoteTarget for BlockReference {
    open spec fn direct_votes(block: StatementBlock) -> Seq<Self> {
        block.includes@
    }

    open spec fn certifying(block: StatementBlock) -> bool {
        true
    }

    open spec fn closed_by(ledger: Set<TransactionLocator>, t: Self) -> bool {
        false
    }

    open spec fn leaves_out_final() -> bool {
        true
    }

    open spec fn covered(graph: Graph, t: Self) -> Set<TransactionLocator> {
        if graph.dom().contains(t) {
            graph[t].shared()
        } else {
            Set::empty()
        }
    }

    proof fn closed_stays(a: Set<TransactionLocator>, b: Set<TransactionLocator>, t: Self) {
    }

    fn direct_votes_of(block: &StatementBlock) -> (r: Vec<Self>) {
        let mut out: Vec<BlockReference> = Vec::new();
        let mut i: usize = 0;
        while i < block.includes.len()
            invariant
                i <= block.includes@.len(),
                out@ == block.includes@.take(i as int),
            decreases block.includes@.len() - i,
        {
            out.push(block.includes[i]);
            i = i + 1;
            assert(block.includes@.take(i as int) =~= block.includes@.take(i - 1).push(
                block.includes@[i - 1],
            ));
        }
        assert(block.includes@.take(i as int) =~= block.includes@);
        out
    }

    fn is_certifying(block: &StatementBlock) -> (b: bool) {
        true
    }

    fn is_closed_by(ledger: &VoteLedger, t: &Self) -> (b: bool) {
        false
    }

    fn leaves_out_final_votes() -> (b: bool) {
        true
    }

    fn record(ledger: &mut VoteLedger, store: &BlockStore, t: &Self) {
        let ghost before = ledger.set();
        let ghost list = ledger.finalized@;
        proof {
            lemma_continues_refl(list);
        }
        match store.get_block(*t) {
            Some(block) => {
                let locators = block.shared_transactions();
                let mut i: usize = 0;
                while i < locators.len()
                    invariant
                        i <= locators@.len(),
                        ledger.set() == before.union(locators@.take(i as int).to_set()),
                        continues(list, ledger.finalized@),
                    decreases locators@.len() - i,
                {
                    let l = locators[i];
                    let ghost so_far = ledger.finalized@;
                    if !ledger.is_vote_finalized(&l) {
                        let fresh = ledger.insert(l);
                        proof {
                            lemma_continues_trans(list, so_far, ledger.finalized@);
                        }
                    }
                    proof {
                        lemma_push_set(locators@.take(i as int), l);
                        assert(locators@.take(i + 1) =~= locators@.take(i as int).push(l));
                        assert(ledger.set() =~= before.union(locators@.take(i + 1).to_set()));
                    }
                    i = i + 1;
                }
                proof {
                    assert(locators@.take(i as int) =~= locators@);
                    assert forall|l: TransactionLocator| locators@.to_set().contains(l)
                        == block.shared().contains(l) by {
                        if locators@.contains(l) {
                            let k = choose|k: int| 0 <= k < locators@.len() && locators@[k] == l;
                            assert(block.shares(locators@[k]));
                        }
                        if block.shares(l) {
                            assert(locators@.contains(l));
                        }
                    }
                    assert(locators@.to_set() =~= block.shared());
                }
                assert(before.union(locators@.take(0).to_set()) =~= before);
            },
            None => {
                assert(before.union(Set::empty()) =~= before);
            },
        }
    }
}

/// What a list of statements accepts, up to `k`: single votes, ranges, and the
/// transactions that it shares itself.
pub open spec fn accepted_votes(block: StatementBlock, k: int) -> Seq<TransactionLocator>
    decreases k,
{
    if k <= 0 {
        Seq::empty()
    } else {
        let rest = accepted_votes(block, k - 1);
        match block.statements@[k - 1] {
            BaseStatement::Vote(locator, vote) => if vote is Accept {
                rest.push(locator)
            } else {
                rest
            },
            BaseStatement::VoteRange(range) => rest + range.locators_spec(),
            BaseStatement::Share(_) => rest.push(
                TransactionLocator { block: block.reference, offset: (k - 1) as u64 },
            ),
        }
    }
}

impl VoteTarget for TransactionLocator {
    open spec fn direct_votes(block: StatementBlock) -> Seq<Self> {
        accepted_votes(block, block.statements@.len() as int)
    }

    open spec fn certifying(block: StatementBlock) -> bool {
        !block.epoch_marker
    }

    open spec fn closed_by(ledger: Set<TransactionLocator>, t: Self) -> bool {
        ledger.contains(t)
    }

    open spec fn leaves_out_final() -> bool {
        false
    }

    open spec fn covered(graph: Graph, t: Self) -> Set<TransactionLocator> {
        Set::empty().insert(t)
    }

    proof fn closed_stays(a: Set<TransactionLocator>, b: Set<TransactionLocator>, t: Self) {
    }

    fn direct_votes_of(block: &StatementBlock) -> (r: Vec<Self>) {
        let mut out: Vec<TransactionLocator> = Vec::new();
        let mut i: usize = 0;
        while i < block.statements.len()
            invariant
                i <= block.statements@.len(),
                out@ == accepted_votes(*block, i as int),
            decreases block.statements@.len() - i,
        {
            match &block.statements[i] {
                BaseStatement::Vote(locator, vote) => {
                    if let Vote::Accept = vote {
                        out.push(*locator);
                    }
                },
                BaseStatement::VoteRange(range) => {
                    let mut more = range.locators();
                    out.append(&mut more);
                },
                BaseStatement::Share(_) => {
                    out.push(TransactionLocator { block: block.reference, offset: i as u64 });
                },
            }
            i = i + 1;
        }
        out
    }

    fn is_certifying(block: &StatementBlock) -> (b: bool) {
        !block.epoch_changed()
    }

    fn is_closed_by(ledger: &VoteLedger, t: &Self) -> (b: bool) {
        ledger.is_vote_finalized(t)
    }

    fn leaves_out_final_votes() -> (b: bool) {
        false
    }

    fn record(ledger: &mut VoteLedger, store: &BlockStore, t: &Self) {
        let ghost before = ledger.set();
        let fresh = ledger.insert(*t);
        assert(before.insert(*t) =~= before.union(Set::empty().insert(*t)));
    }
}

/// Who has voted for a target, in one map of votes.
pub open spec fn tally<T: Key>(m: Map<T, StakeAggregator>, t: T) -> Set<u64> {
    if m.dom().contains(t) {
        m[t].set()
    } else {
        Set::empty()
    }
}

/// Every vote in a map of votes is counted as it should be.
pub open spec fn counted<T: Key>(m: KeyMap<T, StakeAggregator>, stakes: Seq<u64>) -> bool {
    &&& m.wf()
    &&& forall|t: T| m@.dom().contains(t) ==> (#[trigger] m@[t]).wf(stakes)
}

/// Counts a vote for a target, and tells whether there is a quorum for it.
fn add_vote<T: Key>(
    m: &mut KeyMap<T, StakeAggregator>,
    t: T,
    voter: AuthorityIndex,
    committee: &Committee,
) -> (b: bool)
    requires
        counted(*old(m), committee.stakes()),
        voter < committee.stakes().len(),
    ensures
        counted(*final(m), committee.stakes()),
        b == committee::quorum(committee.stakes(), tally(final(m)@, t)),
        tally(final(m)@, t) == tally(old(m)@, t).insert(voter),
        forall|u: T| u != t ==> #[trigger] tally(final(m)@, u) == tally(old(m)@, u),
        final(m)@.dom() == old(m)@.dom().insert(t),
{
    let ghost before = *m;
    let mut agg = match m.remove(&t) {
        Some(a) => a,
        None => StakeAggregator::new(),
    };
    let b = agg.add(voter, committee);
    m.insert(t, agg);
    proof {
        assert forall|u: T| u != t implies #[trigger] tally(m@, u) == tally(before@, u) by {}
        assert(m@.dom() =~= before@.dom().insert(t));
    }
    b
}

/// The votes that each block has seen, and whose quorums count for what.
pub struct VoteTally<T: VoteTarget> {
    pub votes: KeyMap<BlockReference, KeyMap<T, StakeAggregator>>,
    pub certs: KeyMap<T, StakeAggregator>,
}

impl<T: VoteTarget> VoteTally<T> {
    /// Every vote is counted as it should be.
    pub open spec fn wf(&self, stakes: Seq<u64>) -> bool {
        &&& self.votes.wf()
        &&& counted(self.certs, stakes)
        &&& forall|o: BlockReference|
            self.votes@.dom().contains(o) ==> counted(#[trigger] self.votes@[o], stakes)
    }

    /// The blocks whose votes have been gathered.
    pub open spec fn observers(&self) -> Set<BlockReference> {
        self.votes@.dom()
    }

    /// Whose votes for `t` the block `o` has seen.
    pub open spec fn voters(&self, o: BlockReference, t: T) -> Set<u64> {
        if self.votes@.dom().contains(o) {
            tally(self.votes@[o]@, t)
        } else {
            Set::empty()
        }
    }

    /// Whose blocks have seen a quorum of votes for `t`.
    pub open spec fn endorsers(&self, t: T) -> Set<u64> {
        tally(self.certs@, t)
    }

    /// A quorum of authors has seen a quorum of votes for `t`.
    pub open spec fn is_final(&self, stakes: Seq<u64>, t: T) -> bool {
        committee::quorum(stakes, self.endorsers(t))
    }

    /// No votes.
    pub fn new() -> (r: Self)
        ensures
            forall|stakes: Seq<u64>| #[trigger] r.wf(stakes),
            r.observers() == Set::<BlockReference>::empty(),
            forall|t: T| #[trigger] r.endorsers(t) == Set::<u64>::empty(),
            forall|o: BlockReference, t: T| #[trigger] r.voters(o, t) == Set::<u64>::empty(),
    {
        VoteTally { votes: KeyMap::new(), certs: KeyMap::new() }
    }

    /// Whether a target is final.
    pub fn finalized(&self, committee: &Committee, t: &T) -> (b: bool)
        requires
            self.wf(committee.stakes()),
        ensures
            b == self.is_final(committee.stakes(), *t),
    {
        match self.certs.get(t) {
            Some(agg) => agg.is_quorum(committee),
            None => {
                let total: u64 = committee.total_stake();
                proof {
                    committee::lemma_stake_empty(committee.stakes());
                }
                false
            },
        }
    }

    /// Counts a vote that the block `observer` has seen. Where that makes a
    /// quorum, and the block certifies, its author endorses the target. Tells
    /// whether the target became final; its votes at the block are dropped
    /// then.
    pub fn cast(
        &mut self,
        committee: &Committee,
        observer: &BlockReference,
        certify: bool,
        t: T,
        voter: AuthorityIndex,
    ) -> (newly: bool)
        requires
            old(self).wf(committee.stakes()),
            old(self).observers().contains(*observer),
            voter < committee.stakes().len(),
            observer.authority < committee.stakes().len(),
        ensures
            final(self).wf(committee.stakes()),
            final(self).observers() == old(self).observers(),
            forall|o: BlockReference, u: T|
                (o != *observer || u != t) ==> #[trigger] final(self).voters(o, u) == old(
                    self,
                ).voters(o, u),
            final(self).voters(*observer, t) == (if newly {
                Set::empty()
            } else {
                old(self).voters(*observer, t).insert(voter)
            }),
            forall|u: T| u != t ==> #[trigger] final(self).endorsers(u) == old(self).endorsers(u),
            final(self).endorsers(t) == (if certify && committee::quorum(
                committee.stakes(),
                old(self).voters(*observer, t).insert(voter),
            ) {
                old(self).endorsers(t).insert(observer.authority)
            } else {
                old(self).endorsers(t)
            }),
            newly == (!old(self).is_final(committee.stakes(), t) && final(self).is_final(
                committee.stakes(),
                t,
            )),
    {
        let ghost stakes = committee.stakes();
        let ghost before = *self;
        let was_final = self.finalized(committee, &t);
        let is_quorum = match self.votes.get_mut(observer) {
            Some(inner) => add_vote(inner, t, voter, committee),
            None => false,
        };
        let ghost mid = *self;
        proof {
            let v = self.votes.entries@[keymap::position(before.votes.entries@, *observer)].1;
            keymap::lemma_get_mut(before.votes, self.votes, *observer, v);
            assert(self.votes@.dom() =~= before.votes@.dom());
            assert forall|o: BlockReference| self.votes@.dom().contains(o) implies counted(
                #[trigger] self.votes@[o],
                stakes,
            ) by {
                if o != *observer {
                    assert(counted(before.votes@[o], stakes));
                }
            }
        }
        if !is_quorum || !certify {
            return false;
        }
        let now_final = add_vote(&mut self.certs, t, observer.authority, committee);
        if !was_final && now_final {
            match self.votes.get_mut(observer) {
                Some(inner) => {
                    let dropped = inner.remove(&t);
                },
                None => {},
            }
            proof {
                let v = self.votes.entries@[keymap::position(mid.votes.entries@, *observer)].1;
                keymap::lemma_get_mut(mid.votes, self.votes, *observer, v);
                assert(self.votes@.dom() =~= mid.votes@.dom());
                assert forall|o: BlockReference| self.votes@.dom().contains(o) implies counted(
                    #[trigger] self.votes@[o],
                    stakes,
                ) by {
                    assert(counted(mid.votes@[o], stakes));
                    if o == *observer {
                        assert forall|u: T| self.votes@[o]@.dom().contains(u) implies (
                        #[trigger] self.votes@[o]@[u]).wf(stakes) by {
                            assert(mid.votes@[o]@[u].wf(stakes));
                        }
                    }
                }
                assert forall|o: BlockReference, u: T|
                    (o != *observer || u != t) implies #[trigger] self.voters(o, u) == before.voters(
                    o,
                    u,
                ) by {
                    assert(mid.voters(o, u) == before.voters(o, u));
                    if o == *observer {
                        assert(self.votes@[o]@ == mid.votes@[o]@.remove(t));
                    }
                }
            }
            true
        } else {
            false
        }
    }
}

/// Blocks refer to earlier rounds only.
pub open spec fn layered(g: Graph) -> bool {
    forall|r: BlockReference, p: BlockReference|
        g.dom().contains(r) && #[trigger] g[r].includes@.contains(p) ==> p.round < r.round
}

/// A path through the graph from the block `o` to a block of the author `v`
/// that votes for `t` itself.
pub open spec fn is_support<T: VoteTarget>(
    g: Graph,
    path: Seq<BlockReference>,
    o: BlockReference,
    t: T,
    v: u64,
) -> bool {
    &&& path.len() > 0
    &&& path[0] == o
    &&& forall|i: int| 0 <= i < path.len() ==> g.dom().contains(#[trigger] path[i])
    &&& forall|i: int, j: int|
        0 <= i && j == i + 1 && j < path.len() ==> g[#[trigger] path[i]].includes@.contains(
            #[trigger] path[j],
        )
    &&& path.last().authority == v
    &&& T::direct_votes(g[path.last()]).contains(t)
}

/// The author `v` votes for `t` in a block that is in the history of `o`.
pub open spec fn supports<T: VoteTarget>(g: Graph, o: BlockReference, t: T, v: u64) -> bool {
    exists|path: Seq<BlockReference>| is_support(g, path, o, t, v)
}

/// A block's history supports what its parent's history supports.
proof fn lemma_supports_child<T: VoteTarget>(
    g: Graph,
    o: BlockReference,
    p: BlockReference,
    t: T,
    v: u64,
)
    requires
        g.dom().contains(o),
        g[o].includes@.contains(p),
        supports(g, p, t, v),
    ensures
        supports(g, o, t, v),
{
    let path = choose|path: Seq<BlockReference>| is_support(g, path, p, t, v);
    let q = seq![o] + path;
    assert(q.last() == path.last());
    assert forall|i: int| 0 <= i < q.len() implies g.dom().contains(#[trigger] q[i]) by {
        if i > 0 {
            assert(q[i] == path[i - 1]);
        }
    }
    assert forall|i: int, j: int| 0 <= i && j == i + 1 && j < q.len() implies g[
        #[trigger] q[i]
    ].includes@.contains(#[trigger] q[j]) by {
        assert(q[j] == path[j - 1]);
        if i > 0 {
            assert(q[i] == path[i - 1]);
        }
    }
    assert(is_support(g, q, o, t, v));
}

/// A block's history supports what the block votes for itself.
proof fn lemma_supports_direct<T: VoteTarget>(g: Graph, o: BlockReference, t: T)
    requires
        g.dom().contains(o),
        T::direct_votes(g[o]).contains(t),
    ensures
        supports(g, o, t, o.authority),
{
    assert(is_support(g, seq![o], o, t, o.authority));
}

impl<T: VoteTarget> VoteTally<T> {
    /// Votes for `t` are still gathered.
    pub open spec fn is_open(&self, ledger: Set<TransactionLocator>, stakes: Seq<u64>, t: T) -> bool {
        !self.is_final(stakes, t) && !T::closed_by(ledger, t)
    }

    /// The author of `o` endorses `t` on the votes that `o` has seen.
    pub open spec fn endorses(&self, g: Graph, stakes: Seq<u64>, o: BlockReference, t: T) -> bool {
        T::certifying(g[o]) && committee::quorum(stakes, self.voters(o, t))
    }

    /// Every vote that was counted was cast in the history of the block that
    /// saw it.
    pub open spec fn votes_sound(&self, g: Graph) -> bool {
        forall|o: BlockReference, t: T, v: u64|
            #![trigger self.voters(o, t).contains(v)]
            self.voters(o, t).contains(v) ==> supports(g, o, t, v)
    }

    /// Every endorsement comes from a certifying block of the endorser whose
    /// history holds a quorum of votes.
    pub open spec fn endorsements_sound(&self, g: Graph, stakes: Seq<u64>) -> bool {
        forall|t: T, a: u64|
            #![trigger self.endorsers(t).contains(a)]
            self.endorsers(t).contains(a) ==> exists|o: BlockReference, q: Set<u64>|
                #[trigger] backed(g, stakes, t, a, o, q)
    }

    /// What `o` has seen for `t` is what its parents have seen and what it
    /// votes for itself.
    pub open spec fn gathered(&self, g: Graph, d: Set<BlockReference>, o: BlockReference, t: T) -> bool {
        forall|v: u64| #[trigger]
            self.voters(o, t).contains(v) <==> self.inherited(g[o].includes@, d, t, v)
                || T::direct_votes(g[o]).contains(t) && v == o.authority
    }

    /// A parent that is held has seen the vote of `v` for `t`.
    pub open spec fn inherited(
        &self,
        parents: Seq<BlockReference>,
        d: Set<BlockReference>,
        t: T,
        v: u64,
    ) -> bool {
        exists|j: int|
            0 <= j < parents.len() && d.contains(#[trigger] parents[j]) && self.voters(
                parents[j],
                t,
            ).contains(v)
    }
}

/// The block `o` of the author `a` certifies, and its history holds the votes
/// of the quorum `q` for `t`.
pub open spec fn backed<T: VoteTarget>(
    g: Graph,
    stakes: Seq<u64>,
    t: T,
    a: u64,
    o: BlockReference,
    q: Set<u64>,
) -> bool {
    &&& o.authority == a
    &&& T::certifying(g[o])
    &&& committee::quorum(stakes, q)
    &&& forall|v: u64| #[trigger] q.contains(v) ==> supports(g, o, t, v)
}

/// A target that became final covers the transaction `l`.
pub open spec fn newly_covered<T: VoteTarget>(
    before: VoteTally<T>,
    after: VoteTally<T>,
    stakes: Seq<u64>,
    d: Graph,
    l: TransactionLocator,
) -> bool {
    exists|t: T|
        !before.is_final(stakes, t) && after.is_final(stakes, t) && #[trigger] T::covered(
            d,
            t,
        ).contains(l)
}

/// The setting in which votes are gathered: the graph with the block that is
/// processed, the blocks held, the weights, and the first round that counts.
#[verifier::ext_equal]
pub struct Setting {
    pub g: Graph,
    pub d: Graph,
    pub stakes: Seq<u64>,
    pub threshold: int,
}

impl Setting {
    pub open spec fn ok(&self) -> bool {
        &&& committee::valid_stakes(self.stakes)
        &&& forall|r: BlockReference|
            self.d.dom().contains(r) ==> self.g.dom().contains(r) && #[trigger] self.d[r] == self.g[r]
        &&& forall|r: BlockReference|
            self.g.dom().contains(r) ==> (#[trigger] self.g[r]).reference == r && r.authority
                < self.stakes.len()
    }
}

/// How votes and finality advance while `cur`, if any, is being processed.
pub open spec fn advances<T: VoteTarget>(
    s: Setting,
    before: VoteTally<T>,
    lb: Set<TransactionLocator>,
    after: VoteTally<T>,
    la: Set<TransactionLocator>,
    cur: Option<BlockReference>,
    top: int,
) -> bool {
    &&& before.observers().subset_of(after.observers())
    &&& forall|o: BlockReference, t: T|
        before.observers().contains(o) && Some(o) != cur ==> #[trigger] after.voters(o, t)
            == before.voters(o, t)
    &&& forall|o: BlockReference, t: T|
        Some(o) == cur && after.is_open(la, s.stakes, t) ==> before.voters(o, t).subset_of(
            #[trigger] after.voters(o, t),
        )
    &&& forall|t: T| before.endorsers(t).subset_of(#[trigger] after.endorsers(t))
    &&& forall|l: TransactionLocator| #[trigger]
        la.contains(l) <==> lb.contains(l) || newly_covered(before, after, s.stakes, s.d, l)
    &&& forall|o: BlockReference| #[trigger]
        after.observers().contains(o) && !before.observers().contains(o) ==> s.g.dom().contains(o)
            && o.round >= s.threshold && Some(o) != cur
    &&& forall|o: BlockReference, p: BlockReference|
        after.observers().contains(o) && !before.observers().contains(o) && s.d.dom().contains(p)
            && p.round >= s.threshold && #[trigger] s.g[o].includes@.contains(p)
            ==> after.observers().contains(p)
    &&& forall|t: T, a: u64|
        after.is_open(la, s.stakes, t) ==> (#[trigger] after.endorsers(t).contains(a)
            <==> before.endorsers(t).contains(a) || exists|o: BlockReference|
            (after.observers().contains(o) && !before.observers().contains(o) || Some(o) == cur)
                && o.authority == a && #[trigger] after.endorses(s.g, s.stakes, o, t))
    &&& layered(s.g) ==> forall|o: BlockReference|
        #[trigger] after.observers().contains(o) && !before.observers().contains(o) ==> o.round <= top
    &&& layered(s.g) ==> forall|o: BlockReference, t: T|
        after.observers().contains(o) && !before.observers().contains(o) && after.is_open(
            la,
            s.stakes,
            t,
        ) ==> #[trigger] after.gathered(s.g, s.d.dom(), o, t)
}

proof fn lemma_final_stays<T: VoteTarget>(before: VoteTally<T>, after: VoteTally<T>, stakes: Seq<u64>, t: T)
    requires
        before.endorsers(t).subset_of(after.endorsers(t)),
        before.is_final(stakes, t),
    ensures
        after.is_final(stakes, t),
{
    committee::lemma_stake_monotone(stakes, before.endorsers(t), after.endorsers(t));
}

/// What is open after an advance was open before it.
proof fn lemma_open_before<T: VoteTarget>(
    s: Setting,
    before: VoteTally<T>,
    lb: Set<TransactionLocator>,
    after: VoteTally<T>,
    la: Set<TransactionLocator>,
    t: T,
)
    requires
        before.endorsers(t).subset_of(after.endorsers(t)),
        lb.subset_of(la),
        after.is_open(la, s.stakes, t),
    ensures
        before.is_open(lb, s.stakes, t),
{
    if before.is_final(s.stakes, t) {
        lemma_final_stays(before, after, s.stakes, t);
    }
    if T::closed_by(lb, t) {
        T::closed_stays(lb, la, t);
    }
}

/// Nothing advances where nothing changes.
proof fn lemma_advances_refl<T: VoteTarget>(
    s: Setting,
    a: VoteTally<T>,
    l: Set<TransactionLocator>,
    top: int,
)
    ensures
        advances(s, a, l, a, l, None, top),
{
}

/// Two advances make one.
#[verifier::rlimit(40)]
#[verifier::spinoff_prover]
proof fn lemma_advances_trans<T: VoteTarget>(
    s: Setting,
    a: VoteTally<T>,
    la: Set<TransactionLocator>,
    b: VoteTally<T>,
    lb: Set<TransactionLocator>,
    c: VoteTally<T>,
    lc: Set<TransactionLocator>,
    cur: BlockReference,
    top: int,
)
    requires
        s.ok(),
        advances(s, a, la, b, lb, Some(cur), top),
        advances(s, b, lb, c, lc, Some(cur), top),
        a.observers().contains(cur),
        layered(s.g) ==> top < cur.round,
    ensures
        advances(s, a, la, c, lc, Some(cur), top),
{
    assert(la.subset_of(lb)) by {
        assert forall|l: TransactionLocator| la.contains(l) implies lb.contains(l) by {}
    }
    assert(lb.subset_of(lc)) by {
        assert forall|l: TransactionLocator| lb.contains(l) implies lc.contains(l) by {}
    }
    let sc = Some(cur);
    assert forall|o: BlockReference, t: T| a.observers().contains(o) && Some(o) != sc implies
        #[trigger] c.voters(o, t) == a.voters(o, t) by {
        assert(b.observers().contains(o));
        assert(b.voters(o, t) == a.voters(o, t));
    }
    assert forall|o: BlockReference, t: T| Some(o) == sc && c.is_open(lc, s.stakes, t) implies
        a.voters(o, t).subset_of(#[trigger] c.voters(o, t)) by {
        assert(b.endorsers(t).subset_of(c.endorsers(t)));
        lemma_open_before(s, b, lb, c, lc, t);
        assert(a.voters(o, t).subset_of(b.voters(o, t)));
        assert(b.voters(o, t).subset_of(c.voters(o, t)));
    }
    assert forall|t: T| a.endorsers(t).subset_of(#[trigger] c.endorsers(t)) by {
        assert(a.endorsers(t).subset_of(b.endorsers(t)));
        assert(b.endorsers(t).subset_of(c.endorsers(t)));
    }
    assert forall|l: TransactionLocator| #[trigger] lc.contains(l) == (la.contains(l)
        || newly_covered(a, c, s.stakes, s.d, l)) by {
        if lc.contains(l) && !la.contains(l) {
            if lb.contains(l) {
                let t = choose|t: T|
                    !a.is_final(s.stakes, t) && b.is_final(s.stakes, t) && #[trigger] T::covered(
                        s.d,
                        t,
                    ).contains(l);
                assert(b.endorsers(t).subset_of(c.endorsers(t)));
                lemma_final_stays(b, c, s.stakes, t);
                assert(T::covered(s.d, t).contains(l));
            } else {
                let t = choose|t: T|
                    !b.is_final(s.stakes, t) && c.is_final(s.stakes, t) && #[trigger] T::covered(
                        s.d,
                        t,
                    ).contains(l);
                assert(a.endorsers(t).subset_of(b.endorsers(t)));
                if a.is_final(s.stakes, t) {
                    lemma_final_stays(a, b, s.stakes, t);
                }
                assert(T::covered(s.d, t).contains(l));
            }
        }
        if newly_covered(a, c, s.stakes, s.d, l) {
            let t = choose|t: T|
                !a.is_final(s.stakes, t) && c.is_final(s.stakes, t) && #[trigger] T::covered(
                    s.d,
                    t,
                ).contains(l);
            if b.is_final(s.stakes, t) {
                assert(newly_covered(a, b, s.stakes, s.d, l));
                assert(lb.contains(l));
            } else {
                assert(newly_covered(b, c, s.stakes, s.d, l));
            }
        }
    }
    assert forall|o: BlockReference, p: BlockReference|
        c.observers().contains(o) && !a.observers().contains(o) && s.d.dom().contains(p) && p.round
            >= s.threshold && #[trigger] s.g[o].includes@.contains(p) implies c.observers().contains(
        p,
    ) by {
        if b.observers().contains(o) {
            assert(b.observers().contains(p));
        }
    }
    assert forall|t: T, x: u64| c.is_open(lc, s.stakes, t) implies (
    #[trigger] c.endorsers(t).contains(x) <==> a.endorsers(t).contains(x) || exists|o: BlockReference|
        (c.observers().contains(o) && !a.observers().contains(o) || Some(o) == sc) && o.authority
            == x && #[trigger] c.endorses(s.g, s.stakes, o, t)) by {
        assert(b.endorsers(t).subset_of(c.endorsers(t)));
        assert(a.endorsers(t).subset_of(b.endorsers(t)));
        lemma_open_before(s, b, lb, c, lc, t);
        if c.endorsers(t).contains(x) && !a.endorsers(t).contains(x) {
            if b.endorsers(t).contains(x) {
                let o = choose|o: BlockReference|
                    (b.observers().contains(o) && !a.observers().contains(o) || Some(o) == sc)
                        && o.authority == x && #[trigger] b.endorses(s.g, s.stakes, o, t);
                if Some(o) == sc {
                    assert(b.voters(o, t).subset_of(c.voters(o, t)));
                    committee::lemma_stake_monotone(s.stakes, b.voters(o, t), c.voters(o, t));
                } else {
                    assert(c.voters(o, t) == b.voters(o, t));
                }
                assert(c.endorses(s.g, s.stakes, o, t));
            } else {
                let o = choose|o: BlockReference|
                    (c.observers().contains(o) && !b.observers().contains(o) || Some(o) == sc)
                        && o.authority == x && #[trigger] c.endorses(s.g, s.stakes, o, t);
                assert(c.endorses(s.g, s.stakes, o, t));
            }
        }
        if exists|o: BlockReference|
            (c.observers().contains(o) && !a.observers().contains(o) || Some(o) == sc) && o.authority
                == x && #[trigger] c.endorses(s.g, s.stakes, o, t) {
            let o = choose|o: BlockReference|
                (c.observers().contains(o) && !a.observers().contains(o) || Some(o) == sc)
                    && o.authority == x && #[trigger] c.endorses(s.g, s.stakes, o, t);
            if b.observers().contains(o) && Some(o) != sc {
                assert(c.voters(o, t) == b.voters(o, t));
                assert(b.endorses(s.g, s.stakes, o, t));
                assert(b.endorsers(t).contains(x));
            } else {
                assert(c.endorses(s.g, s.stakes, o, t));
            }
        }
    }
    if layered(s.g) {
        assert forall|o: BlockReference, t: T|
            c.observers().contains(o) && !a.observers().contains(o) && c.is_open(
                lc,
                s.stakes,
                t,
            ) implies #[trigger] c.gathered(s.g, s.d.dom(), o, t) by {
            assert(b.endorsers(t).subset_of(c.endorsers(t)));
            lemma_open_before(s, b, lb, c, lc, t);
            if b.observers().contains(o) {
                assert(b.gathered(s.g, s.d.dom(), o, t));
                lemma_gathered_kept(s, b, lb, c, lc, cur, top, o, t);
            }
        }
    }
}

/// A later advance leaves what a block has gathered as it is.
proof fn lemma_gathered_kept<T: VoteTarget>(
    s: Setting,
    b: VoteTally<T>,
    lb: Set<TransactionLocator>,
    c: VoteTally<T>,
    lc: Set<TransactionLocator>,
    cur: BlockReference,
    top: int,
    o: BlockReference,
    t: T,
)
    requires
        s.ok(),
        advances(s, b, lb, c, lc, Some(cur), top),
        layered(s.g),
        o.round <= top < cur.round,
        s.g.dom().contains(o),
        b.observers().contains(o),
        b.gathered(s.g, s.d.dom(), o, t),
        forall|p: BlockReference|
            s.d.dom().contains(p) && p.round >= s.threshold && #[trigger] s.g[o].includes@.contains(p)
                ==> b.observers().contains(p),
    ensures
        c.gathered(s.g, s.d.dom(), o, t),
{
    let ps = s.g[o].includes@;
    let d = s.d.dom();
    assert(c.voters(o, t) == b.voters(o, t));
    assert forall|j: int| 0 <= j < ps.len() && d.contains(ps[j]) implies c.voters(
        #[trigger] ps[j],
        t,
    ) == b.voters(ps[j], t) by {
        let p = ps[j];
        assert(ps.contains(p));
        assert(s.g[o].includes@.contains(p));
        assert(p.round < o.round);
        if b.observers().contains(p) {
            assert(c.voters(p, t) == b.voters(p, t));
        } else {
            assert(!c.observers().contains(p));
        }
    }
    assert forall|v: u64| #[trigger] c.voters(o, t).contains(v) <==> c.inherited(ps, d, t, v)
        || T::direct_votes(s.g[o]).contains(t) && v == o.authority by {
        if c.inherited(ps, d, t, v) {
            let j = choose|j: int|
                0 <= j < ps.len() && d.contains(#[trigger] ps[j]) && c.voters(ps[j], t).contains(v);
            assert(b.voters(ps[j], t).contains(v));
            assert(b.inherited(ps, d, t, v));
        }
        if b.inherited(ps, d, t, v) {
            let j = choose|j: int|
                0 <= j < ps.len() && d.contains(#[trigger] ps[j]) && b.voters(ps[j], t).contains(v);
            assert(c.voters(ps[j], t).contains(v));
            assert(c.inherited(ps, d, t, v));
        }
    }
}

/// The author of `b` endorses whatever `b` has seen a quorum of votes for.
spec fn endorsed_in_step<T: VoteTarget>(
    s: Setting,
    x: VoteTally<T>,
    l: Set<TransactionLocator>,
    b: BlockReference,
) -> bool {
    forall|t: T| #[trigger]
        x.endorses(s.g, s.stakes, b, t) && x.is_open(l, s.stakes, t) ==> x.endorsers(t).contains(
            b.authority,
        )
}

/// What `cast` does to a tally.
spec fn cast_effect<T: VoteTarget>(
    s: Setting,
    x: VoteTally<T>,
    y: VoteTally<T>,
    b: BlockReference,
    t: T,
    voter: u64,
    newly: bool,
) -> bool {
    &&& y.observers() == x.observers()
    &&& forall|o: BlockReference, u: T|
        (o != b || u != t) ==> #[trigger] y.voters(o, u) == x.voters(o, u)
    &&& y.voters(b, t) == (if newly {
        Set::empty()
    } else {
        x.voters(b, t).insert(voter)
    })
    &&& forall|u: T| u != t ==> #[trigger] y.endorsers(u) == x.endorsers(u)
    &&& y.endorsers(t) == (if T::certifying(s.g[b]) && committee::quorum(
        s.stakes,
        x.voters(b, t).insert(voter),
    ) {
        x.endorsers(t).insert(b.authority)
    } else {
        x.endorsers(t)
    })
    &&& newly == (!x.is_final(s.stakes, t) && y.is_final(s.stakes, t))
}

/// A cast is an advance.
proof fn lemma_cast_advances<T: VoteTarget>(
    s: Setting,
    x: VoteTally<T>,
    lx: Set<TransactionLocator>,
    y: VoteTally<T>,
    ly: Set<TransactionLocator>,
    b: BlockReference,
    t: T,
    voter: u64,
    newly: bool,
    top: int,
)
    requires
        cast_effect(s, x, y, b, t, voter, newly),
        ly == (if newly {
            lx.union(T::covered(s.d, t))
        } else {
            lx
        }),
        endorsed_in_step(s, x, lx, b),
        x.observers().contains(b),
    ensures
        advances(s, x, lx, y, ly, Some(b), top),
        endorsed_in_step(s, y, ly, b),
{
    assert(lx.subset_of(ly));
    assert forall|u: T| x.endorsers(u).subset_of(#[trigger] y.endorsers(u)) by {
        if u == t {
        }
    }
    assert forall|o: BlockReference, u: T| Some(o) == Some(b) && y.is_open(ly, s.stakes, u) implies
        x.voters(o, u).subset_of(#[trigger] y.voters(o, u)) by {
        if u == t {
            assert(!newly);
        }
    }
    assert forall|l: TransactionLocator| #[trigger] ly.contains(l) == (lx.contains(l)
        || newly_covered(x, y, s.stakes, s.d, l)) by {
        if ly.contains(l) && !lx.contains(l) {
            assert(T::covered(s.d, t).contains(l));
        }
        if newly_covered(x, y, s.stakes, s.d, l) {
            let u = choose|u: T|
                !x.is_final(s.stakes, u) && y.is_final(s.stakes, u) && #[trigger] T::covered(
                    s.d,
                    u,
                ).contains(l);
            if u != t {
                assert(y.endorsers(u) == x.endorsers(u));
            }
        }
    }
    assert forall|u: T, a: u64| y.is_open(ly, s.stakes, u) implies (
    #[trigger] y.endorsers(u).contains(a) <==> x.endorsers(u).contains(a) || exists|o: BlockReference|
        (y.observers().contains(o) && !x.observers().contains(o) || Some(o) == Some(b))
            && o.authority == a && #[trigger] y.endorses(s.g, s.stakes, o, u)) by {
        lemma_open_before(s, x, lx, y, ly, u);
        if u == t {
            assert(!newly);
            if y.endorsers(u).contains(a) && !x.endorsers(u).contains(a) {
                assert(y.endorses(s.g, s.stakes, b, u));
            }
        } else {
            assert(y.voters(b, u) == x.voters(b, u));
            if y.endorses(s.g, s.stakes, b, u) {
                assert(x.endorses(s.g, s.stakes, b, u));
            }
        }
    }
    assert forall|u: T| #[trigger]
        y.endorses(s.g, s.stakes, b, u) && y.is_open(ly, s.stakes, u) implies y.endorsers(u).contains(
        b.authority,
    ) by {
        lemma_open_before(s, x, lx, y, ly, u);
        if u != t {
            assert(y.voters(b, u) == x.voters(b, u));
            assert(x.endorses(s.g, s.stakes, b, u));
        }
    }
}

/// A cast of a vote that the history supports keeps the tally sound.
proof fn lemma_cast_sound<T: VoteTarget>(
    s: Setting,
    x: VoteTally<T>,
    y: VoteTally<T>,
    b: BlockReference,
    t: T,
    voter: u64,
    newly: bool,
)
    requires
        cast_effect(s, x, y, b, t, voter, newly),
        x.votes_sound(s.g) ==> supports(s.g, b, t, voter),
    ensures
        x.votes_sound(s.g) ==> y.votes_sound(s.g),
        x.votes_sound(s.g) && x.endorsements_sound(s.g, s.stakes) ==> y.endorsements_sound(
            s.g,
            s.stakes,
        ),
{
    if x.votes_sound(s.g) {
        assert forall|o: BlockReference, u: T, v: u64|
            #![trigger y.voters(o, u).contains(v)]
            y.voters(o, u).contains(v) implies supports(s.g, o, u, v) by {
            if o == b && u == t {
                if v != voter {
                    assert(x.voters(o, u).contains(v));
                }
            } else {
                assert(y.voters(o, u) == x.voters(o, u));
                assert(x.voters(o, u).contains(v));
            }
        }
        if x.endorsements_sound(s.g, s.stakes) {
            assert forall|u: T, a: u64|
                #![trigger y.endorsers(u).contains(a)]
                y.endorsers(u).contains(a) implies exists|o: BlockReference, q: Set<u64>|
                #[trigger] backed(s.g, s.stakes, u, a, o, q) by {
                if x.endorsers(u).contains(a) {
                } else {
                    assert(u == t && a == b.authority);
                    let q = x.voters(b, t).insert(voter);
                    assert forall|v: u64| #[trigger] q.contains(v) implies supports(s.g, b, t, v) by {
                        if v != voter {
                            assert(x.voters(b, t).contains(v));
                        }
                    }
                    assert(backed(s.g, s.stakes, u, a, b, q));
                }
            }
        }
    }
}

/// An advance by the processing of a parent is one while `b` is in progress.
proof fn lemma_parent_advances<T: VoteTarget>(
    s: Setting,
    x: VoteTally<T>,
    lx: Set<TransactionLocator>,
    y: VoteTally<T>,
    ly: Set<TransactionLocator>,
    b: BlockReference,
    low: int,
    top: int,
)
    requires
        advances(s, x, lx, y, ly, None, low),
        layered(s.g) ==> low <= top,
        endorsed_in_step(s, x, lx, b),
        x.observers().contains(b),
    ensures
        advances(s, x, lx, y, ly, Some(b), top),
        endorsed_in_step(s, y, ly, b),
{
    assert(lx.subset_of(ly)) by {
        assert forall|l: TransactionLocator| lx.contains(l) implies ly.contains(l) by {}
    }
    assert forall|u: T| #[trigger]
        y.endorses(s.g, s.stakes, b, u) && y.is_open(ly, s.stakes, u) implies y.endorsers(u).contains(
        b.authority,
    ) by {
        assert(x.endorsers(u).subset_of(y.endorsers(u)));
        lemma_open_before(s, x, lx, y, ly, u);
        assert(y.voters(b, u) == x.voters(b, u));
        assert(x.endorses(s.g, s.stakes, b, u));
    }
    assert forall|t: T, a: u64| y.is_open(ly, s.stakes, t) implies (
    #[trigger] y.endorsers(t).contains(a) <==> x.endorsers(t).contains(a) || exists|o: BlockReference|
        (y.observers().contains(o) && !x.observers().contains(o) || Some(o) == Some(b))
            && o.authority == a && #[trigger] y.endorses(s.g, s.stakes, o, t)) by {
        if y.endorsers(t).contains(a) && !x.endorsers(t).contains(a) {
            let o = choose|o: BlockReference|
                (y.observers().contains(o) && !x.observers().contains(o)) && o.authority == a
                    && #[trigger] y.endorses(s.g, s.stakes, o, t);
            assert(y.endorses(s.g, s.stakes, o, t));
        }
        if exists|o: BlockReference|
            (y.observers().contains(o) && !x.observers().contains(o) || Some(o) == Some(b))
                && o.authority == a && #[trigger] y.endorses(s.g, s.stakes, o, t) {
            let o = choose|o: BlockReference|
                (y.observers().contains(o) && !x.observers().contains(o) || Some(o) == Some(b))
                    && o.authority == a && #[trigger] y.endorses(s.g, s.stakes, o, t);
            assert(y.endorses(s.g, s.stakes, o, t));
        }
    }
}

/// Once `b` has been processed, it is one of the blocks that were.
proof fn lemma_block_done<T: VoteTarget>(
    s: Setting,
    x: VoteTally<T>,
    lx: Set<TransactionLocator>,
    x0: VoteTally<T>,
    y: VoteTally<T>,
    ly: Set<TransactionLocator>,
    b: BlockReference,
)
    requires
        !x.observers().contains(b),
        x0.observers() == x.observers().insert(b),
        forall|o: BlockReference, t: T| #[trigger] x0.voters(o, t) == x.voters(o, t),
        forall|t: T| #[trigger] x0.endorsers(t) == x.endorsers(t),
        advances(s, x0, lx, y, ly, Some(b), b.round - 1),
        endorsed_in_step(s, y, ly, b),
        s.g.dom().contains(b),
        b.round >= s.threshold,
        forall|p: BlockReference|
            s.d.dom().contains(p) && p.round >= s.threshold && #[trigger] s.g[b].includes@.contains(p)
                ==> y.observers().contains(p),
        layered(s.g) ==> forall|t: T|
            y.is_open(ly, s.stakes, t) ==> #[trigger] y.gathered(s.g, s.d.dom(), b, t),
    ensures
        advances(s, x, lx, y, ly, None, b.round as int),
{
    assert(x0.observers().contains(b));
    assert forall|o: BlockReference, t: T| x.observers().contains(o) implies #[trigger] y.voters(o, t)
        == x.voters(o, t) by {
        assert(x0.observers().contains(o));
        assert(x0.voters(o, t) == x.voters(o, t));
    }
    assert forall|t: T| x.endorsers(t).subset_of(#[trigger] y.endorsers(t)) by {
        assert(x0.endorsers(t) == x.endorsers(t));
    }
    assert forall|l: TransactionLocator| #[trigger] ly.contains(l) == (lx.contains(l)
        || newly_covered(x, y, s.stakes, s.d, l)) by {
        if newly_covered(x0, y, s.stakes, s.d, l) {
            let t = choose|t: T|
                !x0.is_final(s.stakes, t) && y.is_final(s.stakes, t) && #[trigger] T::covered(
                    s.d,
                    t,
                ).contains(l);
            assert(x0.endorsers(t) == x.endorsers(t));
            assert(T::covered(s.d, t).contains(l));
        }
        if newly_covered(x, y, s.stakes, s.d, l) {
            let t = choose|t: T|
                !x.is_final(s.stakes, t) && y.is_final(s.stakes, t) && #[trigger] T::covered(
                    s.d,
                    t,
                ).contains(l);
            assert(x0.endorsers(t) == x.endorsers(t));
            assert(T::covered(s.d, t).contains(l));
        }
    }
    assert forall|t: T, a: u64| y.is_open(ly, s.stakes, t) implies (
    #[trigger] y.endorsers(t).contains(a) <==> x.endorsers(t).contains(a) || exists|o: BlockReference|
        (y.observers().contains(o) && !x.observers().contains(o)) && o.authority == a
            && #[trigger] y.endorses(s.g, s.stakes, o, t)) by {
        assert(x0.endorsers(t) == x.endorsers(t));
        if y.endorsers(t).contains(a) && !x.endorsers(t).contains(a) {
            let o = choose|o: BlockReference|
                (y.observers().contains(o) && !x0.observers().contains(o) || Some(o) == Some(b))
                    && o.authority == a && #[trigger] y.endorses(s.g, s.stakes, o, t);
            assert(y.endorses(s.g, s.stakes, o, t));
        }
        if exists|o: BlockReference|
            (y.observers().contains(o) && !x.observers().contains(o)) && o.authority == a
                && #[trigger] y.endorses(s.g, s.stakes, o, t) {
            let o = choose|o: BlockReference|
                (y.observers().contains(o) && !x.observers().contains(o)) && o.authority == a
                    && #[trigger] y.endorses(s.g, s.stakes, o, t);
            assert(y.endorses(s.g, s.stakes, o, t));
            if o != b {
                assert(!x0.observers().contains(o));
            }
        }
    }
}

/// How many blocks of a store, and `b`, have not been processed.
spec fn unseen<T: VoteTarget>(d: Graph, b: BlockReference, x: VoteTally<T>) -> nat {
    d.dom().insert(b).difference(x.observers()).len()
}

proof fn lemma_unseen_falls<T: VoteTarget>(
    d: Graph,
    b: BlockReference,
    p: BlockReference,
    x: VoteTally<T>,
    y: VoteTally<T>,
)
    requires
        d.dom().finite(),
        d.dom().contains(p),
        !x.observers().contains(b),
        x.observers().insert(b).subset_of(y.observers()),
    ensures
        unseen(d, p, y) < unseen(d, b, x),
{
    let big = d.dom().insert(b).difference(x.observers());
    let small = d.dom().insert(p).difference(y.observers());
    assert(big.contains(b));
    assert(small.subset_of(big.remove(b)));
    vstd::set_lib::lemma_len_subset(small, big.remove(b));
}

/// The votes to pass on: those that `p` has seen, for targets not final yet.
spec fn passes_on<T: VoteTarget>(
    x: VoteTally<T>,
    stakes: Seq<u64>,
    p: BlockReference,
    list: Seq<(T, u64)>,
) -> bool {
    &&& forall|k: int|
        0 <= k < list.len() ==> x.voters(p, (#[trigger] list[k]).0).contains(list[k].1) && list[k].1
            < stakes.len()
    &&& forall|t: T, v: u64|
        #![trigger x.voters(p, t).contains(v)]
        !x.is_final(stakes, t) && x.voters(p, t).contains(v) ==> list.contains((t, v))
}

impl<T: VoteTarget> VoteTally<T> {
    fn votes_to_pass_on(&self, committee: &Committee, p: &BlockReference) -> (r: Vec<(T, u64)>)
        requires
            self.wf(committee.stakes()),
        ensures
            passes_on(*self, committee.stakes(), *p, r@),
    {
        let mut out: Vec<(T, u64)> = Vec::new();
        let ghost stakes = committee.stakes();
        match self.votes.get(p) {
            Some(inner) => {
                let mut i: usize = 0;
                while i < inner.entries.len()
                    invariant
                        i <= inner.entries@.len(),
                        self.wf(stakes),
                        stakes == committee.stakes(),
                        self.votes@.dom().contains(*p),
                        *inner == self.votes@[*p],
                        counted(*inner, stakes),
                        forall|k: int|
                            0 <= k < out@.len() ==> self.voters(*p, (#[trigger] out@[k]).0).contains(
                                out@[k].1,
                            ) && out@[k].1 < stakes.len(),
                        forall|m: int, v: u64|
                            0 <= m < i && !self.is_final(stakes, (#[trigger] inner.entries@[m]).0)
                                && #[trigger] inner.entries@[m].1.set().contains(v) ==> out@.contains(
                                (inner.entries@[m].0, v),
                            ),
                    decreases inner.entries@.len() - i,
                {
                    let t = inner.entries[i].0;
                    let ghost before = out@;
                    proof {
                        keymap::lemma_entry(*inner, i as int);
                    }
                    if !self.finalized(committee, &t) {
                        let agg = &inner.entries[i].1;
                        assert(inner@[t].wf(stakes));
                        let mut j: usize = 0;
                        while j < agg.voters.len()
                            invariant
                                j <= agg.voters@.len(),
                                agg.wf(stakes),
                                i < inner.entries@.len(),
                                self.votes@.dom().contains(*p),
                                *inner == self.votes@[*p],
                                t == inner.entries@[i as int].0,
                                *agg == inner.entries@[i as int].1,
                                self.voters(*p, t) == agg.set(),
                                forall|k: int|
                                    0 <= k < out@.len() ==> self.voters(
                                        *p,
                                        (#[trigger] out@[k]).0,
                                    ).contains(out@[k].1) && out@[k].1 < stakes.len(),
                                forall|e: (T, u64)| before.contains(e) ==> #[trigger] out@.contains(e),
                                forall|m: int|
                                    0 <= m < j ==> out@.contains((t, #[trigger] agg.voters@[m])),
                            decreases agg.voters@.len() - j,
                        {
                            let v: u64 = agg.voters[j];
                            assert(agg.set().contains(agg.voters@[j as int]));
                            let ghost prev = out@;
                            out.push((t, v));
                            proof {
                                assert(out@[prev.len() as int] == (t, v));
                                assert forall|e: (T, u64)| prev.contains(e) implies #[trigger] out@.contains(
                                    e,
                                ) by {
                                    let k = choose|k: int| 0 <= k < prev.len() && prev[k] == e;
                                    assert(out@[k] == e);
                                }
                                assert forall|k: int| 0 <= k < out@.len() implies self.voters(
                                    *p,
                                    (#[trigger] out@[k]).0,
                                ).contains(out@[k].1) && out@[k].1 < stakes.len() by {
                                    if k < prev.len() {
                                        assert(out@[k] == prev[k]);
                                    }
                                }
                            }
                            j = j + 1;
                        }
                        proof {
                            assert forall|v: u64| agg.set().contains(v) implies out@.contains((t, v)) by {
                                let m = choose|m: int| 0 <= m < agg.voters@.len() && agg.voters@[m] == v;
                                assert(out@.contains((t, agg.voters@[m])));
                            }
                        }
                    }
                    proof {
                        assert forall|m: int, v: u64|
                            0 <= m < i + 1 && !self.is_final(stakes, (#[trigger] inner.entries@[m]).0)
                                && #[trigger] inner.entries@[m].1.set().contains(v) implies out@.contains(
                            (inner.entries@[m].0, v),
                        ) by {
                            if m < i {
                                assert(before.contains((inner.entries@[m].0, v)));
                            }
                        }
                    }
                    i = i + 1;
                }
                proof {
                    assert forall|t: T, v: u64|
                        #![trigger self.voters(*p, t).contains(v)]
                        !self.is_final(stakes, t) && self.voters(*p, t).contains(v) implies out@.contains(
                        (t, v),
                    ) by {
                        let m = keymap::position(inner.entries@, t);
                        assert(inner.has(t));
                        assert(0 <= m < inner.entries@.len() && inner.entries@[m].0 == t);
                        assert(inner.entries@[m].1.set().contains(v));
                    }
                }
            },
            None => {},
        }
        out
    }

    /// Counts one vote at the block in progress, and writes what becomes final
    /// to the ledger.
    fn count(
        &mut self,
        store: &BlockStore,
        committee: &Committee,
        block: &StatementBlock,
        t: T,
        voter: AuthorityIndex,
        ledger: &mut VoteLedger,
        Ghost(s): Ghost<Setting>,
        Ghost(sound): Ghost<bool>,
    )
        requires
            store.wf(),
            s.ok(),
            s.d == store@,
            s.stakes == committee.stakes(),
            s.g.dom().contains(block.reference),
            s.g[block.reference] == *block,
            old(self).wf(s.stakes),
            old(self).observers().contains(block.reference),
            voter < s.stakes.len(),
            endorsed_in_step(s, *old(self), old(ledger).set(), block.reference),
            sound ==> old(self).votes_sound(s.g) && supports(s.g, block.reference, t, voter),
        ensures
            final(self).wf(s.stakes),
            continues(old(ledger).finalized@, final(ledger).finalized@),
            forall|top: int| #[trigger]
                advances(
                    s,
                    *old(self),
                    old(ledger).set(),
                    *final(self),
                    final(ledger).set(),
                    Some(block.reference),
                    top,
                ),
            endorsed_in_step(s, *final(self), final(ledger).set(), block.reference),
            final(self).observers() == old(self).observers(),
            forall|o: BlockReference, u: T|
                (o != block.reference || u != t) ==> #[trigger] final(self).voters(o, u) == old(
                    self,
                ).voters(o, u),
            final(self).is_open(final(ledger).set(), s.stakes, t) ==> final(self).voters(
                block.reference,
                t,
            ) == old(self).voters(block.reference, t).insert(voter),
            sound ==> final(self).votes_sound(s.g),
            sound && old(self).endorsements_sound(s.g, s.stakes) ==> final(self).endorsements_sound(
                s.g,
                s.stakes,
            ),
    {
        let ghost b = block.reference;
        let ghost x = *self;
        let ghost lx = ledger.set();
        if T::is_closed_by(ledger, &t) {
            proof {
                assert forall|top: int| #[trigger] advances(s, x, lx, x, lx, Some(b), top) by {
                    lemma_advances_refl(s, x, lx, top);
                    lemma_parent_advances(s, x, lx, x, lx, b, top, top);
                }
            }
            proof {
                lemma_continues_refl(ledger.finalized@);
            }
            return ;
        }
        proof {
            lemma_continues_refl(ledger.finalized@);
        }
        assert(s.g[b].reference == b);
        let newly = self.cast(committee, &block.reference, T::is_certifying(block), t, voter);
        if newly {
            T::record(ledger, store, &t);
        }
        proof {
            assert(cast_effect(s, x, *self, b, t, voter, newly));
            assert forall|top: int| #[trigger]
                advances(s, x, lx, *self, ledger.set(), Some(b), top) by {
                lemma_cast_advances(s, x, lx, *self, ledger.set(), b, t, voter, newly, top);
            }
            lemma_cast_advances(s, x, lx, *self, ledger.set(), b, t, voter, newly, 0);
            if sound {
                lemma_cast_sound(s, x, *self, b, t, voter, newly);
            }
        }
    }

    /// Counts at the block in progress the votes that a parent has seen.
    fn inherit(
        &mut self,
        store: &BlockStore,
        committee: &Committee,
        block: &StatementBlock,
        p: &BlockReference,
        ledger: &mut VoteLedger,
        Ghost(s): Ghost<Setting>,
        Ghost(sound): Ghost<bool>,
    )
        requires
            store.wf(),
            s.ok(),
            s.d == store@,
            s.stakes == committee.stakes(),
            s.g.dom().contains(block.reference),
            s.g[block.reference] == *block,
            block.includes@.contains(*p),
            old(self).wf(s.stakes),
            old(self).observers().contains(block.reference),
            endorsed_in_step(s, *old(self), old(ledger).set(), block.reference),
            sound ==> old(self).votes_sound(s.g),
        ensures
            final(self).wf(s.stakes),
            continues(old(ledger).finalized@, final(ledger).finalized@),
            advances(
                s,
                *old(self),
                old(ledger).set(),
                *final(self),
                final(ledger).set(),
                Some(block.reference),
                block.reference.round - 1,
            ),
            endorsed_in_step(s, *final(self), final(ledger).set(), block.reference),
            final(self).observers() == old(self).observers(),
            forall|o: BlockReference, u: T|
                o != block.reference ==> #[trigger] final(self).voters(o, u) == old(self).voters(o, u),
            forall|t: T, v: u64|
                #![trigger final(self).voters(block.reference, t).contains(v)]
                final(self).is_open(final(ledger).set(), s.stakes, t) ==> (final(self).voters(
                    block.reference,
                    t,
                ).contains(v) <==> old(self).voters(block.reference, t).contains(v) || old(
                    self,
                ).voters(*p, t).contains(v)),
            sound ==> final(self).votes_sound(s.g),
            sound && old(self).endorsements_sound(s.g, s.stakes) ==> final(self).endorsements_sound(
                s.g,
                s.stakes,
            ),
    {
        let ghost b = block.reference;
        let ghost top = b.round - 1;
        let ghost x = *self;
        let ghost lx = ledger.set();
        let list = self.votes_to_pass_on(committee, p);
        proof {
            lemma_advances_refl(s, x, lx, top);
            lemma_parent_advances(s, x, lx, x, lx, b, top, top);
        }
        let ghost first = ledger.finalized@;
        proof {
            lemma_continues_refl(first);
        }
        let mut k: usize = 0;
        while k < list.len()
            invariant
                k <= list@.len(),
                continues(first, ledger.finalized@),
                store.wf(),
                s.ok(),
                s.d == store@,
                s.stakes == committee.stakes(),
                s.g.dom().contains(b),
                s.g[b] == *block,
                b == block.reference,
                top == b.round - 1,
                block.includes@.contains(*p),
                x.observers().contains(b),
                passes_on(x, s.stakes, *p, list@),
                self.wf(s.stakes),
                advances(s, x, lx, *self, ledger.set(), Some(b), top),
                endorsed_in_step(s, *self, ledger.set(), b),
                self.observers() == x.observers(),
                forall|o: BlockReference, u: T|
                    o != b ==> #[trigger] self.voters(o, u) == x.voters(o, u),
                forall|t: T, v: u64|
                    #![trigger self.voters(b, t).contains(v)]
                    self.is_open(ledger.set(), s.stakes, t) ==> (self.voters(b, t).contains(v)
                        <==> x.voters(b, t).contains(v) || list@.take(k as int).contains((t, v))),
                sound ==> x.votes_sound(s.g) && self.votes_sound(s.g),
                sound && x.endorsements_sound(s.g, s.stakes) ==> self.endorsements_sound(
                    s.g,
                    s.stakes,
                ),
            decreases list@.len() - k,
        {
            let (t, voter) = list[k];
            let ghost y = *self;
            let ghost ly = ledger.set();
            let ghost so_far = ledger.finalized@;
            proof {
                assert(x.voters(*p, list@[k as int].0).contains(list@[k as int].1));
                if sound {
                    lemma_supports_child(s.g, b, *p, t, voter);
                }
            }
            self.count(store, committee, block, t, voter, ledger, Ghost(s), Ghost(sound));
            proof {
                lemma_continues_trans(first, so_far, ledger.finalized@);
                assert(advances(s, y, ly, *self, ledger.set(), Some(b), top));
                lemma_advances_trans(s, x, lx, y, ly, *self, ledger.set(), b, top);
                let lz = ledger.set();
                assert(ly.subset_of(lz)) by {
                    assert forall|l: TransactionLocator| ly.contains(l) implies lz.contains(l) by {}
                }
                let l1 = list@.take(k as int);
                let l2 = list@.take(k + 1);
                assert(l2 =~= l1.push((t, voter)));
                assert forall|e: (T, u64)| #[trigger] l2.contains(e) == (l1.contains(e) || e == (t, voter)) by {
                    lemma_push_set(l1, (t, voter));
                    assert(l2.to_set().contains(e) == l1.to_set().insert((t, voter)).contains(e));
                }
                assert forall|u: T, v: u64|
                    #![trigger self.voters(b, u).contains(v)]
                    self.is_open(lz, s.stakes, u) implies (self.voters(b, u).contains(v)
                    <==> x.voters(b, u).contains(v) || l2.contains((u, v))) by {
                    assert(y.endorsers(u).subset_of(self.endorsers(u)));
                    lemma_open_before(s, y, ly, *self, lz, u);
                    assert(y.voters(b, u).contains(v) <==> x.voters(b, u).contains(v) || l1.contains(
                        (u, v),
                    ));
                    if u != t {
                        assert(self.voters(b, u) == y.voters(b, u));
                    }
                }
            }
            k = k + 1;
        }
        proof {
            assert(list@.take(k as int) =~= list@);
            let lz = ledger.set();
            assert(lx.subset_of(lz)) by {
                assert forall|l: TransactionLocator| lx.contains(l) implies lz.contains(l) by {}
            }
            assert forall|t: T, v: u64|
                #![trigger self.voters(b, t).contains(v)]
                self.is_open(lz, s.stakes, t) implies (self.voters(b, t).contains(v) <==> x.voters(
                b,
                t,
            ).contains(v) || x.voters(*p, t).contains(v)) by {
                assert(x.endorsers(t).subset_of(self.endorsers(t)));
                lemma_open_before(s, x, lx, *self, lz, t);
                if list@.contains((t, v)) {
                    let m = choose|m: int| 0 <= m < list@.len() && list@[m] == (t, v);
                    assert(x.voters(*p, list@[m].0).contains(list@[m].1));
                }
                if x.voters(*p, t).contains(v) {
                    assert(list@.contains((t, v)));
                }
            }
        }
    }

    /// Counts the block's own votes.
    fn vote_directly(
        &mut self,
        store: &BlockStore,
        committee: &Committee,
        block: &StatementBlock,
        ledger: &mut VoteLedger,
        Ghost(s): Ghost<Setting>,
        Ghost(sound): Ghost<bool>,
    )
        requires
            store.wf(),
            s.ok(),
            s.d == store@,
            s.stakes == committee.stakes(),
            s.g.dom().contains(block.reference),
            s.g[block.reference] == *block,
            old(self).wf(s.stakes),
            old(self).observers().contains(block.reference),
            endorsed_in_step(s, *old(self), old(ledger).set(), block.reference),
            sound ==> old(self).votes_sound(s.g),
        ensures
            final(self).wf(s.stakes),
            continues(old(ledger).finalized@, final(ledger).finalized@),
            advances(
                s,
                *old(self),
                old(ledger).set(),
                *final(self),
                final(ledger).set(),
                Some(block.reference),
                block.reference.round - 1,
            ),
            endorsed_in_step(s, *final(self), final(ledger).set(), block.reference),
            final(self).observers() == old(self).observers(),
            forall|o: BlockReference, u: T|
                o != block.reference ==> #[trigger] final(self).voters(o, u) == old(self).voters(o, u),
            forall|t: T, v: u64|
                #![trigger final(self).voters(block.reference, t).contains(v)]
                final(self).is_open(final(ledger).set(), s.stakes, t) ==> (final(self).voters(
                    block.reference,
                    t,
                ).contains(v) <==> old(self).voters(block.reference, t).contains(v)
                    || T::direct_votes(*block).contains(t) && v == block.reference.authority),
            sound ==> final(self).votes_sound(s.g),
            sound && old(self).endorsements_sound(s.g, s.stakes) ==> final(self).endorsements_sound(
                s.g,
                s.stakes,
            ),
    {
        let ghost b = block.reference;
        let ghost top = b.round - 1;
        let ghost x = *self;
        let ghost lx = ledger.set();
        let list = T::direct_votes_of(block);
        proof {
            lemma_advances_refl(s, x, lx, top);
            lemma_parent_advances(s, x, lx, x, lx, b, top, top);
            assert(s.g[b].reference == b);
        }
        let ghost first = ledger.finalized@;
        proof {
            lemma_continues_refl(first);
        }
        let mut k: usize = 0;
        while k < list.len()
            invariant
                k <= list@.len(),
                continues(first, ledger.finalized@),
                list@ == T::direct_votes(*block),
                store.wf(),
                s.ok(),
                s.d == store@,
                s.stakes == committee.stakes(),
                s.g.dom().contains(b),
                s.g[b] == *block,
                b == block.reference,
                b.authority < s.stakes.len(),
                top == b.round - 1,
                x.observers().contains(b),
                self.wf(s.stakes),
                advances(s, x, lx, *self, ledger.set(), Some(b), top),
                endorsed_in_step(s, *self, ledger.set(), b),
                self.observers() == x.observers(),
                forall|o: BlockReference, u: T|
                    o != b ==> #[trigger] self.voters(o, u) == x.voters(o, u),
                forall|t: T, v: u64|
                    #![trigger self.voters(b, t).contains(v)]
                    self.is_open(ledger.set(), s.stakes, t) ==> (self.voters(b, t).contains(v)
                        <==> x.voters(b, t).contains(v) || list@.take(k as int).contains(t) && v
                        == b.authority),
                sound ==> self.votes_sound(s.g),
                sound && x.endorsements_sound(s.g, s.stakes) ==> self.endorsements_sound(
                    s.g,
                    s.stakes,
                ),
            decreases list@.len() - k,
        {
            let t = list[k];
            let ghost y = *self;
            let ghost ly = ledger.set();
            let ghost so_far = ledger.finalized@;
            let ghost l1 = list@.take(k as int);
            let ghost l2 = list@.take(k + 1);
            proof {
                assert(l2 =~= l1.push(t));
                assert forall|e: T| #[trigger] l2.contains(e) == (l1.contains(e) || e == t) by {
                    lemma_push_set(l1, t);
                    assert(l2.to_set().contains(e) == l1.to_set().insert(t).contains(e));
                }
                assert(list@[k as int] == t);
                assert(T::direct_votes(*block).contains(t));
            }
            if !(T::leaves_out_final_votes() && self.finalized(committee, &t)) {
                proof {
                    lemma_supports_direct(s.g, b, t);
                }
                self.count(
                    store,
                    committee,
                    block,
                    t,
                    block.author(),
                    ledger,
                    Ghost(s),
                    Ghost(sound),
                );
                proof {
                    lemma_continues_trans(first, so_far, ledger.finalized@);
                    assert(advances(s, y, ly, *self, ledger.set(), Some(b), top));
                    lemma_advances_trans(s, x, lx, y, ly, *self, ledger.set(), b, top);
                }
            }
            proof {
                let lz = ledger.set();
                assert(ly.subset_of(lz)) by {
                    assert forall|l: TransactionLocator| ly.contains(l) implies lz.contains(l) by {}
                }
                assert forall|u: T, v: u64|
                    #![trigger self.voters(b, u).contains(v)]
                    self.is_open(lz, s.stakes, u) implies (self.voters(b, u).contains(v)
                    <==> x.voters(b, u).contains(v) || l2.contains(u) && v == b.authority) by {
                    assert(y.endorsers(u).subset_of(self.endorsers(u)));
                    lemma_open_before(s, y, ly, *self, lz, u);
                    assert(y.voters(b, u).contains(v) <==> x.voters(b, u).contains(v) || l1.contains(
                        u,
                    ) && v == b.authority);
                    if u != t {
                        assert(self.voters(b, u) == y.voters(b, u));
                    }
                }
            }
            k = k + 1;
        }
        assert(list@.take(k as int) =~= list@);
    }
}

impl<T: VoteTarget> VoteTally<T> {
    /// Processes a block and, before it, the blocks in its history that have
    /// not been: each inherits the votes that its parents have seen and adds
    /// its own. Blocks of rounds before `threshold` are left out.
    fn absorb(
        &mut self,
        store: &BlockStore,
        committee: &Committee,
        threshold: RoundNumber,
        block: &StatementBlock,
        ledger: &mut VoteLedger,
        Ghost(s): Ghost<Setting>,
    )
        requires
            store.wf(),
            s.ok(),
            s.d == store@,
            s.stakes == committee.stakes(),
            s.threshold == threshold,
            s.g.dom().contains(block.reference),
            s.g[block.reference] == *block,
            old(self).wf(s.stakes),
        ensures
            final(self).wf(s.stakes),
            continues(old(ledger).finalized@, final(ledger).finalized@),
            advances(
                s,
                *old(self),
                old(ledger).set(),
                *final(self),
                final(ledger).set(),
                None,
                block.reference.round as int,
            ),
            block.reference.round >= threshold ==> final(self).observers().contains(block.reference),
            old(self).votes_sound(s.g) ==> final(self).votes_sound(s.g),
            old(self).votes_sound(s.g) && old(self).endorsements_sound(s.g, s.stakes) ==> final(
                self).endorsements_sound(s.g, s.stakes),
        decreases unseen(store@, block.reference, *old(self)),
    {
        let ghost b = block.reference;
        let ghost top = b.round - 1;
        let ghost x = *self;
        let ghost lx = ledger.set();
        let ghost sound = x.votes_sound(s.g);
        if block.round() < threshold || self.votes.contains_key(&block.reference) {
            proof {
                lemma_advances_refl(s, x, lx, b.round as int);
                lemma_continues_refl(ledger.finalized@);
            }
            return ;
        }
        self.votes.insert(block.reference, KeyMap::new());
        let ghost x0 = *self;
        let ghost ps = block.includes@;
        let ghost d = s.d.dom();
        proof {
            assert(x0.observers() =~= x.observers().insert(b));
            assert forall|o: BlockReference, t: T| #[trigger] x0.voters(o, t) == x.voters(o, t) by {
                if o == b {
                    assert(x0.voters(o, t) =~= Set::empty());
                }
            }
            assert forall|o: BlockReference| x0.votes@.dom().contains(o) implies counted(
                #[trigger] x0.votes@[o],
                s.stakes,
            ) by {
                if o != b {
                    assert(counted(x.votes@[o], s.stakes));
                }
            }
            committee::lemma_stake_empty(s.stakes);
            committee::lemma_stake_bounded(s.stakes, Set::empty());
            assert(endorsed_in_step(s, x0, lx, b)) by {
                assert forall|t: T| !(#[trigger] x0.endorses(s.g, s.stakes, b, t)) by {
                    assert(x0.voters(b, t) =~= Set::empty());
                }
            }
            lemma_advances_refl(s, x0, lx, top);
            lemma_parent_advances(s, x0, lx, x0, lx, b, top, top);
            keymap::lemma_finite(store.blocks);
            assert(sound ==> x0.votes_sound(s.g));
            if x.endorsements_sound(s.g, s.stakes) {
                assert forall|t: T, a: u64|
                    #![trigger x0.endorsers(t).contains(a)]
                    x0.endorsers(t).contains(a) implies exists|o: BlockReference, q: Set<u64>|
                    #[trigger] backed(s.g, s.stakes, t, a, o, q) by {
                    assert(x.endorsers(t).contains(a));
                }
            }
        }
        let ghost first = ledger.finalized@;
        proof {
            lemma_continues_refl(first);
        }
        let mut i: usize = 0;
        while i < block.includes.len()
            invariant
                i <= ps.len(),
                continues(first, ledger.finalized@),
                ps == block.includes@,
                d == s.d.dom(),
                d.finite(),
                store.wf(),
                s.ok(),
                s.d == store@,
                s.stakes == committee.stakes(),
                s.threshold == threshold,
                s.g.dom().contains(b),
                s.g[b] == *block,
                b == block.reference,
                top == b.round - 1,
                !x.observers().contains(b),
                x == *old(self),
                x0.observers() == x.observers().insert(b),
                self.wf(s.stakes),
                advances(s, x0, lx, *self, ledger.set(), Some(b), top),
                endorsed_in_step(s, *self, ledger.set(), b),
                forall|j: int|
                    0 <= j < i && d.contains(#[trigger] ps[j]) && ps[j].round >= threshold
                        ==> self.observers().contains(ps[j]),
                layered(s.g) ==> forall|t: T, v: u64|
                    #![trigger self.voters(b, t).contains(v)]
                    self.is_open(ledger.set(), s.stakes, t) ==> (self.voters(b, t).contains(v)
                        <==> self.inherited(ps.take(i as int), d, t, v)),
                sound ==> self.votes_sound(s.g),
                sound && x.endorsements_sound(s.g, s.stakes) ==> self.endorsements_sound(
                    s.g,
                    s.stakes,
                ),
            decreases ps.len() - i,
        {
            let p = block.includes[i];
            let ghost x1 = *self;
            let ghost l1 = ledger.set();
            assert(ps.contains(p)) by {
                assert(ps[i as int] == p);
            }
            match store.get_block(p) {
                Some(parent) => {
                    proof {
                        lemma_unseen_falls(store@, b, p, x, x1);
                    }
                    assert(s.d[p] == s.g[p]);
                    let ghost f1 = ledger.finalized@;
                    self.absorb(store, committee, threshold, parent, ledger, Ghost(s));
                    let ghost f2 = ledger.finalized@;
                    let ghost x2 = *self;
                    let ghost l2 = ledger.set();
                    proof {
                        assert(layered(s.g) ==> p.round <= top) by {
                            if layered(s.g) {
                                assert(s.g[b].includes@.contains(p));
                            }
                        }
                        lemma_parent_advances(s, x1, l1, x2, l2, b, p.round as int, top);
                        lemma_advances_trans(s, x0, lx, x1, l1, x2, l2, b, top);
                    }
                    self.inherit(store, committee, block, &p, ledger, Ghost(s), Ghost(sound));
                    proof {
                        lemma_continues_trans(first, f1, f2);
                        lemma_continues_trans(first, f2, ledger.finalized@);
                        let x3 = *self;
                        let l3 = ledger.set();
                        lemma_advances_trans(s, x0, lx, x2, l2, x3, l3, b, top);
                        if layered(s.g) {
                            lemma_parents_step(s, x0, x1, l1, x2, l2, x3, l3, b, ps, i as int, top);
                        }
                    }
                },
                None => {
                    proof {
                        assert forall|t: T, v: u64| #[trigger]
                            x1.inherited(ps.take(i + 1), d, t, v) == x1.inherited(
                            ps.take(i as int),
                            d,
                            t,
                            v,
                        ) by {
                            lemma_inherited_step(x1, d, ps, i as int, t, v);
                        }
                    }
                },
            }
            i = i + 1;
        }
        let ghost x4 = *self;
        let ghost l4 = ledger.set();
        let ghost f4 = ledger.finalized@;
        self.vote_directly(store, committee, block, ledger, Ghost(s), Ghost(sound));
        proof {
            lemma_continues_trans(first, f4, ledger.finalized@);
            let y = *self;
            let ly = ledger.set();
            lemma_advances_trans(s, x0, lx, x4, l4, y, ly, b, top);
            assert(ps.take(i as int) =~= ps);
            assert(l4.subset_of(ly)) by {
                assert forall|l: TransactionLocator| l4.contains(l) implies ly.contains(l) by {}
            }
            if layered(s.g) {
                assert forall|t: T| y.is_open(ly, s.stakes, t) implies #[trigger] y.gathered(
                    s.g,
                    d,
                    b,
                    t,
                ) by {
                    assert(x4.endorsers(t).subset_of(y.endorsers(t)));
                    lemma_open_before(s, x4, l4, y, ly, t);
                    assert forall|v: u64| #[trigger] y.voters(b, t).contains(v) <==> y.inherited(
                        ps,
                        d,
                        t,
                        v,
                    ) || T::direct_votes(s.g[b]).contains(t) && v == b.authority by {
                        assert(x4.voters(b, t).contains(v) <==> x4.inherited(ps, d, t, v));
                        lemma_inherited_same(s, x4, y, b, ps, d, t, v);
                    }
                }
            }
            assert forall|p: BlockReference|
                s.d.dom().contains(p) && p.round >= s.threshold && #[trigger] s.g[b].includes@.contains(
                    p,
                ) implies y.observers().contains(p) by {
                let j = choose|j: int| 0 <= j < ps.len() && ps[j] == p;
                assert(d.contains(ps[j]));
            }
            lemma_block_done(s, x, lx, x0, y, ly, b);
        }
    }
}

/// One more parent in `inherited`.
proof fn lemma_inherited_step<T: VoteTarget>(
    x: VoteTally<T>,
    d: Set<BlockReference>,
    ps: Seq<BlockReference>,
    i: int,
    t: T,
    v: u64,
)
    requires
        0 <= i < ps.len(),
    ensures
        x.inherited(ps.take(i + 1), d, t, v) == (x.inherited(ps.take(i), d, t, v) || d.contains(ps[i])
            && x.voters(ps[i], t).contains(v)),
{
    let a = ps.take(i);
    let b = ps.take(i + 1);
    if x.inherited(b, d, t, v) {
        let j = choose|j: int|
            0 <= j < b.len() && d.contains(#[trigger] b[j]) && x.voters(b[j], t).contains(v);
        if j < i {
            assert(a[j] == b[j]);
        }
    }
    if x.inherited(a, d, t, v) {
        let j = choose|j: int|
            0 <= j < a.len() && d.contains(#[trigger] a[j]) && x.voters(a[j], t).contains(v);
        assert(b[j] == a[j]);
    }
    if d.contains(ps[i]) && x.voters(ps[i], t).contains(v) {
        assert(b[i] == ps[i]);
    }
}

/// What parents have seen does not depend on the block in progress.
proof fn lemma_inherited_same<T: VoteTarget>(
    s: Setting,
    x: VoteTally<T>,
    y: VoteTally<T>,
    b: BlockReference,
    ps: Seq<BlockReference>,
    d: Set<BlockReference>,
    t: T,
    v: u64,
)
    requires
        layered(s.g),
        s.g.dom().contains(b),
        forall|j: int| 0 <= j < ps.len() ==> s.g[b].includes@.contains(#[trigger] ps[j]),
        forall|o: BlockReference, u: T| o != b ==> #[trigger] y.voters(o, u) == x.voters(o, u),
    ensures
        y.inherited(ps, d, t, v) == x.inherited(ps, d, t, v),
{
    assert forall|j: int| 0 <= j < ps.len() implies y.voters(#[trigger] ps[j], t) == x.voters(
        ps[j],
        t,
    ) by {
        assert(s.g[b].includes@.contains(ps[j]));
        assert(ps[j].round < b.round);
    }
    if y.inherited(ps, d, t, v) {
        let j = choose|j: int|
            0 <= j < ps.len() && d.contains(#[trigger] ps[j]) && y.voters(ps[j], t).contains(v);
        assert(x.voters(ps[j], t).contains(v));
    }
    if x.inherited(ps, d, t, v) {
        let j = choose|j: int|
            0 <= j < ps.len() && d.contains(#[trigger] ps[j]) && x.voters(ps[j], t).contains(v);
        assert(y.voters(ps[j], t).contains(v));
    }
}

/// After a parent has been processed and its votes have been counted, the
/// block in progress has what all parents so far have seen.
proof fn lemma_parents_step<T: VoteTarget>(
    s: Setting,
    x0: VoteTally<T>,
    x1: VoteTally<T>,
    l1: Set<TransactionLocator>,
    x2: VoteTally<T>,
    l2: Set<TransactionLocator>,
    x3: VoteTally<T>,
    l3: Set<TransactionLocator>,
    b: BlockReference,
    ps: Seq<BlockReference>,
    i: int,
    top: int,
)
    requires
        s.ok(),
        layered(s.g),
        s.g.dom().contains(b),
        ps == s.g[b].includes@,
        0 <= i < ps.len(),
        s.d.dom().contains(ps[i]),
        x0.observers().contains(b),
        x0.observers().subset_of(x1.observers()),
        forall|j: int|
            0 <= j < i && s.d.dom().contains(#[trigger] ps[j]) && ps[j].round >= s.threshold
                ==> x1.observers().contains(ps[j]),
        forall|t: T, v: u64|
            #![trigger x1.voters(b, t).contains(v)]
            x1.is_open(l1, s.stakes, t) ==> (x1.voters(b, t).contains(v) <==> x1.inherited(
                ps.take(i),
                s.d.dom(),
                t,
                v,
            )),
        advances(s, x1, l1, x2, l2, None, ps[i].round as int),
        advances(s, x2, l2, x3, l3, Some(b), top),
        x3.observers() == x2.observers(),
        forall|o: BlockReference, u: T| o != b ==> #[trigger] x3.voters(o, u) == x2.voters(o, u),
        forall|t: T, v: u64|
            #![trigger x3.voters(b, t).contains(v)]
            x3.is_open(l3, s.stakes, t) ==> (x3.voters(b, t).contains(v) <==> x2.voters(
                b,
                t,
            ).contains(v) || x2.voters(ps[i], t).contains(v)),
    ensures
        forall|t: T, v: u64|
            #![trigger x3.voters(b, t).contains(v)]
            x3.is_open(l3, s.stakes, t) ==> (x3.voters(b, t).contains(v) <==> x3.inherited(
                ps.take(i + 1),
                s.d.dom(),
                t,
                v,
            )),
{
    let d = s.d.dom();
    assert(l1.subset_of(l2)) by {
        assert forall|l: TransactionLocator| l1.contains(l) implies l2.contains(l) by {}
    }
    assert(l2.subset_of(l3)) by {
        assert forall|l: TransactionLocator| l2.contains(l) implies l3.contains(l) by {}
    }
    assert(x1.observers().contains(b));
    assert forall|t: T, v: u64|
        #![trigger x3.voters(b, t).contains(v)]
        x3.is_open(l3, s.stakes, t) implies (x3.voters(b, t).contains(v) <==> x3.inherited(
        ps.take(i + 1),
        d,
        t,
        v,
    )) by {
        assert(x2.endorsers(t).subset_of(x3.endorsers(t)));
        assert(x1.endorsers(t).subset_of(x2.endorsers(t)));
        lemma_open_before(s, x2, l2, x3, l3, t);
        lemma_open_before(s, x1, l1, x2, l2, t);
        assert(x2.voters(b, t) == x1.voters(b, t));
        lemma_inherited_step(x2, d, ps, i, t, v);
        assert forall|j: int| 0 <= j < ps.take(i + 1).len() implies s.g[b].includes@.contains(
            #[trigger] ps.take(i + 1)[j],
        ) by {
            assert(ps.take(i + 1)[j] == ps[j]);
        }
        lemma_inherited_same(s, x2, x3, b, ps.take(i + 1), d, t, v);
        assert(x1.voters(b, t).contains(v) <==> x1.inherited(ps.take(i), d, t, v));
        // The earlier parents' votes have not changed.
        assert forall|j: int| 0 <= j < i && d.contains(ps[j]) implies x2.voters(
            #[trigger] ps[j],
            t,
        ) == x1.voters(ps[j], t) by {
            if x1.observers().contains(ps[j]) {
            } else {
                assert(!x2.observers().contains(ps[j]));
            }
        }
        let qs = ps.take(i);
        if x1.inherited(qs, d, t, v) {
            let j = choose|j: int|
                0 <= j < qs.len() && d.contains(#[trigger] qs[j]) && x1.voters(qs[j], t).contains(v);
            assert(qs[j] == ps[j]);
            assert(x2.voters(ps[j], t).contains(v));
            assert(x2.voters(qs[j], t).contains(v));
            assert(x2.inherited(qs, d, t, v));
        }
        if x2.inherited(qs, d, t, v) {
            let j = choose|j: int|
                0 <= j < qs.len() && d.contains(#[trigger] qs[j]) && x2.voters(qs[j], t).contains(v);
            assert(qs[j] == ps[j]);
            assert(x1.voters(ps[j], t).contains(v));
            assert(x1.voters(qs[j], t).contains(v));
            assert(x1.inherited(qs, d, t, v));
        }
    }
}

/// A round's list of blocks, empty where there is none.
pub open spec fn round_list(by_round: Map<u64, Vec<BlockReference>>, r: u64) -> Seq<BlockReference> {
    if by_round.dom().contains(r) {
        by_round[r]@
    } else {
        Seq::empty()
    }
}

/// Interprets the graph of blocks as votes, for whole blocks or for single
/// transactions, and forgets old rounds.
pub struct FinalizationInterpreter {
    pub transactions: VoteTally<TransactionLocator>,
    pub blocks: VoteTally<BlockReference>,
    pub blocks_by_round: KeyMap<u64, Vec<BlockReference>>,
    pub highest_known_round: RoundNumber,
    pub block_level_fpc: bool,
}

/// The first round whose votes count, where `highest` is the latest.
pub open spec fn prune_threshold(highest: u64) -> int {
    if highest >= 3 {
        highest - 3
    } else {
        0
    }
}

impl FinalizationInterpreter {
    pub open spec fn wf(&self, stakes: Seq<u64>) -> bool {
        &&& self.transactions.wf(stakes)
        &&& self.blocks.wf(stakes)
        &&& self.blocks_by_round.wf()
    }

    /// Nothing has been seen.
    pub fn new(block_level_fpc: bool) -> (r: Self)
        ensures
            forall|stakes: Seq<u64>| #[trigger] r.wf(stakes),
            r.block_level_fpc == block_level_fpc,
            r.highest_known_round == 0,
            r.blocks_by_round@ == Map::<u64, Vec<BlockReference>>::empty(),
            r.transactions.observers() == Set::<BlockReference>::empty(),
            r.blocks.observers() == Set::<BlockReference>::empty(),
    {
        FinalizationInterpreter {
            transactions: VoteTally::new(),
            blocks: VoteTally::new(),
            blocks_by_round: KeyMap::new(),
            highest_known_round: 0,
            block_level_fpc,
        }
    }

    /// The latest round, once `block` is known.
    pub open spec fn highest_with(&self, block: StatementBlock) -> u64 {
        if block.reference.round > self.highest_known_round {
            block.reference.round
        } else {
            self.highest_known_round
        }
    }

    /// The registered blocks by round, once `block` is registered.
    pub open spec fn registered_with(
        &self,
        block: StatementBlock,
        r: u64,
    ) -> Seq<BlockReference> {
        let list = round_list(self.blocks_by_round@, r);
        if r == block.reference.round {
            list.push(block.reference)
        } else {
            list
        }
    }

    /// The blocks that are forgotten when `block` becomes known.
    pub open spec fn forgotten_with(&self, block: StatementBlock) -> Set<BlockReference> {
        Set::new(
            |b: BlockReference|
                exists|r: u64|
                    r < prune_threshold(self.highest_with(block)) && #[trigger] self.registered_with(
                        block,
                        r,
                    ).contains(b),
        )
    }

    /// Takes one block out of the votes of both kinds.
    fn forget(&mut self, b: &BlockReference, Ghost(stakes): Ghost<Seq<u64>>)
        requires
            old(self).wf(stakes),
        ensures
            final(self).wf(stakes),
            final(self).blocks_by_round == old(self).blocks_by_round,
            final(self).highest_known_round == old(self).highest_known_round,
            final(self).block_level_fpc == old(self).block_level_fpc,
            final(self).blocks.votes@ == old(self).blocks.votes@.remove(*b),
            final(self).blocks.certs@ == old(self).blocks.certs@.remove(*b),
            final(self).transactions.votes@ == old(self).transactions.votes@.remove(*b),
            final(self).transactions.certs == old(self).transactions.certs,
    {
        let ghost before = *self;
        let _votes = self.blocks.votes.remove(b);
        let _certs = self.blocks.certs.remove(b);
        let _txs = self.transactions.votes.remove(b);
        proof {
            assert forall|o: BlockReference| self.blocks.votes@.dom().contains(o) implies counted(
                #[trigger] self.blocks.votes@[o],
                stakes,
            ) by {
                assert(counted(before.blocks.votes@[o], stakes));
            }
            assert forall|o: BlockReference| self.transactions.votes@.dom().contains(o) implies counted(
                #[trigger] self.transactions.votes@[o],
                stakes,
            ) by {
                assert(counted(before.transactions.votes@[o], stakes));
            }
            assert forall|o: BlockReference| self.blocks.certs@.dom().contains(o) implies (
            #[trigger] self.blocks.certs@[o]).wf(stakes) by {
                assert(before.blocks.certs@[o].wf(stakes));
            }
        }
    }
}

/// What the interpreter holds after the blocks in `gone` were forgotten.
pub open spec fn without(
    before: FinalizationInterpreter,
    after: FinalizationInterpreter,
    gone: Set<BlockReference>,
) -> bool {
    &&& after.block_level_fpc == before.block_level_fpc
    &&& after.blocks.votes@ == before.blocks.votes@.remove_keys(gone)
    &&& after.blocks.certs@ == before.blocks.certs@.remove_keys(gone)
    &&& after.transactions.votes@ == before.transactions.votes@.remove_keys(gone)
    &&& after.transactions.certs == before.transactions.certs
}

proof fn lemma_without_more(
    a: FinalizationInterpreter,
    b: FinalizationInterpreter,
    c: FinalizationInterpreter,
    gone: Set<BlockReference>,
    x: BlockReference,
)
    requires
        without(a, b, gone),
        c.block_level_fpc == b.block_level_fpc,
        c.blocks.votes@ == b.blocks.votes@.remove(x),
        c.blocks.certs@ == b.blocks.certs@.remove(x),
        c.transactions.votes@ == b.transactions.votes@.remove(x),
        c.transactions.certs == b.transactions.certs,
    ensures
        without(a, c, gone.insert(x)),
{
    assert(c.blocks.votes@ =~= a.blocks.votes@.remove_keys(gone.insert(x)));
    assert(c.blocks.certs@ =~= a.blocks.certs@.remove_keys(gone.insert(x)));
    assert(c.transactions.votes@ =~= a.transactions.votes@.remove_keys(gone.insert(x)));
}

/// The blocks in the lists of the first `k` rounds of `rounds`.
spec fn listed(by_round: Map<u64, Vec<BlockReference>>, rounds: Seq<u64>, k: int) -> Set<BlockReference> {
    Set::new(
        |b: BlockReference|
            exists|i: int|
                0 <= i < k && by_round.dom().contains(#[trigger] rounds[i]) && by_round[rounds[i]]@.contains(b),
    )
}

impl FinalizationInterpreter {
    /// Registers a block under its round.
    fn register(&mut self, block: &StatementBlock, Ghost(stakes): Ghost<Seq<u64>>)
        requires
            old(self).wf(stakes),
        ensures
            final(self).wf(stakes),
            forall|r: u64| #[trigger]
                round_list(final(self).blocks_by_round@, r) == old(self).registered_with(*block, r),
            final(self).blocks == old(self).blocks,
            final(self).transactions == old(self).transactions,
            final(self).highest_known_round == old(self).highest_known_round,
            final(self).block_level_fpc == old(self).block_level_fpc,
    {
        let ghost before = *self;
        let round: u64 = block.round();
        let known = self.blocks_by_round.contains_key(&round);
        if known {
            match self.blocks_by_round.get_mut(&round) {
                Some(list) => {
                    list.push(block.reference);
                },
                None => {},
            }
            proof {
                let v = self.blocks_by_round.entries@[keymap::position(
                    before.blocks_by_round.entries@,
                    round,
                )].1;
                keymap::lemma_get_mut(before.blocks_by_round, self.blocks_by_round, round, v);
            }
        } else {
            let mut list: Vec<BlockReference> = Vec::new();
            list.push(block.reference);
            self.blocks_by_round.insert(round, list);
        }
        assert forall|r: u64| #[trigger]
            round_list(self.blocks_by_round@, r) == before.registered_with(*block, r) by {
            assert(round_list(self.blocks_by_round@, r) =~= before.registered_with(*block, r));
        }
    }

    /// Makes a block's round known, and forgets the blocks of rounds that are
    /// more than three before the latest.
    pub fn update_round_and_prune(&mut self, committee: &Committee, block: &StatementBlock)
        requires
            old(self).wf(committee.stakes()),
        ensures
            final(self).wf(committee.stakes()),
            final(self).highest_known_round == old(self).highest_with(*block),
            without(*old(self), *final(self), old(self).forgotten_with(*block)),
            forall|r: u64| #[trigger]
                final(self).blocks_by_round@.dom().contains(r) ==> r >= prune_threshold(
                    old(self).highest_with(*block),
                ),
            forall|r: u64| #[trigger]
                round_list(final(self).blocks_by_round@, r) == (if r < prune_threshold(
                    old(self).highest_with(*block),
                ) {
                    Seq::empty()
                } else {
                    old(self).registered_with(*block, r)
                }),
    {
        let ghost stakes = committee.stakes();
        let ghost before = *self;
        self.register(block, Ghost(stakes));
        let round: u64 = block.round();
        if round > self.highest_known_round {
            self.highest_known_round = round;
        }
        let threshold: u64 = if self.highest_known_round >= 3 {
            self.highest_known_round - 3
        } else {
            0
        };
        let ghost mid = *self;
        let ghost by1 = self.blocks_by_round@;
        let mut rounds: Vec<u64> = Vec::new();
        let mut i: usize = 0;
        while i < self.blocks_by_round.entries.len()
            invariant
                i <= self.blocks_by_round.entries@.len(),
                self.blocks_by_round.wf(),
                *self == mid,
                by1 == self.blocks_by_round@,
                forall|k: int| 0 <= k < rounds@.len() ==> #[trigger] rounds@[k] < threshold,
                forall|k: int|
                    0 <= k < i && (#[trigger] self.blocks_by_round.entries@[k]).0 < threshold
                        ==> rounds@.contains(self.blocks_by_round.entries@[k].0),
            decreases self.blocks_by_round.entries@.len() - i,
        {
            let r: u64 = self.blocks_by_round.entries[i].0;
            let ghost prev = rounds@;
            if r < threshold {
                rounds.push(r);
                assert(rounds@[prev.len() as int] == r);
            }
            assert forall|k: int| 0 <= k < i + 1 && (
            #[trigger] self.blocks_by_round.entries@[k]).0 < threshold implies rounds@.contains(
                self.blocks_by_round.entries@[k].0,
            ) by {
                if k < i {
                    let q = self.blocks_by_round.entries@[k].0;
                    assert(prev.contains(q));
                    let m = choose|m: int| 0 <= m < prev.len() && prev[m] == q;
                    assert(rounds@[m] == q);
                }
            }
            i = i + 1;
        }
        proof {
            assert forall|r: u64| by1.dom().contains(r) && r < threshold implies rounds@.contains(r) by {
                let k = keymap::position(self.blocks_by_round.entries@, r);
                assert(self.blocks_by_round.has(r));
                assert(0 <= k < self.blocks_by_round.entries@.len()
                    && self.blocks_by_round.entries@[k].0 == r);
            }
            assert(without(mid, mid, Set::empty())) by {
                assert(mid.blocks.votes@ =~= mid.blocks.votes@.remove_keys(Set::empty()));
                assert(mid.blocks.certs@ =~= mid.blocks.certs@.remove_keys(Set::empty()));
                assert(mid.transactions.votes@ =~= mid.transactions.votes@.remove_keys(Set::empty()));
            }
            assert(listed(by1, rounds@, 0) =~= Set::empty());
        }
        let mut k: usize = 0;
        while k < rounds.len()
            invariant
                k <= rounds@.len(),
                self.wf(stakes),
                self.highest_known_round == mid.highest_known_round,
                by1 == mid.blocks_by_round@,
                without(mid, *self, listed(by1, rounds@, k as int)),
                forall|r: u64| #[trigger]
                    self.blocks_by_round@.dom().contains(r) == (by1.dom().contains(r) && !rounds@.take(
                        k as int,
                    ).contains(r)),
                forall|r: u64| #[trigger]
                    self.blocks_by_round@.dom().contains(r) ==> self.blocks_by_round@[r] == by1[r],
            decreases rounds@.len() - k,
        {
            let r: u64 = rounds[k];
            let ghost start = *self;
            let ghost gone = listed(by1, rounds@, k as int);
            let ghost taken = rounds@.take(k as int);
            assert(rounds@.take(k + 1) =~= taken.push(r));
            proof {
                lemma_push_set(taken, r);
                assert forall|q: u64| #[trigger] rounds@.take(k + 1).contains(q) == (taken.contains(q)
                    || q == r) by {
                    assert(taken.push(r).to_set().contains(q) == taken.to_set().insert(r).contains(q));
                }
            }
            match self.blocks_by_round.remove(&r) {
                Some(list) => {
                    assert(list == by1[r]);
                    let mut j: usize = 0;
                    assert(gone.union(list@.take(0).to_set()) =~= gone);
                    while j < list.len()
                        invariant
                            j <= list@.len(),
                            self.wf(stakes),
                            self.highest_known_round == mid.highest_known_round,
                            self.blocks_by_round@ == start.blocks_by_round@.remove(r),
                            without(mid, *self, gone.union(list@.take(j as int).to_set())),
                        decreases list@.len() - j,
                    {
                        let b = list[j];
                        let ghost prev = *self;
                        self.forget(&b, Ghost(stakes));
                        proof {
                            let g1 = gone.union(list@.take(j as int).to_set());
                            lemma_without_more(mid, prev, *self, g1, b);
                            lemma_push_set(list@.take(j as int), b);
                            assert(list@.take(j + 1) =~= list@.take(j as int).push(b));
                            assert(g1.insert(b) =~= gone.union(list@.take(j + 1).to_set()));
                        }
                        j = j + 1;
                    }
                    proof {
                        assert(list@.take(j as int) =~= list@);
                        let next = listed(by1, rounds@, k + 1);
                        assert forall|b: BlockReference| next.contains(b) == gone.union(
                            list@.to_set(),
                        ).contains(b) by {
                            if next.contains(b) {
                                let m = choose|m: int|
                                    0 <= m < k + 1 && by1.dom().contains(#[trigger] rounds@[m])
                                        && by1[rounds@[m]]@.contains(b);
                                if m < k {
                                    assert(gone.contains(b));
                                }
                            }
                            if gone.contains(b) {
                                let m = choose|m: int|
                                    0 <= m < k && by1.dom().contains(#[trigger] rounds@[m])
                                        && by1[rounds@[m]]@.contains(b);
                                assert(next.contains(b));
                            }
                            if list@.contains(b) {
                                assert(by1.dom().contains(rounds@[k as int]));
                                assert(next.contains(b));
                            }
                        }
                        assert(next =~= gone.union(list@.to_set()));
                    }
                },
                None => {
                    proof {
                        let next = listed(by1, rounds@, k + 1);
                        assert forall|b: BlockReference| next.contains(b) == gone.contains(b) by {
                            if next.contains(b) {
                                let m = choose|m: int|
                                    0 <= m < k + 1 && by1.dom().contains(#[trigger] rounds@[m])
                                        && by1[rounds@[m]]@.contains(b);
                                if m == k {
                                    assert(taken.contains(r));
                                    let q = choose|q: int| 0 <= q < taken.len() && taken[q] == r;
                                    assert(rounds@[q] == r);
                                    assert(by1.dom().contains(rounds@[q]));
                                }
                            }
                            if gone.contains(b) {
                                let m = choose|m: int|
                                    0 <= m < k && by1.dom().contains(#[trigger] rounds@[m])
                                        && by1[rounds@[m]]@.contains(b);
                                assert(next.contains(b));
                            }
                        }
                        assert(next =~= gone);
                    }
                },
            }
            k = k + 1;
        }
        proof {
            assert(rounds@.take(k as int) =~= rounds@);
            let gone = listed(by1, rounds@, k as int);
            let want = before.forgotten_with(*block);
            assert forall|b: BlockReference| gone.contains(b) == want.contains(b) by {
                if gone.contains(b) {
                    let m = choose|m: int|
                        0 <= m < k && by1.dom().contains(#[trigger] rounds@[m])
                            && by1[rounds@[m]]@.contains(b);
                    let r = rounds@[m];
                    assert(round_list(by1, r) == before.registered_with(*block, r));
                    assert(before.registered_with(*block, r).contains(b));
                }
                if want.contains(b) {
                    let r = choose|r: u64|
                        r < prune_threshold(before.highest_with(*block))
                            && #[trigger] before.registered_with(*block, r).contains(b);
                    assert(round_list(by1, r) == before.registered_with(*block, r));
                    assert(by1.dom().contains(r));
                    assert(rounds@.contains(r));
                    let m = choose|m: int| 0 <= m < rounds@.len() && rounds@[m] == r;
                    assert(by1.dom().contains(rounds@[m]));
                }
            }
            assert(gone =~= want);
            assert forall|r: u64| #[trigger]
                round_list(self.blocks_by_round@, r) == (if r < prune_threshold(
                before.highest_with(*block),
            ) {
                Seq::empty()
            } else {
                before.registered_with(*block, r)
            }) by {
                assert(round_list(by1, r) == before.registered_with(*block, r));
                if rounds@.contains(r) {
                    let m = choose|m: int| 0 <= m < rounds@.len() && rounds@[m] == r;
                    assert(rounds@[m] < threshold);
                }
                assert(self.blocks_by_round@.dom().contains(r) == (by1.dom().contains(r)
                    && !rounds@.contains(r)));
            }
        }
    }
}

/// The setting in which `block` is processed.
pub open spec fn setting_of(
    store: BlockStore,
    stakes: Seq<u64>,
    block: StatementBlock,
    highest: u64,
) -> Setting {
    Setting {
        g: store@.insert(block.reference, block),
        d: store@,
        stakes,
        threshold: prune_threshold(highest),
    }
}

/// The authors of the blocks in the store are members of the committee.
pub open spec fn authors_known(store: BlockStore, stakes: Seq<u64>) -> bool {
    forall|r: BlockReference| #[trigger] store@.dom().contains(r) ==> r.authority < stakes.len()
}

impl FinalizationInterpreter {
    /// Takes a block in: forgets old rounds, gathers votes along the block's
    /// history, and writes what becomes final to the ledger.
    pub fn process_block(
        &mut self,
        store: &BlockStore,
        committee: &Committee,
        block: &StatementBlock,
        ledger: &mut VoteLedger,
    )
        requires
            old(self).wf(committee.stakes()),
            store.wf(),
            authors_known(*store, committee.stakes()),
            block.reference.authority < committee.stakes().len(),
            store@.dom().contains(block.reference) ==> store@[block.reference] == *block,
        ensures
            final(self).wf(committee.stakes()),
            continues(old(ledger).finalized@, final(ledger).finalized@),
            final(self).highest_known_round == old(self).highest_with(*block),
            exists|mid: FinalizationInterpreter| #[trigger]
                processed(
                    *old(self),
                    mid,
                    *final(self),
                    setting_of(*store, committee.stakes(), *block, old(self).highest_with(*block)),
                    *block,
                    old(ledger).set(),
                    final(ledger).set(),
                ),
    {
        let ghost before = *self;
        let ghost lb = ledger.set();
        let n: usize = committee.len();
        self.update_round_and_prune(committee, block);
        let ghost mid = *self;
        let threshold: u64 = if self.highest_known_round >= 3 {
            self.highest_known_round - 3
        } else {
            0
        };
        let ghost s = setting_of(*store, committee.stakes(), *block, self.highest_known_round);
        proof {
            assert(s.ok()) by {
                assert forall|r: BlockReference| s.g.dom().contains(r) implies (
                #[trigger] s.g[r]).reference == r && r.authority < s.stakes.len() by {
                    if r != block.reference {
                        assert(store@[r].reference == r);
                    }
                }
            }
        }
        if self.block_level_fpc {
            self.blocks.absorb(store, committee, threshold, block, ledger, Ghost(s));
        } else {
            self.transactions.absorb(store, committee, threshold, block, ledger, Ghost(s));
        }
        assert(processed(before, mid, *self, s, *block, lb, ledger.set()));
    }
}

/// How a block is taken in: `before` is cleared of old rounds to `mid`, and
/// from there the votes of the chosen kind advance.
pub open spec fn processed(
    before: FinalizationInterpreter,
    mid: FinalizationInterpreter,
    after: FinalizationInterpreter,
    s: Setting,
    block: StatementBlock,
    lb: Set<TransactionLocator>,
    la: Set<TransactionLocator>,
) -> bool {
    let round = block.reference.round;
    &&& without(before, mid, before.forgotten_with(block))
    &&& after.blocks_by_round == mid.blocks_by_round
    &&& after.block_level_fpc == before.block_level_fpc
    &&& forall|r: u64| #[trigger]
        round_list(after.blocks_by_round@, r) == (if r < s.threshold {
            Seq::empty()
        } else {
            before.registered_with(block, r)
        })
    &&& before.block_level_fpc ==> {
        &&& after.transactions == mid.transactions
        &&& advances(s, mid.blocks, lb, after.blocks, la, None, round as int)
        &&& round >= s.threshold ==> after.blocks.observers().contains(block.reference)
        &&& mid.blocks.votes_sound(s.g) ==> after.blocks.votes_sound(s.g)
        &&& mid.blocks.votes_sound(s.g) && mid.blocks.endorsements_sound(s.g, s.stakes)
            ==> after.blocks.endorsements_sound(s.g, s.stakes)
    }
    &&& !before.block_level_fpc ==> {
        &&& after.blocks == mid.blocks
        &&& advances(s, mid.transactions, lb, after.transactions, la, None, round as int)
        &&& round >= s.threshold ==> after.transactions.observers().contains(block.reference)
        &&& mid.transactions.votes_sound(s.g) ==> after.transactions.votes_sound(s.g)
        &&& mid.transactions.votes_sound(s.g) && mid.transactions.endorsements_sound(s.g, s.stakes)
            ==> after.transactions.endorsements_sound(s.g, s.stakes)
    }
}

/// Finality is safe: where endorsements are sound and `t` is final, every
/// quorum of members has one whose certifying block has, in its history, the
/// votes of a quorum for `t`.
pub proof fn law_final_is_backed<T: VoteTarget>(
    x: VoteTally<T>,
    g: Graph,
    stakes: Seq<u64>,
    t: T,
    others: Set<u64>,
)
    requires
        committee::valid_stakes(stakes),
        x.endorsements_sound(g, stakes),
        x.is_final(stakes, t),
        committee::quorum(stakes, others),
    ensures
        exists|a: u64, o: BlockReference, q: Set<u64>|
            others.contains(a) && #[trigger] backed(g, stakes, t, a, o, q),
{
    committee::law_quorums_intersect(stakes, x.endorsers(t), others);
    let a = choose|a: u64| a < stakes.len() && x.endorsers(t).contains(a) && others.contains(a);
    let (o, q) = choose|o: BlockReference, q: Set<u64>| #[trigger] backed(g, stakes, t, a, o, q);
    assert(backed(g, stakes, t, a, o, q));
}

/// What is final stays final while votes advance, and what the ledger holds
/// stays in it.
pub proof fn law_finality_is_permanent<T: VoteTarget>(
    s: Setting,
    before: VoteTally<T>,
    lb: Set<TransactionLocator>,
    after: VoteTally<T>,
    la: Set<TransactionLocator>,
    top: int,
    t: T,
)
    requires
        advances(s, before, lb, after, la, None, top),
    ensures
        before.is_final(s.stakes, t) ==> after.is_final(s.stakes, t),
        lb.subset_of(la),
{
    assert(before.endorsers(t).subset_of(after.endorsers(t)));
    if before.is_final(s.stakes, t) {
        lemma_final_stays(before, after, s.stakes, t);
    }
    assert forall|l: TransactionLocator| lb.contains(l) implies la.contains(l) by {}
}

/// Whatever becomes final while votes advance is written to the ledger, with
/// all the transactions that it covers.
pub proof fn law_final_is_written<T: VoteTarget>(
    s: Setting,
    before: VoteTally<T>,
    lb: Set<TransactionLocator>,
    after: VoteTally<T>,
    la: Set<TransactionLocator>,
    top: int,
    t: T,
    l: TransactionLocator,
)
    requires
        advances(s, before, lb, after, la, None, top),
        !before.is_final(s.stakes, t),
        after.is_final(s.stakes, t),
        T::covered(s.d, t).contains(l),
    ensures
        la.contains(l),
{
    assert(newly_covered(before, after, s.stakes, s.d, l));
}

proof fn lemma_accepted_votes(block: StatementBlock, k: int, l: TransactionLocator)
    requires
        0 <= k <= block.statements@.len(),
        block.statements@.len() <= u64::MAX,
    ensures
        accepted_votes(block, k).contains(l) <==> exists|i: int|
            0 <= i < k && #[trigger] has_accepting(block, i, l),
    decreases k,
{
    if k > 0 {
        let rest = accepted_votes(block, k - 1);
        let all = accepted_votes(block, k);
        lemma_accepted_votes(block, k - 1, l);
        if rest.contains(l) {
            let j = choose|j: int| 0 <= j < rest.len() && rest[j] == l;
            assert(all[j] == l);
            let i = choose|i: int| 0 <= i < k - 1 && #[trigger] has_accepting(block, i, l);
            assert(has_accepting(block, i, l));
        }
        let st = block.statements@[k - 1];
        if has_accepting(block, k - 1, l) {
            match st {
                BaseStatement::VoteRange(range) => {
                    let at = l.offset - range.start;
                    assert(range.locators_spec()[at] == l);
                    assert(all[rest.len() + at] == l);
                },
                _ => {
                    assert(all[rest.len() as int] == l);
                },
            }
        }
        if all.contains(l) && !rest.contains(l) {
            let j = choose|j: int| 0 <= j < all.len() && all[j] == l;
            if j < rest.len() {
                assert(rest[j] == l);
            }
            match st {
                BaseStatement::VoteRange(range) => {
                    assert(range.locators_spec()[j - rest.len()] == l);
                    assert(l.offset == range.start + (j - rest.len()));
                },
                _ => {},
            }
            assert(has_accepting(block, k - 1, l));
        }
        if exists|i: int| 0 <= i < k && #[trigger] has_accepting(block, i, l) {
            let i = choose|i: int| 0 <= i < k && #[trigger] has_accepting(block, i, l);
            if i < k - 1 {
                assert(has_accepting(block, i, l));
            }
        }
    }
}

/// The statement at a position of a block speaks for a transaction: it shares it, votes
/// to accept it, or votes for a range that holds it.
pub open spec fn has_accepting(block: StatementBlock, i: int, l: TransactionLocator) -> bool {
    match block.statements@[i] {
        BaseStatement::Share(_) => l.block == block.reference && l.offset == i,
        BaseStatement::Vote(voted, vote) => voted == l && vote == Vote::Accept,
        BaseStatement::VoteRange(range) => l.block == range.block && range.start <= l.offset
            < range.end,
    }
}

/// A block votes for a transaction exactly where one of its statements shares it, votes
/// to accept it, or votes for a range that holds it. A rejection is no vote.
pub proof fn law_direct_votes_accept(block: StatementBlock, l: TransactionLocator)
    requires
        block.statements@.len() <= u64::MAX,
    ensures
        TransactionLocator::direct_votes(block).contains(l) <==> exists|i: int|
            0 <= i < block.statements@.len() && (match #[trigger] block.statements@[i] {
                BaseStatement::Share(_) => l.block == block.reference && l.offset == i,
                BaseStatement::Vote(voted, vote) => voted == l && vote == Vote::Accept,
                BaseStatement::VoteRange(range) => l.block == range.block && range.start
                    <= l.offset && l.offset < range.end,
            }),
        (forall|i: int|
            0 <= i < block.statements@.len() ==> (#[trigger] block.statements@[i] matches BaseStatement::Vote(
                _,
                Vote::Reject(_),
            ))) ==> !TransactionLocator::direct_votes(block).contains(l),
{
    lemma_accepted_votes(block, block.statements@.len() as int, l);
    if exists|i: int|
        0 <= i < block.statements@.len() && (match #[trigger] block.statements@[i] {
            BaseStatement::Share(_) => l.block == block.reference && l.offset == i,
            BaseStatement::Vote(voted, vote) => voted == l && vote == Vote::Accept,
            BaseStatement::VoteRange(range) => l.block == range.block && range.start <= l.offset
                && l.offset < range.end,
        }) {
        let i = choose|i: int|
            0 <= i < block.statements@.len() && (match #[trigger] block.statements@[i] {
                BaseStatement::Share(_) => l.block == block.reference && l.offset == i,
                BaseStatement::Vote(voted, vote) => voted == l && vote == Vote::Accept,
                BaseStatement::VoteRange(range) => l.block == range.block && range.start
                    <= l.offset && l.offset < range.end,
            });
        assert(has_accepting(block, i, l));
    }
    if TransactionLocator::direct_votes(block).contains(l) {
        let i = choose|i: int|
            0 <= i < block.statements@.len() && #[trigger] has_accepting(block, i, l);
        assert(match block.statements@[i] {
            BaseStatement::Share(_) => l.block == block.reference && l.offset == i,
            BaseStatement::Vote(voted, vote) => voted == l && vote == Vote::Accept,
            BaseStatement::VoteRange(range) => l.block == range.block && range.start <= l.offset
                && l.offset < range.end,
        });
    }
}

/// A block votes for the blocks that it refers to, and for no others. Any block of the
/// block mode certifies; in the transaction mode those without an epoch marker do. What
/// becomes final with a block is what it shares; with a transaction, itself alone.
pub proof fn law_what_votes_are_for(
    block: StatementBlock,
    p: BlockReference,
    g: Graph,
    l: TransactionLocator,
    m: TransactionLocator,
    ledger: Set<TransactionLocator>,
)
    ensures
        BlockReference::direct_votes(block).contains(p) <==> exists|i: int|
            0 <= i < block.includes@.len() && #[trigger] block.includes@[i] == p,
        BlockReference::certifying(block),
        TransactionLocator::certifying(block) <==> !block.epoch_marker,
        BlockReference::covered(g, p).contains(l) <==> g.dom().contains(p) && l.block
            == g[p].reference && l.offset < g[p].statements@.len() && (
        g[p].statements@[l.offset as int] matches BaseStatement::Share(_)),
        TransactionLocator::covered(g, l).contains(m) <==> m == l,
        TransactionLocator::closed_by(ledger, l) <==> ledger.contains(l),
        !BlockReference::closed_by(ledger, p),
        BlockReference::leaves_out_final(),
        !TransactionLocator::leaves_out_final(),
{
    if BlockReference::direct_votes(block).contains(p) {
        let i = choose|i: int| 0 <= i < block.includes@.len() && block.includes@[i] == p;
        assert(block.includes@[i] == p);
    }
}

/// Votes count for the latest round and the three before it.
pub proof fn law_old_rounds_do_not_count(highest: u64, r: u64)
    ensures
        r >= prune_threshold(highest) <==> r + 3 >= highest,
{
}

/// Where a transaction is final, a quorum of members endorses it, each in a block
/// without an epoch marker whose history holds the votes of a quorum; and each of these
/// votes is a statement in a block of its voter that shares the transaction or accepts
/// it.
pub proof fn law_final_transaction_is_accepted(
    x: VoteTally<TransactionLocator>,
    g: Graph,
    stakes: Seq<u64>,
    l: TransactionLocator,
) -> (r: (Set<u64>, Set<u64>))
    requires
        committee::valid_stakes(stakes),
        x.endorsements_sound(g, stakes),
        x.is_final(stakes, l),
        forall|b: BlockReference| #[trigger]
            g.dom().contains(b) ==> g[b].reference == b && g[b].statements@.len() <= u64::MAX,
    ensures
        3 * committee::stake_of(stakes, r.0) > 2 * committee::total_stake(stakes),
        forall|a: u64| #[trigger]
            r.0.contains(a) ==> exists|o: BlockReference|
                o.authority == a && !(#[trigger] g[o]).epoch_marker,
        3 * committee::stake_of(stakes, r.1) > 2 * committee::total_stake(stakes),
        forall|v: u64| #[trigger]
            r.1.contains(v) ==> exists|b: BlockReference, i: int|
                g.dom().contains(b) && b.authority == v && 0 <= i < g[b].statements@.len() && (
                match #[trigger] g[b].statements@[i] {
                    BaseStatement::Share(_) => l.block == b && l.offset == i,
                    BaseStatement::Vote(voted, vote) => voted == l && vote == Vote::Accept,
                    BaseStatement::VoteRange(range) => l.block == range.block && range.start
                        <= l.offset && l.offset < range.end,
                }),
{
    let e = x.endorsers(l);
    assert forall|a: u64| #[trigger] e.contains(a) implies exists|o: BlockReference|
        o.authority == a && !(#[trigger] g[o]).epoch_marker by {
        let (o, q) = choose|o: BlockReference, q: Set<u64>| #[trigger] backed(
            g,
            stakes,
            l,
            a,
            o,
            q,
        );
        assert(!g[o].epoch_marker);
    }
    committee::law_quorums_intersect(stakes, e, e);
    let a = choose|a: u64| a < stakes.len() && e.contains(a) && e.contains(a);
    let (o, q) = choose|o: BlockReference, q: Set<u64>| #[trigger] backed(g, stakes, l, a, o, q);
    assert forall|v: u64| #[trigger] q.contains(v) implies exists|b: BlockReference, i: int|
        g.dom().contains(b) && b.authority == v && 0 <= i < g[b].statements@.len() && (
        match #[trigger] g[b].statements@[i] {
            BaseStatement::Share(_) => l.block == b && l.offset == i,
            BaseStatement::Vote(voted, vote) => voted == l && vote == Vote::Accept,
            BaseStatement::VoteRange(range) => l.block == range.block && range.start <= l.offset
                && l.offset < range.end,
        }) by {
        assert(supports(g, o, l, v));
        let path = choose|path: Seq<BlockReference>| is_support(g, path, o, l, v);
        let b = path.last();
        assert(g.dom().contains(path[path.len() - 1]));
        lemma_accepted_votes(g[b], g[b].statements@.len() as int, l);
        let i = choose|i: int|
            0 <= i < g[b].statements@.len() && #[trigger] has_accepting(g[b], i, l);
        assert(match g[b].statements@[i] {
            BaseStatement::Share(_) => l.block == b && l.offset == i,
            BaseStatement::Vote(voted, vote) => voted == l && vote == Vote::Accept,
            BaseStatement::VoteRange(range) => l.block == range.block && range.start <= l.offset
                && l.offset < range.end,
        });
    }
    (e, q)
}

/// Where a block is final, a quorum of members has blocks that refer to it.
pub proof fn law_final_block_is_referred_to(
    x: VoteTally<BlockReference>,
    g: Graph,
    stakes: Seq<u64>,
    t: BlockReference,
) -> (q: Set<u64>)
    requires
        committee::valid_stakes(stakes),
        x.endorsements_sound(g, stakes),
        x.is_final(stakes, t),
    ensures
        3 * committee::stake_of(stakes, q) > 2 * committee::total_stake(stakes),
        forall|v: u64| #[trigger]
            q.contains(v) ==> exists|b: BlockReference, i: int|
                g.dom().contains(b) && b.authority == v && 0 <= i < g[b].includes@.len()
                    && #[trigger] g[b].includes@[i] == t,
{
    let e = x.endorsers(t);
    committee::law_quorums_intersect(stakes, e, e);
    let a = choose|a: u64| a < stakes.len() && e.contains(a) && e.contains(a);
    let (o, q) = choose|o: BlockReference, q: Set<u64>| #[trigger] backed(g, stakes, t, a, o, q);
    assert forall|v: u64| #[trigger] q.contains(v) implies exists|b: BlockReference, i: int|
        g.dom().contains(b) && b.authority == v && 0 <= i < g[b].includes@.len()
            && #[trigger] g[b].includes@[i] == t by {
        assert(supports(g, o, t, v));
        let path = choose|path: Seq<BlockReference>| is_support(g, path, o, t, v);
        let b = path.last();
        assert(g.dom().contains(path[path.len() - 1]));
        let s = g[b].includes@;
        let i = choose|i: int| 0 <= i < s.len() && s[i] == t;
        assert(g[b].includes@[i] == t);
    }
    q
}

/// The votes of both kinds are sound in a graph.
pub open spec fn sound_in(x: FinalizationInterpreter, g: Graph, stakes: Seq<u64>) -> bool {
    &&& x.transactions.votes_sound(g)
    &&& x.transactions.endorsements_sound(g, stakes)
    &&& x.blocks.votes_sound(g)
    &&& x.blocks.endorsements_sound(g, stakes)
}

proof fn lemma_support_grows<T: VoteTarget>(g: Graph, h: Graph, o: BlockReference, t: T, v: u64)
    requires
        forall|r: BlockReference| #[trigger]
            g.dom().contains(r) ==> h.dom().contains(r) && h[r] == g[r],
        supports(g, o, t, v),
    ensures
        supports(h, o, t, v),
        g.dom().contains(o),
{
    let path = choose|path: Seq<BlockReference>| is_support(g, path, o, t, v);
    assert(g.dom().contains(path[0]));
    assert forall|i: int| 0 <= i < path.len() implies h.dom().contains(#[trigger] path[i]) by {
        assert(g.dom().contains(path[i]));
        assert(h[path[i]] == g[path[i]]);
    }
    assert forall|i: int, j: int| 0 <= i && j == i + 1 && j < path.len() implies h[
        #[trigger] path[i]
    ].includes@.contains(#[trigger] path[j]) by {
        assert(g.dom().contains(path[i]));
        assert(h[path[i]] == g[path[i]]);
    }
    assert(g.dom().contains(path[path.len() - 1]));
    assert(h[path.last()] == g[path.last()]);
    assert(is_support(h, path, o, t, v));
}

proof fn lemma_sound_grows<T: VoteTarget>(
    x: VoteTally<T>,
    y: VoteTally<T>,
    g: Graph,
    h: Graph,
    stakes: Seq<u64>,
)
    requires
        committee::valid_stakes(stakes),
        forall|r: BlockReference| #[trigger]
            g.dom().contains(r) ==> h.dom().contains(r) && h[r] == g[r],
        x.votes_sound(g),
        x.endorsements_sound(g, stakes),
        forall|o: BlockReference, t: T| #[trigger]
            y.voters(o, t).subset_of(x.voters(o, t)),
        forall|t: T| #[trigger] y.endorsers(t).subset_of(x.endorsers(t)),
    ensures
        y.votes_sound(h),
        y.endorsements_sound(h, stakes),
{
    assert forall|o: BlockReference, t: T, v: u64|
        #![trigger y.voters(o, t).contains(v)]
        y.voters(o, t).contains(v) implies supports(h, o, t, v) by {
        assert(y.voters(o, t).subset_of(x.voters(o, t)));
        assert(x.voters(o, t).contains(v));
        lemma_support_grows(g, h, o, t, v);
    }
    assert forall|t: T, a: u64|
        #![trigger y.endorsers(t).contains(a)]
        y.endorsers(t).contains(a) implies exists|o: BlockReference, q: Set<u64>|
        #[trigger] backed(h, stakes, t, a, o, q) by {
        assert(y.endorsers(t).subset_of(x.endorsers(t)));
        assert(x.endorsers(t).contains(a));
        let (o, q) = choose|o: BlockReference, q: Set<u64>|
            #[trigger] backed(g, stakes, t, a, o, q);
        assert forall|v: u64| #[trigger] q.contains(v) implies supports(h, o, t, v) by {
            lemma_support_grows(g, h, o, t, v);
        }
        committee::law_quorums_intersect(stakes, q, q);
        let v = choose|v: u64| v < stakes.len() && q.contains(v) && q.contains(v);
        assert(supports(g, o, t, v));
        lemma_support_grows(g, h, o, t, v);
        assert(h[o] == g[o]);
        assert(backed(h, stakes, t, a, o, q));
    }
}

/// Whatever blocks are processed, the votes stay sound, in the graph that grows with
/// them; a new interpreter's are.
pub proof fn law_processing_keeps_votes_sound(
    before: FinalizationInterpreter,
    mid: FinalizationInterpreter,
    after: FinalizationInterpreter,
    s: Setting,
    block: StatementBlock,
    lb: Set<TransactionLocator>,
    la: Set<TransactionLocator>,
    g: Graph,
)
    requires
        committee::valid_stakes(s.stakes),
        processed(before, mid, after, s, block, lb, la),
        sound_in(before, g, s.stakes),
        forall|r: BlockReference| #[trigger]
            g.dom().contains(r) ==> s.g.dom().contains(r) && s.g[r] == g[r],
    ensures
        sound_in(after, s.g, s.stakes),
{
    assert forall|o: BlockReference, t: TransactionLocator| #[trigger]
        mid.transactions.voters(o, t).subset_of(before.transactions.voters(o, t)) by {}
    assert forall|o: BlockReference, t: BlockReference| #[trigger]
        mid.blocks.voters(o, t).subset_of(before.blocks.voters(o, t)) by {}
    assert forall|t: BlockReference| #[trigger]
        mid.blocks.endorsers(t).subset_of(before.blocks.endorsers(t)) by {}
    lemma_sound_grows(before.transactions, mid.transactions, g, s.g, s.stakes);
    lemma_sound_grows(before.blocks, mid.blocks, g, s.g, s.stakes);
}

/// What is written to the ledger while a block is processed in the transaction mode is
/// accepted by a quorum of members, each in a statement of a block of its own.
pub proof fn law_newly_final_is_accepted(
    before: FinalizationInterpreter,
    mid: FinalizationInterpreter,
    after: FinalizationInterpreter,
    s: Setting,
    block: StatementBlock,
    lb: Set<TransactionLocator>,
    la: Set<TransactionLocator>,
    g: Graph,
    l: TransactionLocator,
) -> (q: Set<u64>)
    requires
        s.ok(),
        processed(before, mid, after, s, block, lb, la),
        sound_in(before, g, s.stakes),
        forall|r: BlockReference| #[trigger]
            g.dom().contains(r) ==> s.g.dom().contains(r) && s.g[r] == g[r],
        forall|b: BlockReference| #[trigger]
            s.g.dom().contains(b) ==> s.g[b].statements@.len() <= u64::MAX,
        la.contains(l),
        !lb.contains(l),
        !before.block_level_fpc,
    ensures
        3 * committee::stake_of(s.stakes, q) > 2 * committee::total_stake(s.stakes),
        forall|v: u64| #[trigger]
            q.contains(v) ==> exists|b: BlockReference, i: int|
                s.g.dom().contains(b) && b.authority == v && 0 <= i < s.g[b].statements@.len() && (
                match #[trigger] s.g[b].statements@[i] {
                    BaseStatement::Share(_) => l.block == b && l.offset == i,
                    BaseStatement::Vote(voted, vote) => voted == l && vote == Vote::Accept,
                    BaseStatement::VoteRange(range) => l.block == range.block && range.start
                        <= l.offset && l.offset < range.end,
                }),
{
    law_processing_keeps_votes_sound(before, mid, after, s, block, lb, la, g);
    assert(newly_covered(mid.transactions, after.transactions, s.stakes, s.d, l));
    let t = choose|t: TransactionLocator|
        !mid.transactions.is_final(s.stakes, t) && after.transactions.is_final(s.stakes, t)
            && #[trigger] TransactionLocator::covered(s.d, t).contains(l);
    assert(t == l);
    let r = law_final_transaction_is_accepted(after.transactions, s.g, s.stakes, l);
    r.1
}

/// What is written to the ledger while a block is processed in the block mode is shared
/// by a block that a quorum of members refers to.
pub proof fn law_newly_final_is_referred_to(
    before: FinalizationInterpreter,
    mid: FinalizationInterpreter,
    after: FinalizationInterpreter,
    s: Setting,
    block: StatementBlock,
    lb: Set<TransactionLocator>,
    la: Set<TransactionLocator>,
    g: Graph,
    l: TransactionLocator,
) -> (q: Set<u64>)
    requires
        s.ok(),
        processed(before, mid, after, s, block, lb, la),
        sound_in(before, g, s.stakes),
        forall|r: BlockReference| #[trigger]
            g.dom().contains(r) ==> s.g.dom().contains(r) && s.g[r] == g[r],
        la.contains(l),
        !lb.contains(l),
        before.block_level_fpc,
    ensures
        s.d.dom().contains(l.block),
        l.offset < s.d[l.block].statements@.len(),
        s.d[l.block].statements@[l.offset as int] is Share,
        3 * committee::stake_of(s.stakes, q) > 2 * committee::total_stake(s.stakes),
        forall|v: u64| #[trigger]
            q.contains(v) ==> exists|b: BlockReference, i: int|
                s.g.dom().contains(b) && b.authority == v && 0 <= i < s.g[b].includes@.len()
                    && #[trigger] s.g[b].includes@[i] == l.block,
{
    law_processing_keeps_votes_sound(before, mid, after, s, block, lb, la, g);
    assert(newly_covered(mid.blocks, after.blocks, s.stakes, s.d, l));
    let t = choose|t: BlockReference|
        !mid.blocks.is_final(s.stakes, t) && after.blocks.is_final(s.stakes, t)
            && #[trigger] BlockReference::covered(s.d, t).contains(l);
    assert(s.d[t] == s.g[t]);
    assert(s.g[t].reference == t);
    law_final_block_is_referred_to(after.blocks, s.g, s.stakes, t)
}

/// What enough members endorse becomes final: where the members whose blocks, new ones
/// or earlier ones, certify and have seen a quorum of votes for a target are a quorum,
/// the target is final or was closed.
pub proof fn law_enough_endorsements_finalise<T: VoteTarget>(
    s: Setting,
    before: VoteTally<T>,
    lb: Set<TransactionLocator>,
    after: VoteTally<T>,
    la: Set<TransactionLocator>,
    top: int,
    t: T,
    q: Set<u64>,
)
    requires
        advances(s, before, lb, after, la, None, top),
        3 * committee::stake_of(s.stakes, q) > 2 * committee::total_stake(s.stakes),
        forall|a: u64| #[trigger]
            q.contains(a) ==> before.endorsers(t).contains(a) || exists|o: BlockReference|
                after.observers().contains(o) && !before.observers().contains(o) && o.authority
                    == a && T::certifying(#[trigger] s.g[o]) && committee::quorum(
                    s.stakes,
                    after.voters(o, t),
                ),
    ensures
        after.is_final(s.stakes, t) || T::closed_by(la, t),
{
    if after.is_open(la, s.stakes, t) {
        assert forall|a: u64| q.contains(a) implies after.endorsers(t).contains(a) by {
            if !before.endorsers(t).contains(a) {
                let o = choose|o: BlockReference|
                    after.observers().contains(o) && !before.observers().contains(o)
                        && o.authority == a && T::certifying(#[trigger] s.g[o])
                        && committee::quorum(s.stakes, after.voters(o, t));
                assert(after.endorses(s.g, s.stakes, o, t));
            }
        }
        committee::lemma_stake_monotone(s.stakes, q, after.endorsers(t));
    }
}

/// A new block has seen, for a target that is still open, exactly the votes that its
/// parents in the store have seen, and its author's where it votes itself.
pub proof fn law_votes_are_gathered_along_the_graph<T: VoteTarget>(
    s: Setting,
    before: VoteTally<T>,
    lb: Set<TransactionLocator>,
    after: VoteTally<T>,
    la: Set<TransactionLocator>,
    top: int,
    o: BlockReference,
    t: T,
    v: u64,
)
    requires
        advances(s, before, lb, after, la, None, top),
        forall|r: BlockReference, p: BlockReference|
            s.g.dom().contains(r) && #[trigger] s.g[r].includes@.contains(p) ==> p.round < r.round,
        after.observers().contains(o),
        !before.observers().contains(o),
        !after.is_final(s.stakes, t),
        !T::closed_by(la, t),
    ensures
        after.voters(o, t).contains(v) <==> (o.authority == v && T::direct_votes(
            s.g[o],
        ).contains(t)) || exists|j: int|
            0 <= j < s.g[o].includes@.len() && s.d.dom().contains(#[trigger] s.g[o].includes@[j])
                && after.voters(s.g[o].includes@[j], t).contains(v),
{
    assert(after.gathered(s.g, s.d.dom(), o, t));
    let parents = s.g[o].includes@;
    assert(after.voters(o, t).contains(v) <==> after.inherited(parents, s.d.dom(), t, v)
        || T::direct_votes(s.g[o]).contains(t) && v == o.authority);
    if after.inherited(parents, s.d.dom(), t, v) {
        let j = choose|j: int|
            0 <= j < parents.len() && s.d.dom().contains(#[trigger] parents[j]) && after.voters(
                parents[j],
                t,
            ).contains(v);
        assert(s.d.dom().contains(s.g[o].includes@[j]));
    }
}

/// The latest known round is the larger of the one before and that of the block. A block
/// is forgotten exactly where it is registered in a round that is more than three before
/// it, the new block in its own round; and the votes of the others stay.
pub proof fn law_old_blocks_are_forgotten(
    before: FinalizationInterpreter,
    block: StatementBlock,
    b: BlockReference,
)
    ensures
        ({
            let highest = before.highest_with(block);
            &&& highest >= before.highest_known_round
            &&& highest >= block.reference.round
            &&& highest == before.highest_known_round || highest == block.reference.round
            &&& before.forgotten_with(block).contains(b) <==> exists|r: u64|
                {
                    &&& r + 3 < highest
                    &&& #[trigger] before.registered_with(block, r).contains(b)
                }
            &&& forall|r: u64|
                #[trigger] before.registered_with(block, r).contains(b) <==> round_list(
                    before.blocks_by_round@,
                    r,
                ).contains(b) || (r == block.reference.round && b == block.reference)
        }),
{
    assert forall|r: u64| #[trigger] before.registered_with(block, r).contains(b) <==> round_list(
        before.blocks_by_round@,
        r,
    ).contains(b) || (r == block.reference.round && b == block.reference) by {
        let list = round_list(before.blocks_by_round@, r);
        let all = before.registered_with(block, r);
        if list.contains(b) {
            let i = choose|i: int| 0 <= i < list.len() && list[i] == b;
            assert(all[i] == b);
        }
        if r == block.reference.round && b == block.reference {
            assert(all[list.len() as int] == b);
        }
        if all.contains(b) {
            let i = choose|i: int| 0 <= i < all.len() && all[i] == b;
            if i < list.len() {
                assert(list[i] == b);
            }
        }
    }
}

/// A block is taken in against the known blocks and itself, with the weights of the
/// committee, and counts votes of the last three rounds before the latest.
pub proof fn law_block_is_taken_in_with_its_graph(
    store: BlockStore,
    stakes: Seq<u64>,
    block: StatementBlock,
    highest: u64,
    r: BlockReference,
)
    ensures
        ({
            let s = setting_of(store, stakes, block, highest);
            &&& s.g.dom().contains(r) <==> store@.dom().contains(r) || r == block.reference
            &&& s.g[block.reference] == block
            &&& r != block.reference && store@.dom().contains(r) ==> s.g[r] == store@[r]
            &&& s.d == store@
            &&& s.stakes == stakes
            &&& s.threshold <= r.round <==> r.round + 3 >= highest
        }),
{
}

/// Taking blocks in keeps what was seen: the blocks whose votes were gathered stay, with
/// the votes that they saw, and so do endorsements. New blocks come with their history,
/// as far as it is held and its rounds count. And the ledger grows by exactly what the
/// targets cover that became final.
pub proof fn law_history_is_taken_in<T: VoteTarget>(
    s: Setting,
    before: VoteTally<T>,
    lb: Set<TransactionLocator>,
    after: VoteTally<T>,
    la: Set<TransactionLocator>,
    top: int,
    o: BlockReference,
    p: BlockReference,
    t: T,
    a: u64,
    l: TransactionLocator,
)
    requires
        advances(s, before, lb, after, la, None, top),
    ensures
        before.observers().contains(o) ==> after.observers().contains(o) && after.voters(o, t)
            == before.voters(o, t),
        before.endorsers(t).contains(a) ==> after.endorsers(t).contains(a),
        after.observers().contains(o) && !before.observers().contains(o) ==> {
            &&& s.g.dom().contains(o)
            &&& o.round >= s.threshold
            &&& s.g[o].includes@.contains(p) && s.d.dom().contains(p) && p.round >= s.threshold
                ==> after.observers().contains(p)
        },
        la.contains(l) <==> lb.contains(l) || exists|u: T|
            {
                &&& 3 * committee::stake_of(s.stakes, before.endorsers(u)) <= 2
                    * committee::total_stake(s.stakes)
                &&& 3 * committee::stake_of(s.stakes, after.endorsers(u)) > 2
                    * committee::total_stake(s.stakes)
                &&& #[trigger] T::covered(s.d, u).contains(l)
            },
        !after.is_final(s.stakes, t) && !T::closed_by(la, t) && after.endorsers(t).contains(a)
            && !before.endorsers(t).contains(a) ==> exists|q: BlockReference|
            {
                &&& after.observers().contains(q)
                &&& !before.observers().contains(q)
                &&& q.authority == a
                &&& T::certifying(#[trigger] s.g[q])
                &&& 3 * committee::stake_of(s.stakes, after.voters(q, t)) > 2
                    * committee::total_stake(s.stakes)
            },
{
    if la.contains(l) && !lb.contains(l) {
        assert(newly_covered(before, after, s.stakes, s.d, l));
        let u = choose|u: T|
            !before.is_final(s.stakes, u) && after.is_final(s.stakes, u) && #[trigger] T::covered(
                s.d,
                u,
            ).contains(l);
        committee::law_quorum_is_more_than_two_thirds(s.stakes, before.endorsers(u));
        committee::law_quorum_is_more_than_two_thirds(s.stakes, after.endorsers(u));
        assert(T::covered(s.d, u).contains(l));
    }
    if exists|u: T|
        {
            &&& 3 * committee::stake_of(s.stakes, before.endorsers(u)) <= 2
                * committee::total_stake(s.stakes)
            &&& 3 * committee::stake_of(s.stakes, after.endorsers(u)) > 2
                * committee::total_stake(s.stakes)
            &&& #[trigger] T::covered(s.d, u).contains(l)
        } {
        let u = choose|u: T|
            {
                &&& 3 * committee::stake_of(s.stakes, before.endorsers(u)) <= 2
                    * committee::total_stake(s.stakes)
                &&& 3 * committee::stake_of(s.stakes, after.endorsers(u)) > 2
                    * committee::total_stake(s.stakes)
                &&& #[trigger] T::covered(s.d, u).contains(l)
            };
        committee::law_quorum_is_more_than_two_thirds(s.stakes, before.endorsers(u));
        committee::law_quorum_is_more_than_two_thirds(s.stakes, after.endorsers(u));
        assert(newly_covered(before, after, s.stakes, s.d, l));
    }
    if after.is_open(la, s.stakes, t) && after.endorsers(t).contains(a)
        && !before.endorsers(t).contains(a) {
        let q = choose|q: BlockReference|
            (after.observers().contains(q) && !before.observers().contains(q)) && q.authority == a
                && #[trigger] after.endorses(s.g, s.stakes, q, t);
        committee::law_quorum_is_more_than_two_thirds(s.stakes, after.voters(q, t));
        assert(T::certifying(s.g[q]));
    }
}

/// A block is taken in whole or transaction by transaction, as was chosen at the start, and
/// then the votes of the other kind stay. One of a round that counts is among the blocks
/// whose votes were gathered. Forgetting takes the votes of the forgotten blocks and of no
/// others.
pub proof fn law_block_is_taken_in(
    before: FinalizationInterpreter,
    mid: FinalizationInterpreter,
    after: FinalizationInterpreter,
    s: Setting,
    block: StatementBlock,
    lb: Set<TransactionLocator>,
    la: Set<TransactionLocator>,
    o: BlockReference,
)
    requires
        processed(before, mid, after, s, block, lb, la),
    ensures
        after.block_level_fpc == before.block_level_fpc,
        before.block_level_fpc && block.reference.round >= s.threshold
            ==> after.blocks.observers().contains(block.reference),
        !before.block_level_fpc && block.reference.round >= s.threshold
            ==> after.transactions.observers().contains(block.reference),
        before.block_level_fpc ==> after.transactions == mid.transactions,
        !before.block_level_fpc ==> after.blocks == mid.blocks,
        mid.blocks.observers().contains(o) <==> before.blocks.observers().contains(o)
            && !before.forgotten_with(block).contains(o),
        mid.transactions.observers().contains(o) <==> before.transactions.observers().contains(o)
            && !before.forgotten_with(block).contains(o),
        forall|t: BlockReference|
            !before.forgotten_with(block).contains(o) ==> #[trigger] mid.blocks.voters(o, t)
                == before.blocks.voters(o, t),
        forall|t: TransactionLocator|
            !before.forgotten_with(block).contains(o) ==> #[trigger] mid.transactions.voters(o, t)
                == before.transactions.voters(o, t),
        before.block_level_fpc ==> advances(
            s,
            mid.blocks,
            lb,
            after.blocks,
            la,
            None,
            block.reference.round as int,
        ),
        !before.block_level_fpc ==> advances(
            s,
            mid.transactions,
            lb,
            after.transactions,
            la,
            None,
            block.reference.round as int,
        ),
        block.reference.round >= s.threshold ==> round_list(
            after.blocks_by_round@,
            block.reference.round,
        ).contains(block.reference),
{
    let r = block.reference.round;
    if r >= s.threshold {
        let list = before.registered_with(block, r);
        assert(list[list.len() - 1] == block.reference);
        assert(round_list(after.blocks_by_round@, r) == list);
    }
}

} // verus!
