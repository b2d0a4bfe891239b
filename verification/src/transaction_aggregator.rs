//! The votes for transactions, until a quorum certifies them.
use crate::committee;
use crate::committee::{AuthorityIndex, Committee, StakeAggregator};
use crate::finalization_interpreter;
use crate::finalization_interpreter::VoteLedger;
use crate::keymap::KeyMap;
use crate::types::{
    BaseStatement, StatementBlock, TransactionLocator, TransactionLocatorRange, Vote,
};
use vstd::prelude::*;

verus! {

/// Who has voted for each transaction that is not certified, and the
/// transactions that are, in the order in which they were.
#[verifier::ext_equal]
pub struct VoteState {
    pub pending: Map<TransactionLocator, Set<u64>>,
    pub done: Seq<TransactionLocator>,
}

/// A transaction is registered with its author's vote, unless it is known.
pub open spec fn registered(s: VoteState, l: TransactionLocator, author: u64) -> VoteState {
    if s.pending.dom().contains(l) || s.done.contains(l) {
        s
    } else {
        VoteState { pending: s.pending.insert(l, Set::empty().insert(author)), done: s.done }
    }
}

/// A vote for a registered transaction is counted, and a quorum certifies it.
pub open spec fn voted(
    s: VoteState,
    l: TransactionLocator,
    voter: u64,
    stakes: Seq<u64>,
) -> VoteState {
    if !s.pending.dom().contains(l) {
        s
    } else {
        let set = s.pending[l].insert(voter);
        if committee::quorum(stakes, set) {
            VoteState { pending: s.pending.remove(l), done: s.done.push(l) }
        } else {
            VoteState { pending: s.pending.insert(l, set), done: s.done }
        }
    }
}

/// The transactions of a list are registered in turn.
pub open spec fn all_registered(
    s: VoteState,
    ls: Seq<TransactionLocator>,
    author: u64,
    k: int,
) -> VoteState
    decreases k,
{
    if k <= 0 {
        s
    } else {
        registered(all_registered(s, ls, author, k - 1), ls[k - 1], author)
    }
}

/// The transactions of a list are voted for in turn.
pub open spec fn all_voted(
    s: VoteState,
    ls: Seq<TransactionLocator>,
    voter: u64,
    stakes: Seq<u64>,
    k: int,
) -> VoteState
    decreases k,
{
    if k <= 0 {
        s
    } else {
        voted(all_voted(s, ls, voter, stakes, k - 1), ls[k - 1], voter, stakes)
    }
}

/// The first `k` ranges are registered in turn.
pub open spec fn ranges_registered(
    s: VoteState,
    ranges: Seq<TransactionLocatorRange>,
    author: u64,
    k: int,
) -> VoteState
    decreases k,
{
    if k <= 0 {
        s
    } else {
        let ls = ranges[k - 1].locators_spec();
        all_registered(ranges_registered(s, ranges, author, k - 1), ls, author, ls.len() as int)
    }
}

/// The first `k` statements of a block are counted in turn.
pub open spec fn statements_counted(
    s: VoteState,
    block: StatementBlock,
    stakes: Seq<u64>,
    k: int,
) -> VoteState
    decreases k,
{
    if k <= 0 {
        s
    } else {
        let before = statements_counted(s, block, stakes, k - 1);
        let author = block.reference.authority;
        match block.statements@[k - 1] {
            BaseStatement::Share(_) => before,
            BaseStatement::Vote(l, Vote::Accept) => voted(before, l, author, stakes),
            BaseStatement::Vote(_, Vote::Reject(_)) => before,
            BaseStatement::VoteRange(range) => all_voted(
                before,
                range.locators_spec(),
                author,
                stakes,
                range.locators_spec().len() as int,
            ),
        }
    }
}

/// The state after a block: the transactions that it shares are registered, and
/// then its votes are counted.
pub open spec fn block_counted(s: VoteState, block: StatementBlock, stakes: Seq<u64>) -> VoteState {
    let ranges = block.shared_ranges_spec();
    statements_counted(
        ranges_registered(s, ranges, block.reference.authority, ranges.len() as int),
        block,
        stakes,
        block.statements@.len() as int,
    )
}

/// The votes for transactions.
pub struct TransactionAggregator {
    pub pending: KeyMap<TransactionLocator, StakeAggregator>,
    pub processed: VoteLedger,
}

impl TransactionAggregator {
    /// Every vote is counted as it should be, and what is certified is not
    /// waiting and is listed once.
    pub open spec fn wf(&self, stakes: Seq<u64>) -> bool {
        &&& finalization_interpreter::counted(self.pending, stakes)
        &&& self.processed.finalized@.no_duplicates()
        &&& forall|l: TransactionLocator|
            self.pending@.dom().contains(l) ==> !(#[trigger] self.processed.set().contains(l))
    }

    /// The votes and the certified transactions.
    pub open spec fn state(&self) -> VoteState {
        VoteState {
            pending: Map::new(
                |l: TransactionLocator| self.pending@.dom().contains(l),
                |l: TransactionLocator| self.pending@[l].set(),
            ),
            done: self.processed.finalized@,
        }
    }

    /// No votes yet.
    pub fn new() -> (r: Self)
        ensures
            forall|stakes: Seq<u64>| #[trigger] r.wf(stakes),
            r.state().pending == Map::<TransactionLocator, Set<u64>>::empty(),
            r.state().done == Seq::<TransactionLocator>::empty(),
    {
        let r = TransactionAggregator { pending: KeyMap::new(), processed: VoteLedger::new() };
        assert(r.state().pending =~= Map::<TransactionLocator, Set<u64>>::empty());
        r
    }

    /// How many transactions wait for a quorum.
    pub fn len(&self) -> (n: usize)
        ensures
            n == self.pending.entries@.len(),
    {
        self.pending.len()
    }

    /// Whether a transaction is certified.
    pub fn is_processed(&self, l: &TransactionLocator) -> (b: bool)
        ensures
            b == self.state().done.contains(*l),
    {
        self.processed.is_vote_finalized(l)
    }

    fn register_one(&mut self, l: TransactionLocator, author: AuthorityIndex, committee: &Committee)
        requires
            old(self).wf(committee.stakes()),
            author < committee.stakes().len(),
        ensures
            final(self).wf(committee.stakes()),
            final(self).state() == registered(old(self).state(), l, author),
    {
        let ghost before = *self;
        if self.pending.contains_key(&l) || self.processed.is_vote_finalized(&l) {
            return ;
        }
        let mut votes = StakeAggregator::new();
        assert(votes.wf(committee.stakes()));
        let quorum = votes.add(author, committee);
        self.pending.insert(l, votes);
        assert(self.state().pending =~= before.state().pending.insert(
            l,
            Set::empty().insert(author),
        ));
    }

    fn vote_one(&mut self, l: TransactionLocator, voter: AuthorityIndex, committee: &Committee)
        requires
            old(self).wf(committee.stakes()),
            voter < committee.stakes().len(),
        ensures
            final(self).wf(committee.stakes()),
            final(self).state() == voted(old(self).state(), l, voter, committee.stakes()),
    {
        let ghost before = *self;
        match self.pending.remove(&l) {
            None => {
                assert(self.pending@ =~= before.pending@);
            },
            Some(votes) => {
                let mut votes = votes;
                if votes.add(voter, committee) {
                    let fresh = self.processed.insert(l);
                    proof {
                        reveal(finalization_interpreter::continues);
                        assert(self.state().pending =~= before.state().pending.remove(l));
                    }
                } else {
                    self.pending.insert(l, votes);
                    assert(self.state().pending =~= before.state().pending.insert(l, votes.set()));
                }
            },
        }
    }

    /// Registers transactions with their author's vote.
    pub fn register(
        &mut self,
        range: TransactionLocatorRange,
        author: AuthorityIndex,
        committee: &Committee,
    )
        requires
            old(self).wf(committee.stakes()),
            author < committee.stakes().len(),
        ensures
            final(self).wf(committee.stakes()),
            final(self).state() == all_registered(
                old(self).state(),
                range.locators_spec(),
                author,
                range.locators_spec().len() as int,
            ),
    {
        let ghost before = self.state();
        let ls = range.locators();
        let mut i: usize = 0;
        while i < ls.len()
            invariant
                i <= ls@.len(),
                self.wf(committee.stakes()),
                author < committee.stakes().len(),
                self.state() == all_registered(before, ls@, author, i as int),
            decreases ls@.len() - i,
        {
            self.register_one(ls[i], author, committee);
            i = i + 1;
        }
    }

    fn vote(
        &mut self,
        ls: &Vec<TransactionLocator>,
        voter: AuthorityIndex,
        committee: &Committee,
    )
        requires
            old(self).wf(committee.stakes()),
            voter < committee.stakes().len(),
        ensures
            final(self).wf(committee.stakes()),
            final(self).state() == all_voted(
                old(self).state(),
                ls@,
                voter,
                committee.stakes(),
                ls@.len() as int,
            ),
    {
        let ghost before = self.state();
        let mut i: usize = 0;
        while i < ls.len()
            invariant
                i <= ls@.len(),
                self.wf(committee.stakes()),
                voter < committee.stakes().len(),
                self.state() == all_voted(before, ls@, voter, committee.stakes(), i as int),
            decreases ls@.len() - i,
        {
            self.vote_one(ls[i], voter, committee);
            i = i + 1;
        }
    }

    /// Registers what a block shares and counts its votes. Gives the
    /// transactions that became certified.
    pub fn process_block(&mut self, block: &StatementBlock, committee: &Committee) -> (r: Vec<
        TransactionLocator,
    >)
        requires
            old(self).wf(committee.stakes()),
            block.reference.authority < committee.stakes().len(),
        ensures
            final(self).wf(committee.stakes()),
            final(self).state() == block_counted(old(self).state(), *block, committee.stakes()),
            final(self).state().done == old(self).state().done + r@,
    {
        let ghost before = self.state();
        let ghost stakes = committee.stakes();
        let first: usize = self.processed.finalized.len();
        let author = block.author();
        let ranges = block.shared_ranges();
        let mut i: usize = 0;
        while i < ranges.len()
            invariant
                i <= ranges@.len(),
                stakes == committee.stakes(),
                author < stakes.len(),
                self.wf(stakes),
                self.state() == ranges_registered(before, ranges@, author, i as int),
            decreases ranges@.len() - i,
        {
            self.register(ranges[i], author, committee);
            i = i + 1;
        }
        let ghost middle = self.state();
        let mut k: usize = 0;
        while k < block.statements.len()
            invariant
                k <= block.statements@.len(),
                stakes == committee.stakes(),
                author < stakes.len(),
                author == block.reference.authority,
                self.wf(stakes),
                self.state() == statements_counted(middle, *block, stakes, k as int),
            decreases block.statements@.len() - k,
        {
            match &block.statements[k] {
                BaseStatement::Share(_) => {},
                BaseStatement::Vote(l, Vote::Accept) => {
                    self.vote_one(*l, author, committee);
                },
                BaseStatement::Vote(_, Vote::Reject(_)) => {},
                BaseStatement::VoteRange(range) => {
                    let ls = range.locators();
                    self.vote(&ls, author, committee);
                },
            }
            k = k + 1;
        }
        proof {
            lemma_ranges_done(before, ranges@, author, ranges@.len() as int);
            lemma_counted_done(middle, *block, stakes, block.statements@.len() as int);
        }
        let mut out: Vec<TransactionLocator> = Vec::new();
        let mut j: usize = first;
        let ghost done = self.processed.finalized@;
        while j < self.processed.finalized.len()
            invariant
                first <= j <= done.len(),
                done == self.processed.finalized@,
                out@ == done.subrange(first as int, j as int),
            decreases done.len() - j,
        {
            out.push(self.processed.finalized[j]);
            j = j + 1;
            assert(done.subrange(first as int, j as int) =~= done.subrange(
                first as int,
                j - 1,
            ).push(done[j - 1]));
        }
        assert(done =~= before.done + done.subrange(first as int, done.len() as int));
        out
    }
}

/// `b` continues the list `a`.
pub open spec fn prefix<A>(a: Seq<A>, b: Seq<A>) -> bool {
    a.len() <= b.len() && b.take(a.len() as int) == a
}

proof fn lemma_prefix_trans<A>(a: Seq<A>, b: Seq<A>, c: Seq<A>)
    requires
        prefix(a, b),
        prefix(b, c),
    ensures
        prefix(a, c),
{
    assert(c.take(a.len() as int) =~= c.take(b.len() as int).take(a.len() as int));
}

proof fn lemma_ranges_done(
    s: VoteState,
    ranges: Seq<TransactionLocatorRange>,
    author: u64,
    k: int,
)
    ensures
        ranges_registered(s, ranges, author, k).done == s.done,
    decreases k,
{
    if k > 0 {
        lemma_ranges_done(s, ranges, author, k - 1);
        let ls = ranges[k - 1].locators_spec();
        lemma_registered_done(
            ranges_registered(s, ranges, author, k - 1),
            ls,
            author,
            ls.len() as int,
        );
    }
}

proof fn lemma_registered_done(s: VoteState, ls: Seq<TransactionLocator>, author: u64, k: int)
    ensures
        all_registered(s, ls, author, k).done == s.done,
    decreases k,
{
    if k > 0 {
        lemma_registered_done(s, ls, author, k - 1);
    }
}

proof fn lemma_voted_done(s: VoteState, l: TransactionLocator, voter: u64, stakes: Seq<u64>)
    ensures
        prefix(s.done, voted(s, l, voter, stakes).done),
{
    assert(s.done.push(l).take(s.done.len() as int) =~= s.done);
    assert(s.done.take(s.done.len() as int) =~= s.done);
}

proof fn lemma_all_voted_done(
    s: VoteState,
    ls: Seq<TransactionLocator>,
    voter: u64,
    stakes: Seq<u64>,
    k: int,
)
    ensures
        prefix(s.done, all_voted(s, ls, voter, stakes, k).done),
    decreases k,
{
    assert(s.done.take(s.done.len() as int) =~= s.done);
    if k > 0 {
        let t = all_voted(s, ls, voter, stakes, k - 1);
        lemma_all_voted_done(s, ls, voter, stakes, k - 1);
        lemma_voted_done(t, ls[k - 1], voter, stakes);
        lemma_prefix_trans(s.done, t.done, voted(t, ls[k - 1], voter, stakes).done);
    }
}

proof fn lemma_counted_done(s: VoteState, block: StatementBlock, stakes: Seq<u64>, k: int)
    ensures
        prefix(s.done, statements_counted(s, block, stakes, k).done),
    decreases k,
{
    assert(s.done.take(s.done.len() as int) =~= s.done);
    if k > 0 {
        let t = statements_counted(s, block, stakes, k - 1);
        let author = block.reference.authority;
        lemma_counted_done(s, block, stakes, k - 1);
        assert(t.done.take(t.done.len() as int) =~= t.done);
        match block.statements@[k - 1] {
            BaseStatement::Vote(l, Vote::Accept) => {
                lemma_voted_done(t, l, author, stakes);
            },
            BaseStatement::VoteRange(range) => {
                let ls = range.locators_spec();
                lemma_all_voted_done(t, ls, author, stakes, ls.len() as int);
            },
            _ => {},
        }
        lemma_prefix_trans(s.done, t.done, statements_counted(s, block, stakes, k).done);
    }
}

/// A certified transaction stays certified, whatever block comes next.
pub proof fn law_certified_stays(
    s: VoteState,
    block: StatementBlock,
    stakes: Seq<u64>,
    l: TransactionLocator,
)
    requires
        s.done.contains(l),
    ensures
        block_counted(s, block, stakes).done.contains(l),
{
    let ranges = block.shared_ranges_spec();
    let author = block.reference.authority;
    let n = block.statements@.len() as int;
    lemma_ranges_done(s, ranges, author, ranges.len() as int);
    lemma_counted_done(
        ranges_registered(s, ranges, author, ranges.len() as int),
        block,
        stakes,
        n,
    );
    let done = block_counted(s, block, stakes).done;
    let i = choose|i: int| 0 <= i < s.done.len() && s.done[i] == l;
    assert(done.take(s.done.len() as int)[i] == l);
    assert(done[i] == l);
}

/// A vote certifies a transaction only together with a quorum of voters.
pub proof fn law_certified_by_quorum(
    s: VoteState,
    l: TransactionLocator,
    voter: u64,
    stakes: Seq<u64>,
    other: TransactionLocator,
)
    requires
        !s.done.contains(other),
        voted(s, l, voter, stakes).done.contains(other),
    ensures
        other == l,
        s.pending.dom().contains(l),
        committee::quorum(stakes, s.pending[l].insert(voter)),
{
    let done = voted(s, l, voter, stakes).done;
    let i = choose|i: int| 0 <= i < done.len() && done[i] == other;
    if i < s.done.len() {
        assert(s.done[i] == other);
    }
}

/// Two states say the same of a transaction.
spec fn same_at(a: VoteState, b: VoteState, l: TransactionLocator) -> bool {
    &&& a.pending.dom().contains(l) == b.pending.dom().contains(l)
    &&& a.pending.dom().contains(l) ==> a.pending[l] == b.pending[l]
    &&& a.done.contains(l) == b.done.contains(l)
}

proof fn lemma_voted_at(
    s: VoteState,
    m: TransactionLocator,
    voter: u64,
    stakes: Seq<u64>,
    l: TransactionLocator,
)
    ensures
        l != m ==> same_at(voted(s, m, voter, stakes), s, l),
        l == m && s.pending.dom().contains(l) ==> {
            let set = s.pending[l].insert(voter);
            let t = voted(s, m, voter, stakes);
            &&& committee::quorum(stakes, set) ==> t.done.contains(l) && !t.pending.dom().contains(l)
            &&& !committee::quorum(stakes, set) ==> t.done == s.done && t.pending.dom().contains(l)
                && t.pending[l] == set
        },
        l == m && !s.pending.dom().contains(l) ==> voted(s, m, voter, stakes) == s,
{
    let done = s.done.push(m);
    if s.done.contains(l) {
        let i = choose|i: int| 0 <= i < s.done.len() && s.done[i] == l;
        assert(done[i] == l);
    }
    if done.contains(l) && l != m {
        let i = choose|i: int| 0 <= i < done.len() && done[i] == l;
        assert(s.done[i] == l);
    }
    assert(done[done.len() - 1] == m);
}

proof fn lemma_all_voted_at(
    s: VoteState,
    ls: Seq<TransactionLocator>,
    voter: u64,
    stakes: Seq<u64>,
    k: int,
    l: TransactionLocator,
)
    requires
        0 <= k <= ls.len(),
    ensures
        ls.take(k).contains(l) ==> same_at(
            all_voted(s, ls, voter, stakes, k),
            voted(s, l, voter, stakes),
            l,
        ),
        !ls.take(k).contains(l) ==> same_at(all_voted(s, ls, voter, stakes, k), s, l),
    decreases k,
{
    if k > 0 {
        lemma_all_voted_at(s, ls, voter, stakes, k - 1, l);
        let t = all_voted(s, ls, voter, stakes, k - 1);
        lemma_voted_at(t, ls[k - 1], voter, stakes, l);
        lemma_voted_at(s, l, voter, stakes, l);
        let a = ls.take(k - 1);
        let b = ls.take(k);
        assert(b =~= a.push(ls[k - 1]));
        if a.contains(l) {
            let i = choose|i: int| 0 <= i < a.len() && a[i] == l;
            assert(b[i] == l);
        }
        if ls[k - 1] == l {
            assert(b[k - 1] == l);
            if s.pending.dom().contains(l) {
                let set = s.pending[l].insert(voter);
                assert(set.insert(voter) =~= set);
            }
        } else if b.contains(l) {
            let i = choose|i: int| 0 <= i < b.len() && b[i] == l;
            assert(a[i] == l);
        }
    }
}

/// The statement at a position of a block votes to accept a transaction, or for a range
/// that holds it.
pub open spec fn accepts_at(block: StatementBlock, i: int, l: TransactionLocator) -> bool {
    match block.statements@[i] {
        BaseStatement::Share(_) => false,
        BaseStatement::Vote(m, vote) => m == l && vote == Vote::Accept,
        BaseStatement::VoteRange(range) => l.block == range.block && range.start <= l.offset
            < range.end,
    }
}

proof fn lemma_statements_at(
    s: VoteState,
    block: StatementBlock,
    stakes: Seq<u64>,
    k: int,
    l: TransactionLocator,
)
    requires
        0 <= k <= block.statements@.len(),
    ensures
        (exists|i: int| 0 <= i < k && #[trigger] accepts_at(block, i, l)) ==> same_at(
            statements_counted(s, block, stakes, k),
            voted(s, l, block.reference.authority, stakes),
            l,
        ),
        !(exists|i: int| 0 <= i < k && #[trigger] accepts_at(block, i, l)) ==> same_at(
            statements_counted(s, block, stakes, k),
            s,
            l,
        ),
    decreases k,
{
    if k > 0 {
        lemma_statements_at(s, block, stakes, k - 1, l);
        let author = block.reference.authority;
        let t = statements_counted(s, block, stakes, k - 1);
        let u = statements_counted(s, block, stakes, k);
        lemma_voted_at(s, l, author, stakes, l);
        lemma_voted_at(t, l, author, stakes, l);
        assert(s.pending.dom().contains(l) ==> s.pending[l].insert(author).insert(author)
            =~= s.pending[l].insert(author));
        let before = exists|i: int| 0 <= i < k - 1 && #[trigger] accepts_at(block, i, l);
        let here = accepts_at(block, k - 1, l);
        assert((exists|i: int| 0 <= i < k && #[trigger] accepts_at(block, i, l)) <==> before
            || here) by {
            if exists|i: int| 0 <= i < k && #[trigger] accepts_at(block, i, l) {
                let i = choose|i: int| 0 <= i < k && #[trigger] accepts_at(block, i, l);
                assert(i < k - 1 || i == k - 1);
            }
        }
        assert(here ==> same_at(u, voted(t, l, author, stakes), l)) by {
            match block.statements@[k - 1] {
                BaseStatement::Vote(m, Vote::Accept) => {
                    lemma_voted_at(t, m, author, stakes, l);
                },
                BaseStatement::VoteRange(range) => {
                    let ls = range.locators_spec();
                    crate::types::law_range_names_consecutive_offsets(range, l, 0);
                    lemma_all_voted_at(t, ls, author, stakes, ls.len() as int, l);
                    assert(ls.take(ls.len() as int) =~= ls);
                },
                _ => {},
            }
        }
        assert(!here ==> same_at(u, t, l)) by {
            match block.statements@[k - 1] {
                BaseStatement::Vote(m, Vote::Accept) => {
                    lemma_voted_at(t, m, author, stakes, l);
                },
                BaseStatement::VoteRange(range) => {
                    let ls = range.locators_spec();
                    crate::types::law_range_names_consecutive_offsets(range, l, 0);
                    lemma_all_voted_at(t, ls, author, stakes, ls.len() as int, l);
                    assert(ls.take(ls.len() as int) =~= ls);
                },
                _ => {},
            }
        }
    }
}

proof fn lemma_all_registered_at(
    s: VoteState,
    ls: Seq<TransactionLocator>,
    author: u64,
    k: int,
    l: TransactionLocator,
)
    requires
        0 <= k <= ls.len(),
    ensures
        ls.take(k).contains(l) ==> same_at(
            all_registered(s, ls, author, k),
            registered(s, l, author),
            l,
        ),
        !ls.take(k).contains(l) ==> same_at(all_registered(s, ls, author, k), s, l),
    decreases k,
{
    if k > 0 {
        lemma_all_registered_at(s, ls, author, k - 1, l);
        let a = ls.take(k - 1);
        let b = ls.take(k);
        assert(b =~= a.push(ls[k - 1]));
        if a.contains(l) {
            let i = choose|i: int| 0 <= i < a.len() && a[i] == l;
            assert(b[i] == l);
        }
        if ls[k - 1] == l {
            assert(b[k - 1] == l);
        } else if b.contains(l) {
            let i = choose|i: int| 0 <= i < b.len() && b[i] == l;
            assert(a[i] == l);
        }
    }
}

/// One of the first `k` ranges holds a transaction.
spec fn in_ranges(ranges: Seq<TransactionLocatorRange>, k: int, l: TransactionLocator) -> bool {
    exists|i: int|
        {
            let range = #[trigger] ranges[i];
            &&& 0 <= i < k
            &&& range.block == l.block
            &&& range.start <= l.offset < range.end
        }
}

proof fn lemma_ranges_at(
    s: VoteState,
    ranges: Seq<TransactionLocatorRange>,
    author: u64,
    k: int,
    l: TransactionLocator,
)
    requires
        0 <= k <= ranges.len(),
    ensures
        in_ranges(ranges, k, l) ==> same_at(
            ranges_registered(s, ranges, author, k),
            registered(s, l, author),
            l,
        ),
        !in_ranges(ranges, k, l) ==> same_at(ranges_registered(s, ranges, author, k), s, l),
    decreases k,
{
    if k > 0 {
        lemma_ranges_at(s, ranges, author, k - 1, l);
        let range = ranges[k - 1];
        let ls = range.locators_spec();
        crate::types::law_range_names_consecutive_offsets(range, l, 0);
        lemma_all_registered_at(
            ranges_registered(s, ranges, author, k - 1),
            ls,
            author,
            ls.len() as int,
            l,
        );
        assert(ls.take(ls.len() as int) =~= ls);
        if in_ranges(ranges, k, l) {
            let i = choose|i: int|
                {
                    let range = #[trigger] ranges[i];
                    &&& 0 <= i < k
                    &&& range.block == l.block
                    &&& range.start <= l.offset < range.end
                };
            if i < k - 1 {
                assert(ranges[i].block == l.block);
                assert(in_ranges(ranges, k - 1, l));
            }
        }
        if in_ranges(ranges, k - 1, l) {
            let i = choose|i: int|
                {
                    let range = #[trigger] ranges[i];
                    &&& 0 <= i < k - 1
                    &&& range.block == l.block
                    &&& range.start <= l.offset < range.end
                };
            assert(ranges[i].block == l.block && i < k);
        }
        if range.block == l.block && range.start <= l.offset < range.end {
            assert(ranges[k - 1].block == l.block);
        }
    }
}

/// What a block does to the votes for a transaction that is not certified. One that is
/// neither known nor shared by the block stays unknown. Else its voters so far, or the
/// author alone where the block shares it first, are joined by the author where the block
/// votes to accept it, and it is certified exactly where they then hold more than two
/// thirds of the stake. A rejection changes nothing.
pub proof fn law_block_counts_its_votes(
    s: VoteState,
    block: StatementBlock,
    stakes: Seq<u64>,
    l: TransactionLocator,
)
    requires
        !s.done.contains(l),
        block.statements@.len() <= u64::MAX,
    ensures
        ({
            let author = block.reference.authority;
            let after = block_counted(s, block, stakes);
            let shared = l.block == block.reference && l.offset < block.statements@.len()
                && block.statements@[l.offset as int] is Share;
            let known = s.pending.dom().contains(l);
            let voters = if known {
                s.pending[l]
            } else {
                set![author]
            };
            let accepted = exists|i: int|
                0 <= i < block.statements@.len() && #[trigger] accepts_at(block, i, l);
            let enough = 3 * committee::stake_of(stakes, voters.insert(author)) > 2
                * committee::total_stake(stakes);
            &&& !known && !shared ==> !after.done.contains(l) && !after.pending.dom().contains(l)
            &&& (known || shared) && !accepted ==> !after.done.contains(l)
                && after.pending.dom().contains(l) && after.pending[l] =~= voters
            &&& (known || shared) && accepted && enough ==> after.done.contains(l)
                && !after.pending.dom().contains(l)
            &&& (known || shared) && accepted && !enough ==> !after.done.contains(l)
                && after.pending.dom().contains(l) && after.pending[l] =~= voters.insert(author)
        }),
{
    let author = block.reference.authority;
    let ranges = block.shared_ranges_spec();
    let n = ranges.len() as int;
    let t = ranges_registered(s, ranges, author, n);
    let voters = if s.pending.dom().contains(l) {
        s.pending[l]
    } else {
        set![author]
    };
    crate::types::law_ranges_are_what_is_shared(block, l);
    let shared = l.block == block.reference && l.offset < block.statements@.len()
        && block.statements@[l.offset as int] is Share;
    assert(shared <==> in_ranges(ranges, n, l)) by {
        if shared {
            let i = choose|i: int|
                {
                    let range = #[trigger] ranges[i];
                    &&& 0 <= i < ranges.len()
                    &&& range.block == l.block
                    &&& range.start <= l.offset < range.end
                };
            assert(ranges[i].block == l.block);
        }
        if in_ranges(ranges, n, l) {
            let i = choose|i: int|
                {
                    let range = #[trigger] ranges[i];
                    &&& 0 <= i < n
                    &&& range.block == l.block
                    &&& range.start <= l.offset < range.end
                };
            assert(block.shared_ranges_spec()[i].block == l.block);
        }
    }
    lemma_ranges_at(s, ranges, author, n, l);
    assert(Set::<u64>::empty().insert(author) =~= set![author]);
    lemma_statements_at(t, block, stakes, block.statements@.len() as int, l);
    lemma_voted_at(t, l, author, stakes, l);
    committee::law_quorum_is_more_than_two_thirds(stakes, voters.insert(author));
}

} // verus!
