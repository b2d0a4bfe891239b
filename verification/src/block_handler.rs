//! What a node proposes in its blocks, how it votes on the blocks of others,
//! and what it does with transactions that have become final.
use crate::committee::{AuthorityIndex, Committee, OffsetRange, VoteRangeBuilder};
use crate::keymap::KeyMap;
use crate::mempool;
use crate::mempool::Mempool;
use crate::transaction_aggregator;
use crate::transaction_aggregator::TransactionAggregator;
use crate::types;
use crate::types::{
    BaseStatement, BlockReference, StatementBlock, Transaction, TransactionLocator,
    TransactionLocatorRange, Vote,
};
use vstd::prelude::*;

verus! {

/// The most transactions that wait to be proposed.
pub const SOFT_MAX_PROPOSED_PER_BLOCK: usize = 20_000;

/// The ways in which a node can be told to misbehave.
#[derive(Clone, Copy, Debug, PartialEq, Eq, Structural)]
pub enum ByzantineType {
    /// Some transactions are damaged.
    InvalidProof,
    /// Some transactions are proposed twice.
    DoubleVote,
}

/// How a node misbehaves, and how long after its start it begins to, in
/// milliseconds.
#[derive(Clone, Copy, Debug, PartialEq, Eq, Structural)]
pub struct ByzantineFault {
    pub start_delay: u64,
    pub behavior: ByzantineType,
}

/// A block that has arrived, and whether its transactions are voted on one by
/// one.
#[derive(Debug)]
pub struct ReceivedBlock {
    pub block: StatementBlock,
    pub check_individual: bool,
}

/// How many of `total` transactions a misbehaving node touches: one in a
/// hundred, and at least one.
pub open spec fn affected(total: nat) -> nat {
    if total / 100 > 1 {
        total / 100
    } else {
        1
    }
}

/// The indices are `amount` different ones below `length`.
pub open spec fn is_sample(indices: Seq<usize>, length: nat, amount: nat) -> bool {
    &&& indices.len() == amount
    &&& indices.no_duplicates()
    &&& forall|j: int| 0 <= j < indices.len() ==> #[trigger] indices[j] < length
}

/// `rand::seq::index::sample` with the generator of the thread picks `amount`
/// different indices below `length`, and panics where there are fewer. Which
/// ones it picks is left open.
#[verifier::external_body]
fn sample_indices(length: usize, amount: usize) -> (r: Vec<usize>)
    requires
        amount <= length,
    ensures
        is_sample(r@, length as nat, amount as nat),
{
    rand::seq::index::sample(&mut rand::thread_rng(), length, amount).into_vec()
}

/// The bytes of a damaged transaction: the first one is one more.
pub open spec fn damaged(data: Seq<u8>) -> Seq<u8> {
    if data.len() == 0 {
        data
    } else {
        data.update(
            0,
            if data[0] == 255 {
                0u8
            } else {
                (data[0] + 1) as u8
            },
        )
    }
}

/// The transactions at the indices are damaged and submitted anew, and the
/// others are as they were.
pub open spec fn corrupted(
    before: Seq<Transaction>,
    after: Seq<Transaction>,
    indices: Seq<usize>,
    now: u64,
) -> bool {
    &&& after.len() == before.len()
    &&& forall|i: int|
        0 <= i < before.len() ==> if indices.contains(i as usize) {
            (#[trigger] after[i]).data@ == damaged(before[i].data@) && after[i].timestamp == now
        } else {
            after[i] == before[i]
        }
}

/// Damages the transactions at different indices.
pub fn corrupt_transactions(txs: &mut Vec<Transaction>, indices: &Vec<usize>, now: u64)
    requires
        indices@.no_duplicates(),
        forall|j: int| 0 <= j < indices@.len() ==> #[trigger] indices@[j] < old(txs)@.len(),
    ensures
        corrupted(old(txs)@, final(txs)@, indices@, now),
{
    let ghost before = txs@;
    let total: usize = txs.len();
    let mut j: usize = 0;
    while j < indices.len()
        invariant
            j <= indices@.len(),
            before.len() == total,
            indices@.no_duplicates(),
            forall|j: int| 0 <= j < indices@.len() ==> #[trigger] indices@[j] < before.len(),
            corrupted(before, txs@, indices@.take(j as int), now),
        decreases indices@.len() - j,
    {
        let i: usize = indices[j];
        let ghost here = txs@;
        let ghost some = indices@.take(j as int);
        let ghost more = indices@.take(j + 1);
        assert(!some.contains(i)) by {
            if some.contains(i) {
                let k = choose|k: int| 0 <= k < some.len() && some[k] == i;
                assert(indices@[k] == indices@[j as int]);
            }
        }
        let mut data = txs[i].duplicate().data;
        if data.len() > 0 {
            let first: u8 = data[0].wrapping_add(1);
            data.set(0, first);
        }
        assert(data@ =~= damaged(before[i as int].data@)) by {
            assert(i as int as usize == i);
            assert(here[i as int] == before[i as int]);
        }
        txs.set(i, Transaction::new(data, now));
        proof {
            assert forall|k: int| 0 <= k < before.len() implies if more.contains(k as usize) {
                (#[trigger] txs@[k]).data@ == damaged(before[k].data@) && txs@[k].timestamp == now
            } else {
                txs@[k] == before[k]
            } by {
                let _ = here[k];
                if k == i {
                    assert(more[j as int] == i);
                } else {
                    if more.contains(k as usize) {
                        let m = choose|m: int| 0 <= m < more.len() && more[m] == k as usize;
                        assert(some[m] == k as usize);
                    }
                    if some.contains(k as usize) {
                        let m = choose|m: int| 0 <= m < some.len() && some[m] == k as usize;
                        assert(more[m] == k as usize);
                    }
                }
            }
        }
        j = j + 1;
    }
    assert(indices@.take(j as int) =~= indices@);
}

/// The transactions at the indices follow once more.
pub open spec fn doubled(
    before: Seq<Transaction>,
    after: Seq<Transaction>,
    indices: Seq<usize>,
) -> bool {
    &&& after.len() == before.len() + indices.len()
    &&& forall|i: int| 0 <= i < before.len() ==> #[trigger] after[i] == before[i]
    &&& forall|j: int|
        #![trigger indices[j]]
        0 <= j < indices.len() ==> after[before.len() + j].data@ == before[indices[j] as int].data@
            && after[before.len() + j].timestamp == before[indices[j] as int].timestamp
}

/// Appends the transactions at some indices once more.
pub fn duplicate_transactions(txs: &mut Vec<Transaction>, indices: &Vec<usize>)
    requires
        forall|j: int| 0 <= j < indices@.len() ==> #[trigger] indices@[j] < old(txs)@.len(),
    ensures
        doubled(old(txs)@, final(txs)@, indices@),
{
    let ghost before = txs@;
    let mut j: usize = 0;
    while j < indices.len()
        invariant
            j <= indices@.len(),
            forall|j: int| 0 <= j < indices@.len() ==> #[trigger] indices@[j] < before.len(),
            doubled(before, txs@, indices@.take(j as int)),
        decreases indices@.len() - j,
    {
        let i: usize = indices[j];
        let ghost here = txs@;
        let copy = txs[i].duplicate();
        txs.push(copy);
        proof {
            let some = indices@.take(j as int);
            let more = indices@.take(j + 1);
            assert forall|m: int|
                #![trigger more[m]]
                0 <= m < more.len() implies txs@[before.len() + m].data@
                == before[more[m] as int].data@ && txs@[before.len() + m].timestamp
                == before[more[m] as int].timestamp by {
                if m < j {
                    assert(some[m] == more[m]);
                    assert(txs@[before.len() + m] == here[before.len() + m]);
                } else {
                    assert(more[m] == i);
                    assert(here[i as int] == before[i as int]);
                }
            }
        }
        j = j + 1;
    }
    assert(indices@.take(j as int) =~= indices@);
}

/// What a node proposes, out of the transactions that it took from the pool.
pub open spec fn proposed(
    pool: Seq<Transaction>,
    out: Seq<Transaction>,
    behavior: Option<ByzantineType>,
    now: u64,
) -> bool {
    match behavior {
        Some(b) if pool.len() > 0 => exists|indices: Seq<usize>|
            {
                &&& #[trigger] is_sample(indices, pool.len(), affected(pool.len()))
                &&& match b {
                    ByzantineType::InvalidProof => corrupted(pool, out, indices, now),
                    ByzantineType::DoubleVote => doubled(pool, out, indices),
                }
            },
        _ => out == pool,
    }
}

/// Applies a misbehaviour to transactions, at indices that are drawn.
fn misbehave(txs: &mut Vec<Transaction>, behavior: Option<ByzantineType>, now: u64)
    ensures
        proposed(old(txs)@, final(txs)@, behavior, now),
        old(txs)@.len() <= final(txs)@.len() <= old(txs)@.len() + affected(old(txs)@.len()),
{
    match behavior {
        None => {},
        Some(b) => {
            let total: usize = txs.len();
            if total > 0 {
                let count: usize = if total / 100 > 1 {
                    total / 100
                } else {
                    1
                };
                let indices = sample_indices(total, count);
                assert(is_sample(indices@, total as nat, affected(total as nat)));
                match b {
                    ByzantineType::InvalidProof => corrupt_transactions(txs, &indices, now),
                    ByzantineType::DoubleVote => duplicate_transactions(txs, &indices),
                }
            }
        },
    }
}

/// A vote for a run of transactions of one block.
pub open spec fn run_vote(block: BlockReference, run: OffsetRange) -> BaseStatement {
    BaseStatement::VoteRange(
        TransactionLocatorRange { block, start: run.start, end: run.end },
    )
}

/// The votes on the first `k` transactions of a block, given which ones are
/// valid: the statements so far, and the run of valid ones that has not ended.
pub open spec fn votes_so_far(
    block: BlockReference,
    ls: Seq<TransactionLocator>,
    valid: Seq<bool>,
    k: int,
) -> (Seq<BaseStatement>, Option<OffsetRange>)
    decreases k,
{
    if k <= 0 {
        (Seq::empty(), None)
    } else {
        let (out, run) = votes_so_far(block, ls, valid, k - 1);
        let l = ls[k - 1];
        if valid[k - 1] {
            match run {
                Some(r) if r.end == l.offset => (
                    out,
                    Some(OffsetRange { start: r.start, end: (l.offset + 1) as u64 }),
                ),
                Some(r) => (
                    out.push(run_vote(block, r)),
                    Some(OffsetRange { start: l.offset, end: (l.offset + 1) as u64 }),
                ),
                None => (out, Some(OffsetRange { start: l.offset, end: (l.offset + 1) as u64 })),
            }
        } else {
            (
                flushed(block, out, run).push(BaseStatement::Vote(l, Vote::Reject(None))),
                None,
            )
        }
    }
}

/// The statements with the last run of valid transactions.
pub open spec fn flushed(
    block: BlockReference,
    out: Seq<BaseStatement>,
    run: Option<OffsetRange>,
) -> Seq<BaseStatement> {
    match run {
        Some(r) => out.push(run_vote(block, r)),
        None => out,
    }
}

/// The votes on a block's transactions one by one.
pub open spec fn individual_votes(block: StatementBlock, valid: Seq<bool>) -> Seq<BaseStatement> {
    let ls = block.shared_locators();
    let (out, run) = votes_so_far(block.reference, ls, valid, ls.len() as int);
    flushed(block.reference, out, run)
}

/// The votes for all of a block's transactions.
pub open spec fn whole_votes(block: StatementBlock) -> Seq<BaseStatement> {
    let ranges = block.shared_ranges_spec();
    Seq::new(ranges.len(), |i: int| BaseStatement::VoteRange(ranges[i]))
}

fn push_run(out: &mut Vec<BaseStatement>, block: BlockReference, run: Option<OffsetRange>)
    ensures
        final(out)@ == flushed(block, old(out)@, run),
{
    match run {
        Some(r) => {
            out.push(
                BaseStatement::VoteRange(
                    TransactionLocatorRange { block, start: r.start, end: r.end },
                ),
            );
        },
        None => {},
    }
}

/// Votes on the transactions of a block, of which some are valid: runs of valid
/// ones are accepted together, and each other one is rejected.
pub fn vote_individually(block: &StatementBlock, valid: &Vec<bool>) -> (r: Vec<BaseStatement>)
    requires
        valid@.len() == block.shared_locators().len(),
    ensures
        r@ == individual_votes(*block, valid@),
{
    let ls = block.shared_transactions();
    let mut out: Vec<BaseStatement> = Vec::new();
    let mut builder = VoteRangeBuilder::new();
    let mut i: usize = 0;
    while i < ls.len()
        invariant
            i <= ls@.len(),
            ls@ == block.shared_locators(),
            ls@.len() == valid@.len(),
            forall|k: int| 0 <= k < ls@.len() ==> block.shares(#[trigger] ls@[k]),
            (out@, builder.range) == votes_so_far(block.reference, ls@, valid@, i as int),
        decreases ls@.len() - i,
    {
        let l = ls[i];
        let n: usize = block.statements.len();
        assert(block.shares(ls@[i as int]));
        if valid[i] {
            let ended = builder.add(l.offset);
            push_run(&mut out, block.reference, ended);
        } else {
            let ended = builder.finish();
            builder = VoteRangeBuilder::new();
            push_run(&mut out, block.reference, ended);
            out.push(BaseStatement::Vote(l, Vote::Reject(None)));
        }
        i = i + 1;
    }
    push_run(&mut out, block.reference, builder.finish());
    out
}

/// Votes for all transactions of a block.
pub fn vote_for_block(block: &StatementBlock) -> (r: Vec<BaseStatement>)
    ensures
        r@ == whole_votes(*block),
{
    let ranges = block.shared_ranges();
    let mut out: Vec<BaseStatement> = Vec::new();
    let mut i: usize = 0;
    while i < ranges.len()
        invariant
            i <= ranges@.len(),
            out@.len() == i,
            forall|k: int| 0 <= k < i ==> #[trigger] out@[k] == BaseStatement::VoteRange(ranges@[k]),
        decreases ranges@.len() - i,
    {
        out.push(BaseStatement::VoteRange(ranges[i]));
        i = i + 1;
    }
    assert(out@ =~= whole_votes(*block));
    out
}

/// The votes on the first `k` blocks.
pub open spec fn votes_on(
    blocks: Seq<ReceivedBlock>,
    valid: Seq<Vec<bool>>,
    k: int,
) -> Seq<BaseStatement>
    decreases k,
{
    if k <= 0 {
        Seq::empty()
    } else {
        let b = blocks[k - 1];
        votes_on(blocks, valid, k - 1) + if b.check_individual {
            individual_votes(b.block, valid[k - 1]@)
        } else {
            whole_votes(b.block)
        }
    }
}

/// The votes for transactions after the first `k` blocks.
pub open spec fn counted_after(
    s: transaction_aggregator::VoteState,
    blocks: Seq<ReceivedBlock>,
    stakes: Seq<u64>,
    k: int,
) -> transaction_aggregator::VoteState
    decreases k,
{
    if k <= 0 {
        s
    } else {
        transaction_aggregator::block_counted(
            counted_after(s, blocks, stakes, k - 1),
            blocks[k - 1].block,
            stakes,
        )
    }
}

/// The authors of blocks are members of the committee.
pub open spec fn authors_known(blocks: Seq<ReceivedBlock>, stakes: Seq<u64>) -> bool {
    forall|i: int|
        0 <= i < blocks.len() ==> (#[trigger] blocks[i]).block.reference.authority < stakes.len()
}

/// Statements that share transactions.
pub open spec fn shares_of(txs: Seq<Transaction>) -> Seq<BaseStatement> {
    Seq::new(txs.len(), |i: int| BaseStatement::Share(txs[i]))
}

/// When a transaction was proposed.
pub type ProposalTimes = KeyMap<TransactionLocator, u64>;

/// How long the time of a proposal is kept, in milliseconds.
pub const PROPOSAL_TIME_KEPT: u64 = 10_000;

/// Proposes transactions out of the pool and votes on the blocks of others.
pub struct RealBlockHandler {
    pub transaction_votes: TransactionAggregator,
    pub transaction_time: ProposalTimes,
    pub authority: AuthorityIndex,
    pub pending_transactions: usize,
    pub consensus_only: bool,
    pub fault: Option<ByzantineFault>,
}

impl RealBlockHandler {
    pub open spec fn wf(&self, stakes: Seq<u64>) -> bool {
        &&& self.transaction_votes.wf(stakes)
        &&& self.transaction_time.wf()
        &&& self.authority < stakes.len()
    }

    /// Everything but the pending transactions, the votes and the times.
    pub open spec fn same_settings(&self, other: &Self) -> bool {
        &&& self.authority == other.authority
        &&& self.consensus_only == other.consensus_only
        &&& self.fault == other.fault
    }

    /// A handler that has seen nothing.
    pub fn new(
        authority: AuthorityIndex,
        consensus_only: bool,
        fault: Option<ByzantineFault>,
    ) -> (r: Self)
        ensures
            forall|stakes: Seq<u64>| authority < stakes.len() ==> #[trigger] r.wf(stakes),
            r.authority == authority,
            r.consensus_only == consensus_only,
            r.fault == fault,
            r.pending_transactions == 0,
            r.transaction_votes.state().done.len() == 0,
            r.transaction_votes.state().pending == Map::<TransactionLocator, Set<u64>>::empty(),
            r.transaction_time@ == Map::<TransactionLocator, u64>::empty(),
    {
        RealBlockHandler {
            transaction_votes: TransactionAggregator::new(),
            transaction_time: KeyMap::new(),
            authority,
            pending_transactions: 0,
            consensus_only,
            fault,
        }
    }

    /// The handler becomes `after` and answers blocks with `r`: it counts the votes
    /// in them; and where a response is required, it shares transactions out of the
    /// pool and votes on the blocks.
    pub open spec fn answered(
        &self,
        after: &Self,
        pool: Seq<Transaction>,
        rest: Seq<Transaction>,
        blocks: Seq<ReceivedBlock>,
        valid: Seq<Vec<bool>>,
        stakes: Seq<u64>,
        require_response: bool,
        elapsed: u64,
        now: u64,
        r: Seq<BaseStatement>,
    ) -> bool {
        &&& after.same_settings(self)
        &&& after.transaction_time == self.transaction_time
        &&& after.transaction_votes.state() == (if self.consensus_only {
            self.transaction_votes.state()
        } else {
            counted_after(
                self.transaction_votes.state(),
                blocks,
                stakes,
                blocks.len() as int,
            )
        })
        &&& !require_response ==> r.len() == 0 && rest == pool && after.pending_transactions
            == self.pending_transactions
        &&& require_response ==> {
            let n = mempool::taken(self.capacity(), pool.len()) as int;
            &&& rest == pool.skip(n)
            &&& exists|txs: Seq<Transaction>|
                {
                    &&& #[trigger] proposed(pool.take(n), txs, self.behavior_at(elapsed), now)
                    &&& r == shares_of(txs) + votes_on(blocks, valid, blocks.len() as int)
                    &&& after.pending_transactions == self.pending_transactions + txs.len()
                }
        }
    }

    /// How the node misbehaves, `elapsed` milliseconds after its start.
    pub open spec fn behavior_at(&self, elapsed: u64) -> Option<ByzantineType> {
        match self.fault {
            Some(f) if elapsed >= f.start_delay => Some(f.behavior),
            _ => None,
        }
    }

    /// How the node misbehaves, `elapsed` milliseconds after its start.
    pub fn get_active_byzantine_behavior(&self, elapsed: u64) -> (r: Option<ByzantineType>)
        ensures
            r == self.behavior_at(elapsed),
    {
        match self.fault {
            Some(f) => {
                if elapsed >= f.start_delay {
                    Some(f.behavior)
                } else {
                    None
                }
            },
            None => None,
        }
    }

    /// How many transactions can still be proposed.
    pub open spec fn capacity(&self) -> nat {
        if self.pending_transactions < SOFT_MAX_PROPOSED_PER_BLOCK {
            (SOFT_MAX_PROPOSED_PER_BLOCK - self.pending_transactions) as nat
        } else {
            0
        }
    }

    /// Takes transactions out of the pool and proposes them.
    fn propose(&mut self, pool: &mut Mempool, elapsed: u64, now: u64) -> (r: Vec<BaseStatement>)
        ensures
            final(self).same_settings(&*old(self)),
            final(self).transaction_votes == old(self).transaction_votes,
            final(self).transaction_time == old(self).transaction_time,
            final(self).pending_transactions == old(self).pending_transactions + r@.len(),
            final(pool)@ == old(pool)@.skip(
                mempool::taken(old(self).capacity(), old(pool)@.len()) as int,
            ),
            exists|txs: Seq<Transaction>|
                {
                    &&& #[trigger] proposed(
                        old(pool)@.take(
                            mempool::taken(old(self).capacity(), old(pool)@.len()) as int,
                        ),
                        txs,
                        old(self).behavior_at(elapsed),
                        now,
                    )
                    &&& r@ == shares_of(txs)
                },
    {
        let capacity: usize = SOFT_MAX_PROPOSED_PER_BLOCK.saturating_sub(self.pending_transactions);
        let ghost before = *self;
        let ghost pool0 = pool@;
        let mut txs = pool.get_verified_transactions(capacity);
        let ghost taken = txs@;
        let behavior = self.get_active_byzantine_behavior(elapsed);
        misbehave(&mut txs, behavior, now);
        let ghost all = txs@;
        assert(proposed(
            pool0.take(mempool::taken(before.capacity(), pool0.len()) as int),
            all,
            before.behavior_at(elapsed),
            now,
        ));
        if txs.len() > 0 {
            self.pending_transactions = self.pending_transactions + txs.len();
        }
        let mut reversed: Vec<Transaction> = Vec::new();
        while txs.len() > 0
            invariant
                all == txs@ + reversed@.reverse(),
            decreases txs@.len(),
        {
            let ghost t0 = txs@;
            let ghost v0 = reversed@;
            match txs.pop() {
                Some(t) => {
                    reversed.push(t);
                    proof {
                        assert(reversed@.reverse() =~= seq![t] + v0.reverse());
                        assert(txs@ + reversed@.reverse() =~= t0 + v0.reverse());
                    }
                },
                None => {},
            }
        }
        assert(all =~= reversed@.reverse());
        let mut out: Vec<BaseStatement> = Vec::new();
        assert(shares_of(all.take(0)) =~= Seq::<BaseStatement>::empty());
        while reversed.len() > 0
            invariant
                out@.len() + reversed@.len() == all.len(),
                reversed@.reverse() == all.skip(out@.len() as int),
                out@ == shares_of(all.take(out@.len() as int)),
            decreases reversed@.len(),
        {
            let ghost v0 = reversed@;
            let ghost k = out@.len() as int;
            match reversed.pop() {
                Some(t) => {
                    proof {
                        assert(v0.reverse()[0] == t);
                        assert(t == all[k]);
                        assert(v0.reverse() =~= seq![t] + reversed@.reverse());
                        assert forall|m: int| 0 <= m < reversed@.len() implies reversed@.reverse()[m]
                            == #[trigger] all.skip(k + 1)[m] by {
                            assert(v0.reverse()[m + 1] == all.skip(k)[m + 1]);
                        }
                        assert(reversed@.reverse() =~= all.skip(k + 1));
                        assert(shares_of(all.take(k + 1)) =~= shares_of(all.take(k)).push(
                            BaseStatement::Share(t),
                        ));
                    }
                    out.push(BaseStatement::Share(t));
                },
                None => {},
            }
        }
        assert(all.take(out@.len() as int) =~= all);
        out
    }

    /// Counts the votes in blocks and, where a response is required, proposes
    /// transactions out of the pool and votes on the blocks. `valid` tells of
    /// each block that is voted on one by one which of its transactions passed
    /// their check.
    pub fn handle_blocks(
        &mut self,
        committee: &Committee,
        pool: &mut Mempool,
        blocks: &Vec<ReceivedBlock>,
        valid: &Vec<Vec<bool>>,
        require_response: bool,
        elapsed: u64,
        now: u64,
    ) -> (r: Vec<BaseStatement>)
        requires
            old(self).wf(committee.stakes()),
            authors_known(blocks@, committee.stakes()),
            valid@.len() == blocks@.len(),
            forall|i: int|
                0 <= i < blocks@.len() && blocks@[i].check_individual ==> (
                #[trigger] valid@[i])@.len() == blocks@[i].block.shared_locators().len(),
        ensures
            final(self).wf(committee.stakes()),
            old(self).answered(
                &*final(self),
                old(pool)@,
                final(pool)@,
                blocks@,
                valid@,
                committee.stakes(),
                require_response,
                elapsed,
                now,
                r@,
            ),
    {
        let ghost stakes = committee.stakes();
        let ghost s0 = self.transaction_votes.state();
        let ghost before = *self;
        let mut response: Vec<BaseStatement> = Vec::new();
        if require_response {
            response = self.propose(pool, elapsed, now);
        }
        let ghost shared = response@;
        let ghost after = *self;
        assert(shared =~= shared + votes_on(blocks@, valid@, 0));
        let mut i: usize = 0;
        while i < blocks.len()
            invariant
                i <= blocks@.len(),
                stakes == committee.stakes(),
                self.wf(stakes),
                self.same_settings(&after),
                self.transaction_time == after.transaction_time,
                self.pending_transactions == after.pending_transactions,
                authors_known(blocks@, stakes),
                valid@.len() == blocks@.len(),
                forall|i: int|
                    0 <= i < blocks@.len() && blocks@[i].check_individual ==> (
                    #[trigger] valid@[i])@.len() == blocks@[i].block.shared_locators().len(),
                self.transaction_votes.state() == (if self.consensus_only {
                    s0
                } else {
                    counted_after(s0, blocks@, stakes, i as int)
                }),
                !require_response ==> response@ == shared,
                require_response ==> response@ == shared + votes_on(blocks@, valid@, i as int),
            decreases blocks@.len() - i,
        {
            let b = &blocks[i];
            if !self.consensus_only {
                let certified = self.transaction_votes.process_block(&b.block, committee);
            }
            if require_response {
                let ghost so_far = response@;
                let mut votes = if b.check_individual {
                    assert(valid@[i as int]@.len() == b.block.shared_locators().len());
                    vote_individually(&b.block, &valid[i])
                } else {
                    vote_for_block(&b.block)
                };
                let ghost v = votes@;
                response.append(&mut votes);
                assert(response@ =~= shared + votes_on(blocks@, valid@, i + 1)) by {
                    assert(response@ =~= so_far + v);
                }
            }
            i = i + 1;
        }
        response
    }

    /// Takes note of a block that the node has proposed: its transactions do
    /// not wait any more, and its author votes for them.
    pub fn handle_proposal(&mut self, committee: &Committee, block: &StatementBlock, now: u64)
        requires
            old(self).wf(committee.stakes()),
            block.shared_locators().len() <= old(self).pending_transactions,
        ensures
            final(self).wf(committee.stakes()),
            final(self).same_settings(&*old(self)),
            final(self).pending_transactions == old(self).pending_transactions
                - block.shared_locators().len(),
            final(self).transaction_time@ == proposed_at(
                old(self).transaction_time@,
                block.shared_locators(),
                now,
                block.shared_locators().len() as int,
            ),
            final(self).transaction_votes.state() == (if old(self).consensus_only {
                old(self).transaction_votes.state()
            } else {
                transaction_aggregator::ranges_registered(
                    old(self).transaction_votes.state(),
                    block.shared_ranges_spec(),
                    old(self).authority,
                    block.shared_ranges_spec().len() as int,
                )
            }),
    {
        let ls = block.shared_transactions();
        self.pending_transactions = self.pending_transactions - ls.len();
        note_proposal(&mut self.transaction_time, &ls, now);
        if !self.consensus_only {
            register_proposal(&mut self.transaction_votes, committee, self.authority, block);
        }
    }

    /// Forgets the times of proposals that are ten seconds old.
    pub fn cleanup(&mut self, now: u64)
        requires
            old(self).transaction_time.wf(),
        ensures
            final(self).transaction_time.wf(),
            final(self).same_settings(&*old(self)),
            final(self).transaction_votes == old(self).transaction_votes,
            final(self).pending_transactions == old(self).pending_transactions,
            forall|l: TransactionLocator| #[trigger]
                final(self).transaction_time@.dom().contains(l) <==> old(self).transaction_time@.dom().contains(l) && recent(
                    old(self).transaction_time@[l],
                    now,
                ),
            forall|l: TransactionLocator|
                final(self).transaction_time@.dom().contains(l) ==> #[trigger] final(self).transaction_time@[l] == old(self).transaction_time@[l],
    {
        forget_old(&mut self.transaction_time, now);
    }
}

/// A time is less than ten seconds ago.
pub open spec fn recent(time: u64, now: u64) -> bool {
    now < time || now - time < PROPOSAL_TIME_KEPT
}

fn forget_old(times: &mut ProposalTimes, now: u64)
    requires
        old(times).wf(),
    ensures
        final(times).wf(),
        forall|l: TransactionLocator| #[trigger]
            final(times)@.dom().contains(l) <==> old(times)@.dom().contains(l) && recent(
                old(times)@[l],
                now,
            ),
        forall|l: TransactionLocator|
            final(times)@.dom().contains(l) ==> #[trigger] final(times)@[l] == old(times)@[l],
{
    let ghost before = *times;
    let mut kept: ProposalTimes = KeyMap::new();
    let mut i: usize = 0;
    while i < times.entries.len()
        invariant
            i <= times.entries@.len(),
            *times == before,
            before.wf(),
            kept.wf(),
            forall|l: TransactionLocator| #[trigger]
                kept@.dom().contains(l) <==> exists|k: int|
                    0 <= k < i && (#[trigger] before.entries@[k]).0 == l && recent(
                        before.entries@[k].1,
                        now,
                    ),
            forall|l: TransactionLocator|
                kept@.dom().contains(l) ==> before@.dom().contains(l) && #[trigger] kept@[l]
                    == before@[l],
        decreases times.entries@.len() - i,
    {
        let l = times.entries[i].0;
        let t = times.entries[i].1;
        let ghost k0 = kept@;
        proof {
            crate::keymap::lemma_entry(before, i as int);
        }
        if now < t || now - t < PROPOSAL_TIME_KEPT {
            kept.insert(l, t);
        }
        proof {
            assert forall|m: TransactionLocator| #[trigger] kept@.dom().contains(m) <==> exists|k: int|
                0 <= k < i + 1 && (#[trigger] before.entries@[k]).0 == m && recent(
                    before.entries@[k].1,
                    now,
                ) by {
                if k0.dom().contains(m) {
                    let k = choose|k: int|
                        0 <= k < i && (#[trigger] before.entries@[k]).0 == m && recent(
                            before.entries@[k].1,
                            now,
                        );
                    assert(before.entries@[k].0 == m);
                }
                if kept@.dom().contains(m) && m == l {
                    if recent(t, now) {
                        assert(before.entries@[i as int].0 == m);
                    }
                }
            }
        }
        i = i + 1;
    }
    proof {
        assert forall|l: TransactionLocator| #[trigger] kept@.dom().contains(l) <==> before@.dom().contains(
            l,
        ) && recent(before@[l], now) by {
            if kept@.dom().contains(l) {
                let k = choose|k: int|
                    0 <= k < i && (#[trigger] before.entries@[k]).0 == l && recent(
                        before.entries@[k].1,
                        now,
                    );
                crate::keymap::lemma_entry(before, k);
            }
            if before@.dom().contains(l) && recent(before@[l], now) {
                let k = crate::keymap::position(before.entries@, l);
                assert(0 <= k < before.entries@.len() && before.entries@[k].0 == l);
                crate::keymap::lemma_entry(before, k);
            }
        }
    }
    std::mem::swap(times, &mut kept);
}

/// The times of proposals with those of the first `k` transactions of a list.
pub open spec fn proposed_at(
    m: Map<TransactionLocator, u64>,
    ls: Seq<TransactionLocator>,
    now: u64,
    k: int,
) -> Map<TransactionLocator, u64>
    decreases k,
{
    if k <= 0 {
        m
    } else {
        proposed_at(m, ls, now, k - 1).insert(ls[k - 1], now)
    }
}

fn note_proposal(times: &mut ProposalTimes, ls: &Vec<TransactionLocator>, now: u64)
    requires
        old(times).wf(),
    ensures
        final(times).wf(),
        final(times)@ == proposed_at(old(times)@, ls@, now, ls@.len() as int),
{
    let ghost before = times@;
    let mut i: usize = 0;
    while i < ls.len()
        invariant
            i <= ls@.len(),
            times.wf(),
            times@ == proposed_at(before, ls@, now, i as int),
        decreases ls@.len() - i,
    {
        times.insert(ls[i], now);
        i = i + 1;
    }
}

fn register_proposal(
    votes: &mut TransactionAggregator,
    committee: &Committee,
    authority: AuthorityIndex,
    block: &StatementBlock,
)
    requires
        old(votes).wf(committee.stakes()),
        authority < committee.stakes().len(),
    ensures
        final(votes).wf(committee.stakes()),
        final(votes).state() == transaction_aggregator::ranges_registered(
            old(votes).state(),
            block.shared_ranges_spec(),
            authority,
            block.shared_ranges_spec().len() as int,
        ),
{
    let ghost before = votes.state();
    let ranges = block.shared_ranges();
    let mut i: usize = 0;
    while i < ranges.len()
        invariant
            i <= ranges@.len(),
            votes.wf(committee.stakes()),
            authority < committee.stakes().len(),
            votes.state() == transaction_aggregator::ranges_registered(
                before,
                ranges@,
                authority,
                i as int,
            ),
        decreases ranges@.len() - i,
    {
        votes.register(ranges[i], authority, committee);
        i = i + 1;
    }
}

/// The transactions that a statement accepts.
pub open spec fn accepts(statement: BaseStatement) -> Seq<TransactionLocator> {
    match statement {
        BaseStatement::VoteRange(range) => range.locators_spec(),
        BaseStatement::Vote(l, Vote::Accept) => seq![l],
        _ => Seq::empty(),
    }
}

/// The transactions that a statement rejects.
pub open spec fn rejects(statement: BaseStatement) -> Seq<TransactionLocator> {
    match statement {
        BaseStatement::Vote(l, Vote::Reject(_)) => seq![l],
        _ => Seq::empty(),
    }
}

/// The transactions that statements accept, in turn.
pub open spec fn all_accepted(statements: Seq<BaseStatement>) -> Seq<TransactionLocator>
    decreases statements.len(),
{
    if statements.len() == 0 {
        Seq::empty()
    } else {
        all_accepted(statements.drop_last()) + accepts(statements.last())
    }
}

/// The transactions that statements reject, in turn.
pub open spec fn all_rejected(statements: Seq<BaseStatement>) -> Seq<TransactionLocator>
    decreases statements.len(),
{
    if statements.len() == 0 {
        Seq::empty()
    } else {
        all_rejected(statements.drop_last()) + rejects(statements.last())
    }
}

/// Those of the first `k` transactions whose check ended in `verdict`.
pub open spec fn with_verdict(
    ls: Seq<TransactionLocator>,
    valid: Seq<bool>,
    verdict: bool,
    k: int,
) -> Seq<TransactionLocator>
    decreases k,
{
    if k <= 0 {
        Seq::empty()
    } else if valid[k - 1] == verdict {
        with_verdict(ls, valid, verdict, k - 1).push(ls[k - 1])
    } else {
        with_verdict(ls, valid, verdict, k - 1)
    }
}

proof fn lemma_push_statement(out: Seq<BaseStatement>, x: BaseStatement)
    ensures
        all_accepted(out.push(x)) == all_accepted(out) + accepts(x),
        all_rejected(out.push(x)) == all_rejected(out) + rejects(x),
{
    assert(out.push(x).drop_last() =~= out);
}

proof fn lemma_flushed(block: BlockReference, out: Seq<BaseStatement>, run: Option<OffsetRange>)
    ensures
        all_rejected(flushed(block, out, run)) == all_rejected(out),
        run is None ==> all_accepted(flushed(block, out, run)) == all_accepted(out),
        run is Some ==> all_accepted(flushed(block, out, run)) == all_accepted(out) + accepts(
            run_vote(block, run->0),
        ),
{
    if run is Some {
        lemma_push_statement(out, run_vote(block, run->0));
        assert(all_rejected(out) + Seq::<TransactionLocator>::empty() =~= all_rejected(out));
    }
}

proof fn lemma_votes_so_far(
    block: BlockReference,
    ls: Seq<TransactionLocator>,
    valid: Seq<bool>,
    k: int,
)
    requires
        0 <= k <= ls.len(),
        ls.len() == valid.len(),
        forall|i: int|
            0 <= i < ls.len() ==> (#[trigger] ls[i]).block == block && ls[i].offset < u64::MAX,
    ensures
        ({
            let (out, run) = votes_so_far(block, ls, valid, k);
            &&& all_accepted(flushed(block, out, run)) == with_verdict(ls, valid, true, k)
            &&& all_rejected(flushed(block, out, run)) == with_verdict(ls, valid, false, k)
            &&& run matches Some(r) ==> r.start < r.end
        }),
    decreases k,
{
    if k > 0 {
        lemma_votes_so_far(block, ls, valid, k - 1);
        let (out, run) = votes_so_far(block, ls, valid, k - 1);
        let (out2, run2) = votes_so_far(block, ls, valid, k);
        let l = ls[k - 1];
        lemma_flushed(block, out, run);
        lemma_flushed(block, out2, run2);
        if valid[k - 1] {
            let fresh = OffsetRange { start: l.offset, end: (l.offset + 1) as u64 };
            match run {
                Some(r) if r.end == l.offset => {
                    let a = accepts(run_vote(block, r));
                    let b = accepts(run_vote(block, run2->0));
                    assert(b =~= a.push(l));
                    assert(all_accepted(out) + b =~= (all_accepted(out) + a).push(l));
                },
                Some(r) => {
                    lemma_push_statement(out, run_vote(block, r));
                    assert(accepts(run_vote(block, fresh)) =~= seq![l]);
                    assert(all_accepted(out2) + seq![l] =~= all_accepted(out2).push(l));
                    assert(all_rejected(out) + Seq::<TransactionLocator>::empty() =~= all_rejected(
                        out,
                    ));
                },
                None => {
                    assert(accepts(run_vote(block, fresh)) =~= seq![l]);
                    assert(all_accepted(out2) + seq![l] =~= all_accepted(out2).push(l));
                },
            }
        } else {
            let x = BaseStatement::Vote(l, Vote::Reject(None));
            let f = flushed(block, out, run);
            lemma_push_statement(f, x);
            assert(all_accepted(f) + Seq::<TransactionLocator>::empty() =~= all_accepted(f));
            assert(all_rejected(f) + seq![l] =~= all_rejected(f).push(l));
        }
    }
}

proof fn lemma_shared_list(block: StatementBlock, k: int)
    requires
        0 <= k <= block.statements@.len() <= u64::MAX,
    ensures
        forall|i: int|
            0 <= i < block.shared_list(k).len() ==> (#[trigger] block.shared_list(k)[i]).block
                == block.reference && block.shared_list(k)[i].offset < k,
    decreases k,
{
    if k > 0 {
        lemma_shared_list(block, k - 1);
        let before = block.shared_list(k - 1);
        let after = block.shared_list(k);
        assert forall|i: int| 0 <= i < after.len() implies (#[trigger] after[i]).block
            == block.reference && after[i].offset < k by {
            if i < before.len() {
                assert(after[i] == before[i]);
            }
        }
    }
}

/// A node that votes on transactions one by one accepts exactly the valid ones
/// and rejects exactly the others, each once and in order.
pub proof fn law_votes_follow_the_checks(block: StatementBlock, valid: Seq<bool>)
    requires
        valid.len() == block.shared_locators().len(),
        block.statements@.len() <= u64::MAX,
    ensures
        all_accepted(individual_votes(block, valid)) == with_verdict(
            block.shared_locators(),
            valid,
            true,
            valid.len() as int,
        ),
        all_rejected(individual_votes(block, valid)) == with_verdict(
            block.shared_locators(),
            valid,
            false,
            valid.len() as int,
        ),
{
    lemma_shared_list(block, block.statements@.len() as int);
    let ls = block.shared_locators();
    lemma_votes_so_far(block.reference, ls, valid, ls.len() as int);
}

/// A handler that proposes one new transaction with every response, and votes
/// for all transactions of others.
pub struct TestBlockHandler {
    pub last_transaction: u64,
    pub transaction_votes: TransactionAggregator,
    pub transaction_time: ProposalTimes,
    pub authority: AuthorityIndex,
    pub proposed: Vec<TransactionLocator>,
}

/// How many transactions the first `k` blocks of an author share.
pub open spec fn own_shares(blocks: Seq<StatementBlock>, authority: u64, k: int) -> nat
    decreases k,
{
    if k <= 0 {
        0
    } else if blocks[k - 1].reference.authority == authority {
        own_shares(blocks, authority, k - 1) + blocks[k - 1].shared_locators().len()
    } else {
        own_shares(blocks, authority, k - 1)
    }
}

/// The votes for all transactions of the first `k` blocks.
pub open spec fn whole_votes_on(blocks: Seq<StatementBlock>, k: int) -> Seq<BaseStatement>
    decreases k,
{
    if k <= 0 {
        Seq::empty()
    } else {
        whole_votes_on(blocks, k - 1) + whole_votes(blocks[k - 1])
    }
}

/// The votes for transactions after the first `k` blocks.
pub open spec fn blocks_counted(
    s: transaction_aggregator::VoteState,
    blocks: Seq<StatementBlock>,
    stakes: Seq<u64>,
    k: int,
) -> transaction_aggregator::VoteState
    decreases k,
{
    if k <= 0 {
        s
    } else {
        transaction_aggregator::block_counted(
            blocks_counted(s, blocks, stakes, k - 1),
            blocks[k - 1],
            stakes,
        )
    }
}

proof fn lemma_own_shares_grow(blocks: Seq<StatementBlock>, authority: u64, i: int, j: int)
    requires
        i <= j,
    ensures
        own_shares(blocks, authority, i) <= own_shares(blocks, authority, j),
    decreases j - i,
{
    if i < j && 0 < j {
        lemma_own_shares_grow(blocks, authority, i, j - 1);
    }
}

impl TestBlockHandler {
    pub open spec fn wf(&self, stakes: Seq<u64>) -> bool {
        &&& self.transaction_votes.wf(stakes)
        &&& self.transaction_time.wf()
        &&& self.authority < stakes.len()
    }

    /// The handler becomes `after` and answers blocks with `r`: it counts the votes
    /// in them; and where a response is required, it shares the next transaction and
    /// votes for the blocks.
    pub open spec fn answered(
        &self,
        after: &Self,
        blocks: Seq<StatementBlock>,
        stakes: Seq<u64>,
        require_response: bool,
        now: u64,
        r: Seq<BaseStatement>,
    ) -> bool {
        &&& after.authority == self.authority
        &&& after.proposed@ == self.proposed@
        &&& after.transaction_time == self.transaction_time
        &&& after.transaction_votes.state() == blocks_counted(
            self.transaction_votes.state(),
            blocks,
            stakes,
            blocks.len() as int,
        )
        &&& !require_response ==> r.len() == 0 && after.last_transaction == self.last_transaction
        &&& require_response ==> {
            &&& after.last_transaction == self.last_transaction + own_shares(
                blocks,
                self.authority,
                blocks.len() as int,
            ) + 1
            &&& r.len() > 0
            &&& r[0] is Share
            &&& r[0]->Share_0.data@ == vstd::bytes::spec_u64_to_le_bytes(after.last_transaction)
            &&& r[0]->Share_0.timestamp == now
            &&& r.skip(1) == whole_votes_on(blocks, blocks.len() as int)
        }
    }

    /// A handler whose next transaction follows `last_transaction`.
    pub fn new(last_transaction: u64, authority: AuthorityIndex) -> (r: Self)
        ensures
            forall|stakes: Seq<u64>| authority < stakes.len() ==> #[trigger] r.wf(stakes),
            r.last_transaction == last_transaction,
            r.authority == authority,
            r.proposed@.len() == 0,
            r.transaction_votes.state().done.len() == 0,
            r.transaction_votes.state().pending == Map::<TransactionLocator, Set<u64>>::empty(),
            r.transaction_time@ == Map::<TransactionLocator, u64>::empty(),
    {
        TestBlockHandler {
            last_transaction,
            transaction_votes: TransactionAggregator::new(),
            transaction_time: KeyMap::new(),
            authority,
            proposed: Vec::new(),
        }
    }

    /// Whether a transaction is certified.
    pub fn is_certified(&self, locator: &TransactionLocator) -> (b: bool)
        ensures
            b == self.transaction_votes.state().done.contains(*locator),
    {
        self.transaction_votes.is_processed(locator)
    }

    /// The transaction with a number: its eight bytes, the least significant
    /// first.
    pub fn make_transaction(i: u64, now: u64) -> (r: Transaction)
        ensures
            r.data@ == vstd::bytes::spec_u64_to_le_bytes(i),
            r.timestamp == now,
    {
        Transaction::new(vstd::bytes::u64_to_le_bytes(i), now)
    }

    /// Counts the votes in blocks and, where a response is required, proposes
    /// the next transaction and votes for the blocks. The transactions in the
    /// handler's own blocks count as proposed.
    pub fn handle_blocks(
        &mut self,
        committee: &Committee,
        blocks: &Vec<StatementBlock>,
        require_response: bool,
        now: u64,
    ) -> (r: Vec<BaseStatement>)
        requires
            old(self).wf(committee.stakes()),
            forall|i: int|
                0 <= i < blocks@.len() ==> (#[trigger] blocks@[i]).reference.authority
                    < committee.stakes().len(),
            old(self).last_transaction + own_shares(
                blocks@,
                old(self).authority,
                blocks@.len() as int,
            ) < u64::MAX,
        ensures
            final(self).wf(committee.stakes()),
            old(self).answered(
                &*final(self),
                blocks@,
                committee.stakes(),
                require_response,
                now,
                r@,
            ),
    {
        let ghost stakes = committee.stakes();
        let ghost before = *self;
        let ghost n = blocks@.len() as int;
        let mut response: Vec<BaseStatement> = Vec::new();
        if require_response {
            let mut i: usize = 0;
            while i < blocks.len()
                invariant
                    i <= blocks@.len(),
                    n == blocks@.len(),
                    self.authority == before.authority,
                    self.proposed@ == before.proposed@,
                    self.transaction_time == before.transaction_time,
                    self.transaction_votes == before.transaction_votes,
                    self.last_transaction == before.last_transaction + own_shares(
                        blocks@,
                        before.authority,
                        i as int,
                    ),
                    before.last_transaction + own_shares(blocks@, before.authority, n) < u64::MAX,
                decreases blocks@.len() - i,
            {
                proof {
                    lemma_own_shares_grow(blocks@, before.authority, i + 1, n);
                }
                if blocks[i].author() == self.authority {
                    let shared = blocks[i].shared_transactions();
                    self.last_transaction = self.last_transaction + shared.len() as u64;
                }
                i = i + 1;
            }
            self.last_transaction = self.last_transaction + 1;
            let next = Self::make_transaction(self.last_transaction, now);
            response.push(BaseStatement::Share(next));
        }
        let ghost first = response@;
        assert(first =~= first + whole_votes_on(blocks@, 0));
        let ghost middle = *self;
        let mut i: usize = 0;
        while i < blocks.len()
            invariant
                i <= blocks@.len(),
                stakes == committee.stakes(),
                self.wf(stakes),
                self.authority == before.authority,
                self.proposed@ == before.proposed@,
                self.transaction_time == before.transaction_time,
                self.last_transaction == middle.last_transaction,
                forall|i: int|
                    0 <= i < blocks@.len() ==> (#[trigger] blocks@[i]).reference.authority
                        < stakes.len(),
                self.transaction_votes.state() == blocks_counted(
                    before.transaction_votes.state(),
                    blocks@,
                    stakes,
                    i as int,
                ),
                !require_response ==> response@ == first,
                require_response ==> response@ == first + whole_votes_on(blocks@, i as int),
            decreases blocks@.len() - i,
        {
            if require_response {
                let ghost so_far = response@;
                let mut votes = vote_for_block(&blocks[i]);
                let ghost v = votes@;
                response.append(&mut votes);
                assert(response@ =~= first + whole_votes_on(blocks@, i + 1)) by {
                    assert(response@ =~= so_far + v);
                }
            }
            let certified = self.transaction_votes.process_block(&blocks[i], committee);
            i = i + 1;
        }
        proof {
            if require_response {
                assert(response@.skip(1) =~= whole_votes_on(blocks@, n));
            }
        }
        response
    }

    /// Takes note of a block that the node has proposed.
    pub fn handle_proposal(&mut self, committee: &Committee, block: &StatementBlock, now: u64)
        requires
            old(self).wf(committee.stakes()),
        ensures
            final(self).wf(committee.stakes()),
            final(self).last_transaction == old(self).last_transaction,
            final(self).authority == old(self).authority,
            final(self).proposed@ == old(self).proposed@ + block.shared_locators(),
            final(self).transaction_time@ == proposed_at(
                old(self).transaction_time@,
                block.shared_locators(),
                now,
                block.shared_locators().len() as int,
            ),
            final(self).transaction_votes.state() == transaction_aggregator::ranges_registered(
                old(self).transaction_votes.state(),
                block.shared_ranges_spec(),
                old(self).authority,
                block.shared_ranges_spec().len() as int,
            ),
    {
        let mut ls = block.shared_transactions();
        note_proposal(&mut self.transaction_time, &ls, now);
        self.proposed.append(&mut ls);
        register_proposal(&mut self.transaction_votes, committee, self.authority, block);
    }
}

proof fn lemma_joined(a: Seq<BaseStatement>, b: Seq<BaseStatement>)
    ensures
        all_accepted(a + b) == all_accepted(a) + all_accepted(b),
        all_rejected(a + b) == all_rejected(a) + all_rejected(b),
    decreases b.len(),
{
    if b.len() == 0 {
        assert(a + b =~= a);
        assert(all_accepted(a) + Seq::<TransactionLocator>::empty() =~= all_accepted(a));
        assert(all_rejected(a) + Seq::<TransactionLocator>::empty() =~= all_rejected(a));
    } else {
        let c = b.drop_last();
        lemma_joined(a, c);
        assert((a + b).drop_last() =~= a + c);
        assert((all_accepted(a) + all_accepted(c)) + accepts(b.last()) =~= all_accepted(a) + (
        all_accepted(c) + accepts(b.last())));
        assert((all_rejected(a) + all_rejected(c)) + rejects(b.last()) =~= all_rejected(a) + (
        all_rejected(c) + rejects(b.last())));
    }
}

/// The votes for the runs that have ended.
spec fn ended_votes(block: BlockReference, done: Seq<OffsetRange>) -> Seq<BaseStatement> {
    Seq::new(done.len(), |i: int| run_vote(block, done[i]))
}

proof fn lemma_share_run_votes(block: StatementBlock, k: int)
    requires
        0 <= k <= block.statements@.len() <= u64::MAX,
    ensures
        ({
            let (done, run) = types::share_runs(block.statements@, k);
            let votes = flushed(block.reference, ended_votes(block.reference, done), run);
            &&& all_accepted(votes) == block.shared_list(k)
            &&& all_rejected(votes).len() == 0
            &&& run matches Some(r) ==> r.start < r.end
        }),
    decreases k,
{
    let b = block.reference;
    if k == 0 {
        assert(ended_votes(b, Seq::empty()) =~= Seq::<BaseStatement>::empty());
    } else {
        lemma_share_run_votes(block, k - 1);
        let (done, run) = types::share_runs(block.statements@, k - 1);
        let (done2, run2) = types::share_runs(block.statements@, k);
        let out = ended_votes(b, done);
        let out2 = ended_votes(b, done2);
        let l = TransactionLocator { block: b, offset: (k - 1) as u64 };
        lemma_flushed(b, out, run);
        lemma_flushed(b, out2, run2);
        if block.statements@[k - 1] is Share {
            let fresh = OffsetRange { start: (k - 1) as u64, end: k as u64 };
            match run {
                Some(r) if r.end == k - 1 => {
                    let x = accepts(run_vote(b, r));
                    let y = accepts(run_vote(b, run2->0));
                    assert(y =~= x.push(l));
                    assert(all_accepted(out) + y =~= (all_accepted(out) + x).push(l));
                },
                Some(r) => {
                    assert(out2 =~= out.push(run_vote(b, r)));
                    lemma_push_statement(out, run_vote(b, r));
                    assert(accepts(run_vote(b, fresh)) =~= seq![l]);
                    assert(all_accepted(out2) + seq![l] =~= all_accepted(out2).push(l));
                },
                None => {
                    assert(accepts(run_vote(b, fresh)) =~= seq![l]);
                    assert(all_accepted(out2) + seq![l] =~= all_accepted(out2).push(l));
                },
            }
        }
    }
}

/// A node that votes for a whole block accepts exactly the transactions that the block
/// shares, each once and in order, and rejects none.
pub proof fn law_whole_block_is_accepted(block: StatementBlock)
    requires
        block.statements@.len() <= u64::MAX,
    ensures
        all_accepted(whole_votes(block)) == block.shared_locators(),
        all_rejected(whole_votes(block)).len() == 0,
{
    let n = block.statements@.len() as int;
    lemma_share_run_votes(block, n);
    let (done, run) = types::share_runs(block.statements@, n);
    assert(whole_votes(block) =~= flushed(
        block.reference,
        ended_votes(block.reference, done),
        run,
    ));
}

/// The transactions of a block on which a verdict is owed: where it is checked one by
/// one those whose check ended in it, and else all that it shares where the verdict is to
/// accept.
pub open spec fn owed_on(
    b: ReceivedBlock,
    valid: Seq<bool>,
    verdict: bool,
) -> Seq<TransactionLocator> {
    let ls = b.block.shared_locators();
    if b.check_individual {
        with_verdict(ls, valid, verdict, ls.len() as int)
    } else if verdict {
        ls
    } else {
        Seq::empty()
    }
}

/// The transactions of the first `k` blocks on which a verdict is owed.
pub open spec fn owed(
    blocks: Seq<ReceivedBlock>,
    valid: Seq<Vec<bool>>,
    verdict: bool,
    k: int,
) -> Seq<TransactionLocator>
    decreases k,
{
    if k <= 0 {
        Seq::empty()
    } else {
        owed(blocks, valid, verdict, k - 1) + owed_on(blocks[k - 1], valid[k - 1]@, verdict)
    }
}

/// There is a result for each transaction of a block that is checked one by one.
pub open spec fn checks_complete(blocks: Seq<ReceivedBlock>, valid: Seq<Vec<bool>>) -> bool {
    &&& valid.len() == blocks.len()
    &&& forall|i: int|
        0 <= i < blocks.len() ==> (#[trigger] blocks[i]).block.statements@.len() <= u64::MAX
    &&& forall|i: int|
        0 <= i < blocks.len() && (#[trigger] blocks[i]).check_individual ==> valid[i]@.len()
            == blocks[i].block.shared_locators().len()
}

proof fn lemma_votes_on(blocks: Seq<ReceivedBlock>, valid: Seq<Vec<bool>>, k: int)
    requires
        checks_complete(blocks, valid),
        0 <= k <= blocks.len(),
    ensures
        all_accepted(votes_on(blocks, valid, k)) == owed(blocks, valid, true, k),
        all_rejected(votes_on(blocks, valid, k)) == owed(blocks, valid, false, k),
        forall|m: int|
            0 <= m < votes_on(blocks, valid, k).len() ==> !((#[trigger] votes_on(
                blocks,
                valid,
                k,
            )[m]) is Share),
    decreases k,
{
    if k > 0 {
        lemma_votes_on(blocks, valid, k - 1);
        let b = blocks[k - 1];
        let before = votes_on(blocks, valid, k - 1);
        let last = if b.check_individual {
            individual_votes(b.block, valid[k - 1]@)
        } else {
            whole_votes(b.block)
        };
        assert(b.block.statements@.len() <= u64::MAX);
        if b.check_individual {
            law_votes_follow_the_checks(b.block, valid[k - 1]@);
            let ls = b.block.shared_locators();
            lemma_no_shares(b.block.reference, ls, valid[k - 1]@, ls.len() as int);
        } else {
            law_whole_block_is_accepted(b.block);
            assert(all_rejected(last) =~= Seq::<TransactionLocator>::empty());
        }
        lemma_joined(before, last);
    }
}

proof fn lemma_no_shares(
    block: BlockReference,
    ls: Seq<TransactionLocator>,
    valid: Seq<bool>,
    k: int,
)
    ensures
        forall|m: int|
            0 <= m < votes_so_far(block, ls, valid, k).0.len() ==> !((#[trigger] votes_so_far(
                block,
                ls,
                valid,
                k,
            ).0[m]) is Share),
    decreases k,
{
    if k > 0 {
        lemma_no_shares(block, ls, valid, k - 1);
    }
}

proof fn lemma_shares_vote_nothing(txs: Seq<Transaction>)
    ensures
        all_accepted(shares_of(txs)).len() == 0,
        all_rejected(shares_of(txs)).len() == 0,
    decreases txs.len(),
{
    if txs.len() > 0 {
        lemma_shares_vote_nothing(txs.drop_last());
        assert(shares_of(txs).drop_last() =~= shares_of(txs.drop_last()));
    }
}

proof fn lemma_owed(blocks: Seq<ReceivedBlock>, valid: Seq<Vec<bool>>, verdict: bool, i: int, k: int)
    requires
        0 <= i < k,
    ensures
        exists|before: Seq<TransactionLocator>, after: Seq<TransactionLocator>|
            owed(blocks, valid, verdict, k) == #[trigger] (before + owed_on(
                blocks[i],
                valid[i]@,
                verdict,
            ) + after),
    decreases k,
{
    let part = owed_on(blocks[i], valid[i]@, verdict);
    if i == k - 1 {
        let before = owed(blocks, valid, verdict, k - 1);
        assert(before + part + Seq::<TransactionLocator>::empty() =~= owed(
            blocks,
            valid,
            verdict,
            k,
        ));
    } else {
        lemma_owed(blocks, valid, verdict, i, k - 1);
        let (before, after) = choose|
            before: Seq<TransactionLocator>,
            after: Seq<TransactionLocator>,
        |
            owed(blocks, valid, verdict, k - 1) == #[trigger] (before + part + after);
        let last = owed_on(blocks[k - 1], valid[k - 1]@, verdict);
        assert(before + part + (after + last) =~= owed(blocks, valid, verdict, k));
    }
}

/// Where a response is required, it begins with the transactions that the node shares
/// and goes on with its votes, and those accept and reject, block by block and in order,
/// exactly what is owed.
pub proof fn law_response_votes_on_every_block(
    handler: RealBlockHandler,
    after: RealBlockHandler,
    pool: Seq<Transaction>,
    rest: Seq<Transaction>,
    blocks: Seq<ReceivedBlock>,
    valid: Seq<Vec<bool>>,
    stakes: Seq<u64>,
    elapsed: u64,
    now: u64,
    r: Seq<BaseStatement>,
)
    requires
        handler.answered(&after, pool, rest, blocks, valid, stakes, true, elapsed, now, r),
        checks_complete(blocks, valid),
    ensures
        all_accepted(r) == owed(blocks, valid, true, blocks.len() as int),
        all_rejected(r) == owed(blocks, valid, false, blocks.len() as int),
        handler.pending_transactions <= after.pending_transactions,
        forall|m: int|
            0 <= m < r.len() ==> ((#[trigger] r[m]) is Share <==> m < after.pending_transactions
                - handler.pending_transactions),
{
    let n = mempool::taken(handler.capacity(), pool.len()) as int;
    let txs = choose|txs: Seq<Transaction>|
        {
            &&& #[trigger] proposed(pool.take(n), txs, handler.behavior_at(elapsed), now)
            &&& r == shares_of(txs) + votes_on(blocks, valid, blocks.len() as int)
            &&& after.pending_transactions == handler.pending_transactions + txs.len()
        };
    let votes = votes_on(blocks, valid, blocks.len() as int);
    lemma_votes_on(blocks, valid, blocks.len() as int);
    lemma_shares_vote_nothing(txs);
    lemma_joined(shares_of(txs), votes);
    assert(all_accepted(r) =~= all_accepted(votes));
    assert(all_rejected(r) =~= all_rejected(votes));
    assert forall|m: int| 0 <= m < r.len() implies ((#[trigger] r[m]) is Share <==> m < txs.len()) by {
        if m >= txs.len() {
            assert(r[m] == votes[m - txs.len()]);
        }
    }
}

/// Where a response is required, the transactions of a block that is not checked one by
/// one are accepted in one piece: all that the block shares, in order, and nothing
/// between them; and of a block that is checked one by one those that are valid.
pub proof fn law_response_accepts_what_is_shared(
    handler: RealBlockHandler,
    after: RealBlockHandler,
    pool: Seq<Transaction>,
    rest: Seq<Transaction>,
    blocks: Seq<ReceivedBlock>,
    valid: Seq<Vec<bool>>,
    stakes: Seq<u64>,
    elapsed: u64,
    now: u64,
    r: Seq<BaseStatement>,
    k: int,
)
    requires
        handler.answered(&after, pool, rest, blocks, valid, stakes, true, elapsed, now, r),
        checks_complete(blocks, valid),
        0 <= k < blocks.len(),
    ensures
        !blocks[k].check_individual ==> exists|
            x: Seq<TransactionLocator>,
            y: Seq<TransactionLocator>,
        |
            all_accepted(r) == #[trigger] (x + blocks[k].block.shared_locators() + y),
        !blocks[k].check_individual ==> forall|l: TransactionLocator|
            l.block == blocks[k].block.reference && l.offset < blocks[k].block.statements@.len()
                && blocks[k].block.statements@[l.offset as int] is Share
                ==> #[trigger] all_accepted(r).contains(l),
        blocks[k].check_individual ==> forall|j: int|
            0 <= j < valid[k]@.len() ==> if #[trigger] valid[k]@[j] {
                all_accepted(r).contains(blocks[k].block.shared_locators()[j])
            } else {
                all_rejected(r).contains(blocks[k].block.shared_locators()[j])
            },
{
    law_response_votes_on_every_block(
        handler,
        after,
        pool,
        rest,
        blocks,
        valid,
        stakes,
        elapsed,
        now,
        r,
    );
    let n = blocks.len() as int;
    let b = blocks[k];
    let ls = b.block.shared_locators();
    lemma_owed(blocks, valid, true, k, n);
    lemma_owed(blocks, valid, false, k, n);
    if !b.check_individual {
        let (x, y) = choose|x: Seq<TransactionLocator>, y: Seq<TransactionLocator>|
            owed(blocks, valid, true, n) == #[trigger] (x + ls + y);
        assert(all_accepted(r) == x + ls + y);
        assert forall|l: TransactionLocator|
            l.block == b.block.reference && l.offset < b.block.statements@.len()
                && b.block.statements@[l.offset as int] is Share implies
            #[trigger] all_accepted(r).contains(l) by {
            types::law_shared_transactions_in_order(b.block, l);
            let i = choose|i: int| 0 <= i < ls.len() && ls[i] == l;
            assert(all_accepted(r)[x.len() + i] == l);
        }
    } else {
        let yes = with_verdict(ls, valid[k]@, true, ls.len() as int);
        let no = with_verdict(ls, valid[k]@, false, ls.len() as int);
        let (x, y) = choose|x: Seq<TransactionLocator>, y: Seq<TransactionLocator>|
            owed(blocks, valid, true, n) == #[trigger] (x + yes + y);
        let (u, v) = choose|x: Seq<TransactionLocator>, y: Seq<TransactionLocator>|
            owed(blocks, valid, false, n) == #[trigger] (x + no + y);
        assert(valid[k]@.len() == ls.len());
        assert forall|j: int| 0 <= j < valid[k]@.len() implies if #[trigger] valid[k]@[j] {
            all_accepted(r).contains(ls[j])
        } else {
            all_rejected(r).contains(ls[j])
        } by {
            let verdict = valid[k]@[j];
            lemma_with_verdict(ls, valid[k]@, verdict, ls.len() as int, ls[j]);
            if verdict {
                let i = choose|i: int| 0 <= i < yes.len() && yes[i] == ls[j];
                assert(all_accepted(r)[x.len() + i] == ls[j]);
            } else {
                let i = choose|i: int| 0 <= i < no.len() && no[i] == ls[j];
                assert(all_rejected(r)[u.len() + i] == ls[j]);
            }
        }
    }
}

proof fn lemma_with_verdict(
    ls: Seq<TransactionLocator>,
    valid: Seq<bool>,
    verdict: bool,
    k: int,
    l: TransactionLocator,
)
    requires
        0 <= k <= ls.len(),
    ensures
        with_verdict(ls, valid, verdict, k).contains(l) <==> exists|j: int|
            0 <= j < k && #[trigger] ls[j] == l && valid[j] == verdict,
    decreases k,
{
    if k > 0 {
        lemma_with_verdict(ls, valid, verdict, k - 1, l);
        let before = with_verdict(ls, valid, verdict, k - 1);
        let now = with_verdict(ls, valid, verdict, k);
        if before.contains(l) {
            let i = choose|i: int| 0 <= i < before.len() && before[i] == l;
            assert(now[i] == l);
        }
        if ls[k - 1] == l && valid[k - 1] == verdict {
            assert(now[now.len() - 1] == l);
        }
        if now.contains(l) && !before.contains(l) {
            let i = choose|i: int| 0 <= i < now.len() && now[i] == l;
            if i < before.len() {
                assert(before[i] == l);
            }
            assert(ls[k - 1] == l);
        }
        if exists|j: int| 0 <= j < k && #[trigger] ls[j] == l && valid[j] == verdict {
            let j = choose|j: int| 0 <= j < k && #[trigger] ls[j] == l && valid[j] == verdict;
            if j < k - 1 {
                assert(before.contains(l));
            }
        }
    }
}

/// What the votes of a response accept is shared by one of the blocks, and passed its
/// check where the block is checked one by one; and what they reject is of a block that
/// is checked one by one, and did not pass.
pub proof fn law_votes_are_on_what_is_shared(
    blocks: Seq<ReceivedBlock>,
    valid: Seq<Vec<bool>>,
    verdict: bool,
    l: TransactionLocator,
    k: int,
)
    requires
        checks_complete(blocks, valid),
        0 <= k <= blocks.len(),
        (if verdict {
            all_accepted(votes_on(blocks, valid, k))
        } else {
            all_rejected(votes_on(blocks, valid, k))
        }).contains(l),
    ensures
        exists|i: int|
            {
                &&& 0 <= i < k
                &&& (#[trigger] blocks[i]).block.shared_locators().contains(l)
                &&& blocks[i].check_individual ==> exists|j: int|
                    0 <= j < valid[i]@.len() && #[trigger] blocks[i].block.shared_locators()[j] == l
                        && valid[i]@[j] == verdict
                &&& !verdict ==> blocks[i].check_individual
            },
    decreases k,
{
    lemma_votes_on(blocks, valid, k);
    let all = owed(blocks, valid, verdict, k);
    let at = choose|at: int| 0 <= at < all.len() && all[at] == l;
    let before = owed(blocks, valid, verdict, k - 1);
    if k > 0 {
        lemma_votes_on(blocks, valid, k - 1);
        if at < before.len() {
            assert(before[at] == l);
            law_votes_are_on_what_is_shared(blocks, valid, verdict, l, k - 1);
        } else {
            let b = blocks[k - 1];
            let ls = b.block.shared_locators();
            if b.check_individual {
                let part = with_verdict(ls, valid[k - 1]@, verdict, ls.len() as int);
                assert(part[at - before.len()] == l);
                lemma_with_verdict(ls, valid[k - 1]@, verdict, ls.len() as int, l);
                let j = choose|j: int|
                    0 <= j < ls.len() && #[trigger] ls[j] == l && valid[k - 1]@[j] == verdict;
                assert(valid[k - 1]@.len() == ls.len());
                assert(blocks[k - 1].block.shared_locators()[j] == l);
            } else {
                assert(ls[at - before.len()] == l);
            }
        }
    }
}

/// A node that behaves well shares the first transactions of the pool, unchanged and in
/// order, and leaves the others in it. It shares as many as there are, as long as no more
/// than twenty thousand wait to be proposed.
pub proof fn law_honest_node_shares_the_pool(
    handler: RealBlockHandler,
    after: RealBlockHandler,
    pool: Seq<Transaction>,
    rest: Seq<Transaction>,
    blocks: Seq<ReceivedBlock>,
    valid: Seq<Vec<bool>>,
    stakes: Seq<u64>,
    elapsed: u64,
    now: u64,
    r: Seq<BaseStatement>,
)
    requires
        handler.answered(&after, pool, rest, blocks, valid, stakes, true, elapsed, now, r),
        checks_complete(blocks, valid),
        handler.fault is None || elapsed < handler.fault->0.start_delay,
    ensures
        ({
            let n = after.pending_transactions - handler.pending_transactions;
            &&& 0 <= n <= pool.len()
            &&& n <= r.len()
            &&& forall|m: int| 0 <= m < n ==> #[trigger] r[m] == BaseStatement::Share(pool[m])
            &&& pool == pool.take(n) + rest
            &&& handler.pending_transactions <= 20000 ==> after.pending_transactions <= 20000
            &&& rest.len() > 0 ==> after.pending_transactions >= 20000
            &&& handler.pending_transactions >= 20000 ==> n == 0
        }),
{
    let n = mempool::taken(handler.capacity(), pool.len()) as int;
    let txs = choose|txs: Seq<Transaction>|
        {
            &&& #[trigger] proposed(pool.take(n), txs, handler.behavior_at(elapsed), now)
            &&& r == shares_of(txs) + votes_on(blocks, valid, blocks.len() as int)
            &&& after.pending_transactions == handler.pending_transactions + txs.len()
        };
    assert(txs == pool.take(n));
    assert(pool =~= pool.take(n) + pool.skip(n));
    assert forall|m: int| 0 <= m < n implies #[trigger] r[m] == BaseStatement::Share(pool[m]) by {
        assert(r[m] == shares_of(txs)[m]);
    }
}

/// Where no response is required, the node says nothing, and the pool and the number of
/// transactions that wait stay as they are.
pub proof fn law_no_response_where_none_is_required(
    handler: RealBlockHandler,
    after: RealBlockHandler,
    pool: Seq<Transaction>,
    rest: Seq<Transaction>,
    blocks: Seq<ReceivedBlock>,
    valid: Seq<Vec<bool>>,
    stakes: Seq<u64>,
    elapsed: u64,
    now: u64,
    r: Seq<BaseStatement>,
)
    requires
        handler.answered(&after, pool, rest, blocks, valid, stakes, false, elapsed, now, r),
    ensures
        r =~= Seq::<BaseStatement>::empty(),
        rest == pool,
        after.pending_transactions == handler.pending_transactions,
        after.transaction_time == handler.transaction_time,
{
}

/// A transaction is as one of a list.
pub open spec fn is_copy(t: Transaction, pool: Seq<Transaction>) -> bool {
    exists|j: int|
        0 <= j < pool.len() && t.data@ == (#[trigger] pool[j]).data@ && t.timestamp
            == pool[j].timestamp
}

/// A misbehaving node keeps the number of its transactions or adds copies: of those that
/// it damages, one in a hundred and at least one, the first byte is one more, and all other
/// bytes and transactions stay; of those that it doubles, as many copies follow.
pub proof fn law_misbehaviour_is_bounded(
    pool: Seq<Transaction>,
    out: Seq<Transaction>,
    behavior: ByzantineType,
    now: u64,
)
    requires
        proposed(pool, out, Some(behavior), now),
        pool.len() > 0,
    ensures
        behavior is InvalidProof ==> exists|indices: Seq<usize>|
            {
                &&& indices.no_duplicates()
                &&& pool.len() < 200 ==> indices.len() == 1
                &&& pool.len() >= 200 ==> 100 * indices.len() <= pool.len() < 100 * indices.len()
                    + 100
                &&& out.len() == pool.len()
                &&& forall|i: int|
                    #![trigger out[i]]
                    0 <= i < pool.len() ==> {
                        &&& !indices.contains(i as usize) ==> out[i] == pool[i]
                        &&& indices.contains(i as usize) ==> {
                            &&& out[i].timestamp == now
                            &&& out[i].data@.len() == pool[i].data@.len()
                            &&& pool[i].data@.len() > 0 ==> out[i].data@[0] as int == (
                            pool[i].data@[0] + 1) % 256
                            &&& forall|j: int|
                                1 <= j < pool[i].data@.len() ==> #[trigger] out[i].data@[j]
                                    == pool[i].data@[j]
                        }
                    }
            },
        behavior is DoubleVote ==> {
            &&& pool.len() < 200 ==> out.len() == pool.len() + 1
            &&& pool.len() >= 200 ==> out.len() == pool.len() + pool.len() / 100
            &&& forall|i: int| 0 <= i < pool.len() ==> #[trigger] out[i] == pool[i]
            &&& forall|i: int| pool.len() <= i < out.len() ==> is_copy(#[trigger] out[i], pool)
        },
{
    let indices = choose|indices: Seq<usize>|
        {
            &&& #[trigger] is_sample(indices, pool.len(), affected(pool.len()))
            &&& match behavior {
                ByzantineType::InvalidProof => corrupted(pool, out, indices, now),
                ByzantineType::DoubleVote => doubled(pool, out, indices),
            }
        };
    match behavior {
        ByzantineType::InvalidProof => {
            assert(indices.no_duplicates());
        },
        ByzantineType::DoubleVote => {
            assert forall|i: int| pool.len() <= i < out.len() implies is_copy(
                #[trigger] out[i],
                pool,
            ) by {
                let m = i - pool.len();
                let j = indices[m] as int;
                assert(out[pool.len() + m].data@ == pool[j].data@);
            }
        },
    }
}

/// A fault begins when its delay has passed, and lasts from then on.
pub proof fn law_fault_begins_after_its_delay(handler: RealBlockHandler, early: u64, late: u64)
    requires
        early <= late,
    ensures
        handler.fault is None ==> handler.behavior_at(late) is None,
        handler.fault matches Some(f) ==> handler.behavior_at(f.start_delay) == Some(f.behavior),
        handler.behavior_at(early) is Some ==> handler.behavior_at(late)
            == handler.behavior_at(early),
        handler.behavior_at(early) is None && handler.behavior_at(late) is Some
            ==> handler.fault is Some && early < handler.fault->0.start_delay <= late,
{
}

/// The time of a proposal is kept for less than ten seconds: a clock that goes on drops
/// it once and for all, and one that is behind keeps it.
pub proof fn law_proposal_times_last_ten_seconds(time: u64, now: u64, later: u64)
    requires
        now <= later,
    ensures
        recent(time, time),
        recent(time, later) ==> recent(time, now),
        recent(time, now) <==> now < time + 10000,
{
}

proof fn lemma_proposed_at(
    m: Map<TransactionLocator, u64>,
    ls: Seq<TransactionLocator>,
    now: u64,
    k: int,
    l: TransactionLocator,
)
    requires
        0 <= k <= ls.len(),
    ensures
        ls.take(k).contains(l) ==> proposed_at(m, ls, now, k).dom().contains(l) && proposed_at(
            m,
            ls,
            now,
            k,
        )[l] == now,
        !ls.take(k).contains(l) ==> proposed_at(m, ls, now, k).dom().contains(l) == m.dom().contains(
            l,
        ) && (m.dom().contains(l) ==> proposed_at(m, ls, now, k)[l] == m[l]),
    decreases k,
{
    if k > 0 {
        lemma_proposed_at(m, ls, now, k - 1, l);
        let a = ls.take(k - 1);
        let b = ls.take(k);
        assert(b =~= a.push(ls[k - 1]));
        if a.contains(l) {
            let i = choose|i: int| 0 <= i < a.len() && a[i] == l;
            assert(b[i] == l);
        }
        if ls[k - 1] == l {
            assert(b[k - 1] == l);
        }
        if b.contains(l) {
            let i = choose|i: int| 0 <= i < b.len() && b[i] == l;
            if i < k - 1 {
                assert(a[i] == l);
            }
        }
    }
}

/// A proposal notes the time of exactly the transactions that the block shares.
pub proof fn law_proposal_notes_its_transactions(
    m: Map<TransactionLocator, u64>,
    block: StatementBlock,
    now: u64,
    l: TransactionLocator,
)
    requires
        block.statements@.len() <= u64::MAX,
    ensures
        ({
            let after = proposed_at(
                m,
                block.shared_locators(),
                now,
                block.shared_locators().len() as int,
            );
            let shared = l.block == block.reference && l.offset < block.statements@.len()
                && block.statements@[l.offset as int] is Share;
            &&& shared ==> after.dom().contains(l) && after[l] == now
            &&& !shared ==> after.dom().contains(l) == m.dom().contains(l)
            &&& !shared && m.dom().contains(l) ==> after[l] == m[l]
        }),
{
    let ls = block.shared_locators();
    types::law_shared_transactions_in_order(block, l);
    lemma_proposed_at(m, ls, now, ls.len() as int, l);
    assert(ls.take(ls.len() as int) =~= ls);
}

proof fn lemma_whole_votes_on(blocks: Seq<StatementBlock>, k: int)
    requires
        0 <= k <= blocks.len(),
        forall|i: int| 0 <= i < blocks.len() ==> (#[trigger] blocks[i]).statements@.len() <= u64::MAX,
    ensures
        all_rejected(whole_votes_on(blocks, k)).len() == 0,
        forall|i: int, l: TransactionLocator|
            0 <= i < k && (#[trigger] blocks[i].shared_locators().contains(l))
                ==> all_accepted(whole_votes_on(blocks, k)).contains(l),
        forall|l: TransactionLocator| #[trigger]
            all_accepted(whole_votes_on(blocks, k)).contains(l) ==> exists|i: int|
                0 <= i < k && (#[trigger] blocks[i]).shared_locators().contains(l),
    decreases k,
{
    if k > 0 {
        lemma_whole_votes_on(blocks, k - 1);
        let b = blocks[k - 1];
        assert(b.statements@.len() <= u64::MAX);
        law_whole_block_is_accepted(b);
        let before = whole_votes_on(blocks, k - 1);
        lemma_joined(before, whole_votes(b));
        let a = all_accepted(before);
        let ls = b.shared_locators();
        let all = all_accepted(whole_votes_on(blocks, k));
        assert forall|i: int, l: TransactionLocator|
            0 <= i < k && (#[trigger] blocks[i].shared_locators().contains(l)) implies all.contains(
            l,
        ) by {
            if i < k - 1 {
                assert(a.contains(l));
                let j = choose|j: int| 0 <= j < a.len() && a[j] == l;
                assert(all[j] == l);
            } else {
                let j = choose|j: int| 0 <= j < ls.len() && ls[j] == l;
                assert(all[a.len() + j] == l);
            }
        }
        assert forall|l: TransactionLocator| #[trigger] all.contains(l) implies exists|i: int|
            0 <= i < k && (#[trigger] blocks[i]).shared_locators().contains(l) by {
            let j = choose|j: int| 0 <= j < all.len() && all[j] == l;
            if j < a.len() {
                assert(a[j] == l);
                assert(a.contains(l));
            } else {
                assert(ls[j - a.len()] == l);
                assert(blocks[k - 1].shared_locators().contains(l));
            }
        }
    }
}

/// The handler that proposes one transaction with every response accepts exactly what
/// the blocks share and rejects nothing, and the number of its transaction is the next
/// after all that its own blocks share.
pub proof fn law_test_response_accepts_what_is_shared(
    handler: TestBlockHandler,
    after: TestBlockHandler,
    blocks: Seq<StatementBlock>,
    stakes: Seq<u64>,
    now: u64,
    r: Seq<BaseStatement>,
    l: TransactionLocator,
)
    requires
        handler.answered(&after, blocks, stakes, true, now, r),
        forall|i: int| 0 <= i < blocks.len() ==> (#[trigger] blocks[i]).statements@.len() <= u64::MAX,
    ensures
        all_rejected(r.skip(1)).len() == 0,
        all_accepted(r.skip(1)).contains(l) <==> exists|i: int|
            {
                &&& 0 <= i < blocks.len()
                &&& l.block == (#[trigger] blocks[i]).reference
                &&& l.offset < blocks[i].statements@.len()
                &&& blocks[i].statements@[l.offset as int] is Share
            },
        r[0] is Share,
        r[0]->Share_0.timestamp == now,
        r[0]->Share_0.data@ == vstd::bytes::spec_u64_to_le_bytes(after.last_transaction),
        after.last_transaction > handler.last_transaction,
        after.last_transaction == handler.last_transaction + 1 + own_shares(
            blocks,
            handler.authority,
            blocks.len() as int,
        ),
        blocks.len() == 0 ==> after.last_transaction == handler.last_transaction + 1,
{
    lemma_whole_votes_on(blocks, blocks.len() as int);
    if exists|i: int|
        {
            &&& 0 <= i < blocks.len()
            &&& l.block == (#[trigger] blocks[i]).reference
            &&& l.offset < blocks[i].statements@.len()
            &&& blocks[i].statements@[l.offset as int] is Share
        } {
        let i = choose|i: int|
            {
                &&& 0 <= i < blocks.len()
                &&& l.block == (#[trigger] blocks[i]).reference
                &&& l.offset < blocks[i].statements@.len()
                &&& blocks[i].statements@[l.offset as int] is Share
            };
        types::law_shared_transactions_in_order(blocks[i], l);
        assert(blocks[i].shared_locators().contains(l));
    }
    if all_accepted(r.skip(1)).contains(l) {
        let i = choose|i: int|
            0 <= i < blocks.len() && (#[trigger] blocks[i]).shared_locators().contains(l);
        types::law_shared_transactions_in_order(blocks[i], l);
    }
}

proof fn lemma_counted_split(
    s: transaction_aggregator::VoteState,
    a: Seq<ReceivedBlock>,
    b: Seq<ReceivedBlock>,
    stakes: Seq<u64>,
    k: int,
)
    requires
        0 <= k <= a.len() + b.len(),
    ensures
        k <= a.len() ==> counted_after(s, a + b, stakes, k) == counted_after(s, a, stakes, k),
        k >= a.len() ==> counted_after(s, a + b, stakes, k) == counted_after(
            counted_after(s, a, stakes, a.len() as int),
            b,
            stakes,
            k - a.len(),
        ),
    decreases k,
{
    if k > 0 {
        lemma_counted_split(s, a, b, stakes, k - 1);
        if k <= a.len() {
            assert((a + b)[k - 1] == a[k - 1]);
        } else {
            assert((a + b)[k - 1] == b[k - 1 - a.len()]);
        }
    }
}

/// The votes of all received blocks are counted, one block after the other and whichever
/// way it is voted on.
pub proof fn law_every_block_is_counted(
    s: transaction_aggregator::VoteState,
    a: Seq<ReceivedBlock>,
    b: Seq<ReceivedBlock>,
    x: ReceivedBlock,
    stakes: Seq<u64>,
)
    ensures
        counted_after(s, a + b, stakes, (a + b).len() as int) == counted_after(
            counted_after(s, a, stakes, a.len() as int),
            b,
            stakes,
            b.len() as int,
        ),
        counted_after(s, seq![x], stakes, 1) == transaction_aggregator::block_counted(
            s,
            x.block,
            stakes,
        ),
        counted_after(s, Seq::empty(), stakes, 0) == s,
{
    lemma_counted_split(s, a, b, stakes, (a + b).len() as int);
    let one = seq![x];
    assert(one[0] == x);
    assert(counted_after(s, one, stakes, 0) == s);
    assert(counted_after(s, one, stakes, 1) == transaction_aggregator::block_counted(
        counted_after(s, one, stakes, 0),
        one[0].block,
        stakes,
    ));
}

/// The test handler counts the votes of all blocks as the other one does.
pub proof fn law_handlers_count_alike(
    s: transaction_aggregator::VoteState,
    blocks: Seq<StatementBlock>,
    received: Seq<ReceivedBlock>,
    stakes: Seq<u64>,
    k: int,
)
    requires
        0 <= k <= blocks.len(),
        received.len() == blocks.len(),
        forall|i: int| 0 <= i < blocks.len() ==> (#[trigger] received[i]).block == blocks[i],
    ensures
        blocks_counted(s, blocks, stakes, k) == counted_after(s, received, stakes, k),
    decreases k,
{
    if k > 0 {
        law_handlers_count_alike(s, blocks, received, stakes, k - 1);
        assert(received[k - 1].block == blocks[k - 1]);
    }
}

proof fn lemma_own_shares_split(
    a: Seq<StatementBlock>,
    b: Seq<StatementBlock>,
    authority: u64,
    k: int,
)
    requires
        0 <= k <= a.len() + b.len(),
    ensures
        k <= a.len() ==> own_shares(a + b, authority, k) == own_shares(a, authority, k),
        k >= a.len() ==> own_shares(a + b, authority, k) == own_shares(a, authority, a.len() as int)
            + own_shares(b, authority, k - a.len()),
    decreases k,
{
    if k > 0 {
        lemma_own_shares_split(a, b, authority, k - 1);
        if k <= a.len() {
            assert((a + b)[k - 1] == a[k - 1]);
        } else {
            assert((a + b)[k - 1] == b[k - 1 - a.len()]);
        }
    }
}

/// The transactions of a handler's own blocks are counted block by block, and those of
/// others are not.
pub proof fn law_own_transactions_are_counted(
    a: Seq<StatementBlock>,
    b: Seq<StatementBlock>,
    x: StatementBlock,
    authority: u64,
)
    ensures
        own_shares(a + b, authority, (a + b).len() as int) == own_shares(
            a,
            authority,
            a.len() as int,
        ) + own_shares(b, authority, b.len() as int),
        x.reference.authority == authority ==> own_shares(seq![x], authority, 1)
            == x.shared_locators().len(),
        x.reference.authority != authority ==> own_shares(seq![x], authority, 1) == 0,
{
    lemma_own_shares_split(a, b, authority, (a + b).len() as int);
    let one = seq![x];
    assert(one[0] == x);
    assert(own_shares(one, authority, 0) == 0);
}

/// A node that takes part in the consensus only counts no votes; any other counts those of
/// every block, whether it answers or not. What it was set up with stays.
pub proof fn law_votes_are_counted_unless_told_not_to(
    handler: RealBlockHandler,
    after: RealBlockHandler,
    pool: Seq<Transaction>,
    rest: Seq<Transaction>,
    blocks: Seq<ReceivedBlock>,
    valid: Seq<Vec<bool>>,
    stakes: Seq<u64>,
    require_response: bool,
    elapsed: u64,
    now: u64,
    r: Seq<BaseStatement>,
)
    requires
        handler.answered(
            &after,
            pool,
            rest,
            blocks,
            valid,
            stakes,
            require_response,
            elapsed,
            now,
            r,
        ),
    ensures
        handler.consensus_only ==> after.transaction_votes.state()
            == handler.transaction_votes.state(),
        !handler.consensus_only ==> after.transaction_votes.state() == counted_after(
            handler.transaction_votes.state(),
            blocks,
            stakes,
            blocks.len() as int,
        ),
        after.authority == handler.authority,
        after.consensus_only == handler.consensus_only,
        after.fault == handler.fault,
{
}

/// A node that has nothing to propose proposes nothing, however it misbehaves, and one that
/// behaves well proposes what it took as it is.
pub proof fn law_nothing_is_made_up(
    pool: Seq<Transaction>,
    out: Seq<Transaction>,
    behavior: Option<ByzantineType>,
    now: u64,
)
    requires
        proposed(pool, out, behavior, now),
    ensures
        pool.len() == 0 ==> out.len() == 0,
        behavior is None ==> out == pool,
        out.len() >= pool.len(),
{
}

/// Answering leaves alone who the test handler is, what it has proposed and when, and counts
/// the votes of all blocks; and where no response is required nothing is said, and the
/// number of its next transaction stays.
pub proof fn law_test_handler_keeps_its_proposals(
    handler: TestBlockHandler,
    after: TestBlockHandler,
    blocks: Seq<StatementBlock>,
    stakes: Seq<u64>,
    require_response: bool,
    now: u64,
    r: Seq<BaseStatement>,
)
    requires
        handler.answered(&after, blocks, stakes, require_response, now, r),
    ensures
        after.authority == handler.authority,
        after.proposed@ == handler.proposed@,
        after.transaction_time == handler.transaction_time,
        after.transaction_votes.state() == blocks_counted(
            handler.transaction_votes.state(),
            blocks,
            stakes,
            blocks.len() as int,
        ),
        !require_response ==> r.len() == 0 && after.last_transaction == handler.last_transaction,
        require_response ==> r.len() > 0,
{
}

} // verus!
