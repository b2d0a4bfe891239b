//! The core of a node: what it has seen and not yet answered, when it makes a
//! block of its own, and what it puts into it.
use crate::block_handler::{authors_known, own_shares, RealBlockHandler, ReceivedBlock, TestBlockHandler};
use crate::committee;
use crate::committee::{AuthorityIndex, Committee};
use crate::commit_handler::CommittedSubDag;
use crate::epoch_close;
use crate::epoch_close::EpochManager;
use crate::mempool::Mempool;
use crate::threshold_clock;
use crate::threshold_clock::ThresholdClockAggregator;
use crate::types;
use crate::types::{
    BaseStatement, BlockReference, BlockStore, RoundNumber, StatementBlock, Transaction,
    TransactionLocator,
};
use std::collections::VecDeque;
use vstd::prelude::*;

verus! {

/// Whether what is written is forced to disk at once.
#[derive(Clone, Copy, Debug, PartialEq, Eq, Structural)]
pub struct CoreOptions {
    pub fsync: bool,
}

impl CoreOptions {
    /// The options for tests.
    pub fn test() -> (r: Self)
        ensures
            !r.fsync,
    {
        CoreOptions { fsync: false }
    }

    /// The options for a running node.
    pub fn production() -> (r: Self)
        ensures
            r.fsync,
    {
        CoreOptions { fsync: true }
    }
}

impl Default for CoreOptions {
    fn default() -> (r: Self)
        ensures
            !r.fsync,
    {
        CoreOptions::test()
    }
}

/// Something for the next block: a block to refer to, or statements to make.
#[derive(Debug)]
pub enum MetaStatement {
    Include(BlockReference),
    Payload(Vec<BaseStatement>),
}

/// Something for the next block, and where it stands in the log.
#[derive(Debug)]
pub struct PendingEntry {
    pub position: u64,
    pub statement: MetaStatement,
}

/// The position after all positions of the log.
pub const END_OF_LOG: u64 = u64::MAX;

/// The entry is for a block of the given round or a later one.
pub open spec fn is_late(e: PendingEntry, round: u64) -> bool {
    e.statement matches MetaStatement::Include(r) && r.round >= round
}

/// The first entry from `i` on that is for a block of the given round or a
/// later one.
pub open spec fn cut_from(p: Seq<PendingEntry>, round: u64, i: int) -> int
    decreases p.len() - i,
{
    if i >= p.len() {
        p.len() as int
    } else if is_late(p[i], round) {
        i
    } else {
        cut_from(p, round, i + 1)
    }
}

/// The entries that go into a block of the given round.
pub open spec fn taken_for(p: Seq<PendingEntry>, round: u64) -> Seq<PendingEntry> {
    p.take(cut_from(p, round, 0))
}

/// A block is referred to already: by the node's last block, or by a block
/// among the entries.
pub open spec fn referenced(
    store: Map<BlockReference, StatementBlock>,
    own: BlockReference,
    taken: Seq<PendingEntry>,
    r: BlockReference,
) -> bool {
    ||| store[own].includes@.contains(r)
    ||| exists|i: int|
        0 <= i < taken.len() && refers_to(store, #[trigger] taken[i], r)
}

/// An entry is for a known block that refers to another one.
pub open spec fn refers_to(
    store: Map<BlockReference, StatementBlock>,
    e: PendingEntry,
    r: BlockReference,
) -> bool {
    e.statement matches MetaStatement::Include(x) && store.dom().contains(x)
        && store[x].includes@.contains(r)
}

/// What a block refers to: the node's last block, and those of the first `k`
/// entries that are not referred to already.
pub open spec fn block_includes(
    store: Map<BlockReference, StatementBlock>,
    own: BlockReference,
    taken: Seq<PendingEntry>,
    k: int,
) -> Seq<BlockReference>
    decreases k,
{
    if k <= 0 {
        seq![own]
    } else {
        let rest = block_includes(store, own, taken, k - 1);
        match taken[k - 1].statement {
            MetaStatement::Include(r) => if referenced(store, own, taken, r) {
                rest
            } else {
                rest.push(r)
            },
            MetaStatement::Payload(_) => rest,
        }
    }
}

/// The statements of the first `k` entries.
pub open spec fn block_statements(taken: Seq<PendingEntry>, k: int) -> Seq<BaseStatement>
    decreases k,
{
    if k <= 0 {
        Seq::empty()
    } else {
        match taken[k - 1].statement {
            MetaStatement::Include(_) => block_statements(taken, k - 1),
            MetaStatement::Payload(s) => block_statements(taken, k - 1) + s@,
        }
    }
}

/// The contents of a block that is to be made.
#[derive(Debug)]
pub struct BlockProposal {
    pub authority: AuthorityIndex,
    pub round: RoundNumber,
    pub includes: Vec<BlockReference>,
    pub statements: Vec<BaseStatement>,
    pub epoch_marker: bool,
}

/// The clock after the entries' first `k` blocks.
pub open spec fn ticked_by_entries(
    s: threshold_clock::ClockState,
    p: Seq<PendingEntry>,
    stakes: Seq<u64>,
    k: int,
) -> threshold_clock::ClockState
    decreases k,
{
    if k <= 0 {
        s
    } else {
        let before = ticked_by_entries(s, p, stakes, k - 1);
        match p[k - 1].statement {
            MetaStatement::Include(r) => threshold_clock::ticked(before, r, stakes),
            MetaStatement::Payload(_) => before,
        }
    }
}

/// The clock after the first `k` of some blocks.
pub open spec fn ticked_by_blocks(
    s: threshold_clock::ClockState,
    blocks: Seq<PositionedBlock>,
    stakes: Seq<u64>,
    k: int,
) -> threshold_clock::ClockState
    decreases k,
{
    if k <= 0 {
        s
    } else {
        threshold_clock::ticked(
            ticked_by_blocks(s, blocks, stakes, k - 1),
            blocks[k - 1].block.reference,
            stakes,
        )
    }
}

/// A block, and where it stands in the log.
#[derive(Debug)]
pub struct PositionedBlock {
    pub position: u64,
    pub block: StatementBlock,
}

/// The blocks are of members, and their rounds are not the last one.
pub open spec fn blocks_acceptable(blocks: Seq<PositionedBlock>, stakes: Seq<u64>) -> bool {
    forall|i: int|
        0 <= i < blocks.len() ==> reference_acceptable(
            (#[trigger] blocks[i]).block.reference,
            stakes,
        )
}

/// The block is of a member, and its round is not the last one.
pub open spec fn reference_acceptable(r: BlockReference, stakes: Seq<u64>) -> bool {
    r.authority < stakes.len() && r.round < u64::MAX
}

/// The entries' blocks are of members, and their rounds are not the last one.
pub open spec fn entries_acceptable(p: Seq<PendingEntry>, stakes: Seq<u64>) -> bool {
    forall|i: int|
        #![trigger p[i]]
        0 <= i < p.len() && p[i].statement is Include ==> reference_acceptable(
            p[i].statement->Include_0,
            stakes,
        )
}

/// The blocks by their references, with the first `k` of some blocks.
pub open spec fn stored(
    m: Map<BlockReference, StatementBlock>,
    blocks: Seq<PositionedBlock>,
    k: int,
) -> Map<BlockReference, StatementBlock>
    decreases k,
{
    if k <= 0 {
        m
    } else {
        stored(m, blocks, k - 1).insert(blocks[k - 1].block.reference, blocks[k - 1].block)
    }
}

/// The entries for blocks.
pub open spec fn entries_for(blocks: Seq<PositionedBlock>) -> Seq<PendingEntry> {
    Seq::new(
        blocks.len(),
        |i: int|
            PendingEntry {
                position: blocks[i].position,
                statement: MetaStatement::Include(blocks[i].block.reference),
            },
    )
}

/// What a node finds in its log when it starts.
pub struct RecoveredState {
    pub block_store: BlockStore,
    /// The node's last block, and the position in the log that it answers up to.
    pub last_own_block: Option<OwnBlock>,
    pub pending: VecDeque<PendingEntry>,
    pub last_committed_leader: Option<BlockReference>,
}

/// A block of the node, and the position in the log of the first entry that it
/// does not answer.
#[derive(Clone, Copy, Debug, PartialEq, Eq, Structural)]
pub struct OwnBlock {
    pub reference: BlockReference,
    pub next_entry: u64,
}

/// What is written of a commit: the leader, and the blocks that it brings with it.
#[derive(Debug)]
pub struct CommitData {
    pub leader: BlockReference,
    pub sub_dag: Vec<BlockReference>,
}

/// What is written of a commit names its leader, and its blocks in order.
pub open spec fn is_data_of(d: CommitData, c: CommittedSubDag) -> bool {
    &&& d.leader == c.anchor
    &&& d.sub_dag@.len() == c.blocks@.len()
    &&& forall|j: int|
        0 <= j < d.sub_dag@.len() ==> #[trigger] d.sub_dag@[j] == c.blocks@[j].reference
}

/// What is written of commits, in their order.
pub open spec fn are_data_of(d: Seq<CommitData>, committed: Seq<CommittedSubDag>) -> bool {
    &&& d.len() == committed.len()
    &&& forall|i: int| 0 <= i < d.len() ==> is_data_of(#[trigger] d[i], committed[i])
}

/// The committed blocks are of members.
pub open spec fn commits_acceptable(committed: Seq<CommittedSubDag>, stakes: Seq<u64>) -> bool {
    forall|i: int, j: int|
        0 <= i < committed.len() && 0 <= j < committed[i].blocks@.len() ==> (
        #[trigger] committed[i].blocks@[j]).reference.authority < stakes.len()
}

/// Blocks whose transactions are voted on one by one.
pub open spec fn one_by_one(blocks: Seq<StatementBlock>) -> Seq<ReceivedBlock> {
    Seq::new(blocks.len(), |i: int| ReceivedBlock { block: blocks[i], check_individual: true })
}

/// The core of a node.
pub struct Core {
    pub block_store: BlockStore,
    pub pending: VecDeque<PendingEntry>,
    pub last_own: OwnBlock,
    pub authority: AuthorityIndex,
    pub threshold_clock: ThresholdClockAggregator,
    pub last_commit_leader: BlockReference,
    pub options: CoreOptions,
    pub epoch_manager: EpochManager,
    pub rounds_in_epoch: RoundNumber,
    pub committed_leaders: Vec<BlockReference>,
}

impl Core {
    /// The blocks are held under their references, the node's last block among
    /// them, and votes are counted as the committee's.
    pub open spec fn wf(&self, stakes: Seq<u64>) -> bool {
        &&& self.block_store.wf()
        &&& self.threshold_clock.wf(stakes)
        &&& self.epoch_manager.wf(stakes)
        &&& self.authority < stakes.len()
        &&& self.last_own.reference.authority == self.authority
        &&& self.block_store@.dom().contains(self.last_own.reference)
    }

    /// Everything but the log, the blocks, the clock and the last own block.
    pub open spec fn same_history(&self, other: &Self) -> bool {
        &&& self.authority == other.authority
        &&& self.last_commit_leader == other.last_commit_leader
        &&& self.options == other.options
        &&& self.epoch_manager == other.epoch_manager
        &&& self.rounds_in_epoch == other.rounds_in_epoch
        &&& self.committed_leaders@ == other.committed_leaders@
    }

    /// Starts from what was found in the log. Where the node has no block yet,
    /// `genesis` holds the first blocks: those of the others in order, and at
    /// last its own.
    pub fn open(
        authority: AuthorityIndex,
        committee: &Committee,
        recovered: RecoveredState,
        genesis: Vec<PositionedBlock>,
        options: CoreOptions,
        rounds_in_epoch: RoundNumber,
    ) -> (r: Self)
        requires
            recovered.block_store.wf(),
            authority < committee.stakes().len(),
            entries_acceptable(recovered.pending@, committee.stakes()),
            match recovered.last_own_block {
                Some(own) => {
                    &&& own.reference.authority == authority
                    &&& recovered.block_store@.dom().contains(own.reference)
                },
                None => {
                    &&& recovered.pending@.len() == 0
                    &&& genesis@.len() > 0
                    &&& blocks_acceptable(genesis@, committee.stakes())
                    &&& genesis@.last().block.reference.authority == authority
                },
            },
        ensures
            r.wf(committee.stakes()),
            r.authority == authority,
            r.options == options,
            r.rounds_in_epoch == rounds_in_epoch,
            r.committed_leaders@.len() == 0,
            r.epoch_manager.seen() == (epoch_close::EpochView {
                status: types::InternalEpochStatus::Open,
                markers: Set::empty(),
                close_time: 0,
            }),
            r.last_commit_leader == (match recovered.last_committed_leader {
                Some(l) => l,
                None => no_block(),
            }),
            match recovered.last_own_block {
                Some(own) => {
                    &&& r.last_own == own
                    &&& r.block_store == recovered.block_store
                    &&& r.pending@ == recovered.pending@
                    &&& r.threshold_clock.state() == ticked_by_entries(
                        first_clock(),
                        recovered.pending@,
                        committee.stakes(),
                        recovered.pending@.len() as int,
                    )
                },
                None => {
                    &&& r.last_own == (OwnBlock {
                        reference: genesis@.last().block.reference,
                        next_entry: END_OF_LOG,
                    })
                    &&& r.block_store@ == stored(
                        recovered.block_store@,
                        genesis@,
                        genesis@.len() as int,
                    )
                    &&& r.pending@ == entries_for(genesis@.drop_last())
                    &&& r.threshold_clock.state() == ticked_by_blocks(
                        first_clock(),
                        genesis@,
                        committee.stakes(),
                        genesis@.len() as int,
                    )
                },
            },
    {
        let ghost stakes = committee.stakes();
        let mut store = recovered.block_store;
        let mut pending = recovered.pending;
        let mut clock = ThresholdClockAggregator::new(0);
        assert(clock.wf(stakes));
        assert(clock.state() =~= first_clock());
        let last_own = match recovered.last_own_block {
            Some(own) => {
                let mut i: usize = 0;
                while i < pending.len()
                    invariant
                        i <= pending@.len(),
                        stakes == committee.stakes(),
                        clock.wf(stakes),
                        entries_acceptable(pending@, stakes),
                        clock.state() == ticked_by_entries(
                            first_clock(),
                            pending@,
                            stakes,
                            i as int,
                        ),
                    decreases pending@.len() - i,
                {
                    if let MetaStatement::Include(r) = &pending[i].statement {
                        clock.add_block(*r, committee);
                    }
                    i = i + 1;
                }
                own
            },
            None => {
                let ghost all = genesis@;
                let count: usize = genesis.len();
                let mut rest: VecDeque<PositionedBlock> = to_deque(genesis);
                let mut reference = no_reference();
                let ghost m = store@;
                let mut i: usize = 0;
                assert(all.drop_last().take(0) =~= Seq::<PositionedBlock>::empty());
                assert(entries_for(all.drop_last().take(0)) =~= Seq::<PendingEntry>::empty());
                while i < count
                    invariant
                        i <= count,
                        count == all.len(),
                        count > 0,
                        stakes == committee.stakes(),
                        clock.wf(stakes),
                        store.wf(),
                        blocks_acceptable(all, stakes),
                        rest@ == all.skip(i as int),
                        store@ == stored(m, all, i as int),
                        clock.state() == ticked_by_blocks(first_clock(), all, stakes, i as int),
                        i < count ==> pending@ == entries_for(all.drop_last().take(i as int)),
                        i == count ==> pending@ == entries_for(all.drop_last()),
                        i > 0 ==> reference == all[i - 1].block.reference,
                        i > 0 ==> store@.dom().contains(reference),
                    decreases count - i,
                {
                    match rest.pop_front() {
                        Some(entry) => {
                            assert(entry == all[i as int]);
                            reference = entry.block.reference;
                            clock.add_block(reference, committee);
                            store.insert_block(entry.block);
                            if i + 1 < count {
                                pending.push_back(
                                    PendingEntry {
                                        position: entry.position,
                                        statement: MetaStatement::Include(reference),
                                    },
                                );
                                proof {
                                    let d = all.drop_last();
                                    assert(entries_for(d.take(i + 1)) =~= entries_for(
                                        d.take(i as int),
                                    ).push(pending@.last()));
                                }
                            } else {
                                assert(all.drop_last().take(i as int) =~= all.drop_last());
                            }
                            assert(rest@ =~= all.skip(i + 1));
                        },
                        None => {
                            assert(all.skip(i as int).len() > 0);
                        },
                    }
                    i = i + 1;
                }
                OwnBlock { reference, next_entry: END_OF_LOG }
            },
        };
        let last_commit_leader = match recovered.last_committed_leader {
            Some(l) => l,
            None => no_reference(),
        };
        Core {
            block_store: store,
            pending,
            last_own,
            authority,
            threshold_clock: clock,
            last_commit_leader,
            options,
            epoch_manager: EpochManager::new(),
            rounds_in_epoch,
            committed_leaders: Vec::new(),
        }
    }

    /// The core with other options.
    pub fn with_options(self, options: CoreOptions) -> (r: Self)
        ensures
            r == (Core { options, ..self }),
    {
        let mut r = self;
        r.options = options;
        r
    }

    /// Takes blocks in whose histories are known.
    pub fn add_blocks(&mut self, blocks: Vec<PositionedBlock>, committee: &Committee)
        requires
            old(self).wf(committee.stakes()),
            blocks_acceptable(blocks@, committee.stakes()),
        ensures
            final(self).wf(committee.stakes()),
            final(self).same_history(&*old(self)),
            final(self).last_own == old(self).last_own,
            final(self).pending@ == old(self).pending@ + entries_for(blocks@),
            final(self).block_store@ == stored(
                old(self).block_store@,
                blocks@,
                blocks@.len() as int,
            ),
            final(self).threshold_clock.state() == ticked_by_blocks(
                old(self).threshold_clock.state(),
                blocks@,
                committee.stakes(),
                blocks@.len() as int,
            ),
    {
        let ghost before = *self;
        let ghost stakes = committee.stakes();
        let ghost all = blocks@;
        let count: usize = blocks.len();
        let mut rest: VecDeque<PositionedBlock> = to_deque(blocks);
        let mut i: usize = 0;
        assert(self.pending@ =~= before.pending@ + entries_for(all.take(0)));
        while i < count
            invariant
                i <= count,
                count == all.len(),
                stakes == committee.stakes(),
                self.wf(stakes),
                self.same_history(&before),
                self.last_own == before.last_own,
                blocks_acceptable(all, stakes),
                rest@ == all.skip(i as int),
                self.block_store@ == stored(before.block_store@, all, i as int),
                self.pending@ == before.pending@ + entries_for(all.take(i as int)),
                self.threshold_clock.state() == ticked_by_blocks(
                    before.threshold_clock.state(),
                    all,
                    stakes,
                    i as int,
                ),
            decreases count - i,
        {
            match rest.pop_front() {
                Some(entry) => {
                    assert(entry == all[i as int]);
                    let reference = entry.block.reference;
                    self.threshold_clock.add_block(reference, committee);
                    self.pending.push_back(
                        PendingEntry {
                            position: entry.position,
                            statement: MetaStatement::Include(reference),
                        },
                    );
                    self.block_store.insert_block(entry.block);
                    assert(self.pending@ =~= before.pending@ + entries_for(all.take(i + 1)));
                    assert(rest@ =~= all.skip(i + 1));
                },
                None => {
                    assert(all.skip(i as int).len() > 0);
                },
            }
            i = i + 1;
        }
        assert(all.take(i as int) =~= all);
    }

    /// Whether blocks are answered: not while the epoch changes.
    pub fn requires_response(&self) -> (b: bool)
        ensures
            b == (self.epoch_manager.status() is Open),
    {
        !self.epoch_changing()
    }

    /// Takes statements for the next block, which stand in the log.
    pub fn add_payload(&mut self, statements: Vec<BaseStatement>, position: u64)
        ensures
            final(self).same_history(&*old(self)),
            final(self).last_own == old(self).last_own,
            final(self).block_store == old(self).block_store,
            final(self).threshold_clock == old(self).threshold_clock,
            final(self).pending@ == old(self).pending@.push(
                PendingEntry { position, statement: MetaStatement::Payload(statements) },
            ),
    {
        self.pending.push_back(
            PendingEntry { position, statement: MetaStatement::Payload(statements) },
        );
    }

    /// The statements of the last entry, where it holds statements.
    pub fn last_payload(&self) -> (r: Option<&Vec<BaseStatement>>)
        ensures
            match r {
                Some(v) => self.pending@.len() > 0 && self.pending@.last().statement
                    == MetaStatement::Payload(*v),
                None => self.pending@.len() == 0 || self.pending@.last().statement is Include,
            },
    {
        let count: usize = self.pending.len();
        if count == 0 {
            return None;
        }
        match &self.pending[count - 1].statement {
            MetaStatement::Payload(v) => Some(v),
            MetaStatement::Include(_) => None,
        }
    }

    /// Only a payload was added to what waits for the next block.
    pub open spec fn took_payload(
        &self,
        before: &Self,
        statements: Vec<BaseStatement>,
        position: u64,
    ) -> bool {
        &&& self.same_history(before)
        &&& self.last_own == before.last_own
        &&& self.block_store == before.block_store
        &&& self.threshold_clock == before.threshold_clock
        &&& self.pending@ == before.pending@.push(
            PendingEntry { position, statement: MetaStatement::Payload(statements) },
        )
    }

    /// Hands blocks to the node's handler and takes what it answers for the next
    /// block, to stand in the log at `position`. Blocks are answered unless the
    /// epoch changes.
    pub fn run_block_handler(
        &mut self,
        handler: &mut RealBlockHandler,
        committee: &Committee,
        pool: &mut Mempool,
        blocks: &Vec<ReceivedBlock>,
        valid: &Vec<Vec<bool>>,
        elapsed: u64,
        now: u64,
        position: u64,
    )
        requires
            old(handler).wf(committee.stakes()),
            authors_known(blocks@, committee.stakes()),
            valid@.len() == blocks@.len(),
            forall|i: int|
                0 <= i < blocks@.len() && blocks@[i].check_individual ==> (
                #[trigger] valid@[i])@.len() == blocks@[i].block.shared_locators().len(),
        ensures
            final(handler).wf(committee.stakes()),
            exists|statements: Vec<BaseStatement>|
                #[trigger] final(self).took_payload(&*old(self), statements, position)
                    && old(handler).answered(
                    &*final(handler),
                    old(pool)@,
                    final(pool)@,
                    blocks@,
                    valid@,
                    committee.stakes(),
                    old(self).epoch_manager.status() is Open,
                    elapsed,
                    now,
                    statements@,
                ),
    {
        let require_response = self.requires_response();
        let statements = handler.handle_blocks(
            committee,
            pool,
            blocks,
            valid,
            require_response,
            elapsed,
            now,
        );
        let ghost answer = statements;
        self.add_payload(statements, position);
        assert(self.took_payload(&*old(self), answer, position));
    }

    /// Hands the blocks of the log that were not processed before the node stopped to
    /// its handler, each to be voted on one by one. Where there are none, nothing
    /// changes.
    pub fn replay(
        &mut self,
        handler: &mut RealBlockHandler,
        committee: &Committee,
        pool: &mut Mempool,
        unprocessed: Vec<StatementBlock>,
        valid: &Vec<Vec<bool>>,
        elapsed: u64,
        now: u64,
        position: u64,
    )
        requires
            old(handler).wf(committee.stakes()),
            forall|i: int|
                0 <= i < unprocessed@.len() ==> (#[trigger] unprocessed@[i]).reference.authority
                    < committee.stakes().len(),
            valid@.len() == unprocessed@.len(),
            forall|i: int|
                0 <= i < unprocessed@.len() ==> (#[trigger] valid@[i])@.len()
                    == unprocessed@[i].shared_locators().len(),
        ensures
            final(handler).wf(committee.stakes()),
            unprocessed@.len() == 0 ==> *final(self) == *old(self) && *final(handler) == *old(
                handler,
            ) && *final(pool) == *old(pool),
            unprocessed@.len() > 0 ==> exists|statements: Vec<BaseStatement>|
                #[trigger] final(self).took_payload(&*old(self), statements, position)
                    && old(handler).answered(
                    &*final(handler),
                    old(pool)@,
                    final(pool)@,
                    one_by_one(unprocessed@),
                    valid@,
                    committee.stakes(),
                    old(self).epoch_manager.status() is Open,
                    elapsed,
                    now,
                    statements@,
                ),
    {
        if unprocessed.len() == 0 {
            return;
        }
        let ghost all = unprocessed@;
        let count: usize = unprocessed.len();
        let mut rest = unprocessed;
        let mut reversed: Vec<ReceivedBlock> = Vec::new();
        let mut i: usize = 0;
        while i < count
            invariant
                i <= count,
                count == all.len(),
                rest@ == all.take(count - i),
                reversed@.len() == i,
                forall|k: int|
                    0 <= k < i ==> #[trigger] reversed@[k] == one_by_one(all)[count - 1 - k],
            decreases count - i,
        {
            match rest.pop() {
                Some(block) => {
                    reversed.push(ReceivedBlock { block, check_individual: true });
                },
                None => {},
            }
            i = i + 1;
            assert(all.take(count - i) =~= rest@);
        }
        let mut blocks: Vec<ReceivedBlock> = Vec::new();
        let mut j: usize = 0;
        while j < count
            invariant
                j <= count,
                count == all.len(),
                reversed@.len() == count - j,
                forall|k: int|
                    0 <= k < count - j ==> #[trigger] reversed@[k] == one_by_one(all)[count - 1
                        - k],
                blocks@ == one_by_one(all).take(j as int),
            decreases count - j,
        {
            match reversed.pop() {
                Some(b) => {
                    blocks.push(b);
                },
                None => {},
            }
            j = j + 1;
            assert(blocks@ =~= one_by_one(all).take(j as int));
        }
        assert(blocks@ =~= one_by_one(all));
        assert forall|k: int| 0 <= k < blocks@.len() implies (#[trigger] blocks@[k]).block == all[k] by {
            assert(blocks@[k] == one_by_one(all)[k]);
        }
        self.run_block_handler(handler, committee, pool, &blocks, valid, elapsed, now, position);
    }

    /// As `run_block_handler`, with a handler for tests.
    pub fn run_test_block_handler(
        &mut self,
        handler: &mut TestBlockHandler,
        committee: &Committee,
        blocks: &Vec<StatementBlock>,
        now: u64,
        position: u64,
    )
        requires
            old(handler).wf(committee.stakes()),
            forall|i: int|
                0 <= i < blocks@.len() ==> (#[trigger] blocks@[i]).reference.authority
                    < committee.stakes().len(),
            old(handler).last_transaction + own_shares(
                blocks@,
                old(handler).authority,
                blocks@.len() as int,
            ) < u64::MAX,
        ensures
            final(handler).wf(committee.stakes()),
            exists|statements: Vec<BaseStatement>|
                #[trigger] final(self).took_payload(&*old(self), statements, position)
                    && old(handler).answered(
                    &*final(handler),
                    blocks@,
                    committee.stakes(),
                    old(self).epoch_manager.status() is Open,
                    now,
                    statements@,
                ),
    {
        let require_response = self.requires_response();
        let statements = handler.handle_blocks(committee, blocks, require_response, now);
        let ghost answer = statements;
        self.add_payload(statements, position);
        assert(self.took_payload(&*old(self), answer, position));
    }

    /// The first entry that is for a block of the given round or a later one.
    fn cut(&self, round: RoundNumber) -> (n: usize)
        ensures
            n == cut_from(self.pending@, round, 0),
            n <= self.pending@.len(),
    {
        let mut i: usize = 0;
        while i < self.pending.len()
            invariant
                i <= self.pending@.len(),
                cut_from(self.pending@, round, 0) == cut_from(self.pending@, round, i as int),
            decreases self.pending@.len() - i,
        {
            if let MetaStatement::Include(r) = &self.pending[i].statement {
                if r.round >= round {
                    return i;
                }
            }
            i = i + 1;
        }
        i
    }

    /// Whether a block is referred to already.
    fn is_referenced(&self, taken: &VecDeque<PendingEntry>, r: &BlockReference) -> (b: bool)
        requires
            self.block_store.wf(),
            self.block_store@.dom().contains(self.last_own.reference),
        ensures
            b == referenced(self.block_store@, self.last_own.reference, taken@, *r),
    {
        match self.block_store.get_block(self.last_own.reference) {
            Some(own) => {
                if contains_reference(&own.includes, r) {
                    return true;
                }
            },
            None => {},
        }
        let mut i: usize = 0;
        while i < taken.len()
            invariant
                i <= taken@.len(),
                self.block_store.wf(),
                forall|k: int|
                    0 <= k < i ==> !refers_to(self.block_store@, #[trigger] taken@[k], *r),
            decreases taken@.len() - i,
        {
            if let MetaStatement::Include(x) = &taken[i].statement {
                if let Some(block) = self.block_store.get_block(*x) {
                    if contains_reference(&block.includes, r) {
                        assert(refers_to(self.block_store@, taken@[i as int], *r));
                        return true;
                    }
                }
            }
            i = i + 1;
        }
        false
    }

    /// Which of the entries are referred to already.
    fn marks(&self, taken: &VecDeque<PendingEntry>) -> (r: Vec<bool>)
        requires
            self.block_store.wf(),
            self.block_store@.dom().contains(self.last_own.reference),
        ensures
            r@.len() == taken@.len(),
            forall|i: int|
                #![trigger r@[i]]
                0 <= i < r@.len() && taken@[i].statement is Include ==> r@[i] == referenced(
                    self.block_store@,
                    self.last_own.reference,
                    taken@,
                    taken@[i].statement->Include_0,
                ),
    {
        let mut out: Vec<bool> = Vec::new();
        let mut i: usize = 0;
        while i < taken.len()
            invariant
                i <= taken@.len(),
                out@.len() == i,
                self.block_store.wf(),
                self.block_store@.dom().contains(self.last_own.reference),
                forall|k: int|
                    #![trigger out@[k]]
                    0 <= k < i && taken@[k].statement is Include ==> out@[k] == referenced(
                        self.block_store@,
                        self.last_own.reference,
                        taken@,
                        taken@[k].statement->Include_0,
                    ),
            decreases taken@.len() - i,
        {
            let mark = match &taken[i].statement {
                MetaStatement::Include(r) => self.is_referenced(taken, r),
                MetaStatement::Payload(_) => false,
            };
            out.push(mark);
            i = i + 1;
        }
        out
    }

    /// Begins a block of its own, if the clock has moved past its last one: takes
    /// the entries up to the first block of the clock's round, and gives the
    /// contents of the block.
    pub fn try_new_block(&mut self) -> (r: Option<BlockProposal>)
        requires
            old(self).block_store.wf(),
            old(self).block_store@.dom().contains(old(self).last_own.reference),
        ensures
            final(self).same_history(&*old(self)),
            final(self).last_own == old(self).last_own,
            final(self).block_store == old(self).block_store,
            final(self).threshold_clock == old(self).threshold_clock,
            r is Some <==> old(self).threshold_clock.state().round > old(
                self).last_own.reference.round,
            r is None ==> final(self).pending@ == old(self).pending@,
            r matches Some(b) ==> old(self).proposes(b, final(self).pending@),
            r matches Some(b) ==> {
                let round = old(self).threshold_clock.state().round;
                let taken = taken_for(old(self).pending@, round);
                &&& b.authority == old(self).authority
                &&& b.round == round
                &&& b.epoch_marker == !(old(self).epoch_manager.status() is Open)
                &&& b.includes@ == block_includes(
                    old(self).block_store@,
                    old(self).last_own.reference,
                    taken,
                    taken.len() as int,
                )
                &&& b.statements@ == (if b.epoch_marker {
                    Seq::empty()
                } else {
                    block_statements(taken, taken.len() as int)
                })
                &&& final(self).pending@ == old(self).pending@.skip(taken.len() as int)
            },
    {
        let round = self.threshold_clock.get_round();
        if round <= self.last_own.reference.round {
            return None;
        }
        let ghost before = *self;
        let ghost p = self.pending@;
        let n: usize = self.cut(round);
        let mut taken = self.pending.split_off(n);
        std::mem::swap(&mut taken, &mut self.pending);
        let ghost all = taken@;
        assert(all =~= taken_for(p, round));
        assert(self.pending@ =~= p.skip(n as int));
        let marks = self.marks(&taken);
        let changing = self.epoch_changing();
        let own = self.last_own.reference;
        let ghost store = self.block_store@;
        let mut includes: Vec<BlockReference> = Vec::new();
        includes.push(own);
        assert(includes@ =~= seq![own]);
        let mut statements: Vec<BaseStatement> = Vec::new();
        let count: usize = taken.len();
        let mut i: usize = 0;
        while i < count
            invariant
                i <= count,
                count == all.len(),
                count == marks@.len(),
                taken@ == all.skip(i as int),
                forall|i: int|
                    #![trigger marks@[i]]
                    0 <= i < marks@.len() && all[i].statement is Include ==> marks@[i]
                        == referenced(store, own, all, all[i].statement->Include_0),
                includes@ == block_includes(store, own, all, i as int),
                statements@ == (if changing {
                    Seq::empty()
                } else {
                    block_statements(all, i as int)
                }),
            decreases count - i,
        {
            let mark = marks[i];
            match taken.pop_front() {
                Some(entry) => {
                    assert(entry == all[i as int]);
                    match entry.statement {
                        MetaStatement::Include(r) => {
                            if !mark {
                                includes.push(r);
                            }
                        },
                        MetaStatement::Payload(payload) => {
                            if !changing {
                                let mut payload = payload;
                                statements.append(&mut payload);
                            }
                        },
                    }
                    assert(taken@ =~= all.skip(i + 1));
                },
                None => {
                    assert(all.skip(i as int).len() > 0);
                },
            }
            i = i + 1;
        }
        Some(
            BlockProposal {
                authority: self.authority,
                round,
                includes,
                statements,
                epoch_marker: changing,
            },
        )
    }

    /// Takes note of a block that the node has made and signed. Tells whether
    /// the log is to be forced to disk.
    pub fn add_own_block(&mut self, block: StatementBlock, committee: &Committee) -> (fsync: bool)
        requires
            old(self).wf(committee.stakes()),
            block.reference.authority == old(self).authority,
            block.reference.round < u64::MAX,
        ensures
            final(self).wf(committee.stakes()),
            final(self).same_history(&*old(self)),
            final(self).pending@ == old(self).pending@,
            final(self).block_store@ == old(self).block_store@.insert(block.reference, block),
            final(self).threshold_clock.state() == threshold_clock::ticked(
                old(self).threshold_clock.state(),
                block.reference,
                committee.stakes(),
            ),
            final(self).last_own == (OwnBlock {
                reference: block.reference,
                next_entry: if old(self).pending@.len() > 0 {
                    old(self).pending@[0].position
                } else {
                    END_OF_LOG
                },
            }),
            fsync == old(self).options.fsync,
    {
        let reference = block.reference;
        self.threshold_clock.add_block(reference, committee);
        let next_entry: u64 = if self.pending.len() > 0 {
            self.pending[0].position
        } else {
            END_OF_LOG
        };
        self.last_own = OwnBlock { reference, next_entry };
        self.block_store.insert_block(block);
        self.options.fsync
    }

    /// Takes note of leaders that have been committed, and of the blocks that
    /// they bring with them. Gives what is to be written of the commits.
    pub fn try_commit(
        &mut self,
        leaders: &Vec<BlockReference>,
        committed: &Vec<CommittedSubDag>,
        committee: &Committee,
        now: u64,
    ) -> (r: Vec<CommitData>)
        requires
            old(self).wf(committee.stakes()),
            commits_acceptable(committed@, committee.stakes()),
        ensures
            final(self).wf(committee.stakes()),
            final(self).authority == old(self).authority,
            final(self).options == old(self).options,
            final(self).rounds_in_epoch == old(self).rounds_in_epoch,
            final(self).pending@ == old(self).pending@,
            final(self).last_own == old(self).last_own,
            final(self).block_store == old(self).block_store,
            final(self).threshold_clock == old(self).threshold_clock,
            final(self).committed_leaders@ == old(self).committed_leaders@ + leaders@,
            final(self).last_commit_leader == last_leader(old(self).last_commit_leader, leaders@),
            final(self).epoch_manager.seen() == after_commits(
                begun(
                    old(self).epoch_manager.seen(),
                    last_leader(old(self).last_commit_leader, leaders@).round > old(
                        self).rounds_in_epoch,
                ),
                committed@,
                committee.stakes(),
                now,
                committed@.len() as int,
            ),
            are_data_of(r@, committed@),
    {
        let ghost before = *self;
        if leaders.len() > 0 {
            self.last_commit_leader = leaders[leaders.len() - 1];
        }
        if self.last_commit_leader.round > self.rounds_in_epoch {
            self.epoch_manager.epoch_change_begun();
        }
        assert(self.epoch_manager.seen() =~= begun(
            before.epoch_manager.seen(),
            self.last_commit_leader.round > before.rounds_in_epoch,
        ));
        let mut k: usize = 0;
        while k < leaders.len()
            invariant
                k <= leaders@.len(),
                self.committed_leaders@ == before.committed_leaders@ + leaders@.take(k as int),
                *self == (Core {
                    committed_leaders: self.committed_leaders,
                    last_commit_leader: self.last_commit_leader,
                    epoch_manager: self.epoch_manager,
                    ..before
                }),
                self.last_commit_leader == last_leader(before.last_commit_leader, leaders@),
                self.epoch_manager.wf(committee.stakes()),
                self.epoch_manager.seen() == begun(
                    before.epoch_manager.seen(),
                    self.last_commit_leader.round > before.rounds_in_epoch,
                ),
            decreases leaders@.len() - k,
        {
            self.committed_leaders.push(leaders[k]);
            k = k + 1;
            assert(self.committed_leaders@ =~= before.committed_leaders@ + leaders@.take(k as int));
        }
        assert(leaders@.take(k as int) =~= leaders@);
        self.handle_committed_subdag(committed, committee, now)
    }

    /// Takes note of the blocks that committed leaders bring with them, as far as
    /// the change of epoch goes. Gives what is to be written of the commits.
    pub fn handle_committed_subdag(
        &mut self,
        committed: &Vec<CommittedSubDag>,
        committee: &Committee,
        now: u64,
    ) -> (r: Vec<CommitData>)
        requires
            old(self).wf(committee.stakes()),
            commits_acceptable(committed@, committee.stakes()),
        ensures
            final(self).wf(committee.stakes()),
            *final(self) == (Core { epoch_manager: final(self).epoch_manager, ..*old(self) }),
            final(self).epoch_manager.seen() == after_commits(
                old(self).epoch_manager.seen(),
                committed@,
                committee.stakes(),
                now,
                committed@.len() as int,
            ),
            are_data_of(r@, committed@),
    {
        let ghost before = *self;
        let ghost stakes = committee.stakes();
        let ghost v = self.epoch_manager.seen();
        let mut out: Vec<CommitData> = Vec::new();
        let mut i: usize = 0;
        while i < committed.len()
            invariant
                i <= committed@.len(),
                stakes == committee.stakes(),
                commits_acceptable(committed@, stakes),
                self.wf(stakes),
                *self == (Core { epoch_manager: self.epoch_manager, ..before }),
                self.epoch_manager.seen() == after_commits(v, committed@, stakes, now, i as int),
                out@.len() == i,
                forall|k: int| 0 <= k < i ==> is_data_of(#[trigger] out@[k], committed@[k]),
            decreases committed@.len() - i,
        {
            let ghost w = self.epoch_manager.seen();
            let ghost blocks = committed@[i as int].blocks@;
            let mut sub_dag: Vec<BlockReference> = Vec::new();
            let mut j: usize = 0;
            while j < committed[i].blocks.len()
                invariant
                    i < committed@.len(),
                    blocks == committed@[i as int].blocks@,
                    j <= blocks.len(),
                    stakes == committee.stakes(),
                    commits_acceptable(committed@, stakes),
                    self.wf(stakes),
                    *self == (Core { epoch_manager: self.epoch_manager, ..before }),
                    self.epoch_manager.seen() == epoch_close::after_blocks(
                        w,
                        blocks,
                        stakes,
                        now,
                        j as int,
                    ),
                    sub_dag@.len() == j,
                    forall|k: int| 0 <= k < j ==> #[trigger] sub_dag@[k] == blocks[k].reference,
                decreases blocks.len() - j,
            {
                let block = &committed[i].blocks[j];
                assert(committed@[i as int].blocks@[j as int].reference.authority < stakes.len());
                self.epoch_manager.observe_committed_block_at(block, committee, now);
                sub_dag.push(block.reference);
                j = j + 1;
            }
            out.push(CommitData { leader: committed[i].anchor, sub_dag });
            i = i + 1;
        }
        out
    }

    /// The round below which blocks need not be kept at hand.
    pub fn cleanup_threshold(&self) -> (r: RoundNumber)
        ensures
            r == kept_from(self.last_commit_leader.round),
    {
        self.last_commit_leader.round.saturating_sub(RETAIN_BELOW_COMMIT_ROUNDS)
    }

    /// The round whose leaders are waited for before the next block, where the
    /// clock is past the last commit and the first period.
    pub fn leader_round(&self, period: u64) -> (r: Option<RoundNumber>)
        requires
            period > 0,
        ensures
            r == self.awaited_round(period),
    {
        let round = self.threshold_clock.get_round();
        if round > self.last_commit_leader.round && round > period - 1 {
            Some(round - 1)
        } else {
            None
        }
    }

    /// The round whose leaders are waited for before the next block.
    pub open spec fn awaited_round(&self, period: u64) -> Option<RoundNumber> {
        let round = self.threshold_clock.state().round;
        if round > self.last_commit_leader.round && round > period - 1 {
            Some((round - 1) as u64)
        } else {
            None
        }
    }

    /// A block that the core begins, and the entries that are left for later ones.
    pub open spec fn proposes(&self, b: BlockProposal, rest: Seq<PendingEntry>) -> bool {
        let round = self.threshold_clock.state().round;
        let taken = taken_for(self.pending@, round);
        let changing = !(self.epoch_manager.status() is Open);
        &&& round > self.last_own.reference.round
        &&& b.authority == self.authority
        &&& b.round == round
        &&& b.epoch_marker == changing
        &&& b.includes@ == block_includes(
            self.block_store@,
            self.last_own.reference,
            taken,
            taken.len() as int,
        )
        &&& changing ==> b.statements@.len() == 0
        &&& !changing ==> b.statements@ == block_statements(taken, taken.len() as int)
        &&& rest == self.pending@.skip(taken.len() as int)
    }

    /// A leader is connected, and none of its blocks of a round is known.
    pub open spec fn misses(
        &self,
        connected: Seq<AuthorityIndex>,
        leader: AuthorityIndex,
        round: RoundNumber,
    ) -> bool {
        connected.contains(leader) && !has_block_at(self.block_store@, leader, round)
    }

    /// Whether it is time for a block as far as commits go: the blocks of all
    /// connected leaders of the round before have arrived. `leaders` are those
    /// of the round that is waited for.
    pub fn ready_new_block(
        &self,
        period: u64,
        connected: &Vec<AuthorityIndex>,
        leaders: &Vec<AuthorityIndex>,
    ) -> (b: bool)
        requires
            period > 0,
            self.block_store.wf(),
        ensures
            b == match self.awaited_round(period) {
                Some(round) => forall|i: int|
                    0 <= i < leaders@.len() ==> !self.misses(connected@, #[trigger] leaders@[i], round),
                None => false,
            },
    {
        match self.leader_round(period) {
            None => false,
            Some(round) => {
                let mut i: usize = 0;
                while i < leaders.len()
                    invariant
                        i <= leaders@.len(),
                        self.awaited_round(period) == Some(round),
                        self.block_store.wf(),
                        forall|k: int|
                            0 <= k < i ==> !self.misses(connected@, #[trigger] leaders@[k], round),
                    decreases leaders@.len() - i,
                {
                    if contains_authority(connected, leaders[i]) && !block_exists_at(
                        &self.block_store,
                        leaders[i],
                        round,
                    ) {
                        assert(self.misses(connected@, leaders@[i as int], round));
                        return false;
                    }
                    i = i + 1;
                }
                true
            },
        }
    }

    /// The round of the node's last block.
    pub fn last_proposed(&self) -> (r: RoundNumber)
        ensures
            r == self.last_own.reference.round,
    {
        self.last_own.reference.round
    }

    /// The node's last block.
    pub fn last_own_block(&self) -> (r: &StatementBlock)
        requires
            self.block_store.wf(),
            self.block_store@.dom().contains(self.last_own.reference),
        ensures
            *r == self.block_store@[self.last_own.reference],
    {
        self.block_store.get_block(self.last_own.reference).unwrap()
    }

    pub fn authority(&self) -> (r: AuthorityIndex)
        ensures
            r == self.authority,
    {
        self.authority
    }

    pub fn block_store(&self) -> (r: &BlockStore)
        ensures
            *r == self.block_store,
    {
        &self.block_store
    }

    pub fn committed_leaders(&self) -> (r: &Vec<BlockReference>)
        ensures
            *r == self.committed_leaders,
    {
        &self.committed_leaders
    }

    /// Whether the epoch is safe to close.
    pub fn epoch_closed(&self) -> (b: bool)
        ensures
            b == (self.epoch_manager.status() is SafeToClose),
    {
        self.epoch_manager.closed()
    }

    /// Whether the epoch is changing.
    pub fn epoch_changing(&self) -> (b: bool)
        ensures
            b == !(self.epoch_manager.status() is Open),
    {
        self.epoch_manager.changing()
    }

    /// When the epoch became safe to close, in milliseconds; zero before.
    pub fn epoch_closing_time(&self) -> (r: u64)
        ensures
            r == self.epoch_manager.close_time(),
    {
        self.epoch_manager.closing_time()
    }

    /// The transactions with given locators, without those that are not known.
    pub fn get_transactions(&self, locators: &Vec<TransactionLocator>) -> (r: Vec<Transaction>)
        requires
            self.block_store.wf(),
        ensures
            contents_of(r@) == known_contents(
                self.block_store,
                locators@,
                locators@.len() as int,
            ),
    {
        let mut out: Vec<Transaction> = Vec::new();
        let mut i: usize = 0;
        assert(contents_of(out@) =~= Seq::<(Seq<u8>, u64)>::empty());
        while i < locators.len()
            invariant
                i <= locators@.len(),
                self.block_store.wf(),
                contents_of(out@) == known_contents(self.block_store, locators@, i as int),
            decreases locators@.len() - i,
        {
            if let Some(t) = self.block_store.get_transaction(&locators[i]) {
                let ghost before = out@;
                let copy = t.duplicate();
                out.push(copy);
                assert(contents_of(out@) =~= contents_of(before).push((t.data@, t.timestamp)));
            }
            i = i + 1;
        }
        out
    }
}

/// The contents of transactions.
pub open spec fn contents_of(ts: Seq<Transaction>) -> Seq<(Seq<u8>, u64)> {
    Seq::new(ts.len(), |i: int| (ts[i].data@, ts[i].timestamp))
}

/// The contents of those of the first `k` transactions that are known.
pub open spec fn known_contents(
    store: BlockStore,
    ls: Seq<TransactionLocator>,
    k: int,
) -> Seq<(Seq<u8>, u64)>
    decreases k,
{
    if k <= 0 {
        Seq::empty()
    } else {
        let rest = known_contents(store, ls, k - 1);
        match store.transaction(ls[k - 1]) {
            Some(t) => rest.push((t.data@, t.timestamp)),
            None => rest,
        }
    }
}

/// How many rounds before the last commit blocks are kept at hand.
pub const RETAIN_BELOW_COMMIT_ROUNDS: u64 = 100;

/// The round from which blocks are kept at hand, where the last commit is of the
/// given round.
pub open spec fn kept_from(committed: u64) -> u64 {
    if committed >= RETAIN_BELOW_COMMIT_ROUNDS {
        (committed - RETAIN_BELOW_COMMIT_ROUNDS) as u64
    } else {
        0
    }
}

/// The clock of a node that has seen nothing.
pub open spec fn first_clock() -> threshold_clock::ClockState {
    threshold_clock::ClockState { round: 0, authors: Set::empty() }
}

/// The reference that stands for no block.
pub open spec fn no_block() -> BlockReference {
    BlockReference {
        authority: 0,
        round: 0,
        digest: types::BlockDigest { w0: 0, w1: 0, w2: 0, w3: 0 },
    }
}

fn no_reference() -> (r: BlockReference)
    ensures
        r == no_block(),
{
    BlockReference {
        authority: 0,
        round: 0,
        digest: types::BlockDigest { w0: 0, w1: 0, w2: 0, w3: 0 },
    }
}

/// The last of some leaders, or an earlier one where there are none.
pub open spec fn last_leader(earlier: BlockReference, leaders: Seq<BlockReference>) -> BlockReference {
    if leaders.len() > 0 {
        leaders.last()
    } else {
        earlier
    }
}

/// The change of epoch begins, if it is to and the epoch is open.
pub open spec fn begun(v: epoch_close::EpochView, begins: bool) -> epoch_close::EpochView {
    if begins && v.status is Open {
        epoch_close::EpochView { status: types::InternalEpochStatus::BeginChange, ..v }
    } else {
        v
    }
}

/// What is known of the change of epoch after the first `k` commits.
pub open spec fn after_commits(
    v: epoch_close::EpochView,
    committed: Seq<CommittedSubDag>,
    stakes: Seq<u64>,
    now: u64,
    k: int,
) -> epoch_close::EpochView
    decreases k,
{
    if k <= 0 {
        v
    } else {
        let blocks = committed[k - 1].blocks@;
        epoch_close::after_blocks(
            after_commits(v, committed, stakes, now, k - 1),
            blocks,
            stakes,
            now,
            blocks.len() as int,
        )
    }
}

/// A block of a member and a round is known.
pub open spec fn has_block_at(
    store: Map<BlockReference, StatementBlock>,
    authority: AuthorityIndex,
    round: RoundNumber,
) -> bool {
    exists|r: BlockReference| #[trigger]
        store.dom().contains(r) && r.authority == authority && r.round == round
}

fn block_exists_at(store: &BlockStore, authority: AuthorityIndex, round: RoundNumber) -> (b: bool)
    requires
        store.wf(),
    ensures
        b == has_block_at(store@, authority, round),
{
    let mut i: usize = 0;
    while i < store.blocks.entries.len()
        invariant
            i <= store.blocks.entries@.len(),
            store.wf(),
            forall|k: int|
                0 <= k < i ==> {
                    let r = (#[trigger] store.blocks.entries@[k]).0;
                    r.authority != authority || r.round != round
                },
        decreases store.blocks.entries@.len() - i,
    {
        let r = store.blocks.entries[i].0;
        if r.authority == authority && r.round == round {
            proof {
                crate::keymap::lemma_entry(store.blocks, i as int);
                assert(store@.dom().contains(r));
            }
            return true;
        }
        i = i + 1;
    }
    proof {
        if has_block_at(store@, authority, round) {
            let r = choose|r: BlockReference| #[trigger]
                store@.dom().contains(r) && r.authority == authority && r.round == round;
            assert(store.blocks.has(r));
            let k = crate::keymap::position(store.blocks.entries@, r);
            assert(store.blocks.entries@[k].0 == r);
        }
    }
    false
}

fn contains_reference(list: &Vec<BlockReference>, r: &BlockReference) -> (b: bool)
    ensures
        b == list@.contains(*r),
{
    let mut i: usize = 0;
    while i < list.len()
        invariant
            i <= list@.len(),
            forall|k: int| 0 <= k < i ==> list@[k] != *r,
        decreases list@.len() - i,
    {
        if list[i] == *r {
            assert(list@[i as int] == *r);
            return true;
        }
        i = i + 1;
    }
    false
}

fn contains_authority(list: &Vec<AuthorityIndex>, a: AuthorityIndex) -> (b: bool)
    ensures
        b == list@.contains(a),
{
    let mut i: usize = 0;
    while i < list.len()
        invariant
            i <= list@.len(),
            forall|k: int| 0 <= k < i ==> list@[k] != a,
        decreases list@.len() - i,
    {
        if list[i] == a {
            assert(list@[i as int] == a);
            return true;
        }
        i = i + 1;
    }
    false
}

/// Puts the elements of a list into a queue.
fn to_deque<A>(list: Vec<A>) -> (r: VecDeque<A>)
    ensures
        r@ == list@,
{
    let ghost all = list@;
    let mut list = list;
    let mut out: VecDeque<A> = VecDeque::new();
    while list.len() > 0
        invariant
            all == list@ + out@,
        decreases list@.len(),
    {
        let ghost l0 = list@;
        let ghost o0 = out@;
        match list.pop() {
            Some(a) => {
                out.push_front(a);
                assert(list@ + out@ =~= l0 + o0);
            },
            None => {},
        }
    }
    assert(out@ =~= all);
    out
}

/// How many transactions and votes the first `k` statements hold.
pub open spec fn statement_counts(s: Seq<BaseStatement>, k: int) -> (int, int)
    decreases k,
{
    if k <= 0 {
        (0, 0)
    } else {
        let (transactions, votes) = statement_counts(s, k - 1);
        match s[k - 1] {
            BaseStatement::Share(_) => (transactions + 1, votes),
            BaseStatement::Vote(_, _) => (transactions, votes + 1),
            BaseStatement::VoteRange(range) => (transactions, votes + range.count()),
        }
    }
}

/// How many transactions and votes a block holds.
pub fn proposed_block_stats(block: &StatementBlock) -> (r: (u64, u128))
    ensures
        (r.0 as int, r.1 as int) == statement_counts(
            block.statements@,
            block.statements@.len() as int,
        ),
{
    let mut transactions: u64 = 0;
    let mut votes: u128 = 0;
    let count: usize = block.statements.len();
    let mut i: usize = 0;
    while i < count
        invariant
            i <= count,
            count == block.statements@.len(),
            (transactions as int, votes as int) == statement_counts(block.statements@, i as int),
            transactions <= i,
            votes <= i * 0xffff_ffff_ffff_ffff,
        decreases count - i,
    {
        assert(i * 0xffff_ffff_ffff_ffff + 0xffff_ffff_ffff_ffff <= u128::MAX);
        match &block.statements[i] {
            BaseStatement::Share(_) => {
                transactions = transactions + 1;
            },
            BaseStatement::Vote(_, _) => {
                votes = votes + 1;
            },
            BaseStatement::VoteRange(range) => {
                if range.start < range.end {
                    votes = votes + (range.end - range.start) as u128;
                }
            },
        }
        i = i + 1;
    }
    (transactions, votes)
}

/// The entries before the cut are for blocks of earlier rounds.
proof fn lemma_cut(p: Seq<PendingEntry>, round: u64, i: int)
    requires
        0 <= i,
    ensures
        i <= p.len() ==> i <= cut_from(p, round, i) <= p.len(),
        forall|k: int| i <= k < cut_from(p, round, i) ==> !is_late(#[trigger] p[k], round),
    decreases p.len() - i,
{
    if i < p.len() && !is_late(p[i], round) {
        lemma_cut(p, round, i + 1);
    }
}

/// A new block refers to blocks of earlier rounds only, besides the node's own.
pub proof fn law_includes_are_earlier(
    store: Map<BlockReference, StatementBlock>,
    own: BlockReference,
    p: Seq<PendingEntry>,
    round: u64,
    k: int,
    r: BlockReference,
)
    requires
        0 <= k <= taken_for(p, round).len(),
        block_includes(store, own, taken_for(p, round), k).contains(r),
    ensures
        r == own || r.round < round,
    decreases k,
{
    let taken = taken_for(p, round);
    lemma_cut(p, round, 0);
    let all = block_includes(store, own, taken, k);
    let i = choose|i: int| 0 <= i < all.len() && all[i] == r;
    if k > 0 {
        let rest = block_includes(store, own, taken, k - 1);
        assert(taken[k - 1] == p[k - 1]);
        assert(!is_late(p[k - 1], round));
        if i < rest.len() {
            assert(rest[i] == r);
            law_includes_are_earlier(store, own, p, round, k - 1, r);
        }
    }
}

/// Nothing that has been seen is lost from a node's history: each of the blocks
/// that a new block answers is in the block's references, or in those of the
/// node's last block or of another block that it answers.
pub proof fn law_references_cover_what_was_seen(
    store: Map<BlockReference, StatementBlock>,
    own: BlockReference,
    taken: Seq<PendingEntry>,
    k: int,
    i: int,
)
    requires
        0 <= i < k <= taken.len(),
        taken[i].statement is Include,
    ensures
        ({
            let r = taken[i].statement->Include_0;
            block_includes(store, own, taken, k).contains(r) || referenced(store, own, taken, r)
        }),
    decreases k,
{
    let r = taken[i].statement->Include_0;
    let all = block_includes(store, own, taken, k);
    let rest = block_includes(store, own, taken, k - 1);
    if i < k - 1 {
        law_references_cover_what_was_seen(store, own, taken, k - 1, i);
        if rest.contains(r) {
            let j = choose|j: int| 0 <= j < rest.len() && rest[j] == r;
            assert(all[j] == r);
        }
    } else if !referenced(store, own, taken, r) {
        assert(all[rest.len() as int] == r);
    }
}

/// Every block of a node refers to its previous one first.
pub proof fn law_own_block_comes_first(
    store: Map<BlockReference, StatementBlock>,
    own: BlockReference,
    taken: Seq<PendingEntry>,
    k: int,
)
    ensures
        block_includes(store, own, taken, k).len() > 0,
        block_includes(store, own, taken, k)[0] == own,
    decreases k,
{
    if k > 0 {
        law_own_block_comes_first(store, own, taken, k - 1);
    }
}

/// The authors of blocks.
pub open spec fn authors_of(blocks: Seq<PositionedBlock>) -> Set<u64> {
    Set::new(
        |a: u64|
            exists|i: int|
                0 <= i < blocks.len() && (#[trigger] blocks[i]).block.reference.authority == a,
    )
}

proof fn lemma_counting(
    s: threshold_clock::ClockState,
    blocks: Seq<PositionedBlock>,
    stakes: Seq<u64>,
    k: int,
)
    requires
        0 <= k <= blocks.len(),
        s.round < u64::MAX,
        forall|i: int|
            0 <= i < blocks.len() ==> (#[trigger] blocks[i]).block.reference.round == s.round,
    ensures
        ({
            let t = ticked_by_blocks(s, blocks, stakes, k);
            ||| t.round == s.round + 1
            ||| {
                &&& t.round == s.round
                &&& k > 0 ==> !committee::quorum(stakes, t.authors)
                &&& forall|i: int|
                    0 <= i < k ==> t.authors.contains(
                        (#[trigger] blocks[i]).block.reference.authority,
                    )
            }
        }),
    decreases k,
{
    if k > 0 {
        lemma_counting(s, blocks, stakes, k - 1);
        assert(blocks[k - 1].block.reference.round == s.round);
    }
}

/// When blocks of one round have moved the clock on, nobody has been seen in the
/// new round.
pub proof fn lemma_round_is_fresh(
    s: threshold_clock::ClockState,
    blocks: Seq<PositionedBlock>,
    stakes: Seq<u64>,
    k: int,
)
    requires
        0 <= k <= blocks.len(),
        s.round < u64::MAX,
        forall|i: int|
            0 <= i < blocks.len() ==> (#[trigger] blocks[i]).block.reference.round == s.round,
    ensures
        ({
            let t = ticked_by_blocks(s, blocks, stakes, k);
            t.round == s.round || (t.round == s.round + 1 && t.authors == Set::<u64>::empty())
        }),
    decreases k,
{
    if k > 0 {
        lemma_round_is_fresh(s, blocks, stakes, k - 1);
        assert(blocks[k - 1].block.reference.round == s.round);
    }
}

/// A round ends when a quorum has blocks in it: once blocks of the current round
/// by such authors have arrived, the clock is at the next round, so that a node
/// whose last block is of the round makes another one.
pub proof fn law_a_quorum_ends_the_round(
    s: threshold_clock::ClockState,
    blocks: Seq<PositionedBlock>,
    stakes: Seq<u64>,
)
    requires
        s.round < u64::MAX,
        forall|i: int|
            0 <= i < blocks.len() ==> (#[trigger] blocks[i]).block.reference.round == s.round,
        committee::quorum(stakes, authors_of(blocks)),
    ensures
        ticked_by_blocks(s, blocks, stakes, blocks.len() as int).round == s.round + 1,
{
    let t = ticked_by_blocks(s, blocks, stakes, blocks.len() as int);
    lemma_counting(s, blocks, stakes, blocks.len() as int);
    if t.round == s.round {
        if blocks.len() == 0 {
            assert(authors_of(blocks) =~= Set::<u64>::empty());
            committee::lemma_stake_empty(stakes);
            committee::lemma_stake_bounded(stakes, Set::<u64>::empty());
        } else {
            assert(authors_of(blocks).subset_of(t.authors));
            committee::lemma_stake_monotone(stakes, authors_of(blocks), t.authors);
        }
    }
}

/// A block of a round takes the entries up to the first that is for a block of that round
/// or a later one, and no further.
pub proof fn law_block_takes_earlier_entries(p: Seq<PendingEntry>, round: u64)
    ensures
        ({
            let n = taken_for(p, round).len() as int;
            &&& n <= p.len()
            &&& taken_for(p, round) =~= p.subrange(0, n)
            &&& forall|i: int|
                0 <= i < n ==> ((#[trigger] p[i]).statement matches MetaStatement::Include(r)
                    ==> r.round < round)
            &&& n < p.len() ==> (p[n].statement is Include && p[n].statement->Include_0.round
                >= round)
        }),
{
    lemma_cut(p, round, 0);
    lemma_cut_is_late(p, round, 0);
}

proof fn lemma_cut_is_late(p: Seq<PendingEntry>, round: u64, i: int)
    requires
        0 <= i <= p.len(),
    ensures
        cut_from(p, round, i) < p.len() ==> is_late(p[cut_from(p, round, i)], round),
    decreases p.len() - i,
{
    if i < p.len() && !is_late(p[i], round) {
        lemma_cut_is_late(p, round, i + 1);
    }
}

/// A block that is answered is referred to by one that is answered too.
spec fn known_through(
    store: Map<BlockReference, StatementBlock>,
    own: BlockReference,
    taken: Seq<PendingEntry>,
    r: BlockReference,
) -> bool {
    store[own].includes@.contains(r) || exists|j: int|
        {
            &&& 0 <= j < taken.len()
            &&& (#[trigger] taken[j]).statement is Include
            &&& store.dom().contains(taken[j].statement->Include_0)
            &&& store[taken[j].statement->Include_0].includes@.contains(r)
        }
}

/// What a new block refers to besides the node's last one: the blocks among the entries
/// that neither the node's last block nor a known block among the entries refers to.
pub proof fn law_block_refers_to_the_unreferenced(
    store: Map<BlockReference, StatementBlock>,
    own: BlockReference,
    taken: Seq<PendingEntry>,
    k: int,
    r: BlockReference,
)
    requires
        0 <= k <= taken.len(),
    ensures
        block_includes(store, own, taken, k).contains(r) <==> {
            ||| r == own
            ||| {
                &&& exists|i: int|
                    0 <= i < k && (#[trigger] taken[i]).statement == MetaStatement::Include(r)
                &&& !store[own].includes@.contains(r)
                &&& forall|j: int|
                    {
                        &&& 0 <= j < taken.len()
                        &&& (#[trigger] taken[j]).statement is Include
                        &&& store.dom().contains(taken[j].statement->Include_0)
                    } ==> !store[taken[j].statement->Include_0].includes@.contains(r)
            }
        },
        forall|j: int|
            0 <= j <= k ==> {
                let part = #[trigger] block_includes(store, own, taken, j);
                &&& part.len() <= block_includes(store, own, taken, k).len()
                &&& block_includes(store, own, taken, k).take(part.len() as int) =~= part
            },
    decreases k,
{
    let all = block_includes(store, own, taken, k);
    assert(referenced(store, own, taken, r) <==> known_through(store, own, taken, r)) by {
        if known_through(store, own, taken, r) && !store[own].includes@.contains(r) {
            let j = choose|j: int|
                {
                    &&& 0 <= j < taken.len()
                    &&& (#[trigger] taken[j]).statement is Include
                    &&& store.dom().contains(taken[j].statement->Include_0)
                    &&& store[taken[j].statement->Include_0].includes@.contains(r)
                };
            assert(refers_to(store, taken[j], r));
        }
        if referenced(store, own, taken, r) && !store[own].includes@.contains(r) {
            let j = choose|j: int| 0 <= j < taken.len() && refers_to(store, #[trigger] taken[j], r);
            assert(taken[j].statement is Include);
        }
    }
    if k <= 0 {
        assert(all[0] == own);
    } else {
        law_block_refers_to_the_unreferenced(store, own, taken, k - 1, r);
        let rest = block_includes(store, own, taken, k - 1);
        if rest.contains(r) {
            let i = choose|i: int| 0 <= i < rest.len() && rest[i] == r;
            assert(all[i] == r);
        }
        if all.contains(r) && !rest.contains(r) {
            let i = choose|i: int| 0 <= i < all.len() && all[i] == r;
            if i < rest.len() {
                assert(rest[i] == r);
            }
        }
        if taken[k - 1].statement == MetaStatement::Include(r) && !referenced(
            store,
            own,
            taken,
            r,
        ) {
            assert(all[all.len() - 1] == r);
        }
        if exists|i: int|
            0 <= i < k && (#[trigger] taken[i]).statement == MetaStatement::Include(r) {
            let i = choose|i: int|
                0 <= i < k && (#[trigger] taken[i]).statement == MetaStatement::Include(r);
            if i < k - 1 {
                assert(exists|i: int|
                    0 <= i < k - 1 && (#[trigger] taken[i]).statement == MetaStatement::Include(r));
            }
        }
        assert forall|j: int| 0 <= j <= k implies {
            let part = #[trigger] block_includes(store, own, taken, j);
            &&& part.len() <= all.len()
            &&& all.take(part.len() as int) =~= part
        } by {
            if j < k {
                let part = block_includes(store, own, taken, j);
                assert(rest.take(part.len() as int) =~= part);
                assert(all.take(part.len() as int) =~= rest.take(part.len() as int));
            }
        }
    }
}

proof fn lemma_statements_split(a: Seq<PendingEntry>, b: Seq<PendingEntry>, k: int)
    requires
        0 <= k <= a.len() + b.len(),
    ensures
        k <= a.len() ==> block_statements(a + b, k) == block_statements(a, k),
        k >= a.len() ==> block_statements(a + b, k) == block_statements(a, a.len() as int)
            + block_statements(b, k - a.len()),
    decreases k,
{
    if k > 0 {
        lemma_statements_split(a, b, k - 1);
        if k <= a.len() {
            assert((a + b)[k - 1] == a[k - 1]);
        } else {
            assert((a + b)[k - 1] == b[k - 1 - a.len()]);
            let x = block_statements(a, a.len() as int);
            let y = block_statements(b, k - 1 - a.len());
            if let MetaStatement::Payload(s) = b[k - 1 - a.len()].statement {
                assert((x + y) + s@ =~= x + (y + s@));
            }
        }
    }
    if k == a.len() {
        assert(block_statements(a, k) + block_statements(b, 0) =~= block_statements(a, k));
    }
}

/// The statements of a block are those of its entries, in their order and all of them: an
/// entry with statements gives these, one for a block gives none, and entries that follow
/// others give theirs after them.
pub proof fn law_statements_come_in_order(a: Seq<PendingEntry>, b: Seq<PendingEntry>, e: PendingEntry)
    ensures
        block_statements(a + b, (a + b).len() as int) == block_statements(a, a.len() as int)
            + block_statements(b, b.len() as int),
        block_statements(seq![e], 1) == (match e.statement {
            MetaStatement::Payload(s) => s@,
            MetaStatement::Include(_) => Seq::empty(),
        }),
        block_statements(Seq::empty(), 0).len() == 0,
{
    lemma_statements_split(a, b, (a + b).len() as int);
    let one = seq![e];
    assert(block_statements(one, 0) =~= Seq::<BaseStatement>::empty());
    assert(block_statements(one, 1) == match one[0].statement {
        MetaStatement::Include(_) => block_statements(one, 0),
        MetaStatement::Payload(s) => block_statements(one, 0) + s@,
    });
    if let MetaStatement::Payload(s) = e.statement {
        assert(Seq::<BaseStatement>::empty() + s@ =~= s@);
    }
}

/// The round that is waited for is the one before that of the clock, where the clock is
/// past the last commit and a whole period has passed; and else there is none.
pub proof fn law_awaited_round_precedes_the_clock(core: Core, period: u64)
    requires
        period > 0,
    ensures
        core.awaited_round(period) is Some <==> core.threshold_clock.state().round
            > core.last_commit_leader.round && core.threshold_clock.state().round >= period,
        core.awaited_round(period) matches Some(r) ==> r + 1 == core.threshold_clock.state().round,
{
}

/// A block of a member and a round is known from when it is stored on: storing a block
/// makes known one of its author and its round, and none of another author or round.
pub proof fn law_stored_blocks_are_found(
    store: Map<BlockReference, StatementBlock>,
    r: BlockReference,
    block: StatementBlock,
    authority: AuthorityIndex,
    round: RoundNumber,
)
    ensures
        has_block_at(store.insert(r, block), authority, round) <==> has_block_at(
            store,
            authority,
            round,
        ) || (r.authority == authority && r.round == round),
        !has_block_at(Map::empty(), authority, round),
{
    let after = store.insert(r, block);
    if has_block_at(store, authority, round) {
        let x = choose|x: BlockReference| #[trigger]
            store.dom().contains(x) && x.authority == authority && x.round == round;
        assert(after.dom().contains(x));
    }
    if r.authority == authority && r.round == round {
        assert(after.dom().contains(r));
    }
    if has_block_at(after, authority, round) {
        let x = choose|x: BlockReference| #[trigger]
            after.dom().contains(x) && x.authority == authority && x.round == round;
        if x != r {
            assert(store.dom().contains(x));
        }
    }
}

/// Only a connected leader is waited for, and only until a block of the round is known
/// that it made.
pub proof fn law_connected_leaders_are_waited_for(
    core: Core,
    connected: Seq<AuthorityIndex>,
    leader: AuthorityIndex,
    round: RoundNumber,
)
    ensures
        !connected.contains(leader) ==> !core.misses(connected, leader, round),
        forall|r: BlockReference|
            #[trigger] core.block_store@.dom().contains(r) && r.authority == leader && r.round
                == round ==> !core.misses(connected, leader, round),
        connected.contains(leader) && (forall|r: BlockReference| #[trigger]
            core.block_store@.dom().contains(r) ==> r.authority != leader || r.round != round)
            ==> core.misses(connected, leader, round),
{
}

/// Blocks of the last hundred rounds before the last commit are kept at hand.
pub proof fn law_recent_blocks_are_kept(committed: u64, round: u64)
    ensures
        round >= kept_from(committed) <==> round + 100 >= committed,
{
}

/// After some blocks have been stored, exactly these are held besides those that were, and
/// one of another reference is as it was.
pub proof fn law_stored_blocks_stay(
    m: Map<BlockReference, StatementBlock>,
    blocks: Seq<PositionedBlock>,
    k: int,
    r: BlockReference,
)
    requires
        0 <= k <= blocks.len(),
    ensures
        stored(m, blocks, k).dom().contains(r) <==> m.dom().contains(r) || is_among(blocks, k, r),
        !is_among(blocks, k, r) ==> stored(m, blocks, k)[r] == m[r],
    decreases k,
{
    if k > 0 {
        law_stored_blocks_stay(m, blocks, k - 1, r);
        if blocks[k - 1].block.reference == r {
            assert(is_among(blocks, k, r));
        } else if is_among(blocks, k, r) {
            let i = choose|i: int| 0 <= i < k && (#[trigger] blocks[i]).block.reference == r;
            assert(blocks[i].block.reference == r && i < k - 1);
            assert(is_among(blocks, k - 1, r));
        } else {
            assert(!is_among(blocks, k - 1, r)) by {
                if is_among(blocks, k - 1, r) {
                    let i = choose|i: int|
                        0 <= i < k - 1 && (#[trigger] blocks[i]).block.reference == r;
                    assert(blocks[i].block.reference == r && i < k);
                }
            }
        }
    }
}

/// A reference is that of one of the first `k` blocks.
pub open spec fn is_among(blocks: Seq<PositionedBlock>, k: int, r: BlockReference) -> bool {
    exists|i: int| 0 <= i < k && (#[trigger] blocks[i]).block.reference == r
}

/// Of blocks with one reference the last that is stored is held.
pub proof fn law_last_stored_block_is_held(
    m: Map<BlockReference, StatementBlock>,
    blocks: Seq<PositionedBlock>,
    i: int,
    k: int,
)
    requires
        0 <= i < k <= blocks.len(),
        forall|j: int|
            i < j < k ==> (#[trigger] blocks[j]).block.reference != blocks[i].block.reference,
    ensures
        stored(m, blocks, k)[blocks[i].block.reference] == blocks[i].block,
    decreases k,
{
    if i < k - 1 {
        law_last_stored_block_is_held(m, blocks, i, k - 1);
        assert(blocks[k - 1].block.reference != blocks[i].block.reference);
    }
}

/// Each block that is added waits to be referred to, at its own position in the log.
pub proof fn law_added_blocks_wait(blocks: Seq<PositionedBlock>, i: int)
    requires
        0 <= i < blocks.len(),
    ensures
        entries_for(blocks).len() == blocks.len(),
        entries_for(blocks)[i].position == blocks[i].position,
        entries_for(blocks)[i].statement == MetaStatement::Include(blocks[i].block.reference),
{
}

/// The clock goes by blocks alone: entries for blocks move it as the blocks do, and
/// statements do not move it.
pub proof fn law_entries_tick_as_their_blocks(
    s: threshold_clock::ClockState,
    blocks: Seq<PositionedBlock>,
    stakes: Seq<u64>,
    k: int,
)
    requires
        0 <= k <= blocks.len(),
    ensures
        ticked_by_entries(s, entries_for(blocks), stakes, k) == ticked_by_blocks(
            s,
            blocks,
            stakes,
            k,
        ),
    decreases k,
{
    if k > 0 {
        law_entries_tick_as_their_blocks(s, blocks, stakes, k - 1);
    }
}

/// An entry with statements leaves the clock as it is.
pub proof fn law_statements_do_not_tick(
    s: threshold_clock::ClockState,
    p: Seq<PendingEntry>,
    stakes: Seq<u64>,
    k: int,
)
    requires
        0 < k <= p.len(),
    ensures
        p[k - 1].statement is Payload ==> ticked_by_entries(s, p, stakes, k) == ticked_by_entries(
            s,
            p,
            stakes,
            k - 1,
        ),
        p[k - 1].statement matches MetaStatement::Include(r) ==> {
            let before = ticked_by_entries(s, p, stakes, k - 1);
            &&& r.round < before.round ==> ticked_by_entries(s, p, stakes, k) == before
            &&& r.round > before.round ==> ticked_by_entries(s, p, stakes, k).round == r.round
        },
{
}

/// The change of epoch begins once: it makes an open epoch change, keeps what is further,
/// and leaves the markers and the closing time.
pub proof fn law_epoch_change_begins_once(v: epoch_close::EpochView)
    ensures
        !(begun(v, true).status is Open),
        v.status is Open ==> begun(v, true).status is BeginChange,
        !(v.status is Open) ==> begun(v, true) == v,
        begun(v, false) == v,
        begun(v, true).markers == v.markers,
        begun(v, true).close_time == v.close_time,
        begun(begun(v, true), true) == begun(v, true),
{
}

/// Those who have marked the change after some commits are those before and the authors of
/// the committed blocks that carry the marker.
pub proof fn law_commits_mark_the_change(
    v: epoch_close::EpochView,
    committed: Seq<CommittedSubDag>,
    stakes: Seq<u64>,
    now: u64,
    k: int,
    a: u64,
)
    requires
        0 <= k <= committed.len(),
    ensures
        after_commits(v, committed, stakes, now, k).markers.contains(a) <==> (v.markers.contains(a)
            || exists|i: int, j: int|
            {
                &&& 0 <= i < k
                &&& 0 <= j < committed[i].blocks@.len()
                &&& (#[trigger] committed[i].blocks@[j]).epoch_marker
                &&& committed[i].blocks@[j].reference.authority == a
            }),
    decreases k,
{
    if k > 0 {
        law_commits_mark_the_change(v, committed, stakes, now, k - 1, a);
        let blocks = committed[k - 1].blocks@;
        epoch_close::law_markers_gather(
            after_commits(v, committed, stakes, now, k - 1),
            blocks,
            stakes,
            now,
            blocks.len() as int,
            a,
        );
        if exists|j: int|
            0 <= j < blocks.len() && (#[trigger] blocks[j]).epoch_marker
                && blocks[j].reference.authority == a {
            let j = choose|j: int|
                0 <= j < blocks.len() && (#[trigger] blocks[j]).epoch_marker
                    && blocks[j].reference.authority == a;
            assert(committed[k - 1].blocks@[j].epoch_marker);
        }
        if exists|i: int, j: int|
            {
                &&& 0 <= i < k
                &&& 0 <= j < committed[i].blocks@.len()
                &&& (#[trigger] committed[i].blocks@[j]).epoch_marker
                &&& committed[i].blocks@[j].reference.authority == a
            } {
            let (i, j) = choose|i: int, j: int|
                {
                    &&& 0 <= i < k
                    &&& 0 <= j < committed[i].blocks@.len()
                    &&& (#[trigger] committed[i].blocks@[j]).epoch_marker
                    &&& committed[i].blocks@[j].reference.authority == a
                };
            if i == k - 1 {
                assert(blocks[j].epoch_marker);
            }
        }
    }
}

/// The last leader is the last of the new ones, and the earlier one where there are none.
pub proof fn law_last_leader_is_the_newest(
    earlier: BlockReference,
    leaders: Seq<BlockReference>,
    next: BlockReference,
)
    ensures
        last_leader(earlier, leaders.push(next)) == next,
        last_leader(earlier, Seq::empty()) == earlier,
{
}

proof fn lemma_counts_split(a: Seq<BaseStatement>, b: Seq<BaseStatement>, k: int)
    requires
        0 <= k <= a.len() + b.len(),
    ensures
        k <= a.len() ==> statement_counts(a + b, k) == statement_counts(a, k),
        k >= a.len() ==> statement_counts(a + b, k).0 == statement_counts(a, a.len() as int).0
            + statement_counts(b, k - a.len()).0 && statement_counts(a + b, k).1
            == statement_counts(a, a.len() as int).1 + statement_counts(b, k - a.len()).1,
    decreases k,
{
    if k > 0 {
        lemma_counts_split(a, b, k - 1);
        if k <= a.len() {
            assert((a + b)[k - 1] == a[k - 1]);
        } else {
            assert((a + b)[k - 1] == b[k - 1 - a.len()]);
        }
    }
}

/// Each statement of a block counts once, wherever it stands: a shared transaction as one
/// transaction, a vote as one vote, and a vote for a range as many as the range names.
pub proof fn law_each_statement_counts(a: Seq<BaseStatement>, b: Seq<BaseStatement>, x: BaseStatement)
    ensures
        ({
            let joined = statement_counts(a + b, (a + b).len() as int);
            let (first, second) = (
                statement_counts(a, a.len() as int),
                statement_counts(b, b.len() as int),
            );
            joined.0 == first.0 + second.0 && joined.1 == first.1 + second.1
        }),
        x is Share ==> statement_counts(seq![x], 1) == (1int, 0int),
        x is Vote ==> statement_counts(seq![x], 1) == (0int, 1int),
        x matches BaseStatement::VoteRange(range) ==> statement_counts(seq![x], 1).0 == 0 && (
        range.start <= range.end ==> statement_counts(seq![x], 1).1 == range.end - range.start) && (
        range.start >= range.end ==> statement_counts(seq![x], 1).1 == 0),
{
    lemma_counts_split(a, b, (a + b).len() as int);
    let one = seq![x];
    assert(statement_counts(one, 0) == (0int, 0int));
    assert(one[0] == x);
}

proof fn lemma_known_split(
    store: BlockStore,
    a: Seq<TransactionLocator>,
    b: Seq<TransactionLocator>,
    k: int,
)
    requires
        0 <= k <= a.len() + b.len(),
    ensures
        k <= a.len() ==> known_contents(store, a + b, k) == known_contents(store, a, k),
        k >= a.len() ==> known_contents(store, a + b, k) == known_contents(
            store,
            a,
            a.len() as int,
        ) + known_contents(store, b, k - a.len()),
    decreases k,
{
    if k > 0 {
        lemma_known_split(store, a, b, k - 1);
        if k <= a.len() {
            assert((a + b)[k - 1] == a[k - 1]);
        } else {
            assert((a + b)[k - 1] == b[k - 1 - a.len()]);
            let x = known_contents(store, a, a.len() as int);
            let y = known_contents(store, b, k - 1 - a.len());
            if let Some(t) = store.transaction(b[k - 1 - a.len()]) {
                assert((x + y).push((t.data@, t.timestamp)) =~= x + y.push(
                    (t.data@, t.timestamp),
                ));
            }
        }
    }
    if k == a.len() {
        assert(known_contents(store, a, k) + known_contents(store, b, 0) =~= known_contents(
            store,
            a,
            k,
        ));
    }
}

/// The transactions with given names are looked up one after the other: one that a known
/// block shares is given with its contents, and one that is not known is left out.
pub proof fn law_known_transactions_are_given(
    store: BlockStore,
    a: Seq<TransactionLocator>,
    b: Seq<TransactionLocator>,
    l: TransactionLocator,
)
    ensures
        known_contents(store, a + b, (a + b).len() as int) == known_contents(
            store,
            a,
            a.len() as int,
        ) + known_contents(store, b, b.len() as int),
        store.transaction(l) matches Some(t) ==> known_contents(store, seq![l], 1) =~= seq![
            (t.data@, t.timestamp),
        ],
        store.transaction(l) is None ==> known_contents(store, seq![l], 1).len() == 0,
{
    lemma_known_split(store, a, b, (a + b).len() as int);
    let one = seq![l];
    assert(known_contents(store, one, 0) =~= Seq::<(Seq<u8>, u64)>::empty());
    assert(one[0] == l);
    assert(known_contents(store, one, 1) == match store.transaction(one[0]) {
        Some(t) => known_contents(store, one, 0).push((t.data@, t.timestamp)),
        None => known_contents(store, one, 0),
    });
}

/// What is written of commits names, for each in its order, its leader and the blocks that
/// it brings with it.
pub proof fn law_commits_are_written_in_order(
    d: Seq<CommitData>,
    committed: Seq<CommittedSubDag>,
    x: CommitData,
    c: CommittedSubDag,
)
    ensures
        are_data_of(Seq::empty(), Seq::empty()),
        d.len() == committed.len() ==> (are_data_of(d.push(x), committed.push(c)) <==> {
            &&& are_data_of(d, committed)
            &&& x.leader == c.anchor
            &&& x.sub_dag@ =~= Seq::new(c.blocks@.len(), |j: int| c.blocks@[j].reference)
        }),
{
    let dx = d.push(x);
    let cc = committed.push(c);
    let n = d.len() as int;
    if d.len() == committed.len() {
        if are_data_of(dx, cc) {
            assert(is_data_of(dx[n], cc[n]));
            assert forall|i: int| 0 <= i < d.len() implies is_data_of(#[trigger] d[i], committed[i]) by {
                assert(is_data_of(dx[i], cc[i]));
            }
        }
        if are_data_of(d, committed) && x.leader == c.anchor && x.sub_dag@ =~= Seq::new(
            c.blocks@.len(),
            |j: int| c.blocks@[j].reference,
        ) {
            assert forall|i: int| 0 <= i < dx.len() implies is_data_of(#[trigger] dx[i], cc[i]) by {
                if i < n {
                    assert(is_data_of(d[i], committed[i]));
                }
            }
        }
    }
}

/// Blocks that are replayed are voted on one by one, each in its place.
pub proof fn law_replayed_blocks_are_checked_one_by_one(blocks: Seq<StatementBlock>, i: int)
    requires
        0 <= i < blocks.len(),
    ensures
        one_by_one(blocks).len() == blocks.len(),
        one_by_one(blocks)[i].block == blocks[i],
        one_by_one(blocks)[i].check_individual,
{
}

/// A block that the core begins. It is the core's own, of the round of its clock, which is
/// later than that of its last block. It refers to the last block first, and to blocks of
/// earlier rounds else. The entries up to the first one for a block of its round or a later
/// one go into it, and the others are left: nothing is lost. Each block among those entries
/// is referred to by it, by the last block or by another of them. While the epoch is open
/// it makes all statements of those entries, in their order; once the epoch changes it
/// carries the marker and makes none.
pub proof fn law_new_block(core: Core, b: BlockProposal, rest: Seq<PendingEntry>, i: int)
    requires
        core.proposes(b, rest),
    ensures
        b.authority == core.authority,
        b.round > core.last_own.reference.round,
        b.includes@.len() > 0,
        b.includes@[0] == core.last_own.reference,
        forall|r: BlockReference|
            b.includes@.contains(r) ==> r == core.last_own.reference || #[trigger] r.round < b.round,
        b.epoch_marker <==> !(core.epoch_manager.status() is Open),
        b.epoch_marker ==> b.statements@.len() == 0,
        ({
            let n = core.pending@.len() - rest.len();
            &&& 0 <= n
            &&& core.pending@ =~= core.pending@.subrange(0, n) + rest
            &&& forall|k: int|
                0 <= k < n ==> ((
                #[trigger] core.pending@[k]).statement matches MetaStatement::Include(r) ==> r.round
                    < b.round)
            &&& rest.len() > 0 ==> rest[0].statement is Include
                && rest[0].statement->Include_0.round >= b.round
            &&& !b.epoch_marker && 0 <= i < n ==> (
            core.pending@[i].statement matches MetaStatement::Payload(s) ==> exists|
                x: Seq<BaseStatement>,
                y: Seq<BaseStatement>,
            |
                b.statements@ == #[trigger] (x + s@ + y))
            &&& 0 <= i < n ==> (core.pending@[i].statement matches MetaStatement::Include(r)
                ==> b.includes@.contains(r) || referenced(
                core.block_store@,
                core.last_own.reference,
                core.pending@.subrange(0, n),
                r,
            ))
        }),
{
    let p = core.pending@;
    let own = core.last_own.reference;
    let taken = taken_for(p, b.round);
    let n = taken.len() as int;
    law_block_takes_earlier_entries(p, b.round);
    law_own_block_comes_first(core.block_store@, own, taken, n);
    assert forall|r: BlockReference| b.includes@.contains(r) implies r == own || #[trigger] r.round
        < b.round by {
        law_includes_are_earlier(core.block_store@, own, p, b.round, n, r);
    }
    assert(p =~= p.subrange(0, n) + rest);
    assert(taken =~= p.subrange(0, n));
    if 0 <= i < n {
        match p[i].statement {
            MetaStatement::Include(r) => {
                law_references_cover_what_was_seen(core.block_store@, own, taken, n, i);
            },
            MetaStatement::Payload(s) => {
                if !b.epoch_marker {
                    let e = p[i];
                    let a = taken.subrange(0, i);
                    let z = taken.subrange(i + 1, n);
                    assert(taken =~= (a + seq![e]) + z);
                    law_statements_come_in_order(a, seq![e], e);
                    law_statements_come_in_order(a + seq![e], z, e);
                    let x = block_statements(a, a.len() as int);
                    let y = block_statements(z, z.len() as int);
                    assert(b.statements@ == x + s@ + y);
                }
            },
        }
    }
}

/// What adding blocks, taking statements and beginning a block leave alone: who the core
/// is, how it was set up, what it has committed and how far the change of epoch is. Taking
/// statements leaves its blocks, its clock and its last block alone too, and puts them at
/// the end of what waits.
pub proof fn law_core_keeps_its_history(
    before: Core,
    after: Core,
    statements: Vec<BaseStatement>,
    position: u64,
)
    ensures
        after.same_history(&before) ==> {
            &&& after.authority == before.authority
            &&& after.last_commit_leader == before.last_commit_leader
            &&& after.options == before.options
            &&& after.epoch_manager == before.epoch_manager
            &&& after.rounds_in_epoch == before.rounds_in_epoch
            &&& after.committed_leaders@ == before.committed_leaders@
        },
        after.took_payload(&before, statements, position) ==> {
            &&& after.same_history(&before)
            &&& after.last_own == before.last_own
            &&& after.block_store == before.block_store
            &&& after.threshold_clock == before.threshold_clock
            &&& after.pending@.len() == before.pending@.len() + 1
            &&& before.pending@.is_prefix_of(after.pending@)
            &&& after.pending@.last().position == position
            &&& after.pending@.last().statement == MetaStatement::Payload(statements)
        },
{
    if after.took_payload(&before, statements, position) {
        assert(before.pending@ =~= after.pending@.subrange(0, before.pending@.len() as int));
    }
}

} // verus!
