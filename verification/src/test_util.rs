//! Committees, graphs of blocks and comparisons of commits for tests.
use crate::block_handler::TestBlockHandler;
use crate::committee;
use crate::committee::{AuthorityIndex, Committee, MAX_COMMITTEE};
use crate::epoch_close;
use crate::keymap;
use crate::node_core;
use crate::node_core::{Core, CoreOptions, OwnBlock, PositionedBlock, RecoveredState, END_OF_LOG};
use crate::syncer::Syncer;
use crate::types;
use crate::types::{copy_references, BlockReference, BlockStore, RoundNumber, StatementBlock};
use std::collections::VecDeque;
use vstd::prelude::*;

verus! {

proof fn lemma_unit_total(n: nat)
    ensures
        crate::modular::sum(n, |a: int| 1int) == n,
    decreases n,
{
    if n > 0 {
        lemma_unit_total((n - 1) as nat);
    }
}

/// A committee of `n` members with the same weight.
pub fn committee(n: usize) -> (r: Committee)
    requires
        0 < n <= MAX_COMMITTEE,
    ensures
        r.stakes().len() == n,
        forall|i: int| 0 <= i < n ==> #[trigger] r.stakes()[i] == 1,
{
    let mut stakes: Vec<u64> = Vec::new();
    while stakes.len() < n
        invariant
            stakes@.len() <= n,
            forall|i: int| 0 <= i < stakes@.len() ==> #[trigger] stakes@[i] == 1,
        decreases n - stakes@.len(),
    {
        stakes.push(1);
    }
    proof {
        let f = |a: int| stakes@[a] as int;
        let g = |a: int| 1int;
        assert forall|i: int| 0 <= i < n implies #[trigger] f(i) == g(i) by {}
        crate::modular::lemma_sum_ext(n as nat, f, g);
        lemma_unit_total(n as nat);
    }
    Committee::new(stakes).unwrap()
}

/// The number of the first transaction of a member.
pub fn first_transaction_for_authority(authority: AuthorityIndex) -> (r: u64)
    requires
        authority * 1_000_000 <= u64::MAX,
    ensures
        r == authority * 1_000_000,
{
    authority * 1_000_000
}

/// The member whose first block comes at `i` in the log of a new node: the others
/// in their order, and at last the node itself.
pub open spec fn genesis_author(n: nat, authority: u64, i: int) -> u64 {
    if i == n - 1 {
        authority
    } else if i < authority {
        i as u64
    } else {
        (i + 1) as u64
    }
}

/// The first block of a member, at a position of the log.
pub open spec fn is_first_block(b: PositionedBlock, author: u64, position: int) -> bool {
    &&& b.position == position
    &&& b.block.reference == types::numbered_reference(author, 0, 0)
    &&& b.block.includes@.len() == 0
    &&& b.block.statements@.len() == 0
}

/// The first blocks of `n` members in the log of a new node.
pub open spec fn are_first_blocks(b: Seq<PositionedBlock>, n: nat, authority: u64) -> bool {
    &&& b.len() == n
    &&& forall|i: int|
        0 <= i < n ==> is_first_block(#[trigger] b[i], genesis_author(n, authority, i), i)
}

/// The first blocks of `n` members in the log of a new node.
pub fn genesis_blocks(n: usize, authority: AuthorityIndex) -> (r: Vec<PositionedBlock>)
    requires
        authority < n <= MAX_COMMITTEE,
    ensures
        are_first_blocks(r@, n as nat, authority),
{
    let mut out: Vec<PositionedBlock> = Vec::new();
    let mut i: usize = 0;
    while i < n
        invariant
            i <= n,
            authority < n <= MAX_COMMITTEE,
            out@.len() == i,
            forall|k: int|
                0 <= k < i ==> is_first_block(
                    #[trigger] out@[k],
                    genesis_author(n as nat, authority, k),
                    k,
                ),
        decreases n - i,
    {
        let author: u64 = if i == n - 1 {
            authority
        } else if (i as u64) < authority {
            i as u64
        } else {
            i as u64 + 1
        };
        out.push(PositionedBlock { position: i as u64, block: StatementBlock::new_genesis(author) });
        i = i + 1;
    }
    out
}

/// The core of a node that has seen the first blocks and nothing else.
pub open spec fn opened_on(
    core: Core,
    blocks: Seq<PositionedBlock>,
    stakes: Seq<u64>,
    rounds_in_epoch: u64,
) -> bool {
    &&& core.wf(stakes)
    &&& !core.options.fsync
    &&& core.rounds_in_epoch == rounds_in_epoch
    &&& core.committed_leaders@.len() == 0
    &&& core.last_commit_leader == node_core::no_block()
    &&& core.epoch_manager.seen() == (epoch_close::EpochView {
        status: types::InternalEpochStatus::Open,
        markers: Set::empty(),
        close_time: 0,
    })
    &&& core.last_own == (OwnBlock {
        reference: blocks.last().block.reference,
        next_entry: END_OF_LOG,
    })
    &&& core.block_store@ == node_core::stored(Map::empty(), blocks, blocks.len() as int)
    &&& core.pending@ == node_core::entries_for(blocks.drop_last())
    &&& core.threshold_clock.state().round == 1
    &&& core.threshold_clock.state().authors == Set::<u64>::empty()
}

/// A node for tests: its core, and what handles its blocks.
pub struct TestNode {
    pub core: Core,
    pub block_handler: TestBlockHandler,
}

/// A new node of a member.
pub open spec fn is_new_node(
    node: TestNode,
    authority: u64,
    stakes: Seq<u64>,
    rounds_in_epoch: u64,
) -> bool {
    &&& node.core.authority == authority
    &&& exists|blocks: Seq<PositionedBlock>| #[trigger]
        are_first_blocks(blocks, stakes.len(), authority) && opened_on(
            node.core,
            blocks,
            stakes,
            rounds_in_epoch,
        )
    &&& node.block_handler.wf(stakes)
    &&& node.block_handler.authority == authority
    &&& node.block_handler.last_transaction == authority * 1_000_000
    &&& node.block_handler.proposed@.len() == 0
}

/// The authors of the first blocks are all members.
proof fn lemma_first_blocks_end_the_round(
    blocks: Seq<PositionedBlock>,
    stakes: Seq<u64>,
    authority: u64,
)
    requires
        0 < stakes.len() <= MAX_COMMITTEE,
        authority < stakes.len(),
        forall|i: int| 0 <= i < stakes.len() ==> #[trigger] stakes[i] == 1,
        are_first_blocks(blocks, stakes.len(), authority),
    ensures
        node_core::ticked_by_blocks(
            node_core::first_clock(),
            blocks,
            stakes,
            blocks.len() as int,
        ).round == 1,
        node_core::ticked_by_blocks(
            node_core::first_clock(),
            blocks,
            stakes,
            blocks.len() as int,
        ).authors == Set::<u64>::empty(),
{
    let n = stakes.len();
    let authors = node_core::authors_of(blocks);
    assert forall|a: u64| a < n implies #[trigger] authors.contains(a) by {
        let i: int = if a == authority {
            n - 1
        } else if a < authority {
            a as int
        } else {
            a - 1
        };
        assert(is_first_block(blocks[i], genesis_author(n, authority, i), i));
        assert(blocks[i].block.reference.authority == a);
    }
    let f = committee::stake_term(stakes, authors);
    let g = |a: int| stakes[a] as int;
    let h = |a: int| 1int;
    assert forall|i: int| 0 <= i < n implies #[trigger] f(i) == g(i) by {
        assert(authors.contains(i as u64));
    }
    assert forall|i: int| 0 <= i < n implies #[trigger] g(i) == h(i) by {}
    crate::modular::lemma_sum_ext(n, f, g);
    crate::modular::lemma_sum_ext(n, g, h);
    lemma_unit_total(n);
    assert forall|i: int| 0 <= i < blocks.len() implies (
    #[trigger] blocks[i]).block.reference.round == 0 by {
        assert(is_first_block(blocks[i], genesis_author(n, authority, i), i));
    }
    node_core::law_a_quorum_ends_the_round(node_core::first_clock(), blocks, stakes);
    node_core::lemma_round_is_fresh(node_core::first_clock(), blocks, stakes, blocks.len() as int);
}

/// A new node of a member of a committee whose members have the same weight.
fn new_node(members: &Committee, authority: AuthorityIndex, rounds_in_epoch: RoundNumber) -> (r:
    TestNode)
    requires
        authority < members.stakes().len() <= MAX_COMMITTEE,
        forall|i: int| 0 <= i < members.stakes().len() ==> #[trigger] members.stakes()[i] == 1,
    ensures
        is_new_node(r, authority, members.stakes(), rounds_in_epoch),
{
    let ghost stakes = members.stakes();
    let n: usize = members.len();
    let first = genesis_blocks(n, authority);
    let ghost blocks = first@;
    let recovered = RecoveredState {
        block_store: BlockStore::new(),
        last_own_block: None,
        pending: VecDeque::new(),
        last_committed_leader: None,
    };
    proof {
        assert forall|i: int| 0 <= i < blocks.len() implies node_core::reference_acceptable(
            (#[trigger] blocks[i]).block.reference,
            stakes,
        ) by {
            assert(is_first_block(blocks[i], genesis_author(n as nat, authority, i), i));
        }
        assert(is_first_block(blocks[n - 1], authority, n - 1));
        lemma_first_blocks_end_the_round(blocks, stakes, authority);
    }
    let core = Core::open(
        authority,
        members,
        recovered,
        first,
        CoreOptions::test(),
        rounds_in_epoch,
    );
    let block_handler = TestBlockHandler::new(
        first_transaction_for_authority(authority),
        authority,
    );
    assert(are_first_blocks(blocks, stakes.len(), authority) && opened_on(
        core,
        blocks,
        stakes,
        rounds_in_epoch,
    ));
    TestNode { core, block_handler }
}

/// A committee of `n` members with the same weight, and a new node of each of
/// them, for epochs of the given length.
pub fn committee_and_cores_epoch_duration(n: usize, rounds_in_epoch: RoundNumber) -> (r: (
    Committee,
    Vec<TestNode>,
))
    requires
        0 < n <= MAX_COMMITTEE,
    ensures
        r.0.stakes().len() == n,
        forall|i: int| 0 <= i < n ==> #[trigger] r.0.stakes()[i] == 1,
        r.1@.len() == n,
        forall|a: int|
            0 <= a < n ==> is_new_node(
                #[trigger] r.1@[a],
                a as u64,
                r.0.stakes(),
                rounds_in_epoch,
            ),
{
    let members = committee(n);
    let mut nodes: Vec<TestNode> = Vec::new();
    while nodes.len() < n
        invariant
            nodes@.len() <= n <= MAX_COMMITTEE,
            members.stakes().len() == n,
            forall|i: int| 0 <= i < n ==> #[trigger] members.stakes()[i] == 1,
            forall|k: int|
                0 <= k < nodes@.len() ==> is_new_node(
                    #[trigger] nodes@[k],
                    k as u64,
                    members.stakes(),
                    rounds_in_epoch,
                ),
        decreases n - nodes@.len(),
    {
        nodes.push(new_node(&members, nodes.len() as u64, rounds_in_epoch));
    }
    (members, nodes)
}

/// A committee of `n` members with the same weight, and a new node of each of
/// them. The epoch does not end.
pub fn committee_and_cores(n: usize) -> (r: (Committee, Vec<TestNode>))
    requires
        0 < n <= MAX_COMMITTEE,
    ensures
        r.0.stakes().len() == n,
        forall|i: int| 0 <= i < n ==> #[trigger] r.0.stakes()[i] == 1,
        r.1@.len() == n,
        forall|a: int|
            0 <= a < n ==> is_new_node(#[trigger] r.1@[a], a as u64, r.0.stakes(), u64::MAX),
{
    committee_and_cores_epoch_duration(n, u64::MAX)
}

/// A syncer for tests: what drives the core of a node, and what handles its blocks.
pub struct TestSyncer {
    pub syncer: Syncer<bool>,
    pub block_handler: TestBlockHandler,
}

/// The rounds after which the first leader is waited for.
pub const COMMIT_PERIOD: u64 = 3;

/// A committee of `n` members with the same weight, and what drives a new node of
/// each of them. Nobody is connected, and no block has been made.
pub fn committee_and_syncers(n: usize) -> (r: (Committee, Vec<TestSyncer>))
    requires
        0 < n <= MAX_COMMITTEE,
    ensures
        r.0.stakes().len() == n,
        forall|i: int| 0 <= i < n ==> #[trigger] r.0.stakes()[i] == 1,
        r.1@.len() == n,
        forall|a: int|
            0 <= a < n ==> is_new_syncer(#[trigger] r.1@[a], a as u64, r.0.stakes()),
{
    let members = committee(n);
    let mut out: Vec<TestSyncer> = Vec::new();
    while out.len() < n
        invariant
            out@.len() <= n <= MAX_COMMITTEE,
            members.stakes().len() == n,
            forall|i: int| 0 <= i < n ==> #[trigger] members.stakes()[i] == 1,
            forall|k: int|
                0 <= k < out@.len() ==> is_new_syncer(
                    #[trigger] out@[k],
                    k as u64,
                    members.stakes(),
                ),
        decreases n - out@.len(),
    {
        let node = new_node(&members, out.len() as u64, u64::MAX);
        out.push(
            TestSyncer {
                syncer: Syncer::new(node.core, COMMIT_PERIOD, false),
                block_handler: node.block_handler,
            },
        );
    }
    (members, out)
}

/// What drives a new node of a member.
pub open spec fn is_new_syncer(s: TestSyncer, authority: u64, stakes: Seq<u64>) -> bool {
    &&& is_new_node(
        TestNode { core: s.syncer.core, block_handler: s.block_handler },
        authority,
        stakes,
        u64::MAX,
    )
    &&& s.syncer.commit_period == COMMIT_PERIOD
    &&& !s.syncer.signals
    &&& !s.syncer.force_new_block
    &&& s.syncer.connected_authorities@.len() == 0
}

/// The first list is the beginning of the second.
pub open spec fn begins(short: Seq<BlockReference>, long: Seq<BlockReference>) -> bool {
    short.len() <= long.len() && long.take(short.len() as int) == short
}

/// Whether a list is the beginning of another one that is not shorter.
pub fn is_prefix(short: &[BlockReference], long: &[BlockReference]) -> (b: bool)
    requires
        short@.len() <= long@.len(),
    ensures
        b == begins(short@, long@),
{
    let mut i: usize = 0;
    while i < short.len()
        invariant
            i <= short@.len() <= long@.len(),
            forall|k: int| 0 <= k < i ==> short@[k] == long@[k],
        decreases short@.len() - i,
    {
        if short[i] != long[i] {
            assert(long@.take(short@.len() as int)[i as int] != short@[i as int]);
            return false;
        }
        i = i + 1;
    }
    assert(long@.take(short@.len() as int) =~= short@);
    true
}

/// Two nodes agree on their commits, as far as the one that is behind has come.
pub open spec fn agree(a: Seq<BlockReference>, b: Seq<BlockReference>) -> bool {
    begins(a, b) || begins(b, a)
}

proof fn lemma_agree(a: Seq<BlockReference>, b: Seq<BlockReference>, top: Seq<BlockReference>)
    requires
        begins(a, top),
        begins(b, top),
    ensures
        agree(a, b),
{
    if a.len() <= b.len() {
        assert(b.take(a.len() as int) =~= a) by {
            assert(top.take(b.len() as int).take(a.len() as int) =~= top.take(a.len() as int));
        }
    } else {
        assert(a.take(b.len() as int) =~= b) by {
            assert(top.take(a.len() as int).take(b.len() as int) =~= top.take(b.len() as int));
        }
    }
}

/// Whether the commits of nodes agree with one another.
pub fn check_commits(commits: &Vec<Vec<BlockReference>>) -> (b: bool)
    ensures
        b == (forall|i: int, j: int|
            0 <= i < commits@.len() && 0 <= j < commits@.len() ==> agree(
                (#[trigger] commits@[i])@,
                (#[trigger] commits@[j])@,
            )),
{
    if commits.len() == 0 {
        return true;
    }
    let mut max: usize = 0;
    let mut i: usize = 0;
    assert(commits@[0]@.take(commits@[0]@.len() as int) =~= commits@[0]@);
    while i < commits.len()
        invariant
            i <= commits@.len(),
            max < commits@.len(),
            begins(commits@[max as int]@, commits@[max as int]@),
            forall|k: int| 0 <= k < i ==> begins((#[trigger] commits@[k])@, commits@[max as int]@),
        decreases commits@.len() - i,
    {
        let top = &commits[max];
        let commit = &commits[i];
        if commit.len() >= top.len() {
            if !is_prefix(top.as_slice(), commit.as_slice()) {
                proof {
                    let a = commits@[i as int]@;
                    let m = commits@[max as int]@;
                    if begins(a, m) {
                        assert(m.take(a.len() as int) =~= m);
                        assert(a.take(m.len() as int) =~= a);
                    }
                    assert(!agree(commits@[i as int]@, commits@[max as int]@));
                }
                return false;
            }
            proof {
                let m = commits@[max as int]@;
                let a = commits@[i as int]@;
                assert(a.take(a.len() as int) =~= a);
                assert forall|k: int| 0 <= k < i + 1 implies begins((#[trigger] commits@[k])@, a) by {
                    if k < i {
                        let c = commits@[k]@;
                        assert(begins(c, m));
                        assert(a.take(c.len() as int) =~= a.take(m.len() as int).take(
                            c.len() as int,
                        ));
                    }
                }
            }
            max = i;
        } else if !is_prefix(commit.as_slice(), top.as_slice()) {
            assert(!agree(commits@[i as int]@, commits@[max as int]@));
            return false;
        }
        i = i + 1;
    }
    proof {
        assert forall|a: int, b: int| 0 <= a < commits@.len() && 0 <= b < commits@.len() implies agree(
            (#[trigger] commits@[a])@,
            (#[trigger] commits@[b])@,
        ) by {
            lemma_agree(commits@[a]@, commits@[b]@, commits@[max as int]@);
        }
    }
    true
}

/// Writes blocks into a store.
pub struct TestBlockWriter {
    pub block_store: BlockStore,
}

/// The blocks by their references, with the first `k` of a list.
pub open spec fn with_blocks(
    m: Map<BlockReference, StatementBlock>,
    blocks: Seq<StatementBlock>,
    k: int,
) -> Map<BlockReference, StatementBlock>
    decreases k,
{
    if k <= 0 {
        m
    } else {
        with_blocks(m, blocks, k - 1).insert(blocks[k - 1].reference, blocks[k - 1])
    }
}

impl TestBlockWriter {
    pub open spec fn wf(&self) -> bool {
        self.block_store.wf()
    }

    /// A writer with an empty store.
    pub fn new() -> (r: Self)
        ensures
            r.wf(),
            r.block_store@ == Map::<BlockReference, StatementBlock>::empty(),
    {
        TestBlockWriter { block_store: BlockStore::new() }
    }

    /// Writes a block.
    pub fn add_block(&mut self, block: StatementBlock)
        requires
            old(self).wf(),
        ensures
            final(self).wf(),
            final(self).block_store@ == old(self).block_store@.insert(block.reference, block),
    {
        self.block_store.insert_block(block);
    }

    /// Writes blocks in turn.
    pub fn add_blocks(&mut self, blocks: Vec<StatementBlock>)
        requires
            old(self).wf(),
        ensures
            final(self).wf(),
            final(self).block_store@ == with_blocks(
                old(self).block_store@,
                blocks@,
                blocks@.len() as int,
            ),
    {
        let ghost m = self.block_store@;
        let ghost all = blocks@;
        let count: usize = blocks.len();
        let mut blocks = blocks;
        let mut reversed: Vec<StatementBlock> = Vec::new();
        while blocks.len() > 0
            invariant
                all.len() == blocks@.len() + reversed@.len(),
                forall|k: int| 0 <= k < blocks@.len() ==> #[trigger] blocks@[k] == all[k],
                forall|k: int|
                    0 <= k < reversed@.len() ==> #[trigger] reversed@[k] == all[all.len() - 1 - k],
            decreases blocks@.len(),
        {
            if let Some(b) = blocks.pop() {
                reversed.push(b);
            }
        }
        let mut i: usize = 0;
        while i < count
            invariant
                i <= count,
                count == all.len(),
                reversed@.len() == count - i,
                forall|k: int|
                    0 <= k < reversed@.len() ==> #[trigger] reversed@[k] == all[all.len() - 1 - k],
                self.wf(),
                self.block_store@ == with_blocks(m, all, i as int),
            decreases count - i,
        {
            if let Some(b) = reversed.pop() {
                assert(b == all[i as int]);
                self.add_block(b);
            }
            i = i + 1;
        }
    }

    /// Whether a block without statements can have a number: nothing is held under
    /// it, or that very block.
    fn number_is_open(
        &self,
        authority: AuthorityIndex,
        round: RoundNumber,
        parents: &Vec<BlockReference>,
        number: u64,
    ) -> (b: bool)
        requires
            self.wf(),
        ensures
            b == is_open(self.block_store@, authority, round, parents@, number),
    {
        match self.block_store.get_block(types::numbered(authority, round, number)) {
            None => true,
            Some(b) => {
                b.statements.len() == 0 && b.meta_creation_time_ns == 0 && !b.epoch_marker
                    && same_references(&b.includes, parents)
            },
        }
    }

    /// Writes a block without statements, unless the store holds it already, and
    /// gives its reference. Different blocks of an author in a round get different
    /// numbers: each has the first one that is open to it.
    pub fn add_plain_block(
        &mut self,
        authority: AuthorityIndex,
        round: RoundNumber,
        parents: &Vec<BlockReference>,
    ) -> (r: BlockReference)
        requires
            old(self).wf(),
        ensures
            final(self).wf(),
            r == plain_reference(old(self).block_store@, authority, round, parents@),
            wrote_plain(
                old(self).block_store@,
                final(self).block_store@,
                r,
                authority,
                round,
                parents@,
            ),
    {
        let ghost m = self.block_store@;
        let held: usize = self.block_store.blocks.len();
        let mut number: u64 = 0;
        while !self.number_is_open(authority, round, parents, number)
            invariant
                self.wf(),
                m == self.block_store@,
                held == self.block_store.blocks.entries@.len(),
                forall|j: u64|
                    j < number ==> m.dom().contains(
                        #[trigger] types::numbered_reference(authority, round, j),
                    ),
                first_open(m, authority, round, parents@, 0) == first_open(
                    m,
                    authority,
                    round,
                    parents@,
                    number,
                ),
            decreases u64::MAX - number,
        {
            proof {
                keymap::lemma_finite(self.block_store.blocks);
                lemma_numbers_are_few(m, authority, round, number);
            }
            number = number + 1;
        }
        let reference = types::numbered(authority, round, number);
        if !self.block_store.block_exists(reference) {
            self.add_block(StatementBlock::plain(authority, round, number, copy_references(parents)));
        }
        assert(self.block_store@.dom() =~= m.dom().insert(reference));
        reference
    }

    /// The store.
    pub fn into_block_store(self) -> (r: BlockStore)
        ensures
            r == self.block_store,
    {
        self.block_store
    }

    /// The store.
    pub fn block_store(&self) -> (r: &BlockStore)
        ensures
            *r == self.block_store,
    {
        &self.block_store
    }
}

fn same_references(a: &Vec<BlockReference>, b: &Vec<BlockReference>) -> (r: bool)
    ensures
        r == (a@ == b@),
{
    if a.len() != b.len() {
        return false;
    }
    let mut i: usize = 0;
    while i < a.len()
        invariant
            i <= a@.len(),
            a@.len() == b@.len(),
            forall|k: int| 0 <= k < i ==> a@[k] == b@[k],
        decreases a@.len() - i,
    {
        if a[i] != b[i] {
            return false;
        }
        i = i + 1;
    }
    assert(a@ =~= b@);
    true
}

/// A block without statements and marker, of time zero.
pub open spec fn is_plain_block(
    b: StatementBlock,
    authority: u64,
    round: u64,
    parents: Seq<BlockReference>,
) -> bool {
    &&& b.reference.authority == authority
    &&& b.reference.round == round
    &&& b.includes@ == parents
    &&& b.statements@.len() == 0
    &&& b.meta_creation_time_ns == 0
    &&& !b.epoch_marker
}

/// A number is open to a block without statements: nothing is held under it, or that
/// very block.
pub open spec fn is_open(
    store: Map<BlockReference, StatementBlock>,
    authority: u64,
    round: u64,
    parents: Seq<BlockReference>,
    number: u64,
) -> bool {
    let r = types::numbered_reference(authority, round, number);
    store.dom().contains(r) ==> is_plain_block(store[r], authority, round, parents)
}

/// The first number from `k` on that is open to a block without statements.
pub open spec fn first_open(
    store: Map<BlockReference, StatementBlock>,
    authority: u64,
    round: u64,
    parents: Seq<BlockReference>,
    k: u64,
) -> u64
    decreases u64::MAX - k,
{
    if k == u64::MAX || is_open(store, authority, round, parents, k) {
        k
    } else {
        first_open(store, authority, round, parents, (k + 1) as u64)
    }
}

/// The reference that a block without statements has in a store, or gets there.
pub open spec fn plain_reference(
    store: Map<BlockReference, StatementBlock>,
    authority: u64,
    round: u64,
    parents: Seq<BlockReference>,
) -> BlockReference {
    types::numbered_reference(
        authority,
        round,
        first_open(store, authority, round, parents, 0),
    )
}

/// Between two stores, a block without statements was written under a reference,
/// unless it was there, and nothing else.
pub open spec fn wrote_plain(
    before: Map<BlockReference, StatementBlock>,
    after: Map<BlockReference, StatementBlock>,
    r: BlockReference,
    authority: u64,
    round: u64,
    parents: Seq<BlockReference>,
) -> bool {
    &&& after.dom() == before.dom().insert(r)
    &&& after[r].reference == r
    &&& is_plain_block(after[r], authority, round, parents)
    &&& forall|q: BlockReference| before.dom().contains(q) ==> #[trigger] after[q] == before[q]
}

/// A store with blocks under all numbers up to `k` holds more than `k` blocks.
proof fn lemma_numbers_are_few(
    store: Map<BlockReference, StatementBlock>,
    authority: u64,
    round: u64,
    k: u64,
)
    requires
        store.dom().finite(),
        forall|j: u64|
            j <= k ==> store.dom().contains(
                #[trigger] types::numbered_reference(authority, round, j),
            ),
    ensures
        k < store.dom().len(),
{
    let refs = Seq::new(
        (k + 1) as nat,
        |j: int| types::numbered_reference(authority, round, j as u64),
    );
    assert forall|i: int, j: int| 0 <= i < refs.len() && 0 <= j < refs.len() && i != j implies refs[i]
        != refs[j] by {
        assert(refs[i].digest.w0 == i as u64);
        assert(refs[j].digest.w0 == j as u64);
    }
    refs.unique_seq_to_set();
    assert forall|q: BlockReference| refs.to_set().contains(q) implies store.dom().contains(q) by {
        let i = choose|i: int| 0 <= i < refs.len() && refs[i] == q;
        assert(refs[i] == types::numbered_reference(authority, round, i as u64));
    }
    vstd::set_lib::lemma_len_subset(refs.to_set(), store.dom());
}

/// Two stores hold the same blocks of a round.
pub open spec fn agree_in_round(
    a: Map<BlockReference, StatementBlock>,
    b: Map<BlockReference, StatementBlock>,
    round: u64,
) -> bool {
    forall|q: BlockReference|
        #![trigger a.dom().contains(q)]
        #![trigger b.dom().contains(q)]
        q.round == round ==> a.dom().contains(q) == b.dom().contains(q) && (a.dom().contains(q)
            ==> a[q] == b[q])
}

/// What number is open depends on the blocks of the author in the round alone.
proof fn lemma_first_open(
    a: Map<BlockReference, StatementBlock>,
    b: Map<BlockReference, StatementBlock>,
    authority: u64,
    round: u64,
    parents: Seq<BlockReference>,
    k: u64,
)
    requires
        forall|j: u64|
            is_open(a, authority, round, parents, j) == #[trigger] is_open(
                b,
                authority,
                round,
                parents,
                j,
            ),
    ensures
        first_open(a, authority, round, parents, k) == first_open(b, authority, round, parents, k),
    decreases u64::MAX - k,
{
    assert(is_open(a, authority, round, parents, k) == is_open(b, authority, round, parents, k));
    if k < u64::MAX {
        lemma_first_open(a, b, authority, round, parents, (k + 1) as u64);
    }
}

proof fn lemma_same_layer(
    a: Map<BlockReference, StatementBlock>,
    b: Map<BlockReference, StatementBlock>,
    n: nat,
    round: u64,
    parents: Seq<BlockReference>,
)
    requires
        agree_in_round(a, b, round),
    ensures
        layer(a, n, round, parents) == layer(b, n, round, parents),
{
    assert forall|x: u64| plain_reference(a, x, round, parents) == #[trigger] plain_reference(
        b,
        x,
        round,
        parents,
    ) by {
        assert forall|j: u64|
            is_open(a, x, round, parents, j) == #[trigger] is_open(b, x, round, parents, j) by {
            let r = types::numbered_reference(x, round, j);
            assert(a.dom().contains(r) == b.dom().contains(r));
        }
        lemma_first_open(a, b, x, round, parents, 0);
    }
    assert(layer(a, n, round, parents) =~= layer(b, n, round, parents));
}

/// The references of one block of each member that refers to all of `parents`, as
/// they are in a store or would get there.
pub open spec fn layer(
    store: Map<BlockReference, StatementBlock>,
    n: nat,
    round: u64,
    parents: Seq<BlockReference>,
) -> Seq<BlockReference> {
    Seq::new(n, |a: int| plain_reference(store, a as u64, round, parents))
}

/// The references of the `k`-th layer above `start`, where the first one is of
/// the round `first`.
pub open spec fn layer_above(
    store: Map<BlockReference, StatementBlock>,
    n: nat,
    start: Seq<BlockReference>,
    first: u64,
    k: int,
) -> Seq<BlockReference>
    decreases k,
{
    if k <= 0 {
        start
    } else {
        layer(store, n, (first + k - 1) as u64, layer_above(store, n, start, first, k - 1))
    }
}

/// A store holds the block of a member under the reference that it had or got in an
/// earlier one.
pub open spec fn holds_plain(
    before: Map<BlockReference, StatementBlock>,
    after: Map<BlockReference, StatementBlock>,
    authority: u64,
    round: u64,
    parents: Seq<BlockReference>,
) -> bool {
    let r = plain_reference(before, authority, round, parents);
    after.dom().contains(r) && after[r].reference == r && is_plain_block(
        after[r],
        authority,
        round,
        parents,
    )
}

/// A store holds the blocks of a layer.
pub open spec fn holds_layer(
    before: Map<BlockReference, StatementBlock>,
    after: Map<BlockReference, StatementBlock>,
    n: nat,
    round: u64,
    parents: Seq<BlockReference>,
) -> bool {
    forall|a: u64| a < n ==> #[trigger] holds_plain(before, after, a, round, parents)
}

/// The references that a graph is built on.
pub open spec fn bottom_of(
    store: Map<BlockReference, StatementBlock>,
    n: nat,
    start: Option<Seq<BlockReference>>,
) -> Seq<BlockReference> {
    match start {
        Some(s) => s,
        None => layer(store, n, 0, Seq::empty()),
    }
}

/// The round of the first layer above those references.
pub open spec fn first_round(start: Option<Seq<BlockReference>>) -> u64 {
    match start {
        Some(s) => (s[0].round + 1) as u64,
        None => 1,
    }
}

/// The `k`-th layer of a graph that is built in a store.
pub open spec fn graph_layer(
    store: Map<BlockReference, StatementBlock>,
    n: nat,
    start: Option<Seq<BlockReference>>,
    k: int,
) -> Seq<BlockReference> {
    layer_above(store, n, bottom_of(store, n, start), first_round(start), k)
}

/// The references of the last layer of a graph that is built in a store up to a
/// round.
pub open spec fn top_of(
    store: Map<BlockReference, StatementBlock>,
    n: nat,
    start: Option<Seq<BlockReference>>,
    stop: u64,
) -> Seq<BlockReference> {
    graph_layer(store, n, start, stop - first_round(start) + 1)
}

/// A block is one of the first blocks, where a graph begins with them, or of one
/// of its first `layers` layers.
pub open spec fn is_added(
    store: Map<BlockReference, StatementBlock>,
    n: nat,
    start: Option<Seq<BlockReference>>,
    layers: int,
    q: BlockReference,
) -> bool {
    ||| start is None && layer(store, n, 0, Seq::empty()).contains(q)
    ||| exists|k: int|
        1 <= k <= layers && #[trigger] graph_layer(store, n, start, k).contains(q)
}

/// Between two stores, the blocks of a graph of `layers` layers were written, and
/// nothing else. What was held before stays.
pub open spec fn adds_layers(
    before: Map<BlockReference, StatementBlock>,
    after: Map<BlockReference, StatementBlock>,
    n: nat,
    start: Option<Seq<BlockReference>>,
    layers: int,
) -> bool {
    &&& start is None ==> holds_layer(before, after, n, 0, Seq::empty())
    &&& forall|k: int|
        #![trigger graph_layer(before, n, start, k)]
        0 <= k < layers ==> holds_layer(
            before,
            after,
            n,
            (first_round(start) + k) as u64,
            graph_layer(before, n, start, k),
        )
    &&& forall|q: BlockReference| #[trigger]
        after.dom().contains(q) == (before.dom().contains(q) || is_added(
            before,
            n,
            start,
            layers,
            q,
        ))
    &&& forall|q: BlockReference| before.dom().contains(q) ==> #[trigger] after[q] == before[q]
}

/// The graph up to a round was written, and nothing else.
pub open spec fn is_dag(
    before: Map<BlockReference, StatementBlock>,
    after: Map<BlockReference, StatementBlock>,
    n: nat,
    start: Option<Seq<BlockReference>>,
    stop: u64,
) -> bool {
    adds_layers(before, after, n, start, stop - first_round(start) + 1)
}

/// Given references, by their contents.
pub open spec fn start_view(start: Option<Vec<BlockReference>>) -> Option<Seq<BlockReference>> {
    match start {
        Some(s) => Some(s@),
        None => None,
    }
}

/// References from which a graph can be built: there are some, all of one round.
pub open spec fn is_start(start: Option<Seq<BlockReference>>) -> bool {
    start matches Some(s) ==> s.len() > 0 && s[0].round < u64::MAX && forall|i: int|
        0 <= i < s.len() ==> (#[trigger] s[i]).round == s[0].round
}

/// Between two stores, the blocks of references were written, and nothing else.
spec fn adds_only(
    before: Map<BlockReference, StatementBlock>,
    after: Map<BlockReference, StatementBlock>,
    refs: Seq<BlockReference>,
) -> bool {
    &&& forall|q: BlockReference| #[trigger]
        after.dom().contains(q) == (before.dom().contains(q) || refs.contains(q))
    &&& forall|q: BlockReference| before.dom().contains(q) ==> #[trigger] after[q] == before[q]
}

/// Writes one block of each member that refers to all of `parents`.
fn write_layer(
    n: usize,
    writer: &mut TestBlockWriter,
    round: RoundNumber,
    parents: &Vec<BlockReference>,
) -> (r: Vec<BlockReference>)
    requires
        old(writer).wf(),
        n <= MAX_COMMITTEE,
    ensures
        final(writer).wf(),
        r@ == layer(old(writer).block_store@, n as nat, round, parents@),
        holds_layer(
            old(writer).block_store@,
            final(writer).block_store@,
            n as nat,
            round,
            parents@,
        ),
        adds_only(old(writer).block_store@, final(writer).block_store@, r@),
{
    let ghost before = writer.block_store@;
    let mut out: Vec<BlockReference> = Vec::new();
    let mut a: usize = 0;
    while a < n
        invariant
            a <= n <= MAX_COMMITTEE,
            out@ == layer(before, a as nat, round, parents@),
            writer.wf(),
            holds_layer(before, writer.block_store@, a as nat, round, parents@),
            adds_only(before, writer.block_store@, out@),
        decreases n - a,
    {
        let ghost m = writer.block_store@;
        let ghost o = out@;
        proof {
            let x = a as u64;
            assert forall|j: u64|
                is_open(m, x, round, parents@, j) == #[trigger] is_open(
                    before,
                    x,
                    round,
                    parents@,
                    j,
                ) by {
                let r = types::numbered_reference(x, round, j);
                if o.contains(r) {
                    let i = choose|i: int| 0 <= i < o.len() && o[i] == r;
                    assert(o[i].authority == i as u64);
                }
                assert(m.dom().contains(r) == (before.dom().contains(r) || o.contains(r)));
            }
            lemma_first_open(m, before, x, round, parents@, 0);
        }
        let reference = writer.add_plain_block(a as u64, round, parents);
        out.push(reference);
        assert(out@ =~= layer(before, (a + 1) as nat, round, parents@));
        proof {
            let w = writer.block_store@;
            assert forall|b: u64| b < a + 1 implies #[trigger] holds_plain(
                before,
                w,
                b,
                round,
                parents@,
            ) by {
                if b < a {
                    assert(holds_plain(before, m, b, round, parents@));
                    let r = plain_reference(before, b, round, parents@);
                    assert(w[r] == m[r]);
                }
            }
            assert forall|q: BlockReference| #[trigger]
                w.dom().contains(q) == (before.dom().contains(q) || out@.contains(q)) by {
                lemma_push_contains(o, reference, q);
                assert(m.dom().contains(q) == (before.dom().contains(q) || o.contains(q)));
            }
            assert forall|q: BlockReference| before.dom().contains(q) implies #[trigger] w[q]
                == before[q] by {
                assert(m.dom().contains(q) == (before.dom().contains(q) || o.contains(q)));
                assert(m[q] == before[q]);
                assert(w[q] == m[q]);
            }
        }
        a = a + 1;
    }
    out
}

proof fn lemma_push_contains(s: Seq<BlockReference>, x: BlockReference, q: BlockReference)
    ensures
        s.push(x).contains(q) == (s.contains(q) || q == x),
{
    let t = s.push(x);
    if t.contains(q) {
        let i = choose|i: int| 0 <= i < t.len() && t[i] == q;
        if i < s.len() {
            assert(s[i] == q);
        }
    }
    if s.contains(q) {
        let i = choose|i: int| 0 <= i < s.len() && s[i] == q;
        assert(t[i] == q);
    }
    assert(t[s.len() as int] == x);
}

/// Builds a graph in which every block refers to all blocks of the round
/// before, up to the round `stop`, from given references or from the first
/// blocks. Gives the references of the last round.
pub fn build_dag(
    committee: &Committee,
    block_writer: &mut TestBlockWriter,
    start: Option<Vec<BlockReference>>,
    stop: RoundNumber,
) -> (r: Vec<BlockReference>)
    requires
        old(block_writer).wf(),
        is_start(start_view(start)),
    ensures
        final(block_writer).wf(),
        r@ == top_of(
            old(block_writer).block_store@,
            committee.stakes().len(),
            start_view(start),
            stop,
        ),
        is_dag(
            old(block_writer).block_store@,
            final(block_writer).block_store@,
            committee.stakes().len(),
            start_view(start),
            stop,
        ),
{
    let ghost before = block_writer.block_store@;
    let count: usize = committee.len();
    let ghost n = committee.stakes().len();
    let ghost from = start_view(start);
    let no_parents: Vec<BlockReference> = Vec::new();
    assert(no_parents@ =~= Seq::<BlockReference>::empty());
    let mut includes = match start {
        Some(s) => s,
        None => write_layer(count, block_writer, 0, &no_parents),
    };
    assert(includes@ == bottom_of(before, n, from));
    let first: u64 = includes[0].round + 1;
    assert(adds_layers(before, block_writer.block_store@, n, from, 0));
    let mut round: u64 = first;
    let mut more: bool = first <= stop;
    let ghost mut layers: int = 0;
    while more
        invariant
            first == first_round(from),
            0 < first <= round,
            more ==> round <= stop && layers == round - first,
            !more ==> layers == stop - first + 1 || layers == 0 && stop < first,
            0 <= layers,
            count == n,
            n <= MAX_COMMITTEE,
            block_writer.wf(),
            includes@ == graph_layer(before, n, from, layers),
            adds_layers(before, block_writer.block_store@, n, from, layers),
        decreases (if more { stop + 1 - round } else { 0 }),
    {
        let ghost m = block_writer.block_store@;
        proof {
            lemma_round_is_untouched(before, m, n, from, layers, round);
            lemma_same_layer(m, before, n, round, includes@);
        }
        let refs = write_layer(count, block_writer, round, &includes);
        proof {
            lemma_layer_added(before, m, block_writer.block_store@, n, from, layers);
            layers = layers + 1;
        }
        includes = refs;
        if round < stop {
            round = round + 1;
        } else {
            more = false;
        }
    }
    proof {
        if stop < first {
            lemma_no_layers(before, block_writer.block_store@, n, from, stop - first + 1);
        }
    }
    includes
}

proof fn lemma_no_layers(
    before: Map<BlockReference, StatementBlock>,
    after: Map<BlockReference, StatementBlock>,
    n: nat,
    start: Option<Seq<BlockReference>>,
    layers: int,
)
    requires
        layers <= 0,
        adds_layers(before, after, n, start, 0),
    ensures
        adds_layers(before, after, n, start, layers),
        graph_layer(before, n, start, layers) == graph_layer(before, n, start, 0),
{
    assert forall|q: BlockReference|
        is_added(before, n, start, layers, q) == is_added(before, n, start, 0, q) by {}
}

/// The blocks of a layer are of its round.
proof fn lemma_layer_round(
    store: Map<BlockReference, StatementBlock>,
    n: nat,
    round: u64,
    parents: Seq<BlockReference>,
    q: BlockReference,
)
    requires
        layer(store, n, round, parents).contains(q),
        n <= MAX_COMMITTEE,
    ensures
        q.round == round,
        q.authority < n,
        q == plain_reference(store, q.authority, round, parents),
{
    let l = layer(store, n, round, parents);
    let i = choose|i: int| 0 <= i < l.len() && l[i] == q;
    assert(l[i] == plain_reference(store, i as u64, round, parents));
}

/// The blocks that are added are of the first round, where a graph begins with it, or
/// of that of their layer.
proof fn lemma_added_round(
    store: Map<BlockReference, StatementBlock>,
    n: nat,
    start: Option<Seq<BlockReference>>,
    layers: int,
    q: BlockReference,
)
    requires
        n <= MAX_COMMITTEE,
        0 < first_round(start),
        first_round(start) + layers <= u64::MAX + 1,
        is_added(store, n, start, layers, q),
    ensures
        q.authority < n,
        q.round < first_round(start) ==> start is None && q.round == 0 && q == plain_reference(
            store,
            q.authority,
            0,
            Seq::empty(),
        ),
        q.round >= first_round(start) ==> q.round < first_round(start) + layers && q
            == plain_reference(
            store,
            q.authority,
            q.round,
            graph_layer(store, n, start, q.round - first_round(start)),
        ),
{
    let first = first_round(start);
    if start is None && layer(store, n, 0, Seq::empty()).contains(q) {
        lemma_layer_round(store, n, 0, Seq::empty(), q);
    } else {
        let k = choose|k: int|
            1 <= k <= layers && #[trigger] graph_layer(store, n, start, k).contains(q);
        let parents = graph_layer(store, n, start, k - 1);
        lemma_layer_round(store, n, (first + k - 1) as u64, parents, q);
    }
}

/// The layers of a graph leave the rounds above them as they are.
proof fn lemma_round_is_untouched(
    before: Map<BlockReference, StatementBlock>,
    after: Map<BlockReference, StatementBlock>,
    n: nat,
    start: Option<Seq<BlockReference>>,
    layers: int,
    round: u64,
)
    requires
        n <= MAX_COMMITTEE,
        0 < first_round(start),
        0 <= layers,
        first_round(start) + layers <= round,
        adds_layers(before, after, n, start, layers),
    ensures
        agree_in_round(before, after, round),
        agree_in_round(after, before, round),
{
    assert forall|q: BlockReference| q.round == round implies #[trigger] after.dom().contains(q)
        == before.dom().contains(q) by {
        if is_added(before, n, start, layers, q) {
            lemma_added_round(before, n, start, layers, q);
        }
    }
    assert forall|q: BlockReference|
        #![trigger before.dom().contains(q)]
        q.round == round implies before.dom().contains(q) == after.dom().contains(q) && (
    before.dom().contains(q) ==> before[q] == after[q]) by {
        assert(after.dom().contains(q) == before.dom().contains(q));
        if before.dom().contains(q) {
            assert(after[q] == before[q]);
        }
    }
}

/// A further layer is written on top of the others.
proof fn lemma_layer_added(
    before: Map<BlockReference, StatementBlock>,
    m: Map<BlockReference, StatementBlock>,
    w: Map<BlockReference, StatementBlock>,
    n: nat,
    start: Option<Seq<BlockReference>>,
    layers: int,
)
    requires
        0 <= layers,
        n <= MAX_COMMITTEE,
        first_round(start) + layers <= u64::MAX,
        first_round(start) > 0,
        adds_layers(before, m, n, start, layers),
        ({
            let round = (first_round(start) + layers) as u64;
            let parents = graph_layer(before, n, start, layers);
            let refs = layer(before, n, round, parents);
            &&& layer(m, n, round, parents) == refs
            &&& holds_layer(m, w, n, round, parents)
            &&& adds_only(m, w, refs)
        }),
    ensures
        adds_layers(before, w, n, start, layers + 1),
{
    let first = first_round(start);
    let round = (first + layers) as u64;
    let parents = graph_layer(before, n, start, layers);
    let refs = layer(before, n, round, parents);
    assert(refs == graph_layer(before, n, start, layers + 1));
    assert forall|a: u64| a < n implies #[trigger] holds_plain(before, w, a, round, parents) by {
        assert(holds_plain(m, w, a, round, parents));
        assert(layer(m, n, round, parents)[a as int] == refs[a as int]);
    }
    assert forall|k: int|
        #![trigger graph_layer(before, n, start, k)]
        0 <= k < layers + 1 implies holds_layer(
        before,
        w,
        n,
        (first + k) as u64,
        graph_layer(before, n, start, k),
    ) by {
        if k < layers {
            lemma_layer_stays(before, m, w, n, (first + k) as u64, graph_layer(before, n, start, k));
        }
    }
    if start is None {
        lemma_layer_stays(before, m, w, n, 0, Seq::empty());
    }
    assert forall|q: BlockReference| #[trigger]
        is_added(before, n, start, layers + 1, q) == (is_added(before, n, start, layers, q)
            || refs.contains(q)) by {
        if refs.contains(q) {
            assert(graph_layer(before, n, start, layers + 1).contains(q));
        }
    }
    assert forall|q: BlockReference| #[trigger]
        w.dom().contains(q) == (before.dom().contains(q) || is_added(
            before,
            n,
            start,
            layers + 1,
            q,
        )) by {
        assert(m.dom().contains(q) == (before.dom().contains(q) || is_added(
            before,
            n,
            start,
            layers,
            q,
        )));
        assert(is_added(before, n, start, layers + 1, q) == (is_added(before, n, start, layers, q)
            || refs.contains(q)));
    }
    assert forall|q: BlockReference| before.dom().contains(q) implies #[trigger] w[q]
        == before[q] by {
        assert(m.dom().contains(q) == (before.dom().contains(q) || is_added(
            before,
            n,
            start,
            layers,
            q,
        )));
        assert(m[q] == before[q]);
    }
}

proof fn lemma_layer_stays(
    before: Map<BlockReference, StatementBlock>,
    m: Map<BlockReference, StatementBlock>,
    w: Map<BlockReference, StatementBlock>,
    n: nat,
    round: u64,
    parents: Seq<BlockReference>,
)
    requires
        holds_layer(before, m, n, round, parents),
        forall|q: BlockReference|
            m.dom().contains(q) ==> #[trigger] w.dom().contains(q) && w[q] == m[q],
    ensures
        holds_layer(before, w, n, round, parents),
{
    assert forall|a: u64| a < n implies #[trigger] holds_plain(before, w, a, round, parents) by {
        assert(holds_plain(before, m, a, round, parents));
        let r = plain_reference(before, a, round, parents);
        assert(w.dom().contains(r));
    }
}

/// Layers on top of layers are layers on top of the first ones.
proof fn lemma_layers_compose(
    s: Map<BlockReference, StatementBlock>,
    t: Map<BlockReference, StatementBlock>,
    n: nat,
    bottom: Seq<BlockReference>,
    first: u64,
    j: int,
    k: int,
)
    requires
        0 <= j,
        0 <= k,
        first + j <= u64::MAX,
        first + j + k <= u64::MAX + 1,
        forall|round: u64| first + j <= round ==> #[trigger] agree_in_round(s, t, round),
    ensures
        layer_above(t, n, layer_above(s, n, bottom, first, j), (first + j) as u64, k)
            == layer_above(s, n, bottom, first, j + k),
    decreases k,
{
    if k > 0 {
        lemma_layers_compose(s, t, n, bottom, first, j, k - 1);
        let round = (first + (j + k) - 1) as u64;
        assert(((first + j) as u64 + k - 1) as u64 == round);
        assert(agree_in_round(s, t, round));
        lemma_same_layer(s, t, n, round, layer_above(s, n, bottom, first, j + k - 1));
    }
}

/// Two stores hold the same blocks, by their contents.
pub open spec fn same_blocks(
    a: Map<BlockReference, StatementBlock>,
    b: Map<BlockReference, StatementBlock>,
) -> bool {
    &&& a.dom() == b.dom()
    &&& forall|q: BlockReference| #[trigger]
        a.dom().contains(q) ==> types::same_block(a[q], b[q])
}

/// A block that is added is held with the parents of its layer.
proof fn lemma_added_block(
    before: Map<BlockReference, StatementBlock>,
    after: Map<BlockReference, StatementBlock>,
    n: nat,
    start: Option<Seq<BlockReference>>,
    layers: int,
    q: BlockReference,
) -> (parents: Seq<BlockReference>)
    requires
        n <= MAX_COMMITTEE,
        0 < first_round(start),
        first_round(start) + layers <= u64::MAX + 1,
        adds_layers(before, after, n, start, layers),
        is_added(before, n, start, layers, q),
    ensures
        after[q].reference == q,
        is_plain_block(after[q], q.authority, q.round, parents),
        q.round < first_round(start) ==> start is None && q.round == 0 && parents
            == Seq::<BlockReference>::empty(),
        q.round >= first_round(start) ==> q.round < first_round(start) + layers && parents
            == graph_layer(before, n, start, q.round - first_round(start)),
{
    let first = first_round(start);
    lemma_added_round(before, n, start, layers, q);
    if q.round < first {
        assert(holds_plain(before, after, q.authority, 0, Seq::empty()));
        Seq::empty()
    } else {
        let k = q.round - first;
        let parents = graph_layer(before, n, start, k);
        assert(holds_layer(before, after, n, (first + k) as u64, parents));
        assert(holds_plain(before, after, q.authority, q.round, parents));
        parents
    }
}

/// The layers of a graph that is built in two steps are those of the graph that is
/// built in one.
proof fn lemma_steps(
    n: nat,
    before: Map<BlockReference, StatementBlock>,
    middle: Map<BlockReference, StatementBlock>,
    j: u64,
    i: int,
)
    requires
        0 < n <= MAX_COMMITTEE,
        j < u64::MAX,
        0 <= i,
        j + i <= u64::MAX,
        is_dag(before, middle, n, None, j),
    ensures
        top_of(before, n, None, j).len() == n,
        first_round(Some(top_of(before, n, None, j))) == j + 1,
        is_start(Some(top_of(before, n, None, j))),
        graph_layer(middle, n, Some(top_of(before, n, None, j)), i) == graph_layer(
            before,
            n,
            None,
            j + i,
        ),
{
    let mid = top_of(before, n, None, j);
    assert(mid == graph_layer(before, n, None, j as int));
    assert(mid.len() == n && forall|x: int| 0 <= x < n ==> (#[trigger] mid[x]).round == j);
    assert forall|round: u64| 1 + j <= round implies #[trigger] agree_in_round(
        before,
        middle,
        round,
    ) by {
        lemma_round_is_untouched(before, middle, n, None, j as int, round);
    }
    lemma_layers_compose(before, middle, n, bottom_of(before, n, None), 1, j as int, i);
}

/// A graph that is built in two steps, up to one round and from there on, is the
/// graph that is built in one: the same references come out, and the same blocks
/// are held.
pub proof fn law_a_graph_is_built_in_steps(
    n: nat,
    before: Map<BlockReference, StatementBlock>,
    middle: Map<BlockReference, StatementBlock>,
    stepwise: Map<BlockReference, StatementBlock>,
    at_once: Map<BlockReference, StatementBlock>,
    j: u64,
    k: u64,
)
    requires
        0 < n <= MAX_COMMITTEE,
        j <= k,
        j < u64::MAX,
        is_dag(before, middle, n, None, j),
        is_dag(middle, stepwise, n, Some(top_of(before, n, None, j)), k),
        is_dag(before, at_once, n, None, k),
    ensures
        is_start(Some(top_of(before, n, None, j))),
        top_of(middle, n, Some(top_of(before, n, None, j)), k) == top_of(before, n, None, k),
        same_blocks(stepwise, at_once),
{
    let bottom = layer(before, n, 0, Seq::empty());
    let mid = top_of(before, n, None, j);
    let second: Option<Seq<BlockReference>> = Some(mid);
    lemma_steps(n, before, middle, j, k - j);
    let more = k - first_round(second) + 1;
    assert(more == k - j);
    assert forall|i: int| 0 <= i <= more implies #[trigger] graph_layer(middle, n, second, i)
        == graph_layer(before, n, None, j + i) by {
        lemma_steps(n, before, middle, j, i);
    }
    assert forall|q: BlockReference| #[trigger]
        is_added(before, n, None, k as int, q) == (is_added(before, n, None, j as int, q)
            || is_added(middle, n, second, more, q)) by {
        if is_added(before, n, None, k as int, q) && !bottom.contains(q) {
            let i = choose|i: int|
                1 <= i <= k && #[trigger] graph_layer(before, n, None, i).contains(q);
            if i > j {
                assert(graph_layer(middle, n, second, i - j) == graph_layer(
                    before,
                    n,
                    None,
                    j + (i - j),
                ));
                assert(graph_layer(middle, n, second, i - j).contains(q));
            } else {
                assert(graph_layer(before, n, None, i).contains(q));
            }
        }
        if is_added(middle, n, second, more, q) {
            let i = choose|i: int|
                1 <= i <= more && #[trigger] graph_layer(middle, n, second, i).contains(q);
            assert(graph_layer(before, n, None, j + i).contains(q));
        }
        if is_added(before, n, None, j as int, q) && !bottom.contains(q) {
            let i = choose|i: int|
                1 <= i <= j && #[trigger] graph_layer(before, n, None, i).contains(q);
            assert(1 <= i <= k);
        }
    }
    assert forall|q: BlockReference| stepwise.dom().contains(q) == at_once.dom().contains(q) by {
        assert(middle.dom().contains(q) == (before.dom().contains(q) || is_added(
            before,
            n,
            None,
            j as int,
            q,
        )));
        assert(is_added(before, n, None, k as int, q) == (is_added(before, n, None, j as int, q)
            || is_added(middle, n, second, more, q)));
    }
    assert(stepwise.dom() =~= at_once.dom());
    assert forall|q: BlockReference| #[trigger] stepwise.dom().contains(q) implies types::same_block(
        stepwise[q],
        at_once[q],
    ) by {
        assert(middle.dom().contains(q) == (before.dom().contains(q) || is_added(
            before,
            n,
            None,
            j as int,
            q,
        )));
        assert(is_added(before, n, None, k as int, q) == (is_added(before, n, None, j as int, q)
            || is_added(middle, n, second, more, q)));
        assert(at_once.dom().contains(q));
        if before.dom().contains(q) {
            assert(middle[q] == before[q]);
            assert(stepwise[q] == middle[q]);
            assert(at_once[q] == before[q]);
        } else if is_added(middle, n, second, more, q) {
            let p = lemma_added_block(middle, stepwise, n, second, more, q);
            let o = lemma_added_block(before, at_once, n, None, k as int, q);
            lemma_added_round(middle, n, second, more, q);
            lemma_steps(n, before, middle, j, q.round - (j + 1));
        } else {
            let p = lemma_added_block(before, middle, n, None, j as int, q);
            let o = lemma_added_block(before, at_once, n, None, k as int, q);
            assert(stepwise[q] == middle[q]);
        }
    }
}

/// The blocks of the first layers, the first blocks counted as one.
spec fn added_set(store: Map<BlockReference, StatementBlock>, n: nat, layers: int) -> Set<
    BlockReference,
> {
    Set::new(|q: BlockReference| is_added(store, n, None, layers, q))
}

proof fn lemma_layer_size(
    store: Map<BlockReference, StatementBlock>,
    n: nat,
    round: u64,
    parents: Seq<BlockReference>,
)
    requires
        n <= MAX_COMMITTEE,
    ensures
        layer(store, n, round, parents).to_set().finite(),
        layer(store, n, round, parents).to_set().len() == n,
{
    let l = layer(store, n, round, parents);
    assert forall|i: int, j: int| 0 <= i < l.len() && 0 <= j < l.len() && i != j implies l[i]
        != l[j] by {
        assert(l[i].authority == i as u64);
        assert(l[j].authority == j as u64);
    }
    l.unique_seq_to_set();
}

proof fn lemma_graph_size(store: Map<BlockReference, StatementBlock>, n: nat, layers: int)
    requires
        n <= MAX_COMMITTEE,
        0 <= layers <= u64::MAX,
    ensures
        added_set(store, n, layers).finite(),
        added_set(store, n, layers).len() == n * (layers + 1),
    decreases layers,
{
    let bottom = layer(store, n, 0, Seq::empty());
    if layers == 0 {
        assert(added_set(store, n, 0) =~= bottom.to_set());
        lemma_layer_size(store, n, 0, Seq::empty());
        assert(n * 1 == n);
    } else {
        lemma_graph_size(store, n, layers - 1);
        let parents = graph_layer(store, n, None, layers - 1);
        let round = layers as u64;
        let l = layer(store, n, round, parents);
        let rest = added_set(store, n, layers - 1);
        assert(l == graph_layer(store, n, None, layers));
        lemma_layer_size(store, n, round, parents);
        assert forall|q: BlockReference| rest.contains(q) implies !l.to_set().contains(q) by {
            if l.contains(q) {
                lemma_layer_round(store, n, round, parents, q);
                lemma_added_round(store, n, None, layers - 1, q);
            }
        }
        assert(added_set(store, n, layers) =~= rest + l.to_set()) by {
            assert forall|q: BlockReference|
                added_set(store, n, layers).contains(q) == (rest + l.to_set()).contains(q) by {
                if is_added(store, n, None, layers, q) && !bottom.contains(q) {
                    let k = choose|k: int|
                        1 <= k <= layers && #[trigger] graph_layer(store, n, None, k).contains(q);
                    if k < layers {
                        assert(is_added(store, n, None, layers - 1, q));
                    }
                }
                if l.contains(q) {
                    assert(is_added(store, n, None, layers, q));
                }
            }
        }
        vstd::set_lib::lemma_set_disjoint_lens(rest, l.to_set());
        assert(n * layers + n == n * (layers + 1)) by (nonlinear_arith);
    }
}

/// A graph from the first blocks up to a round, in a new store, has one block of
/// each member in each round.
pub proof fn law_a_graph_has_one_block_per_member_and_round(
    n: nat,
    store: Map<BlockReference, StatementBlock>,
    stop: u64,
)
    requires
        n <= MAX_COMMITTEE,
        is_dag(Map::empty(), store, n, None, stop),
    ensures
        store.dom().finite(),
        store.dom().len() == n * (stop + 1),
        forall|a: u64, round: u64|
            a < n && round <= stop ==> #[trigger] node_core::has_block_at(store, a, round),
        forall|q: BlockReference, p: BlockReference|
            #![trigger store.dom().contains(q), store.dom().contains(p)]
            store.dom().contains(q) && store.dom().contains(p) && q.authority == p.authority
                && q.round == p.round ==> q == p,
{
    let none = Map::<BlockReference, StatementBlock>::empty();
    lemma_graph_size(none, n, stop as int);
    assert(store.dom() =~= added_set(none, n, stop as int));
    assert forall|a: u64, round: u64| a < n && round <= stop implies #[trigger] node_core::has_block_at(
        store,
        a,
        round,
    ) by {
        if round == 0 {
            assert(holds_plain(none, store, a, 0, Seq::empty()));
            assert(store.dom().contains(plain_reference(none, a, 0, Seq::empty())));
        } else {
            let parents = graph_layer(none, n, None, round - 1);
            assert(holds_layer(
                none,
                store,
                n,
                (first_round(None) + (round - 1)) as u64,
                parents,
            ));
            assert(holds_plain(none, store, a, round, parents));
            assert(store.dom().contains(plain_reference(none, a, round, parents)));
        }
    }
    assert forall|q: BlockReference, p: BlockReference|
        #![trigger store.dom().contains(q), store.dom().contains(p)]
        store.dom().contains(q) && store.dom().contains(p) && q.authority == p.authority
            && q.round == p.round implies q == p by {
        lemma_added_round(none, n, None, stop as int, q);
        lemma_added_round(none, n, None, stop as int, p);
    }
}

/// What a list of blocks was written as: each can be read back by its reference, and
/// what was held before is still there, where the references tell blocks apart: two
/// blocks with one reference are the same block.
pub proof fn law_added_blocks_are_read_back(
    before: Map<BlockReference, StatementBlock>,
    blocks: Seq<StatementBlock>,
)
    requires
        forall|i: int, j: int|
            0 <= i < blocks.len() && 0 <= j < blocks.len() && (#[trigger] blocks[i]).reference == (
            #[trigger] blocks[j]).reference ==> types::same_block(blocks[i], blocks[j]),
        forall|i: int|
            0 <= i < blocks.len() && before.dom().contains((#[trigger] blocks[i]).reference)
                ==> types::same_block(blocks[i], before[blocks[i].reference]),
    ensures
        ({
            let after = with_blocks(before, blocks, blocks.len() as int);
            &&& forall|i: int|
                0 <= i < blocks.len() ==> after.dom().contains((#[trigger] blocks[i]).reference)
                    && types::same_block(after[blocks[i].reference], blocks[i])
            &&& forall|q: BlockReference| #[trigger]
                before.dom().contains(q) ==> after.dom().contains(q) && types::same_block(
                    after[q],
                    before[q],
                )
        }),
        with_blocks(before, Seq::empty(), 0) == before,
{
    let after = with_blocks(before, blocks, blocks.len() as int);
    assert forall|i: int| 0 <= i < blocks.len() implies after.dom().contains(
        (#[trigger] blocks[i]).reference,
    ) && types::same_block(after[blocks[i].reference], blocks[i]) by {
        let j = lemma_last_write(before, blocks, blocks.len() as int, blocks[i].reference);
        assert(blocks[j].reference == blocks[i].reference);
    }
    assert forall|q: BlockReference| #[trigger] before.dom().contains(q) implies after.dom().contains(
        q,
    ) && types::same_block(after[q], before[q]) by {
        let j = lemma_last_write(before, blocks, blocks.len() as int, q);
        if j >= 0 {
            assert(blocks[j].reference == q);
        }
    }
}

/// What is held under a reference after the first `k` blocks: the last one of them
/// with it, or what was held before, where there is none.
proof fn lemma_last_write(
    before: Map<BlockReference, StatementBlock>,
    blocks: Seq<StatementBlock>,
    k: int,
    q: BlockReference,
) -> (j: int)
    requires
        0 <= k <= blocks.len(),
    ensures
        -1 <= j < k,
        j >= 0 ==> blocks[j].reference == q && with_blocks(before, blocks, k).dom().contains(q)
            && with_blocks(before, blocks, k)[q] == blocks[j],
        j < 0 ==> (forall|i: int| 0 <= i < k ==> (#[trigger] blocks[i]).reference != q) && with_blocks(
            before,
            blocks,
            k,
        ).dom().contains(q) == before.dom().contains(q) && with_blocks(before, blocks, k)[q]
            == before[q],
    decreases k,
{
    if k == 0 {
        -1
    } else if blocks[k - 1].reference == q {
        k - 1
    } else {
        lemma_last_write(before, blocks, k - 1, q)
    }
}

/// Writes one block for each of the pairs of a member and its block's parents,
/// in the round after that of the first parent. Gives the references.
pub fn build_dag_layer(
    connections: Vec<(AuthorityIndex, Vec<BlockReference>)>,
    block_writer: &mut TestBlockWriter,
) -> (r: Vec<BlockReference>)
    requires
        old(block_writer).wf(),
        forall|i: int|
            0 <= i < connections@.len() ==> (#[trigger] connections@[i]).1@.len() > 0
                && connections@[i].1@[0].round < u64::MAX,
    ensures
        final(block_writer).wf(),
        r@.len() == connections@.len(),
        forall|i: int|
            0 <= i < r@.len() ==> (#[trigger] r@[i]).authority == connections@[i].0 && r@[i].round
                == connections@[i].1@[0].round + 1,
        forall|i: int|
            0 <= i < r@.len() ==> final(block_writer).block_store@.dom().contains(#[trigger] r@[i]),
        forall|i: int|
            0 <= i < r@.len() ==> is_plain_block(
                final(block_writer).block_store@[#[trigger] r@[i]],
                connections@[i].0,
                (connections@[i].1@[0].round + 1) as u64,
                connections@[i].1@,
            ),
        forall|i: int|
            0 <= i < r@.len() ==> #[trigger] r@[i] == plain_reference(
                final(block_writer).block_store@,
                connections@[i].0,
                (connections@[i].1@[0].round + 1) as u64,
                connections@[i].1@,
            ),
        forall|q: BlockReference| #[trigger]
            final(block_writer).block_store@.dom().contains(q) == (old(
                block_writer).block_store@.dom().contains(q) || r@.contains(q)),
        forall|q: BlockReference|
            old(block_writer).block_store@.dom().contains(q) ==> #[trigger] final(
                block_writer).block_store@[q] == old(block_writer).block_store@[q],
{
    let ghost before = block_writer.block_store@;
    let mut out: Vec<BlockReference> = Vec::new();
    let mut i: usize = 0;
    while i < connections.len()
        invariant
            i <= connections@.len(),
            forall|i: int|
                0 <= i < connections@.len() ==> (#[trigger] connections@[i]).1@.len() > 0
                    && connections@[i].1@[0].round < u64::MAX,
            block_writer.wf(),
            out@.len() == i,
            forall|k: int|
                0 <= k < i ==> is_written(
                    block_writer.block_store@,
                    #[trigger] out@[k],
                    connections@[k],
                ),
            adds_only(before, block_writer.block_store@, out@),
        decreases connections@.len() - i,
    {
        let c = &connections[i];
        assert(connections@[i as int].1@.len() > 0);
        let ghost m = block_writer.block_store@;
        let ghost o = out@;
        let round: u64 = c.1[0].round + 1;
        let reference = block_writer.add_plain_block(c.0, round, &c.1);
        out.push(reference);
        proof {
            let w = block_writer.block_store@;
            assert forall|k: int| 0 <= k < i + 1 implies is_written(
                w,
                #[trigger] out@[k],
                connections@[k],
            ) by {
                let (a, r, p) = (
                    connections@[k].0,
                    (connections@[k].1@[0].round + 1) as u64,
                    connections@[k].1@,
                );
                if k < i {
                    assert(is_written(m, o[k], connections@[k]));
                }
                lemma_number_stays(m, w, a, r, p, 0);
            }
            assert forall|q: BlockReference| #[trigger]
                w.dom().contains(q) == (before.dom().contains(q) || out@.contains(q)) by {
                lemma_push_contains(o, reference, q);
                assert(m.dom().contains(q) == (before.dom().contains(q) || o.contains(q)));
            }
            assert forall|q: BlockReference| before.dom().contains(q) implies #[trigger] w[q]
                == before[q] by {
                assert(m.dom().contains(q) == (before.dom().contains(q) || o.contains(q)));
                assert(m[q] == before[q]);
            }
        }
        i = i + 1;
    }
    assert forall|k: int| 0 <= k < out@.len() implies is_written(
        block_writer.block_store@,
        #[trigger] out@[k],
        connections@[k],
    ) by {}
    out
}

/// The block of a member with given parents is held under its reference.
spec fn is_written(
    store: Map<BlockReference, StatementBlock>,
    r: BlockReference,
    c: (AuthorityIndex, Vec<BlockReference>),
) -> bool {
    let round = (c.1@[0].round + 1) as u64;
    &&& r == plain_reference(store, c.0, round, c.1@)
    &&& store.dom().contains(r)
    &&& is_plain_block(store[r], c.0, round, c.1@)
}

/// A block keeps its reference while others are added.
proof fn lemma_number_stays(
    m: Map<BlockReference, StatementBlock>,
    w: Map<BlockReference, StatementBlock>,
    authority: u64,
    round: u64,
    parents: Seq<BlockReference>,
    k: u64,
)
    requires
        forall|q: BlockReference| m.dom().contains(q) ==> #[trigger] w.dom().contains(q),
        forall|q: BlockReference| m.dom().contains(q) ==> #[trigger] w[q] == m[q],
        ({
            let r = types::numbered_reference(
                authority,
                round,
                first_open(m, authority, round, parents, k),
            );
            w.dom().contains(r) && is_plain_block(w[r], authority, round, parents)
        }),
    ensures
        first_open(w, authority, round, parents, k) == first_open(m, authority, round, parents, k),
    decreases u64::MAX - k,
{
    let r = types::numbered_reference(authority, round, k);
    if k < u64::MAX && !is_open(m, authority, round, parents, k) {
        assert(w.dom().contains(r));
        assert(w[r] == m[r]);
        lemma_number_stays(m, w, authority, round, parents, (k + 1) as u64);
    }
}

/// Two nodes agree exactly where they committed the same leaders, one by one, as far as
/// both have come.
pub proof fn law_nodes_agree_one_by_one(a: Seq<BlockReference>, b: Seq<BlockReference>)
    ensures
        agree(a, b) <==> forall|i: int|
            0 <= i < a.len() && i < b.len() ==> #[trigger] a[i] == b[i],
        agree(a, b) == agree(b, a),
{
    if forall|i: int| 0 <= i < a.len() && i < b.len() ==> #[trigger] a[i] == b[i] {
        if a.len() <= b.len() {
            assert(b.take(a.len() as int) =~= a);
        } else {
            assert(a.take(b.len() as int) =~= b);
        }
    }
    if begins(a, b) {
        assert forall|i: int| 0 <= i < a.len() && i < b.len() implies #[trigger] a[i] == b[i] by {
            assert(b.take(a.len() as int)[i] == b[i]);
        }
    }
    if begins(b, a) {
        assert forall|i: int| 0 <= i < a.len() && i < b.len() implies #[trigger] a[i] == b[i] by {
            assert(a.take(b.len() as int)[i] == a[i]);
        }
    }
}

/// The log of a new node holds the first block of each member once, and that of the node
/// itself at last.
pub proof fn law_each_member_has_a_first_block(n: nat, authority: u64, i: int, j: int)
    requires
        0 < n <= u64::MAX,
        authority < n,
        0 <= i < n,
        0 <= j < n,
    ensures
        genesis_author(n, authority, i) < n,
        genesis_author(n, authority, i) == genesis_author(n, authority, j) ==> i == j,
        genesis_author(n, authority, n - 1) == authority,
        i < j < n - 1 ==> genesis_author(n, authority, i) < genesis_author(n, authority, j),
{
}

/// In a graph that was built, each member has one block in each layer. It refers to all
/// blocks of the layer below, and is of the round after theirs.
pub proof fn law_blocks_refer_to_the_layer_below(
    before: Map<BlockReference, StatementBlock>,
    after: Map<BlockReference, StatementBlock>,
    n: nat,
    start: Option<Seq<BlockReference>>,
    stop: u64,
    k: int,
    a: u64,
)
    requires
        is_dag(before, after, n, start, stop),
        is_start(start),
        0 <= k,
        first_round(start) + k <= stop,
        a < n <= u64::MAX,
    ensures
        ({
            let below = graph_layer(before, n, start, k);
            let above = graph_layer(before, n, start, k + 1);
            let b = after[above[a as int]];
            &&& above.len() == n
            &&& after.dom().contains(above[a as int])
            &&& b.reference == above[a as int]
            &&& b.reference.authority == a
            &&& b.reference.round == first_round(start) + k
            &&& b.includes@ == below
            &&& b.statements@.len() == 0
        }),
        start matches Some(s) ==> graph_layer(before, n, start, 0) == s && first_round(start)
            == s[0].round + 1,
        start is None ==> first_round(start) == 1,
        top_of(before, n, start, stop) == graph_layer(
            before,
            n,
            start,
            stop - first_round(start) + 1,
        ),
{
    let below = graph_layer(before, n, start, k);
    let round = (first_round(start) + k) as u64;
    assert(holds_layer(before, after, n, round, below));
    assert(holds_plain(before, after, a, round, below));
    assert(graph_layer(before, n, start, k + 1) == layer(before, n, round, below));
    assert(a as int as u64 == a);
}

} // verus!
