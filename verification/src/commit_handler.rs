//! What becomes of transactions that are final: each is executed once, in
//! batches, whichever path made it final.
use crate::committee;
use crate::committee::{Committee, StakeAggregator};
use crate::field::FieldElement;
use crate::finalization_interpreter;
use crate::finalization_interpreter::{FinalizationInterpreter, VoteLedger};
use crate::keymap::KeyMap;
use crate::types::{
    BaseStatement, BlockReference, BlockStore, StatementBlock, Transaction, TransactionLocator,
};
use crate::zkp;
use crate::zkp::VoteTransaction;
use vstd::prelude::*;

verus! {

/// A final transaction that is to be executed, and whether the fast path made it
/// final.
#[derive(Debug)]
pub struct ExecutionRequest {
    pub locator: TransactionLocator,
    pub transaction: Transaction,
    pub is_fpc: bool,
}

/// What a request asks for.
pub struct RequestView {
    pub locator: TransactionLocator,
    pub data: Seq<u8>,
    pub timestamp: u64,
    pub is_fpc: bool,
}

impl View for ExecutionRequest {
    type V = RequestView;

    open spec fn view(&self) -> RequestView {
        request(self.locator, self.transaction, self.is_fpc)
    }
}

/// The request for a transaction.
pub open spec fn request(l: TransactionLocator, t: Transaction, is_fpc: bool) -> RequestView {
    RequestView { locator: l, data: t.data@, timestamp: t.timestamp, is_fpc }
}

/// What a list of requests asks for.
pub open spec fn requests(v: Seq<ExecutionRequest>) -> Seq<RequestView> {
    Seq::new(v.len(), |i: int| v[i]@)
}

proof fn lemma_requests_push(v: Seq<ExecutionRequest>, r: ExecutionRequest)
    ensures
        requests(v.push(r)) == requests(v).push(r@),
{
    assert(requests(v.push(r)) =~= requests(v).push(r@));
}

/// The transactions that are final, and the requests that were made for them.
#[verifier::ext_equal]
pub struct LedgerState {
    pub done: Seq<TransactionLocator>,
    pub out: Seq<RequestView>,
}

/// A transaction becomes final, unless it is: a request is made for it, where
/// its contents are known.
pub open spec fn written(
    s: LedgerState,
    l: TransactionLocator,
    t: Option<Transaction>,
    is_fpc: bool,
) -> LedgerState {
    if s.done.contains(l) {
        s
    } else {
        LedgerState {
            done: s.done.push(l),
            out: match t {
                Some(t) => s.out.push(request(l, t, is_fpc)),
                None => s.out,
            },
        }
    }
}

/// What the statement at an offset of a block shares.
pub open spec fn contents(block: StatementBlock, l: TransactionLocator) -> Transaction {
    block.statements@[l.offset as int]->Share_0
}

/// The first `k` transactions that a block shares become final.
pub open spec fn block_written(
    s: LedgerState,
    block: StatementBlock,
    is_fpc: bool,
    k: int,
) -> LedgerState
    decreases k,
{
    if k <= 0 {
        s
    } else {
        let l = block.shared_locators()[k - 1];
        written(block_written(s, block, is_fpc, k - 1), l, Some(contents(block, l)), is_fpc)
    }
}

/// The votes for transactions, by the blocks that share them.
pub type VotesByBlock = KeyMap<BlockReference, KeyMap<TransactionLocator, StakeAggregator>>;

/// The votes are counted as they should be.
pub open spec fn votes_counted(votes: VotesByBlock, stakes: Seq<u64>) -> bool {
    &&& votes.wf()
    &&& forall|b: BlockReference|
        votes@.dom().contains(b) ==> finalization_interpreter::counted(#[trigger] votes@[b], stakes)
}

/// There is a quorum for a transaction.
pub open spec fn has_quorum(votes: VotesByBlock, stakes: Seq<u64>, l: TransactionLocator) -> bool {
    &&& votes@.dom().contains(l.block)
    &&& votes@[l.block]@.dom().contains(l)
    &&& committee::quorum(stakes, votes@[l.block]@[l].set())
}

/// Of the first `k` transactions that a block shares, those with a quorum become
/// final.
pub open spec fn votes_written(
    s: LedgerState,
    store: BlockStore,
    votes: VotesByBlock,
    stakes: Seq<u64>,
    block: StatementBlock,
    k: int,
) -> LedgerState
    decreases k,
{
    if k <= 0 {
        s
    } else {
        let before = votes_written(s, store, votes, stakes, block, k - 1);
        let l = block.shared_locators()[k - 1];
        if has_quorum(votes, stakes, l) {
            written(before, l, store.transaction(l), false)
        } else {
            before
        }
    }
}

/// The blocks that a committed leader brings with it, in order.
#[derive(Debug)]
pub struct CommittedSubDag {
    pub anchor: BlockReference,
    pub blocks: Vec<StatementBlock>,
}

/// The first `k` blocks of a commit are written: whole, or what has a quorum.
pub open spec fn blocks_written(
    s: LedgerState,
    whole: bool,
    store: BlockStore,
    votes: VotesByBlock,
    stakes: Seq<u64>,
    blocks: Seq<StatementBlock>,
    k: int,
) -> LedgerState
    decreases k,
{
    if k <= 0 {
        s
    } else {
        let before = blocks_written(s, whole, store, votes, stakes, blocks, k - 1);
        let b = blocks[k - 1];
        if whole {
            block_written(before, b, false, b.shared_locators().len() as int)
        } else {
            votes_written(before, store, votes, stakes, b, b.shared_locators().len() as int)
        }
    }
}

/// The first `k` commits are written.
pub open spec fn commits_written(
    s: LedgerState,
    whole: bool,
    store: BlockStore,
    votes: VotesByBlock,
    stakes: Seq<u64>,
    committed: Seq<CommittedSubDag>,
    k: int,
) -> LedgerState
    decreases k,
{
    if k <= 0 {
        s
    } else {
        let blocks = committed[k - 1].blocks@;
        blocks_written(
            commits_written(s, whole, store, votes, stakes, committed, k - 1),
            whole,
            store,
            votes,
            stakes,
            blocks,
            blocks.len() as int,
        )
    }
}

/// The anchors of commits.
pub open spec fn anchors(committed: Seq<CommittedSubDag>) -> Seq<BlockReference> {
    Seq::new(committed.len(), |i: int| committed[i].anchor)
}

/// Keeps the final transactions, and makes requests for their execution.
pub struct CommitHandler {
    pub committed_leaders: Vec<BlockReference>,
    pub finalized: VoteLedger,
    pub outbox: Vec<ExecutionRequest>,
    pub enable_block_fpc: bool,
}

impl CommitHandler {
    /// The final transactions and the requests that have not been taken.
    pub open spec fn state(&self) -> LedgerState {
        LedgerState { done: self.finalized.finalized@, out: requests(self.outbox@) }
    }

    /// Nothing is final.
    pub fn new(enable_block_fpc: bool) -> (r: Self)
        ensures
            r.state().done.len() == 0,
            r.state().out.len() == 0,
            r.committed_leaders@.len() == 0,
            r.enable_block_fpc == enable_block_fpc,
    {
        CommitHandler {
            committed_leaders: Vec::new(),
            finalized: VoteLedger::new(),
            outbox: Vec::new(),
            enable_block_fpc,
        }
    }

    /// The leaders that have been committed.
    pub fn committed_leaders(&self) -> (r: &Vec<BlockReference>)
        ensures
            r@ == self.committed_leaders@,
    {
        &self.committed_leaders
    }

    /// The final transactions.
    pub fn get_all_finalized_locators(&self) -> (r: Vec<TransactionLocator>)
        ensures
            r@ == self.state().done,
    {
        let mut out: Vec<TransactionLocator> = Vec::new();
        let ghost done = self.finalized.finalized@;
        let mut i: usize = 0;
        while i < self.finalized.finalized.len()
            invariant
                i <= done.len(),
                done == self.finalized.finalized@,
                out@ == done.take(i as int),
            decreases done.len() - i,
        {
            out.push(self.finalized.finalized[i]);
            i = i + 1;
            assert(done.take(i as int) =~= done.take(i - 1).push(done[i - 1]));
        }
        assert(done.take(i as int) =~= done);
        out
    }

    /// Whether a transaction is final.
    pub fn is_vote_finalized(&self, vote: &TransactionLocator) -> (b: bool)
        ensures
            b == self.state().done.contains(*vote),
    {
        self.finalized.is_vote_finalized(vote)
    }

    /// Takes the requests that have been made.
    pub fn take_requests(&mut self) -> (r: Vec<ExecutionRequest>)
        ensures
            r@ == old(self).outbox@,
            final(self).outbox@.len() == 0,
            final(self).finalized == old(self).finalized,
            final(self).committed_leaders == old(self).committed_leaders,
            final(self).enable_block_fpc == old(self).enable_block_fpc,
    {
        let mut out: Vec<ExecutionRequest> = Vec::new();
        std::mem::swap(&mut out, &mut self.outbox);
        out
    }

    fn ask(&mut self, locator: TransactionLocator, t: &Transaction, is_fpc: bool)
        ensures
            final(self).state().done == old(self).state().done,
            final(self).state().out == old(self).state().out.push(request(locator, *t, is_fpc)),
            final(self).finalized == old(self).finalized,
            final(self).committed_leaders == old(self).committed_leaders,
            final(self).enable_block_fpc == old(self).enable_block_fpc,
    {
        let req = ExecutionRequest { locator, transaction: t.duplicate(), is_fpc };
        proof {
            lemma_requests_push(self.outbox@, req);
        }
        self.outbox.push(req);
    }

    /// Makes a transaction final, unless it is.
    pub fn write_finalized_vote(
        &mut self,
        vote: TransactionLocator,
        store: &BlockStore,
        is_fpc: bool,
    )
        requires
            store.wf(),
        ensures
            final(self).state() == written(
                old(self).state(),
                vote,
                store.transaction(vote),
                is_fpc,
            ),
            final(self).committed_leaders == old(self).committed_leaders,
            final(self).enable_block_fpc == old(self).enable_block_fpc,
    {
        if !self.finalized.insert(vote) {
            return ;
        }
        match store.get_transaction(&vote) {
            Some(t) => {
                self.ask(vote, t, is_fpc);
            },
            None => {},
        }
    }

    /// Makes all transactions that a block shares final.
    pub fn write_finalized_block(&mut self, block: &StatementBlock, is_fpc: bool)
        ensures
            final(self).state() == block_written(
                old(self).state(),
                *block,
                is_fpc,
                block.shared_locators().len() as int,
            ),
            final(self).committed_leaders == old(self).committed_leaders,
            final(self).enable_block_fpc == old(self).enable_block_fpc,
    {
        let ghost before = *self;
        let ls = block.shared_transactions();
        let mut i: usize = 0;
        while i < ls.len()
            invariant
                i <= ls@.len(),
                ls@ == block.shared_locators(),
                forall|k: int| 0 <= k < ls@.len() ==> block.shares(#[trigger] ls@[k]),
                self.state() == block_written(before.state(), *block, is_fpc, i as int),
                self.committed_leaders == before.committed_leaders,
                self.enable_block_fpc == before.enable_block_fpc,
            decreases ls@.len() - i,
        {
            let l = ls[i];
            let n: usize = block.statements.len();
            assert(block.shares(ls@[i as int]));
            assert(l.offset < n);
            if self.finalized.insert(l) {
                match &block.statements[l.offset as usize] {
                    BaseStatement::Share(t) => {
                        self.ask(l, t, is_fpc);
                    },
                    _ => {},
                }
            }
            i = i + 1;
        }
    }

    fn write_voted(
        &mut self,
        store: &BlockStore,
        committee: &Committee,
        block: &StatementBlock,
        votes: &VotesByBlock,
    )
        requires
            store.wf(),
            votes_counted(*votes, committee.stakes()),
        ensures
            final(self).state() == votes_written(
                old(self).state(),
                *store,
                *votes,
                committee.stakes(),
                *block,
                block.shared_locators().len() as int,
            ),
            final(self).committed_leaders == old(self).committed_leaders,
            final(self).enable_block_fpc == old(self).enable_block_fpc,
    {
        let ghost before = *self;
        let ghost stakes = committee.stakes();
        let ls = block.shared_transactions();
        let mut i: usize = 0;
        while i < ls.len()
            invariant
                i <= ls@.len(),
                ls@ == block.shared_locators(),
                forall|k: int| 0 <= k < ls@.len() ==> block.shares(#[trigger] ls@[k]),
                store.wf(),
                stakes == committee.stakes(),
                votes_counted(*votes, stakes),
                self.state() == votes_written(
                    before.state(),
                    *store,
                    *votes,
                    stakes,
                    *block,
                    i as int,
                ),
                self.committed_leaders == before.committed_leaders,
                self.enable_block_fpc == before.enable_block_fpc,
            decreases ls@.len() - i,
        {
            let l = ls[i];
            assert(block.shares(ls@[i as int]));
            if !self.is_vote_finalized(&l) {
                match votes.get(&block.reference) {
                    Some(in_block) => {
                        match in_block.get(&l) {
                            Some(agg) => {
                                if agg.is_quorum(committee) {
                                    self.write_finalized_vote(l, store, false);
                                }
                            },
                            None => {},
                        }
                    },
                    None => {},
                }
            }
            i = i + 1;
        }
    }

    /// Takes commits in: their transactions become final, all of them, or only
    /// those with a quorum of votes where blocks are not final as a whole.
    pub fn handle_commit(
        &mut self,
        store: &BlockStore,
        committee: &Committee,
        committed: &Vec<CommittedSubDag>,
        votes: &VotesByBlock,
    )
        requires
            store.wf(),
            votes_counted(*votes, committee.stakes()),
        ensures
            final(self).enable_block_fpc == old(self).enable_block_fpc,
            final(self).committed_leaders@ == old(self).committed_leaders@ + anchors(committed@),
            final(self).state() == commits_written(
                old(self).state(),
                old(self).enable_block_fpc,
                *store,
                *votes,
                committee.stakes(),
                committed@,
                committed@.len() as int,
            ),
    {
        let ghost before = *self;
        let ghost stakes = committee.stakes();
        let ghost whole = self.enable_block_fpc;
        let mut i: usize = 0;
        assert(self.committed_leaders@ =~= before.committed_leaders@ + anchors(committed@).take(0));
        while i < committed.len()
            invariant
                i <= committed@.len(),
                store.wf(),
                stakes == committee.stakes(),
                votes_counted(*votes, stakes),
                whole == self.enable_block_fpc,
                whole == before.enable_block_fpc,
                self.committed_leaders@ == before.committed_leaders@ + anchors(committed@).take(
                    i as int,
                ),
                self.state() == commits_written(
                    before.state(),
                    whole,
                    *store,
                    *votes,
                    stakes,
                    committed@,
                    i as int,
                ),
            decreases committed@.len() - i,
        {
            let commit = &committed[i];
            self.committed_leaders.push(commit.anchor);
            let ghost here = *self;
            let ghost blocks = commit.blocks@;
            let mut j: usize = 0;
            while j < commit.blocks.len()
                invariant
                    j <= blocks.len(),
                    blocks == commit.blocks@,
                    store.wf(),
                    stakes == committee.stakes(),
                    votes_counted(*votes, stakes),
                    whole == self.enable_block_fpc,
                    self.committed_leaders == here.committed_leaders,
                    self.state() == blocks_written(
                        here.state(),
                        whole,
                        *store,
                        *votes,
                        stakes,
                        blocks,
                        j as int,
                    ),
                decreases blocks.len() - j,
            {
                if self.enable_block_fpc {
                    self.write_finalized_block(&commit.blocks[j], false);
                } else {
                    self.write_voted(store, committee, &commit.blocks[j], votes);
                }
                j = j + 1;
            }
            proof {
                let all = anchors(committed@);
                assert(all.take(i + 1) =~= all.take(i as int).push(all[i as int]));
                assert(self.committed_leaders@ =~= before.committed_leaders@ + all.take(i + 1));
            }
            i = i + 1;
        }
        assert(anchors(committed@).take(i as int) =~= anchors(committed@));
    }
}

/// Every request is for a final transaction, and there is at most one for each.
pub open spec fn asked_once(s: LedgerState) -> bool {
    &&& forall|i: int| 0 <= i < s.out.len() ==> s.done.contains((#[trigger] s.out[i]).locator)
    &&& forall|i: int, j: int|
        0 <= i < j < s.out.len() ==> (#[trigger] s.out[i]).locator != (#[trigger] s.out[j]).locator
}

/// No transaction is asked for twice: a write keeps that.
pub proof fn law_write_asks_once(
    s: LedgerState,
    l: TransactionLocator,
    t: Option<Transaction>,
    is_fpc: bool,
)
    requires
        asked_once(s),
    ensures
        asked_once(written(s, l, t, is_fpc)),
        written(s, l, t, is_fpc).done.contains(l),
        forall|m: TransactionLocator|
            s.done.contains(m) ==> #[trigger] written(s, l, t, is_fpc).done.contains(m),
{
    let w = written(s, l, t, is_fpc);
    if !s.done.contains(l) {
        assert(w.done[s.done.len() as int] == l);
        assert forall|m: TransactionLocator| s.done.contains(m) implies #[trigger] w.done.contains(
            m,
        ) by {
            let i = choose|i: int| 0 <= i < s.done.len() && s.done[i] == m;
            assert(w.done[i] == m);
        }
        assert forall|i: int| 0 <= i < w.out.len() implies w.done.contains(
            (#[trigger] w.out[i]).locator,
        ) by {
            if i < s.out.len() {
                assert(w.out[i] == s.out[i]);
                assert(s.done.contains(s.out[i].locator));
            }
        }
        assert forall|i: int, j: int| 0 <= i < j < w.out.len() implies (
        #[trigger] w.out[i]).locator != (#[trigger] w.out[j]).locator by {
            assert(w.out[i] == s.out[i]);
            assert(s.done.contains(s.out[i].locator));
            if j < s.out.len() {
                assert(w.out[j] == s.out[j]);
            }
        }
    }
}

proof fn lemma_block_asks_once(s: LedgerState, block: StatementBlock, is_fpc: bool, k: int)
    requires
        asked_once(s),
    ensures
        asked_once(block_written(s, block, is_fpc, k)),
    decreases k,
{
    if k > 0 {
        lemma_block_asks_once(s, block, is_fpc, k - 1);
        let l = block.shared_locators()[k - 1];
        law_write_asks_once(
            block_written(s, block, is_fpc, k - 1),
            l,
            Some(contents(block, l)),
            is_fpc,
        );
    }
}

proof fn lemma_votes_ask_once(
    s: LedgerState,
    store: BlockStore,
    votes: VotesByBlock,
    stakes: Seq<u64>,
    block: StatementBlock,
    k: int,
)
    requires
        asked_once(s),
    ensures
        asked_once(votes_written(s, store, votes, stakes, block, k)),
    decreases k,
{
    if k > 0 {
        lemma_votes_ask_once(s, store, votes, stakes, block, k - 1);
        let l = block.shared_locators()[k - 1];
        law_write_asks_once(
            votes_written(s, store, votes, stakes, block, k - 1),
            l,
            store.transaction(l),
            false,
        );
    }
}

proof fn lemma_blocks_ask_once(
    s: LedgerState,
    whole: bool,
    store: BlockStore,
    votes: VotesByBlock,
    stakes: Seq<u64>,
    blocks: Seq<StatementBlock>,
    k: int,
)
    requires
        asked_once(s),
    ensures
        asked_once(blocks_written(s, whole, store, votes, stakes, blocks, k)),
    decreases k,
{
    if k > 0 {
        lemma_blocks_ask_once(s, whole, store, votes, stakes, blocks, k - 1);
        let before = blocks_written(s, whole, store, votes, stakes, blocks, k - 1);
        let b = blocks[k - 1];
        let n = b.shared_locators().len() as int;
        if whole {
            lemma_block_asks_once(before, b, false, n);
        } else {
            lemma_votes_ask_once(before, store, votes, stakes, b, n);
        }
    }
}

/// However commits come in, no transaction is asked for twice.
pub proof fn law_commits_ask_once(
    s: LedgerState,
    whole: bool,
    store: BlockStore,
    votes: VotesByBlock,
    stakes: Seq<u64>,
    committed: Seq<CommittedSubDag>,
    k: int,
)
    requires
        asked_once(s),
    ensures
        asked_once(commits_written(s, whole, store, votes, stakes, committed, k)),
    decreases k,
{
    if k > 0 {
        law_commits_ask_once(s, whole, store, votes, stakes, committed, k - 1);
        let blocks = committed[k - 1].blocks@;
        lemma_blocks_ask_once(
            commits_written(s, whole, store, votes, stakes, committed, k - 1),
            whole,
            store,
            votes,
            stakes,
            blocks,
            blocks.len() as int,
        );
    }
}

/// The requests for the first `k` of some transactions, where their contents
/// are known.
pub open spec fn requests_for(
    store: BlockStore,
    ls: Seq<TransactionLocator>,
    is_fpc: bool,
    k: int,
) -> Seq<RequestView>
    decreases k,
{
    if k <= 0 {
        Seq::empty()
    } else {
        let before = requests_for(store, ls, is_fpc, k - 1);
        match store.transaction(ls[k - 1]) {
            Some(t) => before.push(request(ls[k - 1], t, is_fpc)),
            None => before,
        }
    }
}

/// Finality on both paths: the votes of the fast path, and the final
/// transactions that both share.
pub struct FpcState {
    pub interpreter: FinalizationInterpreter,
    pub commit_handler: CommitHandler,
}

impl FpcState {
    /// Nothing has been seen.
    pub fn new(block_level_fpc: bool, commit_handler: CommitHandler) -> (r: Self)
        ensures
            forall|stakes: Seq<u64>| #[trigger] r.interpreter.wf(stakes),
            r.interpreter.block_level_fpc == block_level_fpc,
            r.interpreter.highest_known_round == 0,
            r.commit_handler == commit_handler,
    {
        FpcState { interpreter: FinalizationInterpreter::new(block_level_fpc), commit_handler }
    }

    /// Takes a block in on the fast path, and makes requests for what has become
    /// final.
    pub fn process_block(&mut self, store: &BlockStore, committee: &Committee, block: &StatementBlock)
        requires
            old(self).interpreter.wf(committee.stakes()),
            store.wf(),
            finalization_interpreter::authors_known(*store, committee.stakes()),
            block.reference.authority < committee.stakes().len(),
            store@.dom().contains(block.reference) ==> store@[block.reference] == *block,
        ensures
            final(self).interpreter.wf(committee.stakes()),
            exists|mid: FinalizationInterpreter| #[trigger]
                finalization_interpreter::processed(
                    old(self).interpreter,
                    mid,
                    final(self).interpreter,
                    finalization_interpreter::setting_of(
                        *store,
                        committee.stakes(),
                        *block,
                        old(self).interpreter.highest_with(*block),
                    ),
                    *block,
                    old(self).commit_handler.finalized.set(),
                    final(self).commit_handler.finalized.set(),
                ),
            finalization_interpreter::continues(
                old(self).commit_handler.state().done,
                final(self).commit_handler.state().done,
            ),
            ({
                let old_done = old(self).commit_handler.state().done;
                let new = final(self).commit_handler.state().done.skip(old_done.len() as int);
                final(self).commit_handler.state().out == old(self).commit_handler.state().out
                    + requests_for(*store, new, true, new.len() as int)
            }),
            final(self).commit_handler.committed_leaders == old(
                self).commit_handler.committed_leaders,
            final(self).commit_handler.enable_block_fpc == old(
                self).commit_handler.enable_block_fpc,
    {
        let ghost before = *self;
        let first: usize = self.commit_handler.finalized.finalized.len();
        self.interpreter.process_block(
            store,
            committee,
            block,
            &mut self.commit_handler.finalized,
        );
        let ghost middle = *self;
        let ghost done = self.commit_handler.finalized.finalized@;
        let ghost new = done.skip(first as int);
        proof {
            reveal(finalization_interpreter::continues);
        }
        let mut j: usize = first;
        assert(requests_for(*store, new, true, 0) =~= Seq::<RequestView>::empty());
        assert(middle.commit_handler.state().out =~= before.commit_handler.state().out
            + requests_for(*store, new, true, 0));
        while j < self.commit_handler.finalized.finalized.len()
            invariant
                first <= j <= done.len(),
                done == self.commit_handler.finalized.finalized@,
                new == done.skip(first as int),
                store.wf(),
                self.interpreter == middle.interpreter,
                self.commit_handler.finalized == middle.commit_handler.finalized,
                self.commit_handler.committed_leaders == middle.commit_handler.committed_leaders,
                self.commit_handler.enable_block_fpc == middle.commit_handler.enable_block_fpc,
                self.commit_handler.state().out == before.commit_handler.state().out
                    + requests_for(*store, new, true, j - first),
            decreases done.len() - j,
        {
            let l = self.commit_handler.finalized.finalized[j];
            assert(new[j - first] == l);
            let ghost so_far = self.commit_handler.state().out;
            match store.get_transaction(&l) {
                Some(t) => {
                    self.commit_handler.ask(l, t, true);
                },
                None => {},
            }
            j = j + 1;
            assert(self.commit_handler.state().out =~= before.commit_handler.state().out
                + requests_for(*store, new, true, j - first));
        }
    }

    /// Takes commits in on the consensus path. The votes of the fast path do not
    /// count there.
    pub fn process_committed_leaders(
        &mut self,
        store: &BlockStore,
        committee: &Committee,
        committed: &Vec<CommittedSubDag>,
    )
        requires
            store.wf(),
        ensures
            final(self).interpreter == old(self).interpreter,
            final(self).commit_handler.enable_block_fpc == old(
                self).commit_handler.enable_block_fpc,
            final(self).commit_handler.committed_leaders@ == old(
                self).commit_handler.committed_leaders@ + anchors(committed@),
            exists|votes: VotesByBlock|
                {
                    &&& votes@.dom() == Set::<BlockReference>::empty()
                    &&& final(self).commit_handler.state() == #[trigger] commits_written(
                        old(self).commit_handler.state(),
                        old(self).commit_handler.enable_block_fpc,
                        *store,
                        votes,
                        committee.stakes(),
                        committed@,
                        committed@.len() as int,
                    )
                },
    {
        let votes: VotesByBlock = KeyMap::new();
        self.commit_handler.handle_commit(store, committee, committed, &votes);
    }
}

/// The most requests that are executed together.
pub const EXECUTION_BATCH: usize = 2000;

/// Gathers requests into batches, each transaction once.
pub struct ExecutionBatcher {
    pub executed: VoteLedger,
    pub batch: Vec<ExecutionRequest>,
}

impl ExecutionBatcher {
    /// Nothing has been executed.
    pub fn new() -> (r: Self)
        ensures
            r.executed.finalized@.len() == 0,
            r.batch@.len() == 0,
    {
        ExecutionBatcher { executed: VoteLedger::new(), batch: Vec::new() }
    }

    /// Whether the batch takes no more requests.
    pub fn is_full(&self) -> (b: bool)
        ensures
            b == (self.batch@.len() >= EXECUTION_BATCH),
            b == (self.batch@.len() >= 2_000),
    {
        self.batch.len() >= EXECUTION_BATCH
    }

    /// Puts a request into the batch, unless its transaction was in one before.
    pub fn offer(&mut self, req: ExecutionRequest) -> (taken: bool)
        ensures
            taken == !old(self).executed.set().contains(req.locator),
            final(self).executed.set() == old(self).executed.set().insert(req.locator),
            finalization_interpreter::continues(
                old(self).executed.finalized@,
                final(self).executed.finalized@,
            ),
            taken ==> final(self).batch@ == old(self).batch@.push(req),
            !taken ==> *final(self) == *old(self),
    {
        if self.executed.is_vote_finalized(&req.locator) {
            proof {
                finalization_interpreter::lemma_continues_refl(self.executed.finalized@);
                assert(self.executed.set().insert(req.locator) =~= self.executed.set());
            }
            return false;
        }
        let fresh = self.executed.insert(req.locator);
        self.batch.push(req);
        true
    }

    /// Takes the batch.
    pub fn take_batch(&mut self) -> (r: Vec<ExecutionRequest>)
        ensures
            r@ == old(self).batch@,
            final(self).batch@.len() == 0,
            final(self).executed == old(self).executed,
    {
        let mut out: Vec<ExecutionRequest> = Vec::new();
        std::mem::swap(&mut out, &mut self.batch);
        out
    }
}

/// The transactions of a batch.
pub fn batch_locators(batch: &Vec<ExecutionRequest>) -> (r: Vec<TransactionLocator>)
    ensures
        r@.len() == batch@.len(),
        forall|i: int| 0 <= i < r@.len() ==> #[trigger] r@[i] == batch@[i].locator,
{
    let mut out: Vec<TransactionLocator> = Vec::new();
    let mut i: usize = 0;
    while i < batch.len()
        invariant
            i <= batch@.len(),
            out@.len() == i,
            forall|k: int| 0 <= k < i ==> #[trigger] out@[k] == batch@[k].locator,
        decreases batch@.len() - i,
    {
        out.push(batch[i].locator);
        i = i + 1;
    }
    out
}

/// The nullifiers of the first `k` ballots, without the transactions that hold
/// none.
pub open spec fn nullifiers_of(votes: Seq<Option<VoteTransaction>>, k: int) -> Seq<int>
    decreases k,
{
    if k <= 0 {
        Seq::empty()
    } else {
        match votes[k - 1] {
            Some(v) => nullifiers_of(votes, k - 1).push(v.nullifier@),
            None => nullifiers_of(votes, k - 1),
        }
    }
}

/// The nullifiers of the ballots of a batch, `None` where a transaction holds no
/// ballot.
pub fn batch_nullifiers(votes: &Vec<Option<VoteTransaction>>) -> (r: Vec<FieldElement>)
    ensures
        zkp::elements(r@) == nullifiers_of(votes@, votes@.len() as int),
{
    let mut out: Vec<FieldElement> = Vec::new();
    let mut i: usize = 0;
    assert(zkp::elements(out@) =~= Seq::<int>::empty());
    while i < votes.len()
        invariant
            i <= votes@.len(),
            zkp::elements(out@) == nullifiers_of(votes@, i as int),
        decreases votes@.len() - i,
    {
        match &votes[i] {
            Some(v) => {
                let ghost before = out@;
                out.push(v.nullifier);
                assert(zkp::elements(out@) =~= zkp::elements(before).push(v.nullifier@));
            },
            None => {},
        }
        i = i + 1;
    }
    out
}

/// A write makes one transaction final, unless it is: it comes last, with one request that
/// names it and holds its contents, where they are known.
pub proof fn law_write_makes_final(
    s: LedgerState,
    l: TransactionLocator,
    t: Option<Transaction>,
    is_fpc: bool,
    m: TransactionLocator,
)
    ensures
        ({
            let w = written(s, l, t, is_fpc);
            &&& w.done.contains(m) <==> s.done.contains(m) || m == l
            &&& s.done.contains(l) ==> w == s
            &&& !s.done.contains(l) ==> w.done.len() == s.done.len() + 1 && w.done.last() == l
            &&& s.done.is_prefix_of(w.done)
            &&& s.out.is_prefix_of(w.out)
            &&& !s.done.contains(l) && t is Some ==> {
                &&& w.out.len() == s.out.len() + 1
                &&& w.out.last().locator == l
                &&& w.out.last().data == t->0.data@
                &&& w.out.last().timestamp == t->0.timestamp
                &&& w.out.last().is_fpc == is_fpc
            }
            &&& t is None ==> w.out == s.out
        }),
{
    let w = written(s, l, t, is_fpc);
    if s.done.contains(m) {
        let i = choose|i: int| 0 <= i < s.done.len() && s.done[i] == m;
        assert(w.done[i] == m);
    }
    if !s.done.contains(l) {
        assert(w.done[s.done.len() as int] == l);
        if w.done.contains(m) && m != l {
            let i = choose|i: int| 0 <= i < w.done.len() && w.done[i] == m;
            assert(s.done[i] == m);
        }
    }
}

proof fn lemma_prefix_contains(a: Seq<RequestView>, b: Seq<RequestView>, r: RequestView)
    requires
        a.is_prefix_of(b),
        a.contains(r),
    ensures
        b.contains(r),
{
    let i = choose|i: int| 0 <= i < a.len() && a[i] == r;
    assert(b[i] == r);
}

proof fn lemma_block_written(
    s: LedgerState,
    block: StatementBlock,
    is_fpc: bool,
    k: int,
    l: TransactionLocator,
)
    requires
        0 <= k <= block.shared_locators().len(),
    ensures
        ({
            let w = block_written(s, block, is_fpc, k);
            let among = block.shared_locators().take(k).contains(l);
            &&& w.done.contains(l) <==> s.done.contains(l) || among
            &&& s.done.is_prefix_of(w.done)
            &&& s.out.is_prefix_of(w.out)
            &&& !s.done.contains(l) && among ==> w.out.contains(
                request(l, contents(block, l), is_fpc),
            )
        }),
    decreases k,
{
    let ls = block.shared_locators();
    if k > 0 {
        lemma_block_written(s, block, is_fpc, k - 1, l);
        let t = block_written(s, block, is_fpc, k - 1);
        let w = block_written(s, block, is_fpc, k);
        let m = ls[k - 1];
        law_write_makes_final(t, m, Some(contents(block, m)), is_fpc, l);
        let a = ls.take(k - 1);
        let b = ls.take(k);
        assert(b =~= a.push(m));
        if a.contains(l) {
            let i = choose|i: int| 0 <= i < a.len() && a[i] == l;
            assert(b[i] == l);
        }
        if m == l {
            assert(b[k - 1] == l);
        } else if b.contains(l) {
            let i = choose|i: int| 0 <= i < b.len() && b[i] == l;
            assert(a[i] == l);
        }
        if !s.done.contains(l) && b.contains(l) {
            if a.contains(l) {
                lemma_prefix_contains(t.out, w.out, request(l, contents(block, l), is_fpc));
            } else {
                assert(w.out[w.out.len() - 1] == request(l, contents(block, l), is_fpc));
            }
        }
    } else {
        assert(ls.take(0) =~= Seq::<TransactionLocator>::empty());
    }
}

/// A transaction has the votes of members with more than two thirds of the stake.
pub open spec fn backed(votes: VotesByBlock, stakes: Seq<u64>, l: TransactionLocator) -> bool {
    &&& votes@.dom().contains(l.block)
    &&& votes@[l.block]@.dom().contains(l)
    &&& 3 * committee::stake_of(stakes, votes@[l.block]@[l].set()) > 2 * committee::total_stake(
        stakes,
    )
}

proof fn lemma_votes_written(
    s: LedgerState,
    store: BlockStore,
    votes: VotesByBlock,
    stakes: Seq<u64>,
    block: StatementBlock,
    k: int,
    l: TransactionLocator,
)
    requires
        0 <= k <= block.shared_locators().len(),
    ensures
        ({
            let w = votes_written(s, store, votes, stakes, block, k);
            let among = block.shared_locators().take(k).contains(l) && backed(votes, stakes, l);
            &&& w.done.contains(l) <==> s.done.contains(l) || among
            &&& s.done.is_prefix_of(w.done)
            &&& s.out.is_prefix_of(w.out)
            &&& !s.done.contains(l) && among && store.transaction(l) is Some ==> w.out.contains(
                request(l, store.transaction(l)->0, false),
            )
        }),
    decreases k,
{
    let ls = block.shared_locators();
    if k > 0 {
        lemma_votes_written(s, store, votes, stakes, block, k - 1, l);
        let t = votes_written(s, store, votes, stakes, block, k - 1);
        let w = votes_written(s, store, votes, stakes, block, k);
        let m = ls[k - 1];
        committee::law_quorum_is_more_than_two_thirds(stakes, votes@[m.block]@[m].set());
        law_write_makes_final(t, m, store.transaction(m), false, l);
        let a = ls.take(k - 1);
        let b = ls.take(k);
        assert(b =~= a.push(m));
        if a.contains(l) {
            let i = choose|i: int| 0 <= i < a.len() && a[i] == l;
            assert(b[i] == l);
        }
        if m == l {
            assert(b[k - 1] == l);
        } else if b.contains(l) {
            let i = choose|i: int| 0 <= i < b.len() && b[i] == l;
            assert(a[i] == l);
        }
        if !s.done.contains(l) && b.contains(l) && backed(votes, stakes, l) && store.transaction(
            l,
        ) is Some {
            let r = request(l, store.transaction(l)->0, false);
            if a.contains(l) {
                lemma_prefix_contains(t.out, w.out, r);
            } else {
                assert(w.out[w.out.len() - 1] == r);
            }
        }
    } else {
        assert(ls.take(0) =~= Seq::<TransactionLocator>::empty());
    }
}

/// The block at a position shares a transaction, which is written whole or has votes enough.
spec fn finalises(
    whole: bool,
    votes: VotesByBlock,
    stakes: Seq<u64>,
    block: StatementBlock,
    l: TransactionLocator,
) -> bool {
    block.shared_locators().contains(l) && (whole || backed(votes, stakes, l))
}

proof fn lemma_blocks_written(
    s: LedgerState,
    whole: bool,
    store: BlockStore,
    votes: VotesByBlock,
    stakes: Seq<u64>,
    blocks: Seq<StatementBlock>,
    k: int,
    l: TransactionLocator,
)
    requires
        0 <= k <= blocks.len(),
    ensures
        ({
            let w = blocks_written(s, whole, store, votes, stakes, blocks, k);
            let among = exists|j: int|
                0 <= j < k && finalises(whole, votes, stakes, #[trigger] blocks[j], l);
            &&& w.done.contains(l) <==> s.done.contains(l) || among
            &&& s.done.is_prefix_of(w.done)
            &&& s.out.is_prefix_of(w.out)
            &&& !s.done.contains(l) && among && whole ==> exists|j: int|
                0 <= j < k && (#[trigger] blocks[j]).shared_locators().contains(l)
                    && w.out.contains(request(l, contents(blocks[j], l), false))
            &&& !s.done.contains(l) && among && !whole && store.transaction(l) is Some
                ==> w.out.contains(request(l, store.transaction(l)->0, false))
        }),
    decreases k,
{
    if k > 0 {
        lemma_blocks_written(s, whole, store, votes, stakes, blocks, k - 1, l);
        let t = blocks_written(s, whole, store, votes, stakes, blocks, k - 1);
        let w = blocks_written(s, whole, store, votes, stakes, blocks, k);
        let b = blocks[k - 1];
        let ls = b.shared_locators();
        assert(ls.take(ls.len() as int) =~= ls);
        if whole {
            lemma_block_written(t, b, false, ls.len() as int, l);
        } else {
            lemma_votes_written(t, store, votes, stakes, b, ls.len() as int, l);
        }
        let before = exists|j: int|
            0 <= j < k - 1 && finalises(whole, votes, stakes, #[trigger] blocks[j], l);
        let here = finalises(whole, votes, stakes, b, l);
        assert((exists|j: int|
            0 <= j < k && finalises(whole, votes, stakes, #[trigger] blocks[j], l)) <==> before
            || here) by {
            if exists|j: int|
                0 <= j < k && finalises(whole, votes, stakes, #[trigger] blocks[j], l) {
                let j = choose|j: int|
                    0 <= j < k && finalises(whole, votes, stakes, #[trigger] blocks[j], l);
                assert(j < k - 1 || j == k - 1);
            }
        }
        if !s.done.contains(l) && whole {
            if before {
                let j = choose|j: int|
                    0 <= j < k - 1 && (#[trigger] blocks[j]).shared_locators().contains(l)
                        && t.out.contains(request(l, contents(blocks[j], l), false));
                lemma_prefix_contains(t.out, w.out, request(l, contents(blocks[j], l), false));
            } else if here {
                assert(blocks[k - 1].shared_locators().contains(l));
            }
        }
        if !s.done.contains(l) && !whole && store.transaction(l) is Some && before {
            lemma_prefix_contains(t.out, w.out, request(l, store.transaction(l)->0, false));
        }
    }
}

/// What commits make final, besides what was: where blocks are written whole every
/// transaction that a committed block shares, and else those of them that members with
/// more than two thirds of the stake voted for. Nothing that was final or asked for is
/// lost or moved.
pub proof fn law_commits_make_final(
    s: LedgerState,
    whole: bool,
    store: BlockStore,
    votes: VotesByBlock,
    stakes: Seq<u64>,
    committed: Seq<CommittedSubDag>,
    k: int,
    l: TransactionLocator,
)
    requires
        0 <= k <= committed.len(),
    ensures
        ({
            let w = commits_written(s, whole, store, votes, stakes, committed, k);
            let among = (whole || backed(votes, stakes, l)) && exists|i: int, j: int|
                {
                    &&& 0 <= i < k
                    &&& 0 <= j < committed[i].blocks@.len()
                    &&& (#[trigger] committed[i].blocks@[j]).shared_locators().contains(l)
                };
            &&& w.done.contains(l) <==> s.done.contains(l) || among
            &&& s.done.is_prefix_of(w.done)
            &&& s.out.is_prefix_of(w.out)
            &&& !s.done.contains(l) && among && !whole && store.transaction(l) is Some
                ==> w.out.contains(request(l, store.transaction(l)->0, false))
            &&& !s.done.contains(l) && among && whole ==> exists|i: int, j: int|
                {
                    &&& 0 <= i < k
                    &&& 0 <= j < committed[i].blocks@.len()
                    &&& (#[trigger] committed[i].blocks@[j]).shared_locators().contains(l)
                    &&& w.out.contains(request(l, contents(committed[i].blocks@[j], l), false))
                }
        }),
    decreases k,
{
    if k > 0 {
        law_commits_make_final(s, whole, store, votes, stakes, committed, k - 1, l);
        let t = commits_written(s, whole, store, votes, stakes, committed, k - 1);
        let w = commits_written(s, whole, store, votes, stakes, committed, k);
        let blocks = committed[k - 1].blocks@;
        lemma_blocks_written(t, whole, store, votes, stakes, blocks, blocks.len() as int, l);
        let before = exists|i: int, j: int|
            {
                &&& 0 <= i < k - 1
                &&& 0 <= j < committed[i].blocks@.len()
                &&& (#[trigger] committed[i].blocks@[j]).shared_locators().contains(l)
            };
        let now = exists|i: int, j: int|
            {
                &&& 0 <= i < k
                &&& 0 <= j < committed[i].blocks@.len()
                &&& (#[trigger] committed[i].blocks@[j]).shared_locators().contains(l)
            };
        let here = exists|j: int|
            0 <= j < blocks.len() && finalises(whole, votes, stakes, #[trigger] blocks[j], l);
        if now && (whole || backed(votes, stakes, l)) {
            let (i, j) = choose|i: int, j: int|
                {
                    &&& 0 <= i < k
                    &&& 0 <= j < committed[i].blocks@.len()
                    &&& (#[trigger] committed[i].blocks@[j]).shared_locators().contains(l)
                };
            if i == k - 1 {
                assert(finalises(whole, votes, stakes, blocks[j], l));
            } else {
                assert(before);
            }
        }
        if here {
            let j = choose|j: int|
                0 <= j < blocks.len() && finalises(whole, votes, stakes, #[trigger] blocks[j], l);
            assert(committed[k - 1].blocks@[j].shared_locators().contains(l));
        }
        if before {
            let (i, j) = choose|i: int, j: int|
                {
                    &&& 0 <= i < k - 1
                    &&& 0 <= j < committed[i].blocks@.len()
                    &&& (#[trigger] committed[i].blocks@[j]).shared_locators().contains(l)
                };
            assert(committed[i].blocks@[j].shared_locators().contains(l));
        }
        if !s.done.contains(l) && (whole || backed(votes, stakes, l)) {
            if whole {
                if before {
                    let (i, j) = choose|i: int, j: int|
                        {
                            &&& 0 <= i < k - 1
                            &&& 0 <= j < committed[i].blocks@.len()
                            &&& (#[trigger] committed[i].blocks@[j]).shared_locators().contains(l)
                            &&& t.out.contains(
                                request(l, contents(committed[i].blocks@[j], l), false),
                            )
                        };
                    lemma_prefix_contains(
                        t.out,
                        w.out,
                        request(l, contents(committed[i].blocks@[j], l), false),
                    );
                } else if here {
                    let j = choose|j: int|
                        0 <= j < blocks.len() && (#[trigger] blocks[j]).shared_locators().contains(l)
                            && w.out.contains(request(l, contents(blocks[j], l), false));
                    assert(committed[k - 1].blocks@[j].shared_locators().contains(l));
                }
            } else if before && store.transaction(l) is Some {
                lemma_prefix_contains(t.out, w.out, request(l, store.transaction(l)->0, false));
            }
        }
    }
}

proof fn lemma_requests_split(
    store: BlockStore,
    a: Seq<TransactionLocator>,
    b: Seq<TransactionLocator>,
    is_fpc: bool,
    k: int,
)
    requires
        0 <= k <= a.len() + b.len(),
    ensures
        k <= a.len() ==> requests_for(store, a + b, is_fpc, k) == requests_for(store, a, is_fpc, k),
        k >= a.len() ==> requests_for(store, a + b, is_fpc, k) == requests_for(
            store,
            a,
            is_fpc,
            a.len() as int,
        ) + requests_for(store, b, is_fpc, k - a.len()),
    decreases k,
{
    if k > 0 {
        lemma_requests_split(store, a, b, is_fpc, k - 1);
        if k <= a.len() {
            assert((a + b)[k - 1] == a[k - 1]);
        } else {
            let l = b[k - 1 - a.len()];
            assert((a + b)[k - 1] == l);
            let x = requests_for(store, a, is_fpc, a.len() as int);
            let y = requests_for(store, b, is_fpc, k - 1 - a.len());
            if let Some(t) = store.transaction(l) {
                assert((x + y).push(request(l, t, is_fpc)) =~= x + y.push(request(l, t, is_fpc)));
            }
        }
    }
    if k == a.len() {
        assert(requests_for(store, a, is_fpc, k) + requests_for(store, b, is_fpc, 0)
            =~= requests_for(store, a, is_fpc, k));
    }
}

/// What becomes final on the fast path is asked for in that order: a transaction whose
/// contents are known gives one request that names it and holds them, and one whose
/// contents are not known gives none.
pub proof fn law_final_transactions_are_asked_for(
    store: BlockStore,
    a: Seq<TransactionLocator>,
    b: Seq<TransactionLocator>,
    l: TransactionLocator,
    is_fpc: bool,
)
    ensures
        requests_for(store, a + b, is_fpc, (a + b).len() as int) == requests_for(
            store,
            a,
            is_fpc,
            a.len() as int,
        ) + requests_for(store, b, is_fpc, b.len() as int),
        store.transaction(l) is None ==> requests_for(store, seq![l], is_fpc, 1).len() == 0,
        store.transaction(l) matches Some(t) ==> {
            let r = requests_for(store, seq![l], is_fpc, 1);
            &&& r.len() == 1
            &&& r[0].locator == l
            &&& r[0].data == t.data@
            &&& r[0].timestamp == t.timestamp
            &&& r[0].is_fpc == is_fpc
        },
{
    lemma_requests_split(store, a, b, is_fpc, (a + b).len() as int);
    let one = seq![l];
    assert(requests_for(store, one, is_fpc, 0).len() == 0);
    assert(one[0] == l);
    assert(requests_for(store, one, is_fpc, 1) == match store.transaction(one[0]) {
        Some(t) => requests_for(store, one, is_fpc, 0).push(request(one[0], t, is_fpc)),
        None => requests_for(store, one, is_fpc, 0),
    });
}

proof fn lemma_nullifiers_split(
    a: Seq<Option<VoteTransaction>>,
    b: Seq<Option<VoteTransaction>>,
    k: int,
)
    requires
        0 <= k <= a.len() + b.len(),
    ensures
        k <= a.len() ==> nullifiers_of(a + b, k) == nullifiers_of(a, k),
        k >= a.len() ==> nullifiers_of(a + b, k) == nullifiers_of(a, a.len() as int)
            + nullifiers_of(b, k - a.len()),
    decreases k,
{
    if k > 0 {
        lemma_nullifiers_split(a, b, k - 1);
        if k <= a.len() {
            assert((a + b)[k - 1] == a[k - 1]);
        } else {
            assert((a + b)[k - 1] == b[k - 1 - a.len()]);
            let x = nullifiers_of(a, a.len() as int);
            let y = nullifiers_of(b, k - 1 - a.len());
            if let Some(v) = b[k - 1 - a.len()] {
                assert((x + y).push(v.nullifier@) =~= x + y.push(v.nullifier@));
            }
        }
    }
    if k == a.len() {
        assert(nullifiers_of(a, k) + nullifiers_of(b, 0) =~= nullifiers_of(a, k));
    }
}

/// The nullifiers of a batch are those of its ballots, each in its place: a transaction
/// without a ballot gives none.
pub proof fn law_each_ballot_gives_its_nullifier(
    a: Seq<Option<VoteTransaction>>,
    b: Seq<Option<VoteTransaction>>,
    vote: Option<VoteTransaction>,
)
    ensures
        nullifiers_of(a + b, (a + b).len() as int) == nullifiers_of(a, a.len() as int)
            + nullifiers_of(b, b.len() as int),
        vote is None ==> nullifiers_of(seq![vote], 1).len() == 0,
        vote is Some ==> nullifiers_of(seq![vote], 1) =~= seq![vote->0.nullifier@],
{
    lemma_nullifiers_split(a, b, (a + b).len() as int);
    let one = seq![vote];
    assert(nullifiers_of(one, 0).len() == 0);
    assert(one[0] == vote);
    assert(nullifiers_of(one, 1) == match one[0] {
        Some(v) => nullifiers_of(one, 0).push(v.nullifier@),
        None => nullifiers_of(one, 0),
    });
}

} // verus!
