use mysticeti_vote::block_handler::TestBlockHandler;
use mysticeti_vote::commit_handler::CommitHandler;
use mysticeti_vote::committee::Committee;
use mysticeti_vote::core_thread::{
    authority_connection, CoreThread, CoreThreadCommand, CoreThreadReply,
};
use mysticeti_vote::field::Scalar;
use mysticeti_vote::node_core::{
    proposed_block_stats, Core, CoreOptions, MetaStatement, OwnBlock, PendingEntry,
    PositionedBlock, RecoveredState, END_OF_LOG,
};
use mysticeti_vote::syncer::Syncer;
use mysticeti_vote::test_util::{
    check_commits, committee_and_cores, committee_and_cores_epoch_duration, committee_and_syncers,
    genesis_blocks, TestNode,
};
use mysticeti_vote::types::{
    BaseStatement, BlockDigest, BlockReference, BlockStore, StatementBlock, Transaction,
    TransactionLocator,
};
use rand::rngs::StdRng;
use rand::{Rng, SeedableRng};
use std::collections::{BTreeMap, VecDeque};

#[derive(Clone)]
enum Logged {
    Block(StatementBlock),
    Payload(Vec<BaseStatement>),
    Own(StatementBlock, u64),
}

/// What a node does around its core: the log, the blocks whose histories are not
/// known yet, and the handler of blocks.
struct Surroundings {
    authority: u64,
    handler: TestBlockHandler,
    waiting: Vec<StatementBlock>,
    log: Vec<Logged>,
}

struct Node {
    core: Core,
    around: Surroundings,
}

/// The log of a new node.
fn first_log(n: usize, authority: u64) -> Vec<Logged> {
    genesis_blocks(n, authority).into_iter().map(|b| Logged::Block(b.block)).collect()
}

fn signed(authority: u64, round: u64, includes: Vec<BlockReference>, statements: Vec<BaseStatement>, epoch_marker: bool) -> StatementBlock {
    StatementBlock {
        reference: BlockReference {
            authority,
            round,
            digest: BlockDigest { w0: authority + 1, w1: round, w2: statements.len() as u64, w3: 7 },
        },
        includes,
        statements,
        meta_creation_time_ns: 0,
        epoch_marker,
    }
}

impl Surroundings {
    /// The blocks whose histories a core knows, with their places in the log.
    fn processable(&mut self, core: &Core, blocks: &[StatementBlock]) -> Vec<PositionedBlock> {
        self.waiting.extend(blocks.iter().cloned());
        let mut known: Vec<BlockReference> = Vec::new();
        let mut out = Vec::new();
        loop {
            let next = self.waiting.iter().position(|b| {
                b.includes.iter().all(|r| known.contains(r) || core.block_store().block_exists(*r))
            });
            let Some(i) = next else {
                return out;
            };
            let block = self.waiting.remove(i);
            if known.contains(&block.reference) || core.block_store().block_exists(block.reference)
            {
                continue;
            }
            known.push(block.reference);
            self.log.push(Logged::Block(block.clone()));
            out.push(PositionedBlock { position: self.log.len() as u64 - 1, block });
        }
    }

    fn run_handler(&mut self, core: &mut Core, committee: &Committee, blocks: &Vec<StatementBlock>) {
        let position = self.log.len() as u64;
        core.run_test_block_handler(&mut self.handler, committee, blocks, 0, position);
        self.log.push(Logged::Payload(core.last_payload().unwrap().clone()));
    }
}

impl Node {
    fn open(n: usize, node: TestNode) -> Self {
        let authority = node.core.authority();
        let log = first_log(n, authority);
        let around =
            Surroundings { authority, handler: node.block_handler, waiting: Vec::new(), log };
        Node { core: node.core, around }
    }

    /// Opens a node again from its log; `handler` is its saved state, and the
    /// blocks in the log from `unprocessed` on are handled once more.
    fn reopen(committee: &Committee, log: Vec<Logged>, handler: TestBlockHandler, unprocessed: usize) -> Self {
        let authority = handler.authority;
        let mut store = BlockStore::new();
        let mut own = None;
        for entry in &log {
            match entry {
                Logged::Block(b) => store.insert_block(b.clone()),
                Logged::Own(b, next_entry) => {
                    store.insert_block(b.clone());
                    own = Some(OwnBlock { reference: b.reference, next_entry: *next_entry });
                }
                Logged::Payload(_) => {}
            }
        }
        let own = own.unwrap();
        let mut pending = VecDeque::new();
        for (position, entry) in log.iter().enumerate() {
            if (position as u64) < own.next_entry {
                continue;
            }
            let statement = match entry {
                Logged::Block(b) => MetaStatement::Include(b.reference),
                Logged::Payload(s) => MetaStatement::Payload(s.clone()),
                Logged::Own(_, _) => continue,
            };
            pending.push_back(PendingEntry { position: position as u64, statement });
        }
        let blocks: Vec<StatementBlock> = log[unprocessed..]
            .iter()
            .filter_map(|e| match e {
                Logged::Block(b) => Some(b.clone()),
                _ => None,
            })
            .collect();
        let recovered = RecoveredState {
            block_store: store,
            last_own_block: Some(own),
            pending,
            last_committed_leader: None,
        };
        let core =
            Core::open(authority, committee, recovered, Vec::new(), CoreOptions::test(), u64::MAX);
        let around = Surroundings { authority, handler, waiting: Vec::new(), log };
        let mut node = Node { core, around };
        if !blocks.is_empty() {
            node.around.run_handler(&mut node.core, committee, &blocks);
        }
        node
    }

    fn add_blocks(&mut self, committee: &Committee, blocks: &[StatementBlock]) {
        let ready = self.around.processable(&self.core, blocks);
        let handled: Vec<StatementBlock> = ready.iter().map(|b| b.block.clone()).collect();
        self.core.add_blocks(ready, committee);
        if !handled.is_empty() {
            self.around.run_handler(&mut self.core, committee, &handled);
        }
    }

    fn try_new_block(&mut self, committee: &Committee) -> Option<StatementBlock> {
        let proposal = self.core.try_new_block()?;
        let block = signed(
            proposal.authority,
            proposal.round,
            proposal.includes,
            proposal.statements,
            proposal.epoch_marker,
        );
        self.around.handler.handle_proposal(committee, &block, 0);
        assert!(!self.core.add_own_block(block.clone(), committee));
        self.around.log.push(Logged::Own(block.clone(), self.core.last_own.next_entry));
        Some(block)
    }
}

fn nodes(n: usize) -> (Committee, Vec<Node>) {
    let (members, all) = committee_and_cores(n);
    (members, all.into_iter().map(|node| Node::open(n, node)).collect())
}

/// A block names only earlier blocks, and a quorum of the round before.
fn clock_valid(block: &StatementBlock, committee: &Committee) -> bool {
    let mut authors: Vec<u64> = block
        .includes
        .iter()
        .filter(|r| r.round + 1 == block.reference.round)
        .map(|r| r.authority)
        .collect();
    authors.sort();
    authors.dedup();
    let stake = authors.iter().map(|a| committee.get_stake(*a).unwrap()).sum();
    block.includes.iter().all(|r| r.round < block.reference.round) && committee.is_quorum(stake)
}

#[test]
fn exchange_of_full_rounds() {
    let (members, mut all) = nodes(4);
    let mut proposed: Vec<TransactionLocator> = Vec::new();
    let mut blocks = Vec::new();
    for node in &mut all {
        node.around.run_handler(&mut node.core, &members, &Vec::new());
        let block = node.try_new_block(&members).expect("a block after the first round");
        assert_eq!(block.round(), 1);
        assert_eq!(block.includes.len(), 4);
        assert_eq!(proposed_block_stats(&block).0, 1);
        proposed.extend(node.around.handler.proposed.drain(..));
        blocks.push(block);
    }
    assert_eq!(proposed.len(), 4);
    let more = blocks.split_off(1);
    let mut second = Vec::new();
    for node in &mut all {
        node.add_blocks(&members, &blocks);
        assert!(node.try_new_block(&members).is_none());
        node.add_blocks(&members, &more);
        let block = node.try_new_block(&members).expect("a block after a full round");
        assert_eq!(block.round(), 2);
        second.push(block);
    }
    for node in &mut all {
        node.add_blocks(&members, &second);
        let block = node.try_new_block(&members).expect("a block after a full round");
        assert_eq!(block.round(), 3);
        assert_eq!(node.core.last_proposed(), 3);
        assert_eq!(node.core.last_own_block().reference, block.reference);
        assert_eq!(node.core.authority(), node.around.authority);
        for t in &proposed {
            assert!(node.around.handler.is_certified(t));
        }
        let found = node.core.get_transactions(&proposed);
        assert_eq!(found.len(), 4);
    }
}

#[test]
fn test_core_recovery() {
    let (members, mut all) = nodes(4);
    let mut proposed: Vec<TransactionLocator> = Vec::new();
    let mut blocks = Vec::new();
    for node in &mut all {
        node.around.run_handler(&mut node.core, &members, &Vec::new());
        let block =
            node.try_new_block(&members).expect("Must be able to create block after genesis");
        assert_eq!(block.reference.round, 1);
        proposed.extend(node.around.handler.proposed.iter().copied());
        blocks.push(block);
    }
    assert_eq!(proposed.len(), 4);

    let mut saved = Vec::new();
    let mut reopened = Vec::new();
    for node in all {
        let at = node.around.log.len();
        let own = node.core.last_own_block().clone();
        let mut spare =
            TestBlockHandler::new(node.around.handler.last_transaction, node.around.authority);
        spare.handle_proposal(&members, &own, 0);
        saved.push((at, spare));
        reopened.push(Node::reopen(&members, node.around.log, node.around.handler, at));
    }

    let more = blocks.split_off(2);
    let mut second = Vec::new();
    for node in &mut reopened {
        node.add_blocks(&members, &blocks);
        assert!(node.try_new_block(&members).is_none());
        node.add_blocks(&members, &more);
        let block =
            node.try_new_block(&members).expect("Must be able to create block after full round");
        assert_eq!(block.reference.round, 2);
        second.push(block);
    }

    let mut again = Vec::new();
    for (node, (at, handler)) in reopened.into_iter().zip(saved) {
        again.push(Node::reopen(&members, node.around.log, handler, at));
    }
    for node in &mut again {
        node.add_blocks(&members, &second);
        let block =
            node.try_new_block(&members).expect("Must be able to create block after full round");
        assert_eq!(block.reference.round, 3);
        for t in &proposed {
            assert!(
                node.around.handler.is_certified(t),
                "Transaction {:?} is not certified by {}",
                t,
                node.around.authority
            );
        }
    }
}

fn push_all(pending: &mut [Vec<StatementBlock>], except: u64, block: &StatementBlock) {
    for (i, q) in pending.iter_mut().enumerate() {
        if i as u64 != except {
            q.push(block.clone());
        }
    }
}

#[test]
fn test_randomized_simple_exchange() {
    'l: for seed in 0..100u8 {
        let mut rng = StdRng::from_seed([seed; 32]);
        let (members, mut all) = nodes(4);
        let mut proposed: Vec<TransactionLocator> = Vec::new();
        let mut pending: Vec<Vec<StatementBlock>> = vec![Vec::new(); 4];
        for node in &mut all {
            node.around.run_handler(&mut node.core, &members, &Vec::new());
            let block =
                node.try_new_block(&members).expect("Must be able to create block after genesis");
            assert_eq!(block.reference.round, 1);
            proposed.extend(node.around.handler.proposed.drain(..));
            assert!(clock_valid(&block, &members), "Invalid clock {:?}", block.reference);
            push_all(&mut pending, node.around.authority, &block);
        }
        'a: for i in 0..1000 {
            let authority = rng.gen_range(0..4usize);
            let this_pending = &mut pending[authority];
            let c = rng.gen_range(1..4usize);
            let mut blocks = Vec::new();
            for _ in 0..c {
                if this_pending.is_empty() {
                    break;
                }
                blocks.push(this_pending.remove(rng.gen_range(0..this_pending.len())));
            }
            if blocks.is_empty() {
                continue;
            }
            let node = &mut all[authority];
            node.add_blocks(&members, &blocks);
            let Some(block) = node.try_new_block(&members) else {
                continue;
            };
            assert!(clock_valid(&block, &members), "Invalid clock {:?}", block.reference);
            push_all(&mut pending, authority as u64, &block);
            if i < 20 {
                proposed.extend(all[authority].around.handler.proposed.drain(..));
            } else {
                assert!(!proposed.is_empty());
                for p in &proposed {
                    for node in &all {
                        if !node.around.handler.is_certified(p) {
                            continue 'a;
                        }
                    }
                }
                continue 'l;
            }
        }
        panic!("Seed {seed} failed - not all transactions are committed");
    }
}

enum SyncerEvent {
    ForceNewBlock(u64),
    DeliverBlock(StatementBlock),
}

struct SyncedNode {
    syncer: Syncer<bool>,
    around: Surroundings,
}

impl SyncedNode {
    fn handle(&mut self, members: &Committee, event: SyncerEvent) -> Option<StatementBlock> {
        match event {
            SyncerEvent::ForceNewBlock(round) => {
                if !self.syncer.force_new_block(round) {
                    return None;
                }
            }
            SyncerEvent::DeliverBlock(block) => {
                let ready = self.around.processable(&self.syncer.core, &[block]);
                let handled: Vec<StatementBlock> = ready.iter().map(|b| b.block.clone()).collect();
                self.syncer.add_blocks(ready, members);
                if !handled.is_empty() {
                    self.around.run_handler(&mut self.syncer.core, members, &handled);
                }
            }
        }
        let leaders = match self.syncer.core.leader_round(self.syncer.commit_period) {
            Some(round) => vec![round % members.len() as u64],
            None => Vec::new(),
        };
        let p = self.syncer.try_new_block(&leaders, members)?;
        let block = signed(p.authority, p.round, p.includes, p.statements, p.epoch_marker);
        self.around.handler.handle_proposal(members, &block, 0);
        assert!(!self.syncer.signals);
        let after = self.syncer.block_created(block.clone(), members);
        assert!(after.commits && !after.fsync);
        assert!(self.syncer.signals);
        assert!(!self.syncer.force_new_block);
        self.syncer.signals = false;
        Some(block)
    }
}

fn test_syncer_at(seed: u64) {
    let mut rng = StdRng::seed_from_u64(seed);
    let (members, all) = committee_and_syncers(4);
    let mut syncers: Vec<SyncedNode> = all
        .into_iter()
        .map(|s| {
            let authority = s.syncer.core.authority();
            let log = first_log(4, authority);
            let around =
                Surroundings { authority, handler: s.block_handler, waiting: Vec::new(), log };
            SyncedNode { syncer: s.syncer, around }
        })
        .collect();
    let mut events: BTreeMap<(u64, u64), (usize, SyncerEvent)> = BTreeMap::new();
    let mut id = 0u64;
    for a in 0..4 {
        events.insert((0, id), (a, SyncerEvent::ForceNewBlock(0)));
        id += 1;
    }
    let awaited = 40 * 4;
    let mut await_transactions: Vec<TransactionLocator> = Vec::new();
    loop {
        let ((time, _), (target, event)) = events.pop_first().expect("an event");
        if let Some(block) = syncers[target].handle(&members, event) {
            let round = block.round();
            events.insert((time + 1000, id), (target, SyncerEvent::ForceNewBlock(round)));
            id += 1;
            for a in 0..4 {
                if a != target {
                    let latency = rng.gen_range(100..1800u64);
                    events.insert(
                        (time + latency, id),
                        (a, SyncerEvent::DeliverBlock(block.clone())),
                    );
                    id += 1;
                }
            }
        }
        if await_transactions.len() < awaited {
            for s in &mut syncers {
                await_transactions.extend(s.around.handler.proposed.drain(..));
            }
            continue;
        }
        let certified = syncers
            .iter()
            .all(|s| await_transactions.iter().all(|t| s.around.handler.is_certified(t)));
        if certified {
            let commits: Vec<Vec<BlockReference>> =
                syncers.iter().map(|s| s.syncer.core.committed_leaders().clone()).collect();
            assert!(check_commits(&commits));
            break;
        }
    }
}

#[test]
fn test_syncer() {
    for seed in 0..10 {
        test_syncer_at(seed);
    }
}

#[test]
fn connections_come_and_go() {
    let (_, mut all) = committee_and_syncers(4);
    let mut syncer = all.remove(1).syncer;
    assert_eq!(syncer.commit_period, 3);
    assert_eq!(syncer.core.authority(), 1);
    syncer.connection_established(2);
    syncer.connection_established(3);
    syncer.connection_established(2);
    assert_eq!(syncer.connected_authorities, vec![2, 3]);
    syncer.connection_dropped(2);
    syncer.connection_dropped(2);
    assert_eq!(syncer.connected_authorities, vec![3]);
    assert!(!syncer.force_new_block(5));
    assert!(syncer.force_new_block(0));
}

#[test]
fn a_core_carries_out_commands() {
    let (members, mut all) = committee_and_syncers(4);
    let share = Scalar::from_u64(5);
    let mut thread = CoreThread {
        syncer: all.remove(0).syncer,
        commit_handler: CommitHandler::new(true),
        secret_share: Some(share),
    };
    let run = |thread: &mut CoreThread<bool>, command| thread.handle(command, &members);
    assert!(matches!(run(&mut thread, authority_connection(2, true)), CoreThreadReply::Done));
    assert!(matches!(run(&mut thread, authority_connection(3, true)), CoreThreadReply::Done));
    assert!(matches!(run(&mut thread, authority_connection(2, false)), CoreThreadReply::Done));
    assert_eq!(thread.syncer.connected_authorities, vec![3]);
    run(&mut thread, CoreThreadCommand::ForceNewBlock(7));
    assert!(!thread.syncer.force_new_block);
    run(&mut thread, CoreThreadCommand::ForceNewBlock(0));
    assert!(thread.syncer.force_new_block);
    let block = signed(1, 1, vec![], vec![BaseStatement::Share(Transaction::new(vec![9; 8], 4))], false);
    let locator = TransactionLocator { block: block.reference, offset: 0 };
    let added = PositionedBlock { position: 9, block };
    run(&mut thread, CoreThreadCommand::AddBlocks(vec![added]));
    assert_eq!(thread.syncer.core.pending.len(), 4);
    let unknown = TransactionLocator { offset: 1, ..locator };
    match run(&mut thread, CoreThreadCommand::GetTransactions(vec![unknown, locator])) {
        CoreThreadReply::Transactions(t) => {
            assert_eq!(t.len(), 1);
            assert_eq!((t[0].data.clone(), t[0].timestamp), (vec![9; 8], 4));
        }
        other => panic!("{other:?}"),
    }
    assert!(matches!(run(&mut thread, CoreThreadCommand::Cleanup), CoreThreadReply::Keep(0)));
    match run(&mut thread, CoreThreadCommand::GetAllCommittedTxLocators) {
        CoreThreadReply::Locators(l) => assert!(l.is_empty()),
        other => panic!("{other:?}"),
    }
    match run(&mut thread, CoreThreadCommand::GetMySecretShare) {
        CoreThreadReply::SecretShare(s) => assert_eq!(s, Some(share)),
        other => panic!("{other:?}"),
    }
    assert!(!thread.syncer.core.epoch_changing());
    run(&mut thread, CoreThreadCommand::TriggerEpochChangeBegun);
    assert!(thread.syncer.core.epoch_changing());
}

#[test]
fn a_new_node_has_its_genesis_block_last() {
    let (members, mut all) = committee_and_cores_epoch_duration(4, 9);
    assert_eq!(members.len(), 4);
    let node = all.remove(2);
    let first: Vec<u64> = genesis_blocks(4, 2).iter().map(|b| b.block.author()).collect();
    assert_eq!(first, vec![0, 1, 3, 2]);
    assert_eq!(node.block_handler.last_transaction, 2_000_000);
    assert_eq!(node.core.rounds_in_epoch, 9);
    assert_eq!(node.core.pending.len(), 3);
    assert_eq!(node.core.threshold_clock.get_round(), 1);
    assert_eq!(node.core.last_own, OwnBlock { reference: StatementBlock::new_genesis(2).reference, next_entry: END_OF_LOG });
    assert_eq!(node.core.last_proposed(), 0);
    assert_eq!(node.core.cleanup_threshold(), 0);
    assert!(!node.core.epoch_closed());
    assert!(!node.core.epoch_changing());
    assert_eq!(node.core.epoch_closing_time(), 0);
    assert!(CoreOptions::production().fsync);
    assert!(!CoreOptions::default().fsync);
    assert!(node.core.with_options(CoreOptions::production()).options.fsync);
}
