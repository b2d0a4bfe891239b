use mysticeti_vote::block_handler::{
    corrupt_transactions, duplicate_transactions, vote_for_block, vote_individually, ByzantineFault,
    ByzantineType, RealBlockHandler, ReceivedBlock, TestBlockHandler,
};
use mysticeti_vote::commit_handler::{
    batch_locators, batch_nullifiers, CommitHandler, CommittedSubDag, ExecutionBatcher, FpcState,
    VotesByBlock,
};
use mysticeti_vote::committee::{Committee, OffsetRange, StakeAggregator, VoteRangeBuilder};
use mysticeti_vote::epoch_close::EpochManager;
use mysticeti_vote::keymap::KeyMap;
use mysticeti_vote::mempool::{
    queue_latency, settle, Mempool, Outcome, Rejection, VerifiedBuffer,
};
use mysticeti_vote::node_core::{
    Core, CoreOptions, PositionedBlock, RecoveredState, RETAIN_BELOW_COMMIT_ROUNDS,
};
use mysticeti_vote::test_util::{
    build_dag, build_dag_layer, check_commits, committee, committee_and_cores, is_prefix,
    TestBlockWriter,
};
use mysticeti_vote::threshold_clock::ThresholdClockAggregator;
use mysticeti_vote::transaction_aggregator::TransactionAggregator;
use mysticeti_vote::types::{
    numbered, BaseStatement, BlockDigest, BlockReference, BlockStore, StatementBlock, Transaction,
    TransactionLocator, TransactionLocatorRange, Vote,
};
use std::collections::VecDeque;

fn reference(authority: u64, round: u64) -> BlockReference {
    BlockReference {
        authority,
        round,
        digest: BlockDigest { w0: authority + 1, w1: round, w2: 0, w3: 0 },
    }
}

fn block(authority: u64, round: u64, includes: &[BlockReference], statements: Vec<BaseStatement>) -> StatementBlock {
    StatementBlock {
        reference: reference(authority, round),
        includes: includes.to_vec(),
        statements,
        meta_creation_time_ns: 0,
        epoch_marker: false,
    }
}

fn transaction(i: u8) -> Transaction {
    Transaction::new(vec![i], i as u64)
}

fn shares(range: std::ops::Range<u8>) -> Vec<BaseStatement> {
    range.map(|i| BaseStatement::Share(transaction(i))).collect()
}

#[test]
fn quorums_of_a_committee() {
    let members = committee(4);
    assert_eq!((members.len(), members.total_stake()), (4, 4));
    assert!(!members.is_quorum(2) && members.is_quorum(3));
    assert_eq!(members.get_stake(3), Some(1));
    assert_eq!(members.get_stake(4), None);
    assert!(members.known_authority(0) && !members.known_authority(4));
    assert!(Committee::new(vec![]).is_none());
    let mut votes = StakeAggregator::new();
    assert!(!votes.add(0, &members) && !votes.add(1, &members) && !votes.add(1, &members));
    assert!(votes.add(3, &members));
    assert!(votes.contains(3) && !votes.contains(2));
    for a in 0..16u32 {
        for b in 0..16u32 {
            if a.count_ones() >= 3 && b.count_ones() >= 3 {
                assert!((a & b).count_ones() >= 2);
            }
        }
    }
}

#[test]
fn votes_are_joined_to_ranges() {
    let mut builder = VoteRangeBuilder::new();
    assert_eq!(builder.add(3), None);
    assert_eq!(builder.add(4), None);
    assert_eq!(builder.add(7), Some(OffsetRange { start: 3, end: 5 }));
    assert_eq!(builder.finish(), Some(OffsetRange { start: 7, end: 8 }));
    assert_eq!(VoteRangeBuilder::new().finish(), None);
}

#[test]
fn votes_follow_the_checks() {
    let b = block(0, 1, &[], shares(0..4));
    let votes = vote_individually(&b, &vec![true, true, false, true]);
    assert_eq!(votes.len(), 3);
    let range = |start, end| TransactionLocatorRange { block: b.reference, start, end };
    assert!(matches!(&votes[0], BaseStatement::VoteRange(r) if *r == range(0, 2)));
    let rejected = TransactionLocator { block: b.reference, offset: 2 };
    assert!(matches!(&votes[1], BaseStatement::Vote(l, Vote::Reject(None)) if *l == rejected));
    assert!(matches!(&votes[2], BaseStatement::VoteRange(r) if *r == range(3, 4)));
    let whole = vote_for_block(&b);
    assert!(matches!(&whole[..], [BaseStatement::VoteRange(r)] if *r == range(0, 4)));
    assert_eq!(range(1, 3).locators().len(), 2);
}

#[test]
fn transactions_are_certified_by_a_quorum() {
    let members = committee(4);
    let mut aggregator = TransactionAggregator::new();
    let b = block(0, 1, &[], shares(0..1));
    let l = TransactionLocator { block: b.reference, offset: 0 };
    let range = TransactionLocatorRange { block: b.reference, start: 0, end: 1 };
    assert!(aggregator.process_block(&b, &members).is_empty());
    assert_eq!(aggregator.len(), 1);
    let vote = |a| block(a, 2, &[b.reference], vec![BaseStatement::VoteRange(range)]);
    assert!(aggregator.process_block(&vote(1), &members).is_empty());
    assert!(aggregator.process_block(&vote(1), &members).is_empty());
    assert_eq!(aggregator.process_block(&vote(2), &members), vec![l]);
    assert!(aggregator.is_processed(&l));
    assert!(aggregator.process_block(&vote(3), &members).is_empty());
    assert!(aggregator.is_processed(&l));
}

#[test]
fn the_clock_only_goes_forward() {
    let members = committee(4);
    let mut clock = ThresholdClockAggregator::new(0);
    for a in 0..2 {
        clock.add_block(reference(a, 0), &members);
        assert_eq!(clock.get_round(), 0);
    }
    clock.add_block(reference(2, 0), &members);
    assert_eq!(clock.get_round(), 1);
    clock.add_block(reference(3, 5), &members);
    assert_eq!(clock.get_round(), 5);
    clock.add_block(reference(3, 1), &members);
    assert_eq!(clock.get_round(), 5);
}

#[test]
fn epochs_close_on_a_quorum() {
    let members = committee(4);
    let mut epoch = EpochManager::new();
    assert!(!epoch.changing() && !epoch.closed());
    epoch.epoch_change_begun();
    assert!(epoch.changing() && !epoch.closed());
    let marked = |a| {
        let mut b = block(a, 1, &[], vec![]);
        b.epoch_marker = true;
        b
    };
    epoch.observe_committed_block_at(&marked(0), &members, 10);
    epoch.observe_committed_block_at(&block(1, 1, &[], vec![]), &members, 11);
    epoch.observe_committed_block_at(&marked(2), &members, 12);
    assert!(!epoch.closed());
    epoch.observe_committed_block_at(&marked(3), &members, 13);
    assert!(epoch.closed() && epoch.changing());
    assert_eq!(epoch.closing_time(), 13);
    epoch.observe_committed_block_at(&marked(1), &members, 14);
    epoch.epoch_change_begun();
    assert!(epoch.closed());
    assert_eq!(epoch.closing_time(), 13);
    epoch.observe_committed_block(&marked(1), &members);
    assert_eq!(epoch.closing_time(), 13);
}

/// Two full rounds on top of the first one; the blocks of the first round share a
/// transaction each, and those of the second vote for all of them.
fn three_rounds() -> (BlockStore, Vec<StatementBlock>) {
    let first: Vec<StatementBlock> = (0..4).map(|a| block(a, 1, &[], shares(0..1))).collect();
    let refs: Vec<BlockReference> = first.iter().map(|b| b.reference).collect();
    let votes = || {
        refs.iter()
            .map(|r| {
                BaseStatement::VoteRange(TransactionLocatorRange { block: *r, start: 0, end: 1 })
            })
            .collect::<Vec<_>>()
    };
    let second: Vec<StatementBlock> = (0..4).map(|a| block(a, 2, &refs, votes())).collect();
    let refs2: Vec<BlockReference> = second.iter().map(|b| b.reference).collect();
    let third: Vec<StatementBlock> = (0..4).map(|a| block(a, 3, &refs2, vec![])).collect();
    let mut store = BlockStore::new();
    let mut all = Vec::new();
    for b in first.into_iter().chain(second).chain(third) {
        store.insert_block(b.clone());
        all.push(b);
    }
    (store, all)
}

#[test]
fn transactions_become_final_on_the_fast_path() {
    let members = committee(4);
    let (store, all) = three_rounds();
    let mut fpc = FpcState::new(false, CommitHandler::new(false));
    let l = TransactionLocator { block: all[0].reference, offset: 0 };
    for b in &all[..10] {
        fpc.process_block(&store, &members, b);
        assert!(!fpc.commit_handler.is_vote_finalized(&l));
    }
    fpc.process_block(&store, &members, &all[10]);
    assert!(fpc.commit_handler.is_vote_finalized(&l));
    assert_eq!(fpc.commit_handler.get_all_finalized_locators().len(), 4);
    fpc.process_block(&store, &members, &all[11]);
    let requests = fpc.commit_handler.take_requests();
    assert_eq!(requests.len(), 4);
    assert!(requests.iter().all(|r| r.is_fpc && r.transaction.data == vec![0]));
    assert!(fpc.commit_handler.take_requests().is_empty());
    let leader = CommittedSubDag { anchor: all[8].reference, blocks: all[..4].to_vec() };
    fpc.process_committed_leaders(&store, &members, &vec![leader]);
    assert!(fpc.commit_handler.take_requests().is_empty());
    assert_eq!(fpc.commit_handler.committed_leaders(), &vec![all[8].reference]);
}

#[test]
fn whole_blocks_become_final_on_the_fast_path() {
    let members = committee(4);
    let (store, all) = three_rounds();
    let mut fpc = FpcState::new(true, CommitHandler::new(true));
    for b in &all {
        fpc.process_block(&store, &members, b);
    }
    let l = TransactionLocator { block: all[2].reference, offset: 0 };
    assert!(fpc.commit_handler.is_vote_finalized(&l));
}

#[test]
fn commits_ask_once() {
    let members = committee(4);
    let (store, all) = three_rounds();
    let mut handler = CommitHandler::new(true);
    let none: VotesByBlock = KeyMap::new();
    let leader = |n: usize| CommittedSubDag { anchor: all[n].reference, blocks: all[..n].to_vec() };
    handler.handle_commit(&store, &members, &vec![leader(2)], &none);
    assert_eq!(handler.take_requests().len(), 2);
    handler.handle_commit(&store, &members, &vec![leader(4)], &none);
    assert_eq!(handler.take_requests().len(), 2);
    handler.write_finalized_block(&all[0], true);
    let l = TransactionLocator { block: all[3].reference, offset: 0 };
    handler.write_finalized_vote(l, &store, true);
    assert!(handler.take_requests().is_empty());
    let unknown = TransactionLocator { block: reference(3, 9), offset: 0 };
    handler.write_finalized_vote(unknown, &store, true);
    assert!(handler.is_vote_finalized(&unknown));
    assert!(handler.take_requests().is_empty());
    assert_eq!(handler.committed_leaders().len(), 2);
}

#[test]
fn requests_are_executed_once() {
    let (store, all) = three_rounds();
    let mut handler = CommitHandler::new(false);
    handler.write_finalized_block(&all[0], false);
    handler.write_finalized_block(&all[1], true);
    let mut batcher = ExecutionBatcher::new();
    for request in handler.take_requests() {
        assert!(batcher.offer(request));
    }
    let mut again = CommitHandler::new(false);
    again.write_finalized_vote(TransactionLocator { block: all[0].reference, offset: 0 }, &store, true);
    for request in again.take_requests() {
        assert!(!batcher.offer(request));
    }
    assert!(!batcher.is_full());
    let batch = batcher.take_batch();
    assert_eq!(
        batch_locators(&batch),
        vec![
            TransactionLocator { block: all[0].reference, offset: 0 },
            TransactionLocator { block: all[1].reference, offset: 0 }
        ]
    );
    assert!(batcher.take_batch().is_empty());
    assert!(batch_nullifiers(&vec![None]).is_empty());
}

#[test]
fn buffering_loses_nothing() {
    let mut pool = Mempool::new();
    let mut buffer = VerifiedBuffer::new(2);
    assert_eq!(buffer.accept(Outcome::Verified(transaction(1)), &mut pool), None);
    assert!(pool.get_verified_transactions(10).is_empty());
    let refused = buffer.accept(Outcome::Rejected(Rejection::ZkInvalidProof), &mut pool);
    assert_eq!(refused, Some(Rejection::ZkInvalidProof));
    assert_eq!(buffer.accept(Outcome::Verified(transaction(2)), &mut pool), None);
    assert_eq!(buffer.accept(Outcome::Verified(transaction(3)), &mut pool), None);
    buffer.flush(&mut pool);
    let first: Vec<u8> = pool.get_verified_transactions(2).iter().map(|t| t.data[0]).collect();
    assert_eq!(first, vec![1, 2]);
    assert_eq!(pool.get_verified_transactions(2).len(), 1);
    let refusals = pool.receive(
        vec![transaction(4), transaction(5)],
        &vec![Err(Rejection::Deserialize), Ok(())],
    );
    assert_eq!(refusals, vec![Rejection::Deserialize]);
    assert_eq!(pool.get_verified_transactions(9)[0].data, vec![5]);
    assert_eq!(settle(Some(true)), Ok(()));
    assert_eq!(settle(Some(false)), Err(Rejection::NullifierDuplicate));
    assert_eq!(settle(None), Err(Rejection::DbError));
    assert_eq!(queue_latency(10, 4), 6);
    assert_eq!(queue_latency(3, 4), 0);
    let labels: Vec<&str> = [
        Rejection::Deserialize,
        Rejection::ZkCandidates,
        Rejection::ZkInvalidProof,
        Rejection::ZkVerificationError,
        Rejection::NullifierDuplicate,
        Rejection::DbError,
        Rejection::Panic,
    ]
    .iter()
    .map(|r| r.label())
    .collect();
    assert_eq!(labels[4], "rejected_nullifier_duplicate");
    assert_eq!(labels[6], "rejected_panic");
}

fn pool_of(n: u8) -> Mempool {
    let mut pool = Mempool::new();
    pool.extend((0..n).map(transaction).collect());
    pool
}

#[test]
fn handlers_propose_and_vote() {
    let members = committee(4);
    let mut handler = RealBlockHandler::new(0, false, None);
    let mut pool = pool_of(3);
    let b = block(1, 1, &[], shares(0..3));
    let received = |check_individual| ReceivedBlock { block: b.clone(), check_individual };
    let out = handler.handle_blocks(
        &members,
        &mut pool,
        &vec![received(true)],
        &vec![vec![true, false, true]],
        true,
        0,
        7,
    );
    assert_eq!(out.len(), 3 + 3);
    assert!(matches!(&out[0], BaseStatement::Share(t) if t.data == vec![0]));
    assert!(matches!(&out[4], BaseStatement::Vote(_, Vote::Reject(None))));
    assert_eq!(handler.pending_transactions, 3);
    let own = block(0, 1, &[], shares(0..3));
    handler.handle_proposal(&members, &own, 7);
    assert_eq!(handler.pending_transactions, 0);
    assert_eq!(handler.transaction_time.len(), 3);
    handler.cleanup(8);
    assert_eq!(handler.transaction_time.len(), 3);
    handler.cleanup(100_000);
    assert_eq!(handler.transaction_time.len(), 0);
    let quiet =
        handler.handle_blocks(&members, &mut pool, &vec![received(false)], &vec![vec![]], false, 0, 7);
    assert!(quiet.is_empty());
}

#[test]
fn faulty_handlers_misbehave_after_their_delay() {
    let members = committee(4);
    let fault = |behavior| Some(ByzantineFault { start_delay: 100, behavior });
    let mut handler = RealBlockHandler::new(0, false, fault(ByzantineType::InvalidProof));
    assert_eq!(handler.get_active_byzantine_behavior(99), None);
    assert_eq!(
        handler.get_active_byzantine_behavior(100),
        Some(ByzantineType::InvalidProof)
    );
    let out =
        handler.handle_blocks(&members, &mut pool_of(4), &vec![], &vec![], true, 100, 7);
    let damaged = out
        .iter()
        .enumerate()
        .filter(|(i, s)| !matches!(s, BaseStatement::Share(t) if t.data == vec![*i as u8]))
        .count();
    assert_eq!((out.len(), damaged), (4, 1));
    let mut handler = RealBlockHandler::new(0, false, fault(ByzantineType::DoubleVote));
    let out =
        handler.handle_blocks(&members, &mut pool_of(4), &vec![], &vec![], true, 100, 7);
    assert_eq!(out.len(), 5);

    let mut txs = vec![transaction(255), transaction(1), Transaction::new(vec![], 0)];
    corrupt_transactions(&mut txs, &vec![0, 2], 9);
    assert_eq!((txs[0].data[0], txs[0].extract_timestamp()), (0, 9));
    assert_eq!(txs[1].data, vec![1]);
    assert!(txs[2].data.is_empty());
    duplicate_transactions(&mut txs, &vec![1]);
    assert_eq!(txs.len(), 4);
    assert_eq!(txs[3].data, vec![1]);
    assert_eq!(TestBlockHandler::make_transaction(258, 4).data, vec![2, 1, 0, 0, 0, 0, 0, 0]);
}

fn new_core(members: &Committee, rounds_in_epoch: u64) -> Core {
    let recovered = RecoveredState {
        block_store: BlockStore::new(),
        last_own_block: None,
        pending: VecDeque::new(),
        last_committed_leader: None,
    };
    let genesis = [1, 2, 3, 0]
        .iter()
        .map(|a| PositionedBlock { position: *a, block: StatementBlock::new_genesis(*a) })
        .collect();
    Core::open(0, members, recovered, genesis, CoreOptions::test(), rounds_in_epoch)
}

#[test]
fn an_epoch_changes_after_its_rounds() {
    let members = committee(4);
    let mut core = new_core(&members, 10);
    core.try_commit(&vec![reference(1, 10)], &vec![], &members, 5);
    assert!(!core.epoch_changing() && core.requires_response());
    core.try_commit(&vec![reference(1, 11)], &vec![], &members, 6);
    assert!(core.epoch_changing() && !core.requires_response());
    let marked: Vec<StatementBlock> = (0..3)
        .map(|a| {
            let mut b = block(a, 11, &[], vec![]);
            b.epoch_marker = true;
            b
        })
        .collect();
    let committed = CommittedSubDag { anchor: reference(2, 12), blocks: marked };
    let written = core.try_commit(&vec![reference(2, 12)], &vec![committed], &members, 77);
    assert_eq!(written.len(), 1);
    assert_eq!(written[0].leader, reference(2, 12));
    let authors: Vec<u64> = written[0].sub_dag.iter().map(|r| r.authority).collect();
    assert_eq!(authors, vec![0, 1, 2]);
    assert!(core.epoch_closed());
    assert_eq!(core.epoch_closing_time(), 77);
    assert_eq!(core.committed_leaders().len(), 3);
    let proposal = core.try_new_block().unwrap();
    assert!(proposal.epoch_marker);
    assert!(proposal.statements.is_empty());
    core.try_commit(&vec![reference(0, 250)], &vec![], &members, 78);
    assert_eq!(core.cleanup_threshold(), 250 - RETAIN_BELOW_COMMIT_ROUNDS);
    assert_eq!(core.epoch_closing_time(), 77);
}

#[test]
fn own_references_come_first() {
    let members = committee(4);
    let mut core = new_core(&members, 100);
    let proposal = core.try_new_block().unwrap();
    assert_eq!(proposal.round, 1);
    assert_eq!(proposal.includes[0], StatementBlock::new_genesis(0).reference);
    assert_eq!(proposal.includes.len(), 4);
    assert!(proposal.includes.iter().all(|r| r.round < 1));
    assert!(!core.ready_new_block(3, &vec![], &vec![]));
    assert_eq!(core.leader_round(1), Some(0));
    assert!(core.ready_new_block(1, &vec![1], &vec![1]));
}

#[test]
fn graphs_are_built_in_layers() {
    let members = committee(4);
    let mut writer = TestBlockWriter::new();
    let top = build_dag(&members, &mut writer, None, 2);
    let some: Vec<BlockReference> = top[..3].to_vec();
    let next = build_dag_layer(vec![(0, some.clone()), (2, top.clone())], &mut writer);
    assert_eq!(next.iter().map(|r| (r.authority, r.round)).collect::<Vec<_>>(), vec![(0, 3), (2, 3)]);
    assert_eq!(writer.block_store().get_block(next[0]).unwrap().includes, some);
    writer.add_block(block(3, 9, &[], vec![]));
    writer.add_blocks(vec![block(2, 9, &[], vec![])]);
    let store = writer.into_block_store();
    assert!(store.block_exists(reference(3, 9)) && store.block_exists(reference(2, 9)));
    assert!(is_prefix(&[], &top) && is_prefix(&some, &top));
    assert!(!is_prefix(&[reference(3, 9)], &top));
    assert!(check_commits(&vec![top.clone(), some.clone(), vec![]]));
    assert!(!check_commits(&vec![top, vec![reference(3, 9)]]));
}

#[test]
fn full_graph_has_one_block_per_member_and_round() {
    let members = committee(4);
    let mut writer = TestBlockWriter::new();
    let top = build_dag(&members, &mut writer, None, 3);
    assert_eq!(top.len(), 4);
    assert!(top.iter().all(|r| r.round == 3));
    assert_eq!(writer.block_store().blocks.len(), 16);
    for r in &top {
        let b = writer.block_store().get_block(*r).unwrap();
        assert!(b.statements.is_empty() && !b.epoch_marker && b.meta_creation_time_ns == 0);
        assert_eq!(b.includes.len(), 4);
    }
}

#[test]
fn different_blocks_have_different_references() {
    let parent = |authority, w2| BlockReference {
        authority,
        round: 0,
        digest: BlockDigest { w0: 0, w1: 0, w2, w3: 0 },
    };
    let mut writer = TestBlockWriter::new();
    let lists = [vec![parent(0, 9)], vec![parent(1, 0)], vec![parent(0, 9)]];
    let refs = build_dag_layer(lists.iter().map(|l| (2, l.clone())).collect(), &mut writer);
    assert_ne!(refs[0], refs[1]);
    assert_eq!(refs[0], refs[2]);
    assert_eq!(writer.block_store().blocks.len(), 2);
    for (r, list) in refs.iter().zip(&lists) {
        assert_eq!((r.authority, r.round), (2, 1));
        let b = writer.block_store().get_block(*r).unwrap();
        assert_eq!(&b.includes, list);
        assert!(b.statements.is_empty() && !b.epoch_marker);
    }
    let again = build_dag_layer(vec![(2, lists[1].clone())], &mut writer);
    assert_eq!(again, vec![refs[1]]);
    assert_eq!(writer.add_plain_block(2, 1, &vec![]), numbered(2, 1, 2));
    assert_eq!(writer.block_store().blocks.len(), 3);

    let blocks = vec![block(0, 4, &refs, shares(0..2)), block(1, 4, &[], vec![])];
    writer.add_blocks(blocks.clone());
    writer.add_blocks(vec![]);
    assert_eq!(writer.block_store().blocks.len(), 5);
    for b in &blocks {
        let held = writer.block_store().get_block(b.reference).unwrap();
        assert_eq!((&held.includes, held.statements.len()), (&b.includes, b.statements.len()));
    }
    assert!(refs.iter().all(|r| writer.block_store().block_exists(*r)));
}

#[test]
fn a_graph_can_be_built_in_steps() {
    let members = committee(4);
    let mut at_once = TestBlockWriter::new();
    let top = build_dag(&members, &mut at_once, None, 5);
    let mut in_steps = TestBlockWriter::new();
    let mid = build_dag(&members, &mut in_steps, None, 2);
    assert_eq!(build_dag(&members, &mut in_steps, Some(mid.clone()), 2), mid);
    assert_eq!(in_steps.block_store().blocks.len(), 12);
    assert_eq!(build_dag(&members, &mut in_steps, Some(mid.clone()), 5), top);
    assert_eq!(in_steps.block_store().blocks.len(), 24);
    for r in &top {
        let (a, b) =
            (at_once.block_store().get_block(*r).unwrap(), in_steps.block_store().get_block(*r));
        assert_eq!(a.includes, b.unwrap().includes);
    }
    let mut elsewhere = TestBlockWriter::new();
    let above = build_dag(&members, &mut elsewhere, Some(mid[..3].to_vec()), 3);
    assert_eq!(elsewhere.block_store().blocks.len(), 4);
    for r in &above {
        assert_eq!(elsewhere.block_store().get_block(*r).unwrap().includes, mid[..3].to_vec());
    }
}

#[test]
fn unprocessed_blocks_are_replayed() {
    let (members, mut all) = committee_and_cores(4);
    let mut core = all.remove(0).core;
    let mut handler = RealBlockHandler::new(0, false, None);
    let mut pool = pool_of(2);
    let entries = core.pending.len();
    core.replay(&mut handler, &members, &mut pool, vec![], &vec![], 0, 7, 40);
    assert_eq!((core.pending.len(), pool.verified_pool.len()), (entries, 2));
    let blocks = vec![block(1, 1, &[], shares(0..2)), block(2, 1, &[], shares(0..1))];
    let valid = vec![vec![true, false], vec![true]];
    core.replay(&mut handler, &members, &mut pool, blocks, &valid, 0, 7, 41);
    assert_eq!((core.pending.len(), pool.verified_pool.len()), (entries + 1, 0));
    assert_eq!(core.pending[entries].position, 41);
    let answer = core.last_payload().unwrap();
    assert_eq!(answer.len(), 2 + 3);
    assert!(matches!(&answer[0], BaseStatement::Share(t) if t.data == vec![0]));
    let rejected = answer
        .iter()
        .filter(|s| matches!(s, BaseStatement::Vote(_, Vote::Reject(None))))
        .count();
    assert_eq!(rejected, 1);
}
