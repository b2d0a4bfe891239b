//! When a node makes blocks, and when it looks for commits.
use crate::committee::{AuthorityIndex, Committee};
use crate::node_core;
use crate::node_core::{BlockProposal, Core, OwnBlock, PositionedBlock, END_OF_LOG};
use crate::threshold_clock;
use crate::types::{RoundNumber, StatementBlock};
use vstd::prelude::*;

verus! {

/// Is told of the node's own blocks.
pub trait SyncerSignals: Send + Sync {
    /// What a signal does to what is told.
    spec fn told(before: Self, after: Self) -> bool where Self: Sized;

    /// A new block can be sent.
    fn new_block_ready(&mut self) where Self: Sized
        ensures
            Self::told(*old(self), *final(self)),
    ;
}

impl SyncerSignals for bool {
    open spec fn told(before: bool, after: bool) -> bool {
        after
    }

    fn new_block_ready(&mut self) {
        *self = true;
    }
}

/// What is left to do after a block of the node.
#[derive(Clone, Copy, Debug, PartialEq, Eq, Structural)]
pub struct AfterBlock {
    /// Whether the log is to be forced to disk.
    pub fsync: bool,
    /// Whether commits are to be looked for: not when the epoch is safe to close.
    pub commits: bool,
}

/// Drives the core of a node.
pub struct Syncer<S: SyncerSignals> {
    pub core: Core,
    pub force_new_block: bool,
    pub commit_period: u64,
    pub signals: S,
    pub connected_authorities: Vec<AuthorityIndex>,
}

impl<S: SyncerSignals> Syncer<S> {
    /// The core is well formed, the period is not empty, and no member is listed as
    /// connected twice.
    pub open spec fn wf(&self, stakes: Seq<u64>) -> bool {
        &&& self.core.wf(stakes)
        &&& self.commit_period > 0
        &&& self.connected_authorities@.no_duplicates()
    }

    /// The members that are connected.
    pub open spec fn connected(&self) -> Set<AuthorityIndex> {
        self.connected_authorities@.to_set()
    }

    /// Everything but who is connected.
    pub open spec fn same_but_connections(&self, other: &Self) -> bool {
        &&& self.core == other.core
        &&& self.force_new_block == other.force_new_block
        &&& self.commit_period == other.commit_period
        &&& self.signals == other.signals
    }

    /// Everything but the core and the wish for a block.
    pub open spec fn same_connections(&self, other: &Self) -> bool {
        &&& self.commit_period == other.commit_period
        &&& self.connected_authorities@ == other.connected_authorities@
    }

    /// Drives a core. Nobody is connected.
    pub fn new(core: Core, commit_period: u64, signals: S) -> (r: Self)
        ensures
            r.core == core,
            r.commit_period == commit_period,
            r.signals == signals,
            !r.force_new_block,
            r.connected_authorities@.len() == 0,
            r.connected() == Set::<AuthorityIndex>::empty(),
    {
        assert(Seq::<AuthorityIndex>::empty().to_set() =~= Set::empty());
        Syncer {
            core,
            force_new_block: false,
            commit_period,
            signals,
            connected_authorities: Vec::new(),
        }
    }

    /// Takes note of a connection to a member.
    pub fn connection_established(&mut self, authority: AuthorityIndex)
        requires
            old(self).connected_authorities@.no_duplicates(),
        ensures
            final(self).same_but_connections(&*old(self)),
            final(self).connected_authorities@.no_duplicates(),
            final(self).connected() == old(self).connected().insert(authority),
    {
        let ghost before = self.connected_authorities@;
        let mut i: usize = 0;
        while i < self.connected_authorities.len()
            invariant
                i <= before.len(),
                before == self.connected_authorities@,
                before.no_duplicates(),
                forall|k: int| 0 <= k < i ==> before[k] != authority,
            decreases before.len() - i,
        {
            if self.connected_authorities[i] == authority {
                assert(before.contains(authority));
                assert(before.to_set() =~= before.to_set().insert(authority));
                return;
            }
            i = i + 1;
        }
        self.connected_authorities.push(authority);
        proof {
            crate::finalization_interpreter::lemma_push_set(before, authority);
        }
    }

    /// Takes note of the end of the connection to a member.
    pub fn connection_dropped(&mut self, authority: AuthorityIndex)
        requires
            old(self).connected_authorities@.no_duplicates(),
        ensures
            final(self).same_but_connections(&*old(self)),
            final(self).connected_authorities@.no_duplicates(),
            final(self).connected() == old(self).connected().remove(authority),
    {
        let ghost before = self.connected_authorities@;
        let mut kept: Vec<AuthorityIndex> = Vec::new();
        let mut i: usize = 0;
        assert(kept@.to_set() =~= before.take(0).to_set().remove(authority));
        while i < self.connected_authorities.len()
            invariant
                i <= before.len(),
                before == self.connected_authorities@,
                before.no_duplicates(),
                kept@.no_duplicates(),
                kept@.to_set() == before.take(i as int).to_set().remove(authority),
            decreases before.len() - i,
        {
            let a = self.connected_authorities[i];
            let ghost k0 = kept@;
            proof {
                let b0 = before.take(i as int);
                assert(before.take(i + 1) =~= b0.push(a));
                crate::finalization_interpreter::lemma_push_set(b0, a);
                crate::finalization_interpreter::lemma_push_set(k0, a);
                if k0.contains(a) {
                    assert(k0.to_set().contains(a));
                    assert(b0.to_set().contains(a));
                    let k = choose|k: int| 0 <= k < b0.len() && b0[k] == a;
                    assert(before[k] == before[i as int]);
                }
            }
            if a != authority {
                kept.push(a);
            }
            i = i + 1;
            assert(kept@.to_set() =~= before.take(i as int).to_set().remove(authority));
        }
        assert(before.take(i as int) =~= before);
        self.connected_authorities = kept;
    }

    /// A block is wanted: it is asked for, or the core is ready for one.
    pub open spec fn wants_block(&self, leaders: Seq<AuthorityIndex>) -> bool {
        self.force_new_block || match self.core.awaited_round(self.commit_period) {
            Some(round) => forall|i: int|
                0 <= i < leaders.len() ==> !self.core.misses(
                    self.connected_authorities@,
                    #[trigger] leaders[i],
                    round,
                ),
            None => false,
        }
    }

    /// Begins a block, if one is wanted and the clock allows it. `leaders` are
    /// those of the round that is waited for.
    pub fn try_new_block(&mut self, leaders: &Vec<AuthorityIndex>, committee: &Committee) -> (r: Option<
        BlockProposal,
    >)
        requires
            old(self).wf(committee.stakes()),
        ensures
            final(self).wf(committee.stakes()),
            final(self).same_connections(&*old(self)),
            final(self).force_new_block == old(self).force_new_block,
            final(self).signals == old(self).signals,
            final(self).core.same_history(&old(self).core),
            final(self).core.last_own == old(self).core.last_own,
            final(self).core.block_store == old(self).core.block_store,
            final(self).core.threshold_clock == old(self).core.threshold_clock,
            r is Some <==> old(self).wants_block(leaders@) && old(
                self).core.threshold_clock.state().round > old(self).core.last_own.reference.round,
            r is None ==> final(self).core.pending@ == old(self).core.pending@,
            r matches Some(b) ==> {
                let round = old(self).core.threshold_clock.state().round;
                let taken = node_core::taken_for(old(self).core.pending@, round);
                &&& b.authority == old(self).core.authority
                &&& b.round == round
                &&& b.epoch_marker == !(old(self).core.epoch_manager.status() is Open)
                &&& b.includes@ == node_core::block_includes(
                    old(self).core.block_store@,
                    old(self).core.last_own.reference,
                    taken,
                    taken.len() as int,
                )
                &&& b.statements@ == (if b.epoch_marker {
                    Seq::empty()
                } else {
                    node_core::block_statements(taken, taken.len() as int)
                })
                &&& final(self).core.pending@ == old(self).core.pending@.skip(taken.len() as int)
            },
    {
        if self.force_new_block || self.core.ready_new_block(
            self.commit_period,
            &self.connected_authorities,
            leaders,
        ) {
            self.core.try_new_block()
        } else {
            None
        }
    }

    /// Takes note of a block that was begun, made and signed, and signals it.
    /// Tells what is left to do.
    pub fn block_created(&mut self, block: StatementBlock, committee: &Committee) -> (r: AfterBlock)
        requires
            old(self).wf(committee.stakes()),
            block.reference.authority == old(self).core.authority,
            block.reference.round < u64::MAX,
        ensures
            final(self).wf(committee.stakes()),
            final(self).same_connections(&*old(self)),
            !final(self).force_new_block,
            S::told(old(self).signals, final(self).signals),
            final(self).core.same_history(&old(self).core),
            final(self).core.last_own == (OwnBlock {
                reference: block.reference,
                next_entry: if old(self).core.pending@.len() > 0 {
                    old(self).core.pending@[0].position
                } else {
                    END_OF_LOG
                },
            }),
            final(self).core.pending@ == old(self).core.pending@,
            final(self).core.block_store@ == old(self).core.block_store@.insert(
                block.reference,
                block,
            ),
            final(self).core.threshold_clock.state() == threshold_clock::ticked(
                old(self).core.threshold_clock.state(),
                block.reference,
                committee.stakes(),
            ),
            r.fsync == old(self).core.options.fsync,
            r.commits == !(old(self).core.epoch_manager.status() is SafeToClose),
    {
        let fsync = self.core.add_own_block(block, committee);
        self.signals.new_block_ready();
        self.force_new_block = false;
        AfterBlock { fsync, commits: !self.core.epoch_closed() }
    }

    /// Asks for a block after a timeout, unless the node has made one since the
    /// given round.
    pub fn force_new_block(&mut self, round: RoundNumber) -> (forced: bool)
        ensures
            forced == (old(self).core.last_own.reference.round == round),
            final(self).force_new_block == (forced || old(self).force_new_block),
            final(self).core == old(self).core,
            final(self).same_connections(&*old(self)),
            final(self).signals == old(self).signals,
    {
        if self.core.last_proposed() == round {
            self.force_new_block = true;
            true
        } else {
            false
        }
    }

    /// Takes blocks in whose histories are known.
    pub fn add_blocks(&mut self, blocks: Vec<PositionedBlock>, committee: &Committee)
        requires
            old(self).wf(committee.stakes()),
            node_core::blocks_acceptable(blocks@, committee.stakes()),
        ensures
            final(self).wf(committee.stakes()),
            final(self).same_connections(&*old(self)),
            final(self).force_new_block == old(self).force_new_block,
            final(self).signals == old(self).signals,
            final(self).core.same_history(&old(self).core),
            final(self).core.last_own == old(self).core.last_own,
            final(self).core.pending@ == old(self).core.pending@ + node_core::entries_for(blocks@),
            final(self).core.block_store@ == node_core::stored(
                old(self).core.block_store@,
                blocks@,
                blocks@.len() as int,
            ),
            final(self).core.threshold_clock.state() == node_core::ticked_by_blocks(
                old(self).core.threshold_clock.state(),
                blocks@,
                committee.stakes(),
                blocks@.len() as int,
            ),
    {
        self.core.add_blocks(blocks, committee);
    }
}

/// A block that is asked for is wanted at once. Else one is wanted exactly where the clock
/// is past the last commit, a whole period has passed, and of each leader that is connected
/// a block of the round before that of the clock is known.
pub proof fn law_block_is_wanted<S: SyncerSignals>(
    syncer: Syncer<S>,
    leaders: Seq<AuthorityIndex>,
)
    requires
        syncer.commit_period > 0,
    ensures
        syncer.force_new_block ==> syncer.wants_block(leaders),
        !syncer.force_new_block ==> (syncer.wants_block(leaders) <==> {
            let round = syncer.core.threshold_clock.state().round;
            &&& round > syncer.core.last_commit_leader.round
            &&& round >= syncer.commit_period
            &&& forall|i: int|
                0 <= i < leaders.len() && syncer.connected_authorities@.contains(
                    #[trigger] leaders[i],
                ) ==> exists|r: crate::types::BlockReference|
                    {
                        &&& #[trigger] syncer.core.block_store@.dom().contains(r)
                        &&& r.authority == leaders[i]
                        &&& r.round + 1 == round
                    }
        }),
{
    let round = syncer.core.threshold_clock.state().round;
    if !syncer.force_new_block && round > syncer.core.last_commit_leader.round && round
        >= syncer.commit_period {
        assert forall|i: int| 0 <= i < leaders.len() implies (syncer.core.misses(
            syncer.connected_authorities@,
            #[trigger] leaders[i],
            (round - 1) as u64,
        ) <==> syncer.connected_authorities@.contains(leaders[i]) && !(exists|
            r: crate::types::BlockReference,
        |
            {
                &&& #[trigger] syncer.core.block_store@.dom().contains(r)
                &&& r.authority == leaders[i]
                &&& r.round + 1 == round
            })) by {
            let m = syncer.core.block_store@;
            if node_core::has_block_at(m, leaders[i], (round - 1) as u64) {
                let r = choose|r: crate::types::BlockReference| #[trigger]
                    m.dom().contains(r) && r.authority == leaders[i] && r.round == (round
                        - 1) as u64;
                assert(r.round + 1 == round);
            }
        }
    }
}

/// Connections and all else are changed apart from each other.
pub proof fn law_syncer_changes_one_part<S: SyncerSignals>(before: Syncer<S>, after: Syncer<S>)
    ensures
        after.same_but_connections(&before) ==> {
            &&& after.core == before.core
            &&& after.force_new_block == before.force_new_block
            &&& after.commit_period == before.commit_period
            &&& after.signals == before.signals
        },
        after.same_connections(&before) ==> {
            &&& after.connected_authorities@ == before.connected_authorities@
            &&& after.commit_period == before.commit_period
        },
{
}

} // verus!
