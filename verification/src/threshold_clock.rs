//! The clock of rounds: a round begins when a quorum of members has blocks in
//! the one before.
use crate::committee;
use crate::committee::{Committee, StakeAggregator};
use crate::types::{BlockReference, RoundNumber};
use vstd::prelude::*;

verus! {

/// The round, and the authors whose blocks of that round have been seen.
#[verifier::ext_equal]
pub struct ClockState {
    pub round: u64,
    pub authors: Set<u64>,
}

/// The clock after a block: one of an earlier round changes nothing, one of a
/// later round moves the clock to it, and a quorum of authors in the round of
/// the clock moves it on.
pub open spec fn ticked(s: ClockState, block: BlockReference, stakes: Seq<u64>) -> ClockState {
    if block.round < s.round {
        s
    } else if block.round > s.round {
        ClockState { round: block.round, authors: Set::empty().insert(block.authority) }
    } else {
        let authors = s.authors.insert(block.authority);
        if committee::quorum(stakes, authors) {
            ClockState { round: (s.round + 1) as u64, authors: Set::empty() }
        } else {
            ClockState { round: s.round, authors }
        }
    }
}

/// Counts the blocks of the current round.
pub struct ThresholdClockAggregator {
    aggregator: StakeAggregator,
    round: RoundNumber,
}

impl ThresholdClockAggregator {
    /// The round and its authors.
    pub closed spec fn state(&self) -> ClockState {
        ClockState { round: self.round, authors: self.aggregator.set() }
    }

    pub closed spec fn wf(&self, stakes: Seq<u64>) -> bool {
        self.aggregator.wf(stakes)
    }

    /// A clock at the beginning of a round.
    pub fn new(round: RoundNumber) -> (r: Self)
        ensures
            forall|stakes: Seq<u64>| #[trigger] r.wf(stakes),
            r.state() == (ClockState { round, authors: Set::empty() }),
    {
        ThresholdClockAggregator { aggregator: StakeAggregator::new(), round }
    }

    /// Takes a block into account.
    pub fn add_block(&mut self, block: BlockReference, committee: &Committee)
        requires
            old(self).wf(committee.stakes()),
            block.authority < committee.stakes().len(),
            block.round < u64::MAX,
        ensures
            final(self).wf(committee.stakes()),
            final(self).state() == ticked(old(self).state(), block, committee.stakes()),
    {
        if block.round < self.round {
            return ;
        }
        if block.round > self.round {
            self.aggregator = StakeAggregator::new();
            assert(self.aggregator.wf(committee.stakes()));
            let quorum = self.aggregator.add(block.authority, committee);
            self.round = block.round;
        } else if self.aggregator.add(block.authority, committee) {
            self.aggregator = StakeAggregator::new();
            assert(self.aggregator.wf(committee.stakes()));
            self.round = block.round + 1;
        }
    }

    /// The current round.
    pub fn get_round(&self) -> (r: RoundNumber)
        ensures
            r == self.state().round,
    {
        self.round
    }
}

/// The clock never goes back.
pub proof fn law_clock_is_monotone(s: ClockState, block: BlockReference, stakes: Seq<u64>)
    requires
        block.round < u64::MAX,
    ensures
        ticked(s, block, stakes).round >= s.round,
{
}

/// A block of an earlier round changes nothing; one of a later round brings the clock to
/// it, with its author alone; and one of the round of the clock adds its author, and moves
/// the clock on by one round exactly where the authors then hold more than two thirds of
/// the stake, with nobody seen in the new round yet.
pub proof fn law_clock_follows_blocks(s: ClockState, block: BlockReference, stakes: Seq<u64>)
    requires
        block.round < u64::MAX,
    ensures
        ({
            let t = ticked(s, block, stakes);
            let enough = 3 * committee::stake_of(stakes, s.authors.insert(block.authority)) > 2
                * committee::total_stake(stakes);
            &&& block.round < s.round ==> t == s
            &&& block.round > s.round ==> t.round == block.round && t.authors
                =~= set![block.authority]
            &&& block.round == s.round && enough ==> t.round == s.round + 1 && t.authors
                =~= Set::<u64>::empty()
            &&& block.round == s.round && !enough ==> t.round == s.round && t.authors
                =~= s.authors.insert(block.authority)
        }),
{
    committee::law_quorum_is_more_than_two_thirds(stakes, s.authors.insert(block.authority));
}

/// A block that comes again counts once.
pub proof fn law_clock_counts_a_block_once(s: ClockState, block: BlockReference, stakes: Seq<u64>)
    requires
        block.round < u64::MAX,
        block.round < s.round || s.authors.contains(block.authority),
        block.round == s.round ==> !committee::quorum(stakes, s.authors),
        block.round <= s.round,
    ensures
        ticked(s, block, stakes) == s,
{
    if block.round == s.round {
        assert(s.authors.insert(block.authority) =~= s.authors);
    }
}

} // verus!
