//! The change to the next epoch: when it begins and when it is safe to close.
use crate::clock;
use crate::committee;
use crate::committee::{Committee, StakeAggregator};
use crate::types::{InternalEpochStatus, StatementBlock};
use vstd::prelude::*;

verus! {

/// Follows the change of epoch through the committed blocks.
pub struct EpochManager {
    epoch_status: InternalEpochStatus,
    change_aggregator: StakeAggregator,
    epoch_close_time: u64,
}

/// What is known of the change of epoch.
#[verifier::ext_equal]
pub struct EpochView {
    pub status: InternalEpochStatus,
    pub markers: Set<u64>,
    pub close_time: u64,
}

/// What is known after a committed block, where it is `now`: its marker is
/// counted, and a quorum of markers makes the epoch safe to close, once.
pub open spec fn after_block(
    v: EpochView,
    block: StatementBlock,
    stakes: Seq<u64>,
    now: u64,
) -> EpochView {
    let markers = if block.epoch_marker {
        v.markers.insert(block.reference.authority)
    } else {
        v.markers
    };
    if block.epoch_marker && committee::quorum(stakes, markers) && !(v.status is SafeToClose) {
        EpochView { status: InternalEpochStatus::SafeToClose, markers, close_time: now }
    } else {
        EpochView { status: v.status, markers, close_time: v.close_time }
    }
}

/// What is known after the first `k` of some committed blocks.
pub open spec fn after_blocks(
    v: EpochView,
    blocks: Seq<StatementBlock>,
    stakes: Seq<u64>,
    now: u64,
    k: int,
) -> EpochView
    decreases k,
{
    if k <= 0 {
        v
    } else {
        after_block(after_blocks(v, blocks, stakes, now, k - 1), blocks[k - 1], stakes, now)
    }
}

impl EpochManager {
    /// How far the change has come.
    pub closed spec fn status(&self) -> InternalEpochStatus {
        self.epoch_status
    }

    /// Whose committed blocks have marked the change.
    pub closed spec fn markers(&self) -> Set<u64> {
        self.change_aggregator.set()
    }

    /// When the epoch became safe to close, in milliseconds; zero before.
    pub closed spec fn close_time(&self) -> u64 {
        self.epoch_close_time
    }

    /// The markers are counted as the committee's.
    pub closed spec fn wf(&self, stakes: Seq<u64>) -> bool {
        self.change_aggregator.wf(stakes)
    }

    /// An open epoch.
    pub fn new() -> (r: Self)
        ensures
            forall|stakes: Seq<u64>| #[trigger] r.wf(stakes),
            r.status() == InternalEpochStatus::Open,
            r.markers() == Set::<u64>::empty(),
            r.close_time() == 0,
    {
        EpochManager {
            epoch_status: InternalEpochStatus::Open,
            change_aggregator: StakeAggregator::new(),
            epoch_close_time: 0,
        }
    }

    /// The change begins, if the epoch is open.
    pub fn epoch_change_begun(&mut self)
        ensures
            final(self).status() == (if old(self).status() is Open {
                InternalEpochStatus::BeginChange
            } else {
                old(self).status()
            }),
            final(self).markers() == old(self).markers(),
            final(self).close_time() == old(self).close_time(),
            forall|stakes: Seq<u64>| #[trigger] final(self).wf(stakes) == old(self).wf(stakes),
    {
        if let InternalEpochStatus::Open = self.epoch_status {
            self.epoch_status = InternalEpochStatus::BeginChange;
        }
    }

    /// How far the change has come, and whose blocks have marked it.
    pub open spec fn seen(&self) -> EpochView {
        EpochView {
            status: self.status(),
            markers: self.markers(),
            close_time: self.close_time(),
        }
    }

    /// What a committed block does to the change, where it is `now`.
    pub open spec fn observed(
        before: Self,
        after: Self,
        block: StatementBlock,
        stakes: Seq<u64>,
        now: u64,
    ) -> bool {
        after.seen() == after_block(before.seen(), block, stakes, now)
    }

    /// Takes a committed block into account at a given time.
    pub fn observe_committed_block_at(
        &mut self,
        block: &StatementBlock,
        committee: &Committee,
        now: u64,
    )
        requires
            old(self).wf(committee.stakes()),
            block.reference.authority < committee.stakes().len(),
        ensures
            final(self).wf(committee.stakes()),
            Self::observed(*old(self), *final(self), *block, committee.stakes(), now),
    {
        if block.epoch_changed() {
            let is_quorum = self.change_aggregator.add(block.author(), committee);
            if is_quorum && self.epoch_status != InternalEpochStatus::SafeToClose {
                self.epoch_close_time = now;
                self.epoch_status = InternalEpochStatus::SafeToClose;
            }
        }
    }

    /// Takes a committed block into account now.
    pub fn observe_committed_block(&mut self, block: &StatementBlock, committee: &Committee)
        requires
            old(self).wf(committee.stakes()),
            block.reference.authority < committee.stakes().len(),
        ensures
            final(self).wf(committee.stakes()),
            exists|now: u64| #[trigger]
                Self::observed(*old(self), *final(self), *block, committee.stakes(), now),
    {
        let now: u64 = clock::timestamp_utc_millis();
        self.observe_committed_block_at(block, committee, now);
    }

    /// Whether the change has begun.
    pub fn changing(&self) -> (b: bool)
        ensures
            b == !(self.status() is Open),
    {
        self.epoch_status != InternalEpochStatus::Open
    }

    /// Whether the epoch is safe to close.
    pub fn closed(&self) -> (b: bool)
        ensures
            b == (self.status() is SafeToClose),
    {
        self.epoch_status == InternalEpochStatus::SafeToClose
    }

    /// When the epoch became safe to close, in milliseconds; zero before.
    pub fn closing_time(&self) -> (r: u64)
        ensures
            r == self.close_time(),
    {
        self.epoch_close_time
    }
}

/// A closed epoch stays closed, with the time at which it was, whatever is
/// committed later.
pub proof fn law_closed_epoch_stays_closed(
    before: EpochManager,
    after: EpochManager,
    block: StatementBlock,
    stakes: Seq<u64>,
    now: u64,
)
    requires
        EpochManager::observed(before, after, block, stakes, now),
        before.status() is SafeToClose,
    ensures
        after.status() is SafeToClose,
        after.close_time() == before.close_time(),
{
}

/// An epoch closes only on markers of a quorum of members.
pub proof fn law_epoch_closes_on_quorum(
    before: EpochManager,
    after: EpochManager,
    block: StatementBlock,
    stakes: Seq<u64>,
    now: u64,
)
    requires
        EpochManager::observed(before, after, block, stakes, now),
        !(before.status() is SafeToClose),
        after.status() is SafeToClose,
    ensures
        committee::quorum(stakes, after.markers()),
        after.close_time() == now,
{
}

/// What happens to an epoch: its change begins, or a block is committed at a time.
pub enum EpochEvent {
    Begun,
    Committed(StatementBlock, u64),
}

/// What is known after an event.
pub open spec fn after_event(v: EpochView, e: EpochEvent, stakes: Seq<u64>) -> EpochView {
    match e {
        EpochEvent::Begun => if v.status is Open {
            EpochView { status: InternalEpochStatus::BeginChange, ..v }
        } else {
            v
        },
        EpochEvent::Committed(block, now) => after_block(v, block, stakes, now),
    }
}

/// What is known after the first `k` events of an epoch that was open.
pub open spec fn after_events(events: Seq<EpochEvent>, stakes: Seq<u64>, k: int) -> EpochView
    decreases k,
{
    if k <= 0 {
        EpochView { status: InternalEpochStatus::Open, markers: Set::empty(), close_time: 0 }
    } else {
        after_event(after_events(events, stakes, k - 1), events[k - 1], stakes)
    }
}

/// The closing time tells whether the epoch is safe to close: whatever happens to a
/// new epoch, at times after zero, it is non-zero exactly where the epoch is safe to
/// close. Once it is non-zero it does not change.
pub proof fn law_closing_time_tells_closed(
    events: Seq<EpochEvent>,
    stakes: Seq<u64>,
    j: int,
    k: int,
)
    requires
        0 <= j <= k <= events.len(),
        forall|i: int|
            0 <= i < events.len() ==> (#[trigger] events[i] matches EpochEvent::Committed(_, now)
                ==> now > 0),
    ensures
        after_events(events, stakes, k).close_time != 0 <==> after_events(
            events,
            stakes,
            k,
        ).status is SafeToClose,
        after_events(events, stakes, j).close_time != 0 ==> after_events(
            events,
            stakes,
            k,
        ).close_time == after_events(events, stakes, j).close_time,
    decreases k,
{
    if k > 0 {
        if j < k {
            law_closing_time_tells_closed(events, stakes, j, k - 1);
        } else {
            law_closing_time_tells_closed(events, stakes, k - 1, k - 1);
        }
    }
}

/// A committed block adds its author to those who have marked the change exactly where
/// it carries the marker. It closes the epoch exactly where it carries the marker, the
/// epoch is not closed, and those who have marked the change then hold more than two
/// thirds of the stake; and it changes nothing else.
pub proof fn law_markers_close_the_epoch(
    v: EpochView,
    block: StatementBlock,
    stakes: Seq<u64>,
    now: u64,
)
    ensures
        ({
            let after = after_block(v, block, stakes, now);
            let enough = 3 * committee::stake_of(
                stakes,
                v.markers.insert(block.reference.authority),
            ) > 2 * committee::total_stake(stakes);
            let closes = block.epoch_marker && enough && !(v.status is SafeToClose);
            &&& block.epoch_marker ==> after.markers =~= v.markers.insert(block.reference.authority)
            &&& !block.epoch_marker ==> after == v
            &&& closes ==> after.status is SafeToClose && after.close_time == now
            &&& !closes ==> after.status == v.status && after.close_time == v.close_time
        }),
{
    committee::law_quorum_is_more_than_two_thirds(
        stakes,
        v.markers.insert(block.reference.authority),
    );
}

/// Those who have marked the change after some blocks are those before and the authors
/// of the blocks that carry the marker.
pub proof fn law_markers_gather(
    v: EpochView,
    blocks: Seq<StatementBlock>,
    stakes: Seq<u64>,
    now: u64,
    k: int,
    a: u64,
)
    requires
        0 <= k <= blocks.len(),
    ensures
        after_blocks(v, blocks, stakes, now, k).markers.contains(a) <==> (v.markers.contains(a)
            || exists|i: int|
            0 <= i < k && (#[trigger] blocks[i]).epoch_marker && blocks[i].reference.authority == a),
        v.status is SafeToClose ==> after_blocks(v, blocks, stakes, now, k).status is SafeToClose
            && after_blocks(v, blocks, stakes, now, k).close_time == v.close_time,
        !(v.status is SafeToClose) && !(after_blocks(v, blocks, stakes, now, k).status is SafeToClose)
            ==> after_blocks(v, blocks, stakes, now, k).status == v.status && after_blocks(
            v,
            blocks,
            stakes,
            now,
            k,
        ).close_time == v.close_time,
    decreases k,
{
    if k > 0 {
        law_markers_gather(v, blocks, stakes, now, k - 1, a);
        law_markers_close_the_epoch(
            after_blocks(v, blocks, stakes, now, k - 1),
            blocks[k - 1],
            stakes,
            now,
        );
        if exists|i: int|
            0 <= i < k && (#[trigger] blocks[i]).epoch_marker && blocks[i].reference.authority == a {
            let i = choose|i: int|
                0 <= i < k && (#[trigger] blocks[i]).epoch_marker && blocks[i].reference.authority
                    == a;
            if i < k - 1 {
                assert(exists|i: int|
                    0 <= i < k - 1 && (#[trigger] blocks[i]).epoch_marker
                        && blocks[i].reference.authority == a);
            }
        }
    }
}

} // verus!
