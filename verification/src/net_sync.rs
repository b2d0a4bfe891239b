//! What a node does with messages of its peers and with the time that passes.
use crate::field::FieldElement;
use crate::modular;
use crate::zkp;
use crate::zkp::{
    batch_verify, batch_verify_with, prepare_public_inputs, PreparedVerifyingKey, Proof,
    VoteTransaction, ZkError,
};
use vstd::prelude::*;

verus! {

/// The most blocks that can be asked for in one message.
pub const MAXIMUM_BLOCK_REQUEST: usize = 10;

/// How long the block of a leader is waited for, in milliseconds.
pub const LEADER_TIMEOUT: u64 = 1_000;

/// Whether all peers of a committee are connected.
pub fn all_peers_connected(connected: usize, committee_size: usize) -> (b: bool)
    requires
        committee_size > 0,
    ensures
        b == (connected >= committee_size - 1),
{
    connected >= committee_size - 1
}

/// Whether a peer may ask for that many blocks at once; the connection to one
/// that asks for more is closed.
pub fn request_is_allowed(count: usize) -> (b: bool)
    ensures
        b == (count <= MAXIMUM_BLOCK_REQUEST),
        b == (count <= 10),
{
    count <= MAXIMUM_BLOCK_REQUEST
}

/// How a block of a peer is taken in: `None` closes the connection, and else there is an
/// entry for each time, which tells whether its transactions are checked one by one.
pub open spec fn taken_in(valid: bool, batch_valid: bool, block_level_fpc: bool) -> Option<
    Seq<bool>,
> {
    if !valid {
        None
    } else if batch_valid {
        Some(seq![false])
    } else if block_level_fpc {
        None
    } else {
        Some(seq![true, false])
    }
}

/// What is done with a block of a peer, where `valid` tells whether it is correct
/// as a block and `batch_valid` whether its ballots passed their check together.
/// `None` closes the connection. Else the block is taken in, once for each entry,
/// which tells whether its transactions are checked one by one: a block whose
/// ballots did not pass is checked one by one first.
pub fn on_block(valid: bool, batch_valid: bool, block_level_fpc: bool) -> (r: Option<Vec<bool>>)
    ensures
        r is None == (!valid || !batch_valid && block_level_fpc),
        r is None == taken_in(valid, batch_valid, block_level_fpc) is None,
        r matches Some(v) ==> Some(v@) == taken_in(valid, batch_valid, block_level_fpc),
        r matches Some(v) ==> v@ == (if batch_valid {
            seq![false]
        } else {
            seq![true, false]
        }),
{
    if !valid {
        return None;
    }
    let mut out: Vec<bool> = Vec::new();
    if !batch_valid {
        if block_level_fpc {
            return None;
        }
        out.push(true);
    }
    out.push(false);
    assert(batch_valid ==> out@ =~= seq![false]);
    assert(!batch_valid ==> out@ =~= seq![true, false]);
    Some(out)
}

/// What happens to the task that watches the time.
#[derive(Clone, Copy, Debug, PartialEq, Eq, Structural)]
pub enum TimeEvent {
    LeaderTimeout,
    NewBlock,
    EpochOver,
    TallyDone,
    Stopped,
}

/// What the task that watches the time does.
#[derive(Clone, Copy, Debug, PartialEq, Eq, Structural)]
pub enum TimeAction {
    /// Asks for a block of the node's own.
    ForceBlock,
    /// Waits on.
    Wait,
    /// Begins the tally.
    StartTally,
    /// Ends.
    Stop,
}

/// What the task does on an event, and whether the tally has begun after it.
pub open spec fn time_step(tallying: bool, event: TimeEvent) -> (bool, TimeAction) {
    match event {
        TimeEvent::LeaderTimeout => (tallying, TimeAction::ForceBlock),
        TimeEvent::NewBlock => (tallying, TimeAction::Wait),
        TimeEvent::EpochOver => (
            true,
            if tallying {
                TimeAction::Wait
            } else {
                TimeAction::StartTally
            },
        ),
        TimeEvent::TallyDone => (tallying, TimeAction::Stop),
        TimeEvent::Stopped => (tallying, TimeAction::Stop),
    }
}

/// Whether the tally has begun after the first `k` events.
pub open spec fn tallying_after(events: Seq<TimeEvent>, k: int) -> bool
    decreases k,
{
    k > 0 && time_step(tallying_after(events, k - 1), events[k - 1]).0
}

/// How long until the end of the epoch, in milliseconds, if it is safe to close.
pub open spec fn time_left(closing_time: u64, now: u64, grace_period: u64) -> Option<int> {
    if closing_time == 0 {
        None
    } else if now <= closing_time {
        Some(grace_period as int)
    } else if closing_time + grace_period > now {
        Some(closing_time + grace_period - now)
    } else {
        Some(0)
    }
}

/// Watches the time: leaders that are late, and the end of the epoch.
#[derive(Clone, Copy, Debug, PartialEq, Eq, Structural)]
pub struct TimeKeeper {
    pub tallying_started: bool,
}

impl TimeKeeper {
    /// No tally has begun.
    pub fn new() -> (r: Self)
        ensures
            !r.tallying_started,
    {
        TimeKeeper { tallying_started: false }
    }

    /// How long to wait for a leader, in milliseconds; for ever while the tally
    /// runs.
    pub fn leader_timeout(&self) -> (r: Option<u64>)
        ensures
            r == (if self.tallying_started {
                None
            } else {
                Some(LEADER_TIMEOUT)
            }),
            r matches Some(wait) ==> wait == 1_000,
    {
        if self.tallying_started {
            None
        } else {
            Some(LEADER_TIMEOUT)
        }
    }

    /// How long until the end of the epoch, in milliseconds: what is left of the
    /// grace period after the epoch became safe to close; for ever before that,
    /// when `closing_time` is zero.
    pub fn shutdown_delay(closing_time: u64, now: u64, grace_period: u64) -> (r: Option<u64>)
        ensures
            closing_time == 0 ==> r is None,
            r is None == time_left(closing_time, now, grace_period) is None,
            r matches Some(left) ==> time_left(closing_time, now, grace_period) == Some(
                left as int,
            ),
            closing_time != 0 ==> r == Some(
                if now <= closing_time {
                    grace_period
                } else if grace_period > now - closing_time {
                    (grace_period - (now - closing_time)) as u64
                } else {
                    0
                },
            ),
    {
        if closing_time != 0 {
            let elapsed: u64 = now.saturating_sub(closing_time);
            Some(grace_period.saturating_sub(elapsed))
        } else {
            None
        }
    }

    /// Reacts to an event. The tally begins once.
    pub fn on_event(&mut self, event: TimeEvent) -> (r: TimeAction)
        ensures
            final(self).tallying_started == (old(self).tallying_started || event
                == TimeEvent::EpochOver),
            (final(self).tallying_started, r) == time_step(old(self).tallying_started, event),
            r == (match event {
                TimeEvent::LeaderTimeout => TimeAction::ForceBlock,
                TimeEvent::NewBlock => TimeAction::Wait,
                TimeEvent::EpochOver => if old(self).tallying_started {
                    TimeAction::Wait
                } else {
                    TimeAction::StartTally
                },
                TimeEvent::TallyDone => TimeAction::Stop,
                TimeEvent::Stopped => TimeAction::Stop,
            }),
    {
        match event {
            TimeEvent::LeaderTimeout => TimeAction::ForceBlock,
            TimeEvent::NewBlock => TimeAction::Wait,
            TimeEvent::EpochOver => {
                if self.tallying_started {
                    TimeAction::Wait
                } else {
                    self.tallying_started = true;
                    TimeAction::StartTally
                }
            },
            TimeEvent::TallyDone => TimeAction::Stop,
            TimeEvent::Stopped => TimeAction::Stop,
        }
    }
}

/// Why the ballots of a block are refused.
#[derive(Clone, Copy, Debug, PartialEq, Eq, Structural)]
pub enum BlockRejection {
    Deserialize,
    ZkCandidates,
    ZkVerificationError,
    ZkInvalidBatchProof,
    NullifierDbError,
    NullifierDuplicate,
}

/// What is wrong with a ballot before its proof is looked at.
pub open spec fn ballot_fault(
    vote: Option<VoteTransaction>,
    num_candidates: nat,
) -> Option<BlockRejection> {
    match vote {
        None => Some(BlockRejection::Deserialize),
        Some(v) => if v.enc_vote_vec@.len() != num_candidates {
            Some(BlockRejection::ZkCandidates)
        } else {
            None
        },
    }
}

/// The first fault among the ballots from `i` on.
pub open spec fn first_fault(
    votes: Seq<Option<VoteTransaction>>,
    num_candidates: nat,
    i: int,
) -> Option<BlockRejection>
    decreases votes.len() - i,
{
    if i >= votes.len() {
        None
    } else if ballot_fault(votes[i], num_candidates) is Some {
        ballot_fault(votes[i], num_candidates)
    } else {
        first_fault(votes, num_candidates, i + 1)
    }
}

/// Tells the first fault among the ballots of a block.
pub fn ballots_fault(votes: &Vec<Option<VoteTransaction>>, num_candidates: usize) -> (r: Option<
    BlockRejection,
>)
    ensures
        r == first_fault(votes@, num_candidates as nat, 0),
        r is None <==> forall|i: int|
            0 <= i < votes@.len() ==> ballot_fault(#[trigger] votes@[i], num_candidates as nat) is None,
{
    let mut i: usize = 0;
    while i < votes.len()
        invariant
            i <= votes@.len(),
            first_fault(votes@, num_candidates as nat, 0) == first_fault(
                votes@,
                num_candidates as nat,
                i as int,
            ),
            forall|k: int|
                0 <= k < i ==> ballot_fault(#[trigger] votes@[k], num_candidates as nat) is None,
        decreases votes@.len() - i,
    {
        match &votes[i] {
            None => {
                assert(ballot_fault(votes@[i as int], num_candidates as nat) is Some);
                return Some(BlockRejection::Deserialize);
            },
            Some(v) => {
                if v.enc_vote_vec.len() != num_candidates {
                    assert(ballot_fault(votes@[i as int], num_candidates as nat) is Some);
                    return Some(BlockRejection::ZkCandidates);
                }
            },
        }
        i = i + 1;
    }
    None
}

/// The public inputs of ballots.
pub open spec fn input_rows(votes: Seq<Option<VoteTransaction>>, root: int) -> Seq<Seq<int>> {
    Seq::new(
        votes.len(),
        |i: int| zkp::ballot_inputs(votes[i]->0.enc_vote_vec@, root, votes[i]->0.nullifier@),
    )
}

/// The proofs of ballots.
pub open spec fn ballot_proofs(votes: Seq<Option<VoteTransaction>>) -> Seq<Proof> {
    Seq::new(votes.len(), |i: int| votes[i]->0.proof)
}

/// The proofs of ballots hold together, weighted with `rs`.
pub open spec fn ballots_hold(
    pvk: PreparedVerifyingKey,
    votes: Seq<Option<VoteTransaction>>,
    num_candidates: nat,
    root: int,
    rs: Seq<int>,
) -> bool {
    zkp::batch_holds(
        pvk.vk,
        ballot_proofs(votes),
        input_rows(votes, root),
        rs,
        4 * num_candidates + 2,
    )
}

/// What the check of proofs says of ballots, weighted with `rs`.
pub open spec fn ballots_verified(
    pvk: PreparedVerifyingKey,
    votes: Seq<Option<VoteTransaction>>,
    num_candidates: nat,
    root: int,
    rs: Seq<int>,
) -> Result<bool, ZkError> {
    if votes.len() == 0 {
        Ok(true)
    } else if 4 * num_candidates + 3 != pvk.vk.gamma_abc_g1@.len() {
        Err(ZkError::MalformedVerifyingKey)
    } else {
        Ok(ballots_hold(pvk, votes, num_candidates, root, rs))
    }
}

/// Proofs with the same elements as those of ballots.
spec fn same_proofs(votes: Seq<Option<VoteTransaction>>, proofs: Seq<Proof>) -> bool {
    &&& proofs.len() == votes.len()
    &&& forall|i: int|
        0 <= i < proofs.len() ==> {
            let p = votes[i]->0.proof;
            &&& (#[trigger] proofs[i]).a.log() == p.a.log()
            &&& proofs[i].b.log() == p.b.log()
            &&& proofs[i].c.log() == p.c.log()
        }
}

/// The batch equation depends on the elements of the proofs alone.
proof fn lemma_same_proofs(
    pvk: PreparedVerifyingKey,
    votes: Seq<Option<VoteTransaction>>,
    proofs: Seq<Proof>,
    xs: Seq<Seq<int>>,
    rs: Seq<int>,
    k: nat,
)
    requires
        same_proofs(votes, proofs),
    ensures
        zkp::batch_holds(pvk.vk, proofs, xs, rs, k) == zkp::batch_holds(
            pvk.vk,
            ballot_proofs(votes),
            xs,
            rs,
            k,
        ),
{
    let f = zkp::weighted_defect(pvk.vk, proofs, xs, rs, k);
    let g = zkp::weighted_defect(pvk.vk, ballot_proofs(votes), xs, rs, k);
    assert forall|i: int| 0 <= i < proofs.len() implies #[trigger] f(i) == g(i) by {
        assert(proofs[i].a.log() == votes[i]->0.proof.a.log());
    }
    modular::lemma_sum_ext(proofs.len(), f, g);
}

/// The proofs of ballots, and their public inputs.
fn ballot_batch(
    votes: &Vec<Option<VoteTransaction>>,
    num_candidates: usize,
    root: FieldElement,
) -> (r: (Vec<Proof>, Vec<Vec<FieldElement>>))
    requires
        forall|i: int|
            0 <= i < votes@.len() ==> ballot_fault(#[trigger] votes@[i], num_candidates as nat) is None,
    ensures
        same_proofs(votes@, r.0@),
        zkp::rows(r.1@) == input_rows(votes@, root@),
        forall|k: int|
            0 <= k < r.1@.len() ==> (#[trigger] r.1@[k])@.len() == 4 * num_candidates + 2,
{
    let mut proofs: Vec<Proof> = Vec::new();
    let mut inputs: Vec<Vec<FieldElement>> = Vec::new();
    let mut i: usize = 0;
    while i < votes.len()
        invariant
            i <= votes@.len(),
            forall|i: int|
                0 <= i < votes@.len() ==> ballot_fault(
                    #[trigger] votes@[i],
                    num_candidates as nat,
                ) is None,
            proofs@.len() == i,
            inputs@.len() == i,
            forall|k: int|
                0 <= k < i ==> {
                    let p = votes@[k]->0.proof;
                    &&& (#[trigger] proofs@[k]).a.log() == p.a.log()
                    &&& proofs@[k].b.log() == p.b.log()
                    &&& proofs@[k].c.log() == p.c.log()
                },
            forall|k: int|
                0 <= k < i ==> (#[trigger] inputs@[k])@.len() == 4 * num_candidates + 2
                    && zkp::elements(inputs@[k]@) == zkp::ballot_inputs(
                    votes@[k]->0.enc_vote_vec@,
                    root@,
                    votes@[k]->0.nullifier@,
                ),
        decreases votes@.len() - i,
    {
        assert(ballot_fault(votes@[i as int], num_candidates as nat) is None);
        if let Some(v) = &votes[i] {
            let row = prepare_public_inputs(v.enc_vote_vec.as_slice(), root, v.nullifier);
            assert(zkp::elements(row@) =~= zkp::ballot_inputs(
                v.enc_vote_vec@,
                root@,
                v.nullifier@,
            ));
            inputs.push(row);
            proofs.push(
                Proof {
                    a: v.proof.a.duplicate(),
                    b: v.proof.b.duplicate(),
                    c: v.proof.c.duplicate(),
                },
            );
        }
        i = i + 1;
    }
    assert(zkp::rows(inputs@) =~= input_rows(votes@, root@));
    (proofs, inputs)
}

/// Verifies the proofs of the ballots of a block together, weighted with the given
/// randomizers.
pub fn verify_ballots_with(
    pvk: &PreparedVerifyingKey,
    votes: &Vec<Option<VoteTransaction>>,
    num_candidates: usize,
    root: FieldElement,
    randomizers: &[FieldElement],
) -> (r: Result<bool, ZkError>)
    requires
        pvk.wf(),
        randomizers@.len() == votes@.len(),
        forall|i: int|
            0 <= i < votes@.len() ==> ballot_fault(#[trigger] votes@[i], num_candidates as nat) is None,
    ensures
        r == ballots_verified(
            *pvk,
            votes@,
            num_candidates as nat,
            root@,
            zkp::elements(randomizers@),
        ),
{
    let (proofs, inputs) = ballot_batch(votes, num_candidates, root);
    proof {
        assert(zkp::rows(inputs@).len() == votes@.len());
        assert(inputs@.len() == votes@.len());
        lemma_same_proofs(
            *pvk,
            votes@,
            proofs@,
            input_rows(votes@, root@),
            zkp::elements(randomizers@),
            (4 * num_candidates + 2) as nat,
        );
    }
    batch_verify_with(pvk, proofs.as_slice(), inputs.as_slice(), randomizers)
}

/// Verifies the proofs of the ballots of a block together, weighted with fresh
/// randomizers.
pub fn verify_ballots(
    pvk: &PreparedVerifyingKey,
    votes: &Vec<Option<VoteTransaction>>,
    num_candidates: usize,
    root: FieldElement,
) -> (r: Result<bool, ZkError>)
    requires
        pvk.wf(),
        forall|i: int|
            0 <= i < votes@.len() ==> ballot_fault(#[trigger] votes@[i], num_candidates as nat) is None,
    ensures
        exists|rs: Seq<int>|
            rs.len() == votes@.len() && r == #[trigger] ballots_verified(
                *pvk,
                votes@,
                num_candidates as nat,
                root@,
                rs,
            ),
{
    let (proofs, inputs) = ballot_batch(votes, num_candidates, root);
    proof {
        assert(zkp::rows(inputs@).len() == votes@.len());
        assert(inputs@.len() == votes@.len());
    }
    let r = batch_verify(pvk, proofs.as_slice(), inputs.as_slice());
    proof {
        let k = (4 * num_candidates + 2) as nat;
        let xs = input_rows(votes@, root@);
        let rs: Seq<int> = if votes@.len() > 0 && k + 1 == pvk.vk.gamma_abc_g1@.len() {
            choose|rs: Seq<int>|
                rs.len() == proofs@.len() && r == Ok::<bool, ZkError>(
                    #[trigger] zkp::batch_holds(pvk.vk, proofs@, zkp::rows(inputs@), rs, k),
                )
        } else {
            Seq::new(votes@.len(), |i: int| 0int)
        };
        if votes@.len() > 0 {
            assert(inputs@[0]@.len() == k);
        }
        lemma_same_proofs(*pvk, votes@, proofs@, xs, rs, k);
        assert(r == ballots_verified(*pvk, votes@, num_candidates as nat, root@, rs));
    }
    r
}

/// What is said of a block whose ballots have no fault, out of the check of their
/// proofs and of the look at their nullifiers, which is `None` where the store
/// failed.
pub fn block_verdict(zk: Result<bool, ZkError>, fresh: Option<bool>) -> (r: Result<
    (),
    BlockRejection,
>)
    ensures
        r == (match zk {
            Err(_) => Err::<(), BlockRejection>(BlockRejection::ZkVerificationError),
            Ok(false) => Err(BlockRejection::ZkInvalidBatchProof),
            Ok(true) => match fresh {
                None => Err(BlockRejection::NullifierDbError),
                Some(false) => Err(BlockRejection::NullifierDuplicate),
                Some(true) => Ok(()),
            },
        }),
{
    match zk {
        Err(_) => Err(BlockRejection::ZkVerificationError),
        Ok(false) => Err(BlockRejection::ZkInvalidBatchProof),
        Ok(true) => match fresh {
            None => Err(BlockRejection::NullifierDbError),
            Some(false) => Err(BlockRejection::NullifierDuplicate),
            Some(true) => Ok(()),
        },
    }
}

/// What is said of the ballots of a block: the first fault among them; else what the
/// check of their proofs and the look at their nullifiers say. A block without
/// ballots is accepted.
pub open spec fn block_checked(
    votes: Seq<Option<VoteTransaction>>,
    num_candidates: nat,
    zk: Result<bool, ZkError>,
    fresh: Option<bool>,
) -> Result<(), BlockRejection> {
    if votes.len() == 0 {
        Ok(())
    } else {
        match first_fault(votes, num_candidates, 0) {
            Some(fault) => Err(fault),
            None => match zk {
                Err(_) => Err(BlockRejection::ZkVerificationError),
                Ok(false) => Err(BlockRejection::ZkInvalidBatchProof),
                Ok(true) => match fresh {
                    None => Err(BlockRejection::NullifierDbError),
                    Some(false) => Err(BlockRejection::NullifierDuplicate),
                    Some(true) => Ok(()),
                },
            },
        }
    }
}

/// Checks the ballots of a block, their proofs weighted with the given randomizers.
/// `fresh` tells whether none of their nullifiers is spent; it is `None` where the
/// store failed.
pub fn verify_block_batch_with(
    pvk: &PreparedVerifyingKey,
    votes: &Vec<Option<VoteTransaction>>,
    num_candidates: usize,
    root: FieldElement,
    randomizers: &[FieldElement],
    fresh: Option<bool>,
) -> (r: Result<(), BlockRejection>)
    requires
        pvk.wf(),
        randomizers@.len() == votes@.len(),
    ensures
        r == block_checked(
            votes@,
            num_candidates as nat,
            ballots_verified(
                *pvk,
                votes@,
                num_candidates as nat,
                root@,
                zkp::elements(randomizers@),
            ),
            fresh,
        ),
{
    if votes.len() == 0 {
        return Ok(());
    }
    match ballots_fault(votes, num_candidates) {
        Some(fault) => Err(fault),
        None => block_verdict(
            verify_ballots_with(pvk, votes, num_candidates, root, randomizers),
            fresh,
        ),
    }
}

/// Checks the ballots of a block, their proofs weighted with fresh randomizers.
/// `fresh` tells whether none of their nullifiers is spent; it is `None` where the
/// store failed.
pub fn verify_block_batch(
    pvk: &PreparedVerifyingKey,
    votes: &Vec<Option<VoteTransaction>>,
    num_candidates: usize,
    root: FieldElement,
    fresh: Option<bool>,
) -> (r: Result<(), BlockRejection>)
    requires
        pvk.wf(),
    ensures
        exists|rs: Seq<int>|
            rs.len() == votes@.len() && r == block_checked(
                votes@,
                num_candidates as nat,
                #[trigger] ballots_verified(*pvk, votes@, num_candidates as nat, root@, rs),
                fresh,
            ),
{
    let ghost rs0: Seq<int> = Seq::new(votes@.len(), |i: int| 0int);
    let ghost zk0 = ballots_verified(*pvk, votes@, num_candidates as nat, root@, rs0);
    if votes.len() == 0 {
        assert(block_checked(votes@, num_candidates as nat, zk0, fresh) is Ok);
        return Ok(());
    }
    match ballots_fault(votes, num_candidates) {
        Some(fault) => {
            assert(block_checked(votes@, num_candidates as nat, zk0, fresh) == Err::<
                (),
                BlockRejection,
            >(fault));
            Err(fault)
        },
        None => {
            let zk = verify_ballots(pvk, votes, num_candidates, root);
            block_verdict(zk, fresh)
        },
    }
}

/// A block whose ballots are all in order, each with a proof that holds and none of
/// them spent, is accepted, whatever the randomizers.
pub proof fn law_a_correct_block_is_accepted(
    pvk: PreparedVerifyingKey,
    votes: Seq<Option<VoteTransaction>>,
    num_candidates: nat,
    root: int,
    rs: Seq<int>,
)
    requires
        4 * num_candidates + 3 == pvk.vk.gamma_abc_g1@.len(),
        first_fault(votes, num_candidates, 0) is None,
        forall|i: int|
            0 <= i < votes.len() ==> zkp::proof_holds(
                pvk.vk,
                #[trigger] ballot_proofs(votes)[i],
                input_rows(votes, root)[i],
                4 * num_candidates + 2,
            ),
    ensures
        block_checked(
            votes,
            num_candidates,
            ballots_verified(pvk, votes, num_candidates, root, rs),
            Some(true),
        ) == Ok::<(), BlockRejection>(()),
{
    zkp::law_valid_batch_is_accepted(
        pvk.vk,
        ballot_proofs(votes),
        input_rows(votes, root),
        rs,
        4 * num_candidates + 2,
    );
}

/// The fault of a block is that of its first faulty ballot: one that cannot be read, or
/// one with another number of ciphertexts than there are candidates.
pub proof fn law_first_fault_is_told(
    votes: Seq<Option<VoteTransaction>>,
    num_candidates: nat,
    i: int,
)
    requires
        0 <= i < votes.len(),
        forall|k: int|
            0 <= k < i ==> (#[trigger] votes[k]) is Some && votes[k]->0.enc_vote_vec@.len()
                == num_candidates,
    ensures
        votes[i] is None ==> first_fault(votes, num_candidates, 0) == Some(
            BlockRejection::Deserialize,
        ),
        votes[i] is Some && votes[i]->0.enc_vote_vec@.len() != num_candidates ==> first_fault(
            votes,
            num_candidates,
            0,
        ) == Some(BlockRejection::ZkCandidates),
{
    lemma_first_fault(votes, num_candidates, 0, i);
}

proof fn lemma_first_fault(
    votes: Seq<Option<VoteTransaction>>,
    num_candidates: nat,
    from: int,
    i: int,
)
    requires
        0 <= from <= i <= votes.len(),
        forall|k: int|
            0 <= k < i ==> (#[trigger] votes[k]) is Some && votes[k]->0.enc_vote_vec@.len()
                == num_candidates,
    ensures
        first_fault(votes, num_candidates, from) == first_fault(votes, num_candidates, i),
    decreases i - from,
{
    if from < i {
        let _ = votes[from];
        lemma_first_fault(votes, num_candidates, from + 1, i);
    }
}

/// A block with ballots is accepted exactly where each ballot can be read and has a
/// ciphertext for each candidate, the proofs hold, and no nullifier is spent. Where the
/// ballots are in order, the outcome of the proofs comes before that of the nullifiers.
pub proof fn law_block_is_accepted_where_all_is_well(
    votes: Seq<Option<VoteTransaction>>,
    num_candidates: nat,
    zk: Result<bool, ZkError>,
    fresh: Option<bool>,
)
    ensures
        votes.len() == 0 ==> block_checked(votes, num_candidates, zk, fresh) is Ok,
        votes.len() > 0 ==> (block_checked(votes, num_candidates, zk, fresh) is Ok <==> {
            &&& forall|i: int|
                0 <= i < votes.len() ==> (#[trigger] votes[i]) is Some
                    && votes[i]->0.enc_vote_vec@.len() == num_candidates
            &&& zk == Ok::<bool, ZkError>(true)
            &&& fresh == Some(true)
        }),
        votes.len() > 0 && (forall|i: int|
            0 <= i < votes.len() ==> (#[trigger] votes[i]) is Some && votes[i]->0.enc_vote_vec@.len()
                == num_candidates) ==> {
            let r = block_checked(votes, num_candidates, zk, fresh);
            &&& zk is Err ==> r == Err::<(), BlockRejection>(BlockRejection::ZkVerificationError)
            &&& zk == Ok::<bool, ZkError>(false) ==> r == Err::<(), BlockRejection>(
                BlockRejection::ZkInvalidBatchProof,
            )
            &&& zk == Ok::<bool, ZkError>(true) && fresh is None ==> r == Err::<(), BlockRejection>(
                BlockRejection::NullifierDbError,
            )
            &&& zk == Ok::<bool, ZkError>(true) && fresh == Some(false) ==> r == Err::<
                (),
                BlockRejection,
            >(BlockRejection::NullifierDuplicate)
        },
{
    let n = votes.len() as int;
    if forall|i: int|
        0 <= i < votes.len() ==> (#[trigger] votes[i]) is Some && votes[i]->0.enc_vote_vec@.len()
            == num_candidates {
        lemma_first_fault(votes, num_candidates, 0, n);
    } else if first_fault(votes, num_candidates, 0) is None {
        lemma_no_fault(votes, num_candidates, 0);
    }
}

proof fn lemma_no_fault(votes: Seq<Option<VoteTransaction>>, num_candidates: nat, from: int)
    requires
        0 <= from <= votes.len(),
        first_fault(votes, num_candidates, from) is None,
    ensures
        forall|i: int|
            from <= i < votes.len() ==> (#[trigger] votes[i]) is Some
                && votes[i]->0.enc_vote_vec@.len() == num_candidates,
    decreases votes.len() - from,
{
    if from < votes.len() {
        lemma_no_fault(votes, num_candidates, from + 1);
    }
}

/// The proof of a ballot is checked against its own ciphertexts and its own nullifier, and
/// against the root of the voters' tree.
pub proof fn law_each_ballot_is_checked_for_itself(
    votes: Seq<Option<VoteTransaction>>,
    root: int,
    i: int,
    j: int,
)
    requires
        0 <= i < votes.len(),
        0 <= j < votes[i]->0.enc_vote_vec@.len(),
    ensures
        ({
            let v = votes[i]->0;
            let row = input_rows(votes, root)[i];
            &&& ballot_proofs(votes).len() == votes.len()
            &&& input_rows(votes, root).len() == votes.len()
            &&& ballot_proofs(votes)[i] == v.proof
            &&& row.len() == 4 * v.enc_vote_vec@.len() + 2
            &&& (row[4 * j], row[4 * j + 1]) == v.enc_vote_vec@[j].c1.coords()
            &&& (row[4 * j + 2], row[4 * j + 3]) == v.enc_vote_vec@[j].c2.coords()
            &&& row[row.len() - 2] == root
            &&& row[row.len() - 1] == v.nullifier@
        }),
{
    let v = votes[i]->0;
    zkp::law_public_inputs(v.enc_vote_vec@, root, v.nullifier@, j);
}

/// A ballot whose proof does not hold is found out: where it is the only one, and its
/// weight is one, the check fails.
pub proof fn law_a_false_ballot_is_refused(
    pvk: PreparedVerifyingKey,
    vote: VoteTransaction,
    root: int,
)
    requires
        4 * vote.enc_vote_vec@.len() + 3 == pvk.vk.gamma_abc_g1@.len(),
        !zkp::proof_holds(
            pvk.vk,
            vote.proof,
            zkp::ballot_inputs(vote.enc_vote_vec@, root, vote.nullifier@),
            (4 * vote.enc_vote_vec@.len() + 2) as nat,
        ),
    ensures
        ballots_verified(pvk, seq![Some(vote)], vote.enc_vote_vec@.len(), root, seq![1int]) == Ok::<
            bool,
            ZkError,
        >(false),
{
    let votes = seq![Some(vote)];
    let k = (4 * vote.enc_vote_vec@.len() + 2) as nat;
    let f = zkp::weighted_defect(
        pvk.vk,
        ballot_proofs(votes),
        input_rows(votes, root),
        seq![1int],
        k,
    );
    assert(modular::sum(0, f) == 0);
    assert(modular::sum(1, f) == modular::sum(0, f) + f(0));
    assert(votes[0] == Some(vote));
    assert(f(0) == 1 * zkp::defect(
        pvk.vk,
        vote.proof,
        zkp::ballot_inputs(vote.enc_vote_vec@, root, vote.nullifier@),
        k,
    ));
}

/// The connection to a peer is closed exactly where its block is incorrect, or its ballots
/// failed their check and blocks are voted on whole. A block that is taken in is taken in
/// whole at last, and checked one by one before exactly where its ballots failed.
pub proof fn law_blocks_of_peers_are_taken_in(
    valid: bool,
    batch_valid: bool,
    block_level_fpc: bool,
)
    ensures
        taken_in(valid, batch_valid, block_level_fpc) is Some <==> valid && (batch_valid
            || !block_level_fpc),
        taken_in(valid, batch_valid, block_level_fpc) matches Some(v) ==> {
            &&& v.len() > 0
            &&& v.last() == false
            &&& v.contains(true) <==> !batch_valid
            &&& v.len() <= 2
            &&& v[0] == !batch_valid
        },
{
    if let Some(v) = taken_in(valid, batch_valid, block_level_fpc) {
        if !batch_valid {
            assert(v[0] == true);
        }
    }
}

/// The tally begins once: at the first event that ends the epoch, and at no other.
pub proof fn law_tally_begins_once(events: Seq<TimeEvent>, i: int)
    requires
        0 <= i < events.len(),
    ensures
        time_step(tallying_after(events, i), events[i]).1 is StartTally <==> events[i]
            == TimeEvent::EpochOver && forall|k: int|
            0 <= k < i ==> #[trigger] events[k] != TimeEvent::EpochOver,
        time_step(tallying_after(events, i), events[i]).1 is ForceBlock <==> events[i]
            == TimeEvent::LeaderTimeout,
        time_step(tallying_after(events, i), events[i]).1 is Stop <==> events[i]
            == TimeEvent::TallyDone || events[i] == TimeEvent::Stopped,
{
    lemma_tallying_after(events, i);
}

proof fn lemma_tallying_after(events: Seq<TimeEvent>, k: int)
    requires
        0 <= k <= events.len(),
    ensures
        tallying_after(events, k) <==> exists|i: int|
            0 <= i < k && #[trigger] events[i] == TimeEvent::EpochOver,
    decreases k,
{
    if k > 0 {
        lemma_tallying_after(events, k - 1);
        if exists|i: int| 0 <= i < k && #[trigger] events[i] == TimeEvent::EpochOver {
            let i = choose|i: int| 0 <= i < k && #[trigger] events[i] == TimeEvent::EpochOver;
            assert(i < k - 1 || i == k - 1);
        }
    }
}

/// The epoch ends a grace period after it became safe to close: before that the time that
/// is left and the time that has passed make up the grace period, and later none is left.
pub proof fn law_epoch_ends_after_the_grace_period(closing_time: u64, now: u64, grace_period: u64)
    ensures
        time_left(closing_time, now, grace_period) is None <==> closing_time == 0,
        closing_time != 0 && closing_time <= now <= closing_time + grace_period ==> time_left(
            closing_time,
            now,
            grace_period,
        )->0 + (now - closing_time) == grace_period,
        closing_time != 0 && now >= closing_time + grace_period ==> time_left(
            closing_time,
            now,
            grace_period,
        ) == Some(0int),
        closing_time != 0 && now < closing_time ==> time_left(closing_time, now, grace_period)
            == Some(grace_period as int),
{
}

} // verus!
