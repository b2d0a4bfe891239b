//! The commands that a node's core is given, one after another.
use crate::commit_handler::CommitHandler;
use crate::committee::{AuthorityIndex, Committee};
use crate::field::Scalar;
use crate::node_core;
use crate::node_core::PositionedBlock;
use crate::syncer::{Syncer, SyncerSignals};
use crate::types::{RoundNumber, Transaction, TransactionLocator};
use vstd::prelude::*;

verus! {

/// A command to the core of a node.
#[derive(Debug)]
pub enum CoreThreadCommand {
    AddBlocks(Vec<PositionedBlock>),
    ForceNewBlock(RoundNumber),
    Cleanup,
    ConnectionEstablished(AuthorityIndex),
    ConnectionDropped(AuthorityIndex),
    TriggerEpochChangeBegun,
    GetAllCommittedTxLocators,
    GetTransactions(Vec<TransactionLocator>),
    GetMySecretShare,
}

/// The answer to a command.
#[derive(Debug)]
pub enum CoreThreadReply {
    /// There is nothing to say.
    Done,
    /// Blocks below this round need not be kept at hand.
    Keep(RoundNumber),
    Locators(Vec<TransactionLocator>),
    Transactions(Vec<Transaction>),
    SecretShare(Option<Scalar>),
}

/// What carries out the commands.
pub struct CoreThread<S: SyncerSignals> {
    pub syncer: Syncer<S>,
    pub commit_handler: CommitHandler,
    pub secret_share: Option<Scalar>,
}

/// The command that tells of a connection to a member, or of its end.
pub fn authority_connection(authority: AuthorityIndex, connected: bool) -> (r: CoreThreadCommand)
    ensures
        r == (if connected {
            CoreThreadCommand::ConnectionEstablished(authority)
        } else {
            CoreThreadCommand::ConnectionDropped(authority)
        }),
{
    if connected {
        CoreThreadCommand::ConnectionEstablished(authority)
    } else {
        CoreThreadCommand::ConnectionDropped(authority)
    }
}

impl<S: SyncerSignals> CoreThread<S> {
    /// The blocks of a command are acceptable.
    pub open spec fn accepts(&self, command: CoreThreadCommand, stakes: Seq<u64>) -> bool {
        &&& self.syncer.wf(stakes)
        &&& command matches CoreThreadCommand::AddBlocks(blocks)
            ==> node_core::blocks_acceptable(blocks@, stakes)
    }

    /// What the command does to what drives the core.
    pub open spec fn changed(
        before: Syncer<S>,
        command: CoreThreadCommand,
        after: Syncer<S>,
        stakes: Seq<u64>,
    ) -> bool {
        match command {
            CoreThreadCommand::AddBlocks(blocks) => {
                &&& after.same_connections(&before)
                &&& after.force_new_block == before.force_new_block
                &&& after.signals == before.signals
                &&& after.core.same_history(&before.core)
                &&& after.core.last_own == before.core.last_own
                &&& after.core.pending@ == before.core.pending@ + node_core::entries_for(blocks@)
                &&& after.core.block_store@ == node_core::stored(
                    before.core.block_store@,
                    blocks@,
                    blocks@.len() as int,
                )
                &&& after.core.threshold_clock.state() == node_core::ticked_by_blocks(
                    before.core.threshold_clock.state(),
                    blocks@,
                    stakes,
                    blocks@.len() as int,
                )
            },
            CoreThreadCommand::ForceNewBlock(round) => {
                &&& after.same_connections(&before)
                &&& after.core == before.core
                &&& after.signals == before.signals
                &&& after.force_new_block == (before.force_new_block
                    || before.core.last_own.reference.round == round)
            },
            CoreThreadCommand::ConnectionEstablished(authority) => {
                &&& after.same_but_connections(&before)
                &&& after.connected() == before.connected().insert(authority)
            },
            CoreThreadCommand::ConnectionDropped(authority) => {
                &&& after.same_but_connections(&before)
                &&& after.connected() == before.connected().remove(authority)
            },
            CoreThreadCommand::TriggerEpochChangeBegun => {
                &&& after == (Syncer {
                    core: node_core::Core {
                        epoch_manager: after.core.epoch_manager,
                        ..before.core
                    },
                    ..before
                })
                &&& after.core.epoch_manager.seen() == node_core::begun(
                    before.core.epoch_manager.seen(),
                    true,
                )
            },
            _ => after == before,
        }
    }

    /// The reply to a command is right.
    pub open spec fn replies(&self, command: CoreThreadCommand, reply: CoreThreadReply) -> bool {
        match command {
            CoreThreadCommand::Cleanup => reply matches CoreThreadReply::Keep(round) && round
                == node_core::kept_from(self.syncer.core.last_commit_leader.round),
            CoreThreadCommand::GetAllCommittedTxLocators => reply matches CoreThreadReply::Locators(
                l,
            ) && l@ == self.commit_handler.state().done,
            CoreThreadCommand::GetTransactions(locators) => reply matches CoreThreadReply::Transactions(
                t,
            ) && node_core::contents_of(t@) == node_core::known_contents(
                self.syncer.core.block_store,
                locators@,
                locators@.len() as int,
            ),
            CoreThreadCommand::GetMySecretShare => reply == CoreThreadReply::SecretShare(
                self.secret_share,
            ),
            _ => reply is Done,
        }
    }

    /// Carries out a command. Where blocks were added or a block is asked for, the
    /// syncer is to try for a new block next.
    pub fn handle(&mut self, command: CoreThreadCommand, committee: &Committee) -> (reply:
        CoreThreadReply)
        requires
            old(self).accepts(command, committee.stakes()),
        ensures
            final(self).syncer.wf(committee.stakes()),
            final(self).commit_handler == old(self).commit_handler,
            final(self).secret_share == old(self).secret_share,
            Self::changed(old(self).syncer, command, final(self).syncer, committee.stakes()),
            old(self).replies(command, reply),
    {
        match command {
            CoreThreadCommand::AddBlocks(blocks) => {
                self.syncer.add_blocks(blocks, committee);
                CoreThreadReply::Done
            },
            CoreThreadCommand::ForceNewBlock(round) => {
                let forced = self.syncer.force_new_block(round);
                CoreThreadReply::Done
            },
            CoreThreadCommand::Cleanup => {
                CoreThreadReply::Keep(self.syncer.core.cleanup_threshold())
            },
            CoreThreadCommand::ConnectionEstablished(authority) => {
                self.syncer.connection_established(authority);
                CoreThreadReply::Done
            },
            CoreThreadCommand::ConnectionDropped(authority) => {
                self.syncer.connection_dropped(authority);
                CoreThreadReply::Done
            },
            CoreThreadCommand::TriggerEpochChangeBegun => {
                let ghost before = self.syncer.core.epoch_manager.seen();
                self.syncer.core.epoch_manager.epoch_change_begun();
                assert(self.syncer.core.epoch_manager.seen() =~= node_core::begun(before, true));
                CoreThreadReply::Done
            },
            CoreThreadCommand::GetAllCommittedTxLocators => {
                CoreThreadReply::Locators(self.commit_handler.get_all_finalized_locators())
            },
            CoreThreadCommand::GetTransactions(locators) => {
                CoreThreadReply::Transactions(self.syncer.core.get_transactions(&locators))
            },
            CoreThreadCommand::GetMySecretShare => {
                CoreThreadReply::SecretShare(self.secret_share)
            },
        }
    }
}

/// What the commands do. Those of connections change who is connected, by the one member,
/// and nothing else; the end of a connection takes its beginning back. A timeout makes
/// the core ask for a block only where its last one is of that round. Questions change
/// nothing.
pub proof fn law_commands_change_their_part<S: SyncerSignals>(
    before: Syncer<S>,
    after: Syncer<S>,
    command: CoreThreadCommand,
    stakes: Seq<u64>,
    a: AuthorityIndex,
)
    requires
        CoreThread::<S>::changed(before, command, after, stakes),
    ensures
        command matches CoreThreadCommand::ConnectionEstablished(m) ==> (
        after.connected().contains(a) <==> before.connected().contains(a) || a == m)
            && after.same_but_connections(&before),
        command matches CoreThreadCommand::ConnectionDropped(m) ==> (after.connected().contains(a)
            <==> before.connected().contains(a) && a != m) && after.same_but_connections(&before),
        command matches CoreThreadCommand::ForceNewBlock(round) ==> {
            &&& after.core == before.core
            &&& before.core.last_own.reference.round == round ==> after.force_new_block
            &&& before.core.last_own.reference.round != round ==> after.force_new_block
                == before.force_new_block
        },
        command is TriggerEpochChangeBegun ==> {
            &&& !(after.core.epoch_manager.status() is Open)
            &&& !(before.core.epoch_manager.status() is Open)
                ==> after.core.epoch_manager.status() == before.core.epoch_manager.status()
            &&& after.core.pending == before.core.pending
            &&& after.core.block_store == before.core.block_store
        },
        command matches CoreThreadCommand::AddBlocks(blocks) ==> {
            &&& after.core.pending@.len() == before.core.pending@.len() + blocks@.len()
            &&& after.core.last_own == before.core.last_own
            &&& forall|i: int|
                0 <= i < blocks@.len() ==> after.core.block_store@.dom().contains(
                    (#[trigger] blocks@[i]).block.reference,
                )
        },
        command is Cleanup || command is GetAllCommittedTxLocators || command is GetTransactions
            || command is GetMySecretShare ==> after == before,
{
    if let CoreThreadCommand::AddBlocks(blocks) = command {
        assert forall|i: int| 0 <= i < blocks@.len() implies after.core.block_store@.dom().contains(
            (#[trigger] blocks@[i]).block.reference,
        ) by {
            let r = blocks@[i].block.reference;
            node_core::law_stored_blocks_stay(
                before.core.block_store@,
                blocks@,
                blocks@.len() as int,
                r,
            );
            assert(node_core::is_among(blocks@, blocks@.len() as int, r));
        }
    }
}

/// The replies to questions: the round that is a hundred before the last commit, or zero;
/// all that is final, in its order; and the share that was set.
pub proof fn law_questions_are_answered<S: SyncerSignals>(
    thread: CoreThread<S>,
    command: CoreThreadCommand,
    reply: CoreThreadReply,
)
    requires
        thread.replies(command, reply),
    ensures
        command is Cleanup ==> {
            let committed = thread.syncer.core.last_commit_leader.round;
            &&& reply is Keep
            &&& committed >= 100 ==> reply->Keep_0 + 100 == committed
            &&& committed < 100 ==> reply->Keep_0 == 0
        },
        command is GetAllCommittedTxLocators ==> reply is Locators && reply->Locators_0@
            == thread.commit_handler.finalized.finalized@,
        command is GetMySecretShare ==> reply is SecretShare && reply->SecretShare_0
            == thread.secret_share,
        command matches CoreThreadCommand::GetTransactions(ls) ==> reply is Transactions
            && reply->Transactions_0@.len() <= ls@.len(),
{
    if let CoreThreadCommand::GetTransactions(ls) = command {
        lemma_known_is_shorter(thread.syncer.core.block_store, ls@, ls@.len() as int);
        assert(node_core::contents_of(reply->Transactions_0@).len()
            == reply->Transactions_0@.len());
    }
}

proof fn lemma_known_is_shorter(
    store: crate::types::BlockStore,
    ls: Seq<TransactionLocator>,
    k: int,
)
    requires
        0 <= k,
    ensures
        node_core::known_contents(store, ls, k).len() <= k,
    decreases k,
{
    if k > 0 {
        lemma_known_is_shorter(store, ls, k - 1);
    }
}

} // verus!
