//! The submission of prepared transactions at a steady rate.
use crate::clock;
use crate::types::Transaction;
use std::collections::VecDeque;
use vstd::prelude::*;

verus! {

/// The time between two submissions, in milliseconds.
pub const TARGET_BLOCK_INTERVAL: u64 = 100;

/// How many transactions are submitted at once, for a load in transactions per
/// second: a tenth of it, rounded up.
pub fn transactions_per_block_interval(load: usize) -> (r: usize)
    requires
        load + 9 <= usize::MAX,
    ensures
        r == (load + 9) / 10,
        10 * (r - 1) < load <= 10 * r || load == 0 && r == 0,
{
    (load + 9) / 10
}

/// What a generator does next.
#[derive(Debug)]
pub enum GeneratorStep {
    /// Everything has been submitted.
    Finished,
    /// Submits these transactions.
    Submit(Vec<Transaction>),
}

/// Submits transactions in the order in which they were prepared.
pub struct TransactionGenerator {
    pub transactions: VecDeque<Transaction>,
    pub per_interval: usize,
}

/// How many of `len` transactions are submitted at once.
pub open spec fn submitted(per_interval: nat, len: nat) -> nat {
    if per_interval < len {
        per_interval
    } else {
        len
    }
}

impl TransactionGenerator {
    /// The next step: as many transactions as go into an interval, each with the
    /// time at which it is submitted.
    pub fn next_step(&mut self) -> (r: GeneratorStep)
        ensures
            final(self).per_interval == old(self).per_interval,
            ({
                let all = old(self).transactions@;
                let n = submitted(old(self).per_interval as nat, all.len()) as int;
                &&& final(self).transactions@ == all.skip(n)
                &&& all.len() == 0 ==> r is Finished
                &&& all.len() > 0 ==> {
                    &&& r is Submit
                    &&& r->Submit_0@.len() == n
                    &&& forall|i: int|
                        0 <= i < n ==> (#[trigger] r->Submit_0@[i]).data == all[i].data
                }
            }),
    {
        let ghost all = self.transactions@;
        if self.transactions.len() == 0 {
            assert(all.skip(0) =~= all);
            return GeneratorStep::Finished;
        }
        let count: usize = if self.per_interval < self.transactions.len() {
            self.per_interval
        } else {
            self.transactions.len()
        };
        let mut batch: Vec<Transaction> = Vec::new();
        while batch.len() < count
            invariant
                batch@.len() <= count <= all.len(),
                self.per_interval == old(self).per_interval,
                self.transactions@ == all.skip(batch@.len() as int),
                forall|i: int| 0 <= i < batch@.len() ==> (#[trigger] batch@[i]).data == all[i].data,
            decreases count - batch@.len(),
        {
            let ghost k = batch@.len() as int;
            match self.transactions.pop_front() {
                Some(tx) => {
                    let mut tx = tx;
                    tx.timestamp = clock::timestamp_utc_millis();
                    batch.push(tx);
                    assert(self.transactions@ =~= all.skip(k + 1));
                },
                None => {
                    assert(all.skip(k).len() > 0);
                },
            }
        }
        GeneratorStep::Submit(batch)
    }
}

/// Whether a batch is large enough to be reported.
pub fn is_reported(sent: u64) -> (b: bool)
    ensures
        b == (sent >= 10_000),
{
    sent >= 10_000
}

/// As many transactions go into an interval as are left, up to the most that go into one.
pub proof fn law_interval_takes_what_is_left(per_interval: nat, len: nat)
    ensures
        submitted(per_interval, len) <= per_interval,
        submitted(per_interval, len) <= len,
        submitted(per_interval, len) == per_interval || submitted(per_interval, len) == len,
{
}

} // verus!
