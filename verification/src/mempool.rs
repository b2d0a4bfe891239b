//! The pool of transactions that have been checked and wait for a block.
use crate::decimal;
use crate::field;
use crate::field::FieldElement;
use crate::nullifier;
use crate::nullifier::NullifierDB;
use crate::types::Transaction;
use crate::zkp;
use crate::zkp::{VerifyingKey, VoteTransaction};
use std::collections::VecDeque;
use vstd::prelude::*;

verus! {

/// Why a transaction is refused.
#[derive(Clone, Copy, Debug, PartialEq, Eq, Structural)]
pub enum Rejection {
    Deserialize,
    ZkCandidates,
    ZkInvalidProof,
    ZkVerificationError,
    NullifierDuplicate,
    DbError,
    Panic,
}

impl Rejection {
    /// The name under which refusals are counted.
    pub open spec fn label_spec(self) -> Seq<char> {
        match self {
            Rejection::Deserialize => "rejected_deserialize"@,
            Rejection::ZkCandidates => "rejected_zk_candidates"@,
            Rejection::ZkInvalidProof => "rejected_zk_invalid_proof"@,
            Rejection::ZkVerificationError => "rejected_zk_verification_error"@,
            Rejection::NullifierDuplicate => "rejected_nullifier_duplicate"@,
            Rejection::DbError => "rejected_db_error"@,
            Rejection::Panic => "rejected_panic"@,
        }
    }

    /// The name under which refusals are counted.
    pub fn label(&self) -> (r: &'static str)
        ensures
            r@ == self.label_spec(),
    {
        match self {
            Rejection::Deserialize => "rejected_deserialize",
            Rejection::ZkCandidates => "rejected_zk_candidates",
            Rejection::ZkInvalidProof => "rejected_zk_invalid_proof",
            Rejection::ZkVerificationError => "rejected_zk_verification_error",
            Rejection::NullifierDuplicate => "rejected_nullifier_duplicate",
            Rejection::DbError => "rejected_db_error",
            Rejection::Panic => "rejected_panic",
        }
    }
}

/// What ballots are checked against.
#[derive(Debug)]
pub struct BallotRules {
    pub verifying_key: VerifyingKey,
    pub merkle_root: FieldElement,
    pub num_candidates: usize,
}

impl BallotRules {
    /// The rules with the root of the voters' tree as text, where it stands for
    /// a field element.
    pub fn new(verifying_key: VerifyingKey, merkle_root: &str, num_candidates: usize) -> (r: Option<
        Self,
    >)
        ensures
            r is Some == field::field_text(merkle_root@) is Some,
            r matches Some(x) ==> x.verifying_key == verifying_key && x.num_candidates
                == num_candidates && Some(x.merkle_root@) == field::field_text(merkle_root@),
            decimal::is_decimal(merkle_root@) ==> r is Some && r->0.merkle_root@
                == decimal::decimal_value(merkle_root@) as int % field::field_order(),
    {
        match FieldElement::parse(merkle_root) {
            Some(root) => Some(BallotRules { verifying_key, merkle_root: root, num_candidates }),
            None => None,
        }
    }

    /// What is said of a ballot before its nullifier is looked up: its
    /// nullifier, or why it is refused.
    pub open spec fn judged(&self, vote: Option<VoteTransaction>) -> Result<int, Rejection> {
        match vote {
            None => Err(Rejection::Deserialize),
            Some(v) => if v.enc_vote_vec@.len() != self.num_candidates {
                Err(Rejection::ZkCandidates)
            } else if 4 * v.enc_vote_vec@.len() + 3 != self.verifying_key.gamma_abc_g1@.len() {
                Err(Rejection::ZkVerificationError)
            } else if !zkp::proof_holds(
                self.verifying_key,
                v.proof,
                zkp::ballot_inputs(v.enc_vote_vec@, self.merkle_root@, v.nullifier@),
                (4 * v.enc_vote_vec@.len() + 2) as nat,
            ) {
                Err(Rejection::ZkInvalidProof)
            } else {
                Ok(v.nullifier@)
            },
        }
    }

    /// Checks a ballot, `None` where the transaction holds none, up to its
    /// nullifier, which is given back.
    pub fn judge(&self, vote: &Option<VoteTransaction>) -> (r: Result<FieldElement, Rejection>)
        ensures
            match self.judged(*vote) {
                Ok(n) => r is Ok && r->Ok_0@ == n,
                Err(e) => r == Err::<FieldElement, Rejection>(e),
            },
    {
        match vote {
            None => Err(Rejection::Deserialize),
            Some(v) => {
                if v.enc_vote_vec.len() != self.num_candidates {
                    return Err(Rejection::ZkCandidates);
                }
                match zkp::verify(
                    &self.verifying_key,
                    &v.proof,
                    v.enc_vote_vec.as_slice(),
                    self.merkle_root,
                    v.nullifier,
                ) {
                    Ok(true) => Ok(v.nullifier),
                    Ok(false) => Err(Rejection::ZkInvalidProof),
                    Err(_) => Err(Rejection::ZkVerificationError),
                }
            },
        }
    }

    /// A ballot is taken, given the nullifiers that are known.
    pub open spec fn takes(
        &self,
        vote: Option<VoteTransaction>,
        m: nullifier::NullifierMap,
    ) -> bool {
        self.judged(vote) is Ok && !m.dom().contains(nullifier::key_for(self.judged(vote)->Ok_0))
    }

    /// The known nullifiers after the first `k` ballots.
    pub open spec fn known_after(
        &self,
        votes: Seq<Option<VoteTransaction>>,
        m: nullifier::NullifierMap,
        k: int,
    ) -> nullifier::NullifierMap
        decreases k,
    {
        if k <= 0 {
            m
        } else {
            let before = self.known_after(votes, m, k - 1);
            match self.judged(votes[k - 1]) {
                Ok(n) => nullifier::locked(before, nullifier::key_for(n)),
                Err(_) => before,
            }
        }
    }
}

/// What a look at the nullifiers says of a ballot: `Some` with whether its
/// nullifier was free, or `None` where the store failed.
pub fn settle(reply: Option<bool>) -> (r: Result<(), Rejection>)
    ensures
        r == (match reply {
            Some(true) => Ok::<(), Rejection>(()),
            Some(false) => Err(Rejection::NullifierDuplicate),
            None => Err(Rejection::DbError),
        }),
{
    match reply {
        Some(true) => Ok(()),
        Some(false) => Err(Rejection::NullifierDuplicate),
        None => Err(Rejection::DbError),
    }
}

/// Checks a ballot and takes its nullifier.
pub fn verify(rules: &BallotRules, vote: &Option<VoteTransaction>, db: &mut NullifierDB) -> (r: Result<
    (),
    Rejection,
>)
    requires
        old(db).wf(),
    ensures
        final(db).wf(),
        final(db)@ == (match rules.judged(*vote) {
            Ok(n) => nullifier::locked(old(db)@, nullifier::key_for(n)),
            Err(_) => old(db)@,
        }),
        r == (match rules.judged(*vote) {
            Ok(n) => if old(db)@.dom().contains(nullifier::key_for(n)) {
                Err::<(), Rejection>(Rejection::NullifierDuplicate)
            } else {
                Ok(())
            },
            Err(e) => Err(e),
        }),
        r is Ok == rules.takes(*vote, old(db)@),
{
    match rules.judge(vote) {
        Ok(n) => settle(Some(db.verify(&n))),
        Err(e) => Err(e),
    }
}

/// Checks ballots in turn, and tells which ones are taken.
pub fn verify_transactions(
    rules: &BallotRules,
    votes: &Vec<Option<VoteTransaction>>,
    db: &mut NullifierDB,
) -> (r: Vec<bool>)
    requires
        old(db).wf(),
    ensures
        final(db).wf(),
        final(db)@ == rules.known_after(votes@, old(db)@, votes@.len() as int),
        r@.len() == votes@.len(),
        forall|i: int|
            0 <= i < r@.len() ==> #[trigger] r@[i] == rules.takes(
                votes@[i],
                rules.known_after(votes@, old(db)@, i),
            ),
{
    let ghost m = db@;
    let mut out: Vec<bool> = Vec::new();
    let mut i: usize = 0;
    while i < votes.len()
        invariant
            i <= votes@.len(),
            out@.len() == i,
            db.wf(),
            db@ == rules.known_after(votes@, m, i as int),
            forall|k: int|
                0 <= k < i ==> #[trigger] out@[k] == rules.takes(
                    votes@[k],
                    rules.known_after(votes@, m, k),
                ),
        decreases votes@.len() - i,
    {
        out.push(verify(rules, &votes[i], db).is_ok());
        i = i + 1;
    }
    out
}

proof fn lemma_known_grows(
    rules: BallotRules,
    votes: Seq<Option<VoteTransaction>>,
    m: nullifier::NullifierMap,
    i: int,
    j: int,
    k: nullifier::NullifierKey,
)
    requires
        i <= j,
        rules.known_after(votes, m, i).dom().contains(k),
    ensures
        rules.known_after(votes, m, j).dom().contains(k),
    decreases j - i,
{
    if i < j && 0 < j {
        lemma_known_grows(rules, votes, m, i, j - 1, k);
    }
}

/// Of the ballots with one nullifier, at most one is taken.
pub proof fn law_one_ballot_per_nullifier(
    rules: BallotRules,
    votes: Seq<Option<VoteTransaction>>,
    m: nullifier::NullifierMap,
    i: int,
    j: int,
)
    requires
        0 <= i < j < votes.len(),
        rules.takes(votes[i], rules.known_after(votes, m, i)),
        rules.takes(votes[j], rules.known_after(votes, m, j)),
    ensures
        rules.judged(votes[i])->Ok_0 != rules.judged(votes[j])->Ok_0,
{
    let n = rules.judged(votes[i])->Ok_0;
    assert(rules.known_after(votes, m, i + 1) == nullifier::locked(
        rules.known_after(votes, m, i),
        nullifier::key_for(n),
    ));
    lemma_known_grows(rules, votes, m, i + 1, j, nullifier::key_for(n));
}

/// The transactions that passed their check, among the first `k`.
pub open spec fn passed(
    batch: Seq<Transaction>,
    results: Seq<Result<(), Rejection>>,
    k: int,
) -> Seq<Transaction>
    decreases k,
{
    if k <= 0 {
        Seq::empty()
    } else if results[k - 1] is Ok {
        passed(batch, results, k - 1).push(batch[k - 1])
    } else {
        passed(batch, results, k - 1)
    }
}

/// How the check of one transaction ended.
#[derive(Debug)]
pub enum Outcome {
    Verified(Transaction),
    Rejected(Rejection),
}

/// How long a transaction has waited, in milliseconds.
pub fn queue_latency(now: u64, submitted: u64) -> (r: u64)
    ensures
        r == (if now >= submitted {
            (now - submitted) as u64
        } else {
            0
        }),
{
    now.saturating_sub(submitted)
}

/// The pool of checked transactions.
pub struct Mempool {
    pub verified_pool: VecDeque<Transaction>,
}

impl View for Mempool {
    type V = Seq<Transaction>;

    open spec fn view(&self) -> Seq<Transaction> {
        self.verified_pool@
    }
}

impl Mempool {
    /// An empty pool.
    pub fn new() -> (r: Self)
        ensures
            r@ == Seq::<Transaction>::empty(),
    {
        Mempool { verified_pool: VecDeque::new() }
    }

    /// Puts transactions at the end of the pool.
    pub fn extend(&mut self, transactions: Vec<Transaction>)
        ensures
            final(self)@ == old(self)@ + transactions@,
    {
        let ghost before = self@;
        let ghost all = transactions@;
        let mut rest = transactions;
        let mut reversed: Vec<Transaction> = Vec::new();
        while rest.len() > 0
            invariant
                all == rest@ + reversed@.reverse(),
            decreases rest@.len(),
        {
            let ghost r0 = rest@;
            let ghost v0 = reversed@;
            match rest.pop() {
                Some(t) => {
                    reversed.push(t);
                    proof {
                        assert(reversed@.reverse() =~= seq![t] + v0.reverse());
                        assert(rest@ + reversed@.reverse() =~= r0 + v0.reverse());
                    }
                },
                None => {},
            }
        }
        assert(all =~= reversed@.reverse());
        while reversed.len() > 0
            invariant
                before + all == self@ + reversed@.reverse(),
            decreases reversed@.len(),
        {
            let ghost p0 = self@;
            let ghost v0 = reversed@;
            match reversed.pop() {
                Some(t) => {
                    self.verified_pool.push_back(t);
                    proof {
                        assert(v0.reverse() =~= seq![t] + reversed@.reverse());
                        assert(self@ + reversed@.reverse() =~= p0 + v0.reverse());
                    }
                },
                None => {},
            }
        }
        assert(self@ + reversed@.reverse() =~= self@);
    }

    /// Puts the transactions of a batch that passed their check at the end of
    /// the pool, in the order of the batch, and gives the refusals in turn.
    pub fn receive(&mut self, batch: Vec<Transaction>, results: &Vec<Result<(), Rejection>>) -> (r: Vec<
        Rejection,
    >)
        requires
            batch@.len() == results@.len(),
        ensures
            final(self)@ == old(self)@ + passed(batch@, results@, batch@.len() as int),
            r@ == refusals(results@, results@.len() as int),
    {
        let ghost before = self@;
        let ghost all = batch@;
        let mut incoming = Mempool { verified_pool: VecDeque::new() };
        incoming.extend(batch);
        assert(incoming@ =~= all);
        let mut out: Vec<Rejection> = Vec::new();
        let mut i: usize = 0;
        assert(before + passed(all, results@, 0) =~= before);
        while i < results.len()
            invariant
                i <= results@.len(),
                all.len() == results@.len(),
                incoming@ == all.skip(i as int),
                self@ == before + passed(all, results@, i as int),
                out@ == refusals(results@, i as int),
            decreases results@.len() - i,
        {
            match incoming.verified_pool.pop_front() {
                Some(tx) => {
                    assert(tx == all[i as int]);
                    match &results[i] {
                        Ok(_) => {
                            self.verified_pool.push_back(tx);
                            assert(self@ =~= before + passed(all, results@, i + 1));
                        },
                        Err(e) => {
                            out.push(*e);
                        },
                    }
                    assert(incoming@ =~= all.skip(i + 1));
                },
                None => {
                    assert(all.skip(i as int).len() > 0);
                },
            }
            i = i + 1;
        }
        out
    }

    /// Takes up to `max_size` transactions from the front of the pool.
    pub fn get_verified_transactions(&mut self, max_size: usize) -> (r: Vec<Transaction>)
        ensures
            r@ == old(self)@.take(taken(max_size as nat, old(self)@.len()) as int),
            final(self)@ == old(self)@.skip(taken(max_size as nat, old(self)@.len()) as int),
    {
        let ghost all = self@;
        let mut out: Vec<Transaction> = Vec::new();
        let count: usize = if max_size < self.verified_pool.len() {
            max_size
        } else {
            self.verified_pool.len()
        };
        while out.len() < count
            invariant
                out@.len() <= count <= all.len(),
                out@ == all.take(out@.len() as int),
                self@ == all.skip(out@.len() as int),
            decreases count - out@.len(),
        {
            let ghost k = out@.len() as int;
            match self.verified_pool.pop_front() {
                Some(tx) => {
                    out.push(tx);
                    assert(all.take(k + 1) =~= all.take(k).push(all[k]));
                    assert(self@ =~= all.skip(k + 1));
                },
                None => {
                    assert(all.skip(k).len() > 0);
                },
            }
        }
        out
    }
}

/// How many transactions are taken from a pool.
pub open spec fn taken(max_size: nat, len: nat) -> nat {
    if max_size < len {
        max_size
    } else {
        len
    }
}

/// The refusals among the first `k` results.
pub open spec fn refusals(results: Seq<Result<(), Rejection>>, k: int) -> Seq<Rejection>
    decreases k,
{
    if k <= 0 {
        Seq::empty()
    } else {
        match results[k - 1] {
            Ok(_) => refusals(results, k - 1),
            Err(e) => refusals(results, k - 1).push(e),
        }
    }
}

/// The pool and the buffer after a transaction has been checked: it is put into
/// the buffer, and the buffer goes to the pool when it has reached the threshold.
pub open spec fn buffered(
    pool: Seq<Transaction>,
    buffer: Seq<Transaction>,
    tx: Transaction,
    threshold: nat,
) -> (Seq<Transaction>, Seq<Transaction>) {
    if buffer.len() + 1 >= threshold {
        (pool + buffer.push(tx), Seq::empty())
    } else {
        (pool, buffer.push(tx))
    }
}

/// Gathers checked transactions, and moves them to the pool when there are
/// enough of them.
pub struct VerifiedBuffer {
    pub buffer: Vec<Transaction>,
    pub flush_threshold: usize,
}

impl VerifiedBuffer {
    /// An empty buffer.
    pub fn new(flush_threshold: usize) -> (r: Self)
        ensures
            r.buffer@.len() == 0,
            r.flush_threshold == flush_threshold,
    {
        VerifiedBuffer { buffer: Vec::new(), flush_threshold }
    }

    /// Moves all transactions to the pool.
    pub fn flush(&mut self, pool: &mut Mempool)
        ensures
            final(self).buffer@.len() == 0,
            final(self).flush_threshold == old(self).flush_threshold,
            final(pool)@ == old(pool)@ + old(self).buffer@,
    {
        let mut out: Vec<Transaction> = Vec::new();
        std::mem::swap(&mut out, &mut self.buffer);
        pool.extend(out);
    }

    /// Takes the outcome of a check: a checked transaction goes into the
    /// buffer, and the buffer to the pool when it has reached the threshold. A
    /// refusal is given back.
    pub fn accept(&mut self, outcome: Outcome, pool: &mut Mempool) -> (r: Option<Rejection>)
        ensures
            final(self).flush_threshold == old(self).flush_threshold,
            match outcome {
                Outcome::Rejected(e) => r == Some(e) && final(self).buffer@ == old(self).buffer@
                    && final(pool)@ == old(pool)@,
                Outcome::Verified(tx) => r is None && (final(pool)@, final(self).buffer@) == buffered(
                    old(pool)@,
                    old(self).buffer@,
                    tx,
                    old(self).flush_threshold as nat,
                ),
            },
    {
        match outcome {
            Outcome::Rejected(e) => Some(e),
            Outcome::Verified(tx) => {
                self.buffer.push(tx);
                if self.buffer.len() >= self.flush_threshold {
                    self.flush(pool);
                    assert(self.buffer@ =~= Seq::<Transaction>::empty());
                }
                None
            },
        }
    }
}

/// No checked transaction is lost between the buffer and the pool: the pool
/// followed by the buffer grows by exactly the transaction that was checked.
pub proof fn law_buffering_loses_nothing(
    pool: Seq<Transaction>,
    buffer: Seq<Transaction>,
    tx: Transaction,
    threshold: nat,
)
    ensures
        ({
            let (new_pool, new_buffer) = buffered(pool, buffer, tx, threshold);
            new_pool + new_buffer == (pool + buffer).push(tx)
        }),
{
    assert(pool + buffer.push(tx) + Seq::<Transaction>::empty() =~= (pool + buffer).push(tx));
    assert(pool + buffer.push(tx) =~= (pool + buffer).push(tx));
}

/// A ballot passes up to its nullifier exactly where it can be read, has a ciphertext for
/// each candidate, fits the key, and has a proof that holds for its own ciphertexts, the
/// root and its own nullifier; and it is this nullifier that is looked up.
pub proof fn law_ballot_is_judged_by_its_proof(rules: BallotRules, vote: Option<VoteTransaction>)
    ensures
        rules.judged(vote) is Ok <==> (vote is Some && {
            let v = vote->0;
            &&& v.enc_vote_vec@.len() == rules.num_candidates
            &&& 4 * rules.num_candidates + 3 == rules.verifying_key.gamma_abc_g1@.len()
            &&& zkp::proof_holds(
                rules.verifying_key,
                v.proof,
                zkp::ballot_inputs(v.enc_vote_vec@, rules.merkle_root@, v.nullifier@),
                (4 * rules.num_candidates + 2) as nat,
            )
        }),
        rules.judged(vote) is Ok ==> rules.judged(vote)->Ok_0 == vote->0.nullifier@,
        rules.judged(vote) == Err::<int, Rejection>(Rejection::Deserialize) <==> vote is None,
        rules.judged(vote) == Err::<int, Rejection>(Rejection::ZkCandidates) <==> vote is Some
            && vote->0.enc_vote_vec@.len() != rules.num_candidates,
        rules.judged(vote) == Err::<int, Rejection>(Rejection::ZkVerificationError) <==> vote is Some
            && vote->0.enc_vote_vec@.len() == rules.num_candidates && 4 * rules.num_candidates + 3
            != rules.verifying_key.gamma_abc_g1@.len(),
        rules.judged(vote) matches Err(e) ==> e == Rejection::Deserialize || e
            == Rejection::ZkCandidates || e == Rejection::ZkVerificationError || e
            == Rejection::ZkInvalidProof,
{
}

proof fn lemma_known_after(
    rules: BallotRules,
    votes: Seq<Option<VoteTransaction>>,
    m: nullifier::NullifierMap,
    k: int,
    key: nullifier::NullifierKey,
)
    requires
        0 <= k <= votes.len(),
    ensures
        rules.known_after(votes, m, k).dom().contains(key) <==> m.dom().contains(key) || exists|
            j: int,
        |
            0 <= j < k && rules.judged(#[trigger] votes[j]) is Ok && nullifier::key_for(
                rules.judged(votes[j])->Ok_0,
            ) == key,
        m.dom().contains(key) ==> rules.known_after(votes, m, k)[key] == m[key],
    decreases k,
{
    if k > 0 {
        lemma_known_after(rules, votes, m, k - 1, key);
        if exists|j: int|
            0 <= j < k && rules.judged(#[trigger] votes[j]) is Ok && nullifier::key_for(
                rules.judged(votes[j])->Ok_0,
            ) == key {
            let j = choose|j: int|
                0 <= j < k && rules.judged(#[trigger] votes[j]) is Ok && nullifier::key_for(
                    rules.judged(votes[j])->Ok_0,
                ) == key;
            if j < k - 1 {
                assert(exists|j: int|
                    0 <= j < k - 1 && rules.judged(#[trigger] votes[j]) is Ok
                        && nullifier::key_for(rules.judged(votes[j])->Ok_0) == key);
            }
        }
    }
}

/// A ballot is taken exactly where it passes its check and its nullifier is neither known
/// nor that of an earlier ballot that passed.
pub proof fn law_first_valid_ballot_is_taken(
    rules: BallotRules,
    votes: Seq<Option<VoteTransaction>>,
    m: nullifier::NullifierMap,
    i: int,
)
    requires
        0 <= i < votes.len(),
    ensures
        rules.takes(votes[i], rules.known_after(votes, m, i)) <==> {
            &&& rules.judged(votes[i]) is Ok
            &&& !m.dom().contains(nullifier::key_for(votes[i]->0.nullifier@))
            &&& forall|j: int|
                0 <= j < i && rules.judged(#[trigger] votes[j]) is Ok
                    ==> votes[j]->0.nullifier@ != votes[i]->0.nullifier@
        },
{
    let v = votes[i];
    law_ballot_is_judged_by_its_proof(rules, v);
    if rules.judged(v) is Ok {
        let key = nullifier::key_for(v->0.nullifier@);
        lemma_known_after(rules, votes, m, i, key);
        assert forall|j: int| 0 <= j < i && rules.judged(#[trigger] votes[j]) is Ok implies (
        votes[j]->0.nullifier@ == v->0.nullifier@ <==> nullifier::key_for(
            rules.judged(votes[j])->Ok_0,
        ) == key) by {
            law_ballot_is_judged_by_its_proof(rules, votes[j]);
            nullifier::law_keys_tell_nullifiers_apart(votes[j]->0.nullifier, v->0.nullifier);
        }
    }
}

proof fn lemma_passed_split(
    a: Seq<Transaction>,
    b: Seq<Transaction>,
    x: Seq<Result<(), Rejection>>,
    y: Seq<Result<(), Rejection>>,
    k: int,
)
    requires
        a.len() == x.len(),
        b.len() == y.len(),
        0 <= k <= a.len() + b.len(),
    ensures
        k <= a.len() ==> passed(a + b, x + y, k) == passed(a, x, k) && refusals(x + y, k)
            == refusals(x, k),
        k >= a.len() ==> passed(a + b, x + y, k) == passed(a, x, a.len() as int) + passed(
            b,
            y,
            k - a.len(),
        ) && refusals(x + y, k) == refusals(x, x.len() as int) + refusals(y, k - a.len()),
    decreases k,
{
    if k > 0 {
        lemma_passed_split(a, b, x, y, k - 1);
        if k <= a.len() {
            assert((a + b)[k - 1] == a[k - 1]);
            assert((x + y)[k - 1] == x[k - 1]);
        } else {
            let j = k - 1 - a.len();
            assert((a + b)[k - 1] == b[j]);
            assert((x + y)[k - 1] == y[j]);
            let p = passed(a, x, a.len() as int);
            let q = refusals(x, x.len() as int);
            assert((p + passed(b, y, j)).push(b[j]) =~= p + passed(b, y, j).push(b[j]));
            if let Err(e) = y[j] {
                assert((q + refusals(y, j)).push(e) =~= q + refusals(y, j).push(e));
            }
        }
    }
    if k == a.len() {
        assert(passed(a, x, k) + passed(b, y, 0) =~= passed(a, x, k));
        assert(refusals(x, k) + refusals(y, 0) =~= refusals(x, k));
    }
}

/// What becomes of a batch is what becomes of its parts, one after the other: a
/// transaction that passed goes to the pool, one that did not gives its refusal, and
/// nothing is left over.
pub proof fn law_batch_is_split_by_its_results(
    a: Seq<Transaction>,
    b: Seq<Transaction>,
    x: Seq<Result<(), Rejection>>,
    y: Seq<Result<(), Rejection>>,
    tx: Transaction,
    e: Rejection,
)
    requires
        a.len() == x.len(),
        b.len() == y.len(),
    ensures
        passed(a + b, x + y, (a + b).len() as int) == passed(a, x, a.len() as int) + passed(
            b,
            y,
            b.len() as int,
        ),
        refusals(x + y, (x + y).len() as int) == refusals(x, x.len() as int) + refusals(
            y,
            y.len() as int,
        ),
        passed(seq![tx], seq![Ok::<(), Rejection>(())], 1) =~= seq![tx],
        passed(seq![tx], seq![Err::<(), Rejection>(e)], 1).len() == 0,
        refusals(seq![Ok::<(), Rejection>(())], 1).len() == 0,
        refusals(seq![Err::<(), Rejection>(e)], 1) =~= seq![e],
        passed(a, x, a.len() as int).len() + refusals(x, x.len() as int).len() == a.len(),
{
    lemma_passed_split(a, b, x, y, (a + b).len() as int);
    let ok = seq![Ok::<(), Rejection>(())];
    let err = seq![Err::<(), Rejection>(e)];
    let one = seq![tx];
    assert(passed(one, ok, 0).len() == 0 && passed(one, err, 0).len() == 0);
    assert(refusals(ok, 0).len() == 0 && refusals(err, 0).len() == 0);
    assert(ok[0] is Ok && err[0] == Err::<(), Rejection>(e) && one[0] == tx);
    assert(passed(one, ok, 1) == passed(one, ok, 0).push(tx));
    assert(refusals(err, 1) == refusals(err, 0).push(e));
    lemma_passed_or_refused(a, x, a.len() as int);
}

proof fn lemma_passed_or_refused(a: Seq<Transaction>, x: Seq<Result<(), Rejection>>, k: int)
    requires
        0 <= k,
    ensures
        passed(a, x, k).len() + refusals(x, k).len() == k,
    decreases k,
{
    if k > 0 {
        lemma_passed_or_refused(a, x, k - 1);
    }
}

/// As many transactions are taken as there are, up to the most that are asked for.
pub proof fn law_as_many_as_asked_for(max_size: nat, len: nat)
    ensures
        taken(max_size, len) <= max_size,
        taken(max_size, len) <= len,
        taken(max_size, len) == max_size || taken(max_size, len) == len,
{
}

/// A buffer goes to the pool when it has reached the threshold, and not before.
pub proof fn law_full_buffer_goes_to_the_pool(
    pool: Seq<Transaction>,
    buffer: Seq<Transaction>,
    tx: Transaction,
    threshold: nat,
)
    ensures
        ({
            let (new_pool, new_buffer) = buffered(pool, buffer, tx, threshold);
            &&& new_buffer.len() < threshold || new_buffer.len() == 0
            &&& buffer.len() + 1 < threshold ==> new_pool == pool
            &&& buffer.len() + 1 >= threshold ==> new_buffer.len() == 0 && new_pool.len()
                == pool.len() + buffer.len() + 1
        }),
{
}

} // verus!
