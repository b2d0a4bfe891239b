//! Blocks, their references and their statements.
use crate::committee::{AuthorityIndex, OffsetRange, VoteRangeBuilder};
use crate::keymap::{Key, KeyMap};
use vstd::prelude::*;

verus! {

/// The number of a round.
pub type RoundNumber = u64;

/// The digest of a block: 256 bits.
#[derive(Clone, Copy, Debug, PartialEq, Eq, Structural)]
pub struct BlockDigest {
    pub w0: u64,
    pub w1: u64,
    pub w2: u64,
    pub w3: u64,
}

/// Names a block by its author, its round and its digest.
#[derive(Clone, Copy, Debug, PartialEq, Eq, Structural)]
pub struct BlockReference {
    pub authority: AuthorityIndex,
    pub round: RoundNumber,
    pub digest: BlockDigest,
}

impl Key for BlockReference {
    fn same_key(&self, other: &Self) -> (b: bool) {
        *self == *other
    }
}

/// Names a transaction by its block and its offset among the statements.
#[derive(Clone, Copy, Debug, PartialEq, Eq, Structural)]
pub struct TransactionLocator {
    pub block: BlockReference,
    pub offset: u64,
}

impl Key for TransactionLocator {
    fn same_key(&self, other: &Self) -> (b: bool) {
        *self == *other
    }
}

/// Names consecutive transactions of one block.
#[derive(Clone, Copy, Debug, PartialEq, Eq, Structural)]
pub struct TransactionLocatorRange {
    pub block: BlockReference,
    pub start: u64,
    pub end: u64,
}

impl TransactionLocatorRange {
    /// The transaction at a position of the range.
    pub open spec fn at(&self, i: int) -> TransactionLocator {
        TransactionLocator { block: self.block, offset: (self.start + i) as u64 }
    }

    /// How many transactions the range names.
    pub open spec fn count(&self) -> nat {
        if self.start < self.end {
            (self.end - self.start) as nat
        } else {
            0
        }
    }

    /// The transactions of the range, in order.
    pub open spec fn locators_spec(&self) -> Seq<TransactionLocator> {
        Seq::new(self.count(), |i: int| self.at(i))
    }

    /// The transactions of the range, in order.
    pub fn locators(&self) -> (r: Vec<TransactionLocator>)
        ensures
            r@ == self.locators_spec(),
    {
        let mut out: Vec<TransactionLocator> = Vec::new();
        let mut offset: u64 = self.start;
        while offset < self.end
            invariant
                self.start <= offset,
                offset <= self.end || offset == self.start,
                out@.len() == offset - self.start,
                forall|i: int| 0 <= i < out@.len() ==> #[trigger] out@[i] == self.at(i),
            decreases self.end - offset,
        {
            out.push(TransactionLocator { block: self.block, offset });
            offset = offset + 1;
        }
        assert(out@ =~= self.locators_spec());
        out
    }
}

/// A vote on a transaction. A rejection may name the conflicting transaction.
#[derive(Clone, Copy, Debug, PartialEq, Eq, Structural)]
pub enum Vote {
    Accept,
    Reject(Option<TransactionLocator>),
}

/// A transaction: its bytes, and when it was submitted, in milliseconds.
#[derive(Clone, Debug)]
pub struct Transaction {
    pub data: Vec<u8>,
    pub timestamp: u64,
}

impl Transaction {
    /// A transaction that is submitted now.
    pub fn new(data: Vec<u8>, now: u64) -> (r: Self)
        ensures
            r.data@ == data@,
            r.timestamp == now,
    {
        Transaction { data, timestamp: now }
    }

    /// When the transaction was submitted, in milliseconds.
    pub fn extract_timestamp(&self) -> (r: u64)
        ensures
            r == self.timestamp,
    {
        self.timestamp
    }

    /// A copy of the transaction.
    pub fn duplicate(&self) -> (r: Self)
        ensures
            r.data@ == self.data@,
            r.timestamp == self.timestamp,
    {
        let mut data: Vec<u8> = Vec::new();
        let mut i: usize = 0;
        while i < self.data.len()
            invariant
                i <= self.data@.len(),
                data@ == self.data@.take(i as int),
            decreases self.data@.len() - i,
        {
            data.push(self.data[i]);
            i = i + 1;
            assert(self.data@.take(i as int) =~= self.data@.take(i - 1).push(self.data@[i - 1]));
        }
        assert(self.data@.take(i as int) =~= self.data@);
        Transaction { data, timestamp: self.timestamp }
    }
}

/// What a block says: it shares a transaction, or votes on earlier ones.
#[derive(Clone, Debug)]
pub enum BaseStatement {
    Share(Transaction),
    Vote(TransactionLocator, Vote),
    VoteRange(TransactionLocatorRange),
}

/// How far the change to the next epoch has come.
#[derive(Clone, Copy, Debug, PartialEq, Eq, Structural)]
pub enum InternalEpochStatus {
    Open,
    BeginChange,
    SafeToClose,
}

/// A block: what its author saw and says in a round.
#[derive(Clone, Debug)]
pub struct StatementBlock {
    pub reference: BlockReference,
    pub includes: Vec<BlockReference>,
    pub statements: Vec<BaseStatement>,
    pub meta_creation_time_ns: u64,
    pub epoch_marker: bool,
}

/// The runs of shared transactions in a list of statements, up to `k`: those
/// that have ended and the one that has not.
pub open spec fn share_runs(s: Seq<BaseStatement>, k: int) -> (Seq<OffsetRange>, Option<OffsetRange>)
    decreases k,
{
    if k <= 0 {
        (Seq::empty(), None)
    } else {
        let (done, run) = share_runs(s, k - 1);
        if s[k - 1] is Share {
            match run {
                Some(r) if r.end == k - 1 => (
                    done,
                    Some(OffsetRange { start: r.start, end: k as u64 }),
                ),
                Some(r) => (
                    done.push(r),
                    Some(OffsetRange { start: (k - 1) as u64, end: k as u64 }),
                ),
                None => (done, Some(OffsetRange { start: (k - 1) as u64, end: k as u64 })),
            }
        } else {
            (done, run)
        }
    }
}

/// The reference of a block that a number tells apart from the others of its author
/// in its round. It is never that of no block, whose digest is zero.
pub open spec fn numbered_reference(authority: u64, round: u64, number: u64) -> BlockReference {
    BlockReference {
        authority,
        round,
        digest: BlockDigest { w0: number, w1: 0, w2: 0, w3: 1 },
    }
}

/// The reference of a block that a number tells apart from the others of its author
/// in its round.
pub fn numbered(authority: AuthorityIndex, round: RoundNumber, number: u64) -> (r: BlockReference)
    ensures
        r == numbered_reference(authority, round, number),
{
    BlockReference {
        authority,
        round,
        digest: BlockDigest { w0: number, w1: 0, w2: 0, w3: 1 },
    }
}

/// Two statements say the same.
pub open spec fn same_statement(a: BaseStatement, b: BaseStatement) -> bool {
    match (a, b) {
        (BaseStatement::Share(x), BaseStatement::Share(y)) => x.data@ == y.data@ && x.timestamp
            == y.timestamp,
        _ => a == b,
    }
}

/// Two blocks have the same reference and the same contents.
pub open spec fn same_block(a: StatementBlock, b: StatementBlock) -> bool {
    &&& a.reference == b.reference
    &&& a.includes@ == b.includes@
    &&& a.statements@.len() == b.statements@.len()
    &&& forall|i: int|
        0 <= i < a.statements@.len() ==> same_statement(#[trigger] a.statements@[i], b.statements@[i])
    &&& a.meta_creation_time_ns == b.meta_creation_time_ns
    &&& a.epoch_marker == b.epoch_marker
}

/// Copies references.
pub fn copy_references(refs: &Vec<BlockReference>) -> (r: Vec<BlockReference>)
    ensures
        r@ == refs@,
{
    let mut out: Vec<BlockReference> = Vec::new();
    let mut i: usize = 0;
    while i < refs.len()
        invariant
            i <= refs@.len(),
            out@ == refs@.take(i as int),
        decreases refs@.len() - i,
    {
        out.push(refs[i]);
        i = i + 1;
        assert(refs@.take(i as int) =~= refs@.take(i - 1).push(refs@[i - 1]));
    }
    assert(refs@.take(i as int) =~= refs@);
    out
}

impl StatementBlock {
    /// A block without statements, at time zero, under a number.
    pub fn plain(
        authority: AuthorityIndex,
        round: RoundNumber,
        number: u64,
        includes: Vec<BlockReference>,
    ) -> (r: Self)
        ensures
            r.reference == numbered_reference(authority, round, number),
            r.includes@ == includes@,
            r.statements@.len() == 0,
            r.meta_creation_time_ns == 0,
            !r.epoch_marker,
    {
        StatementBlock {
            reference: numbered(authority, round, number),
            includes,
            statements: Vec::new(),
            meta_creation_time_ns: 0,
            epoch_marker: false,
        }
    }

    /// The first block of a member.
    pub fn new_genesis(authority: AuthorityIndex) -> (r: Self)
        ensures
            r.reference == numbered_reference(authority, 0, 0),
            r.includes@.len() == 0,
            r.statements@.len() == 0,
            r.meta_creation_time_ns == 0,
            !r.epoch_marker,
    {
        StatementBlock::plain(authority, 0, 0, Vec::new())
    }

    pub fn author(&self) -> (r: AuthorityIndex)
        ensures
            r == self.reference.authority,
    {
        self.reference.authority
    }

    pub fn round(&self) -> (r: RoundNumber)
        ensures
            r == self.reference.round,
    {
        self.reference.round
    }

    /// Whether the author has seen the change of epoch begin.
    pub fn epoch_changed(&self) -> (b: bool)
        ensures
            b == self.epoch_marker,
    {
        self.epoch_marker
    }

    /// The transaction that the statement at an offset shares.
    pub open spec fn shares(&self, locator: TransactionLocator) -> bool {
        &&& locator.block == self.reference
        &&& locator.offset < self.statements@.len()
        &&& self.statements@[locator.offset as int] is Share
    }

    /// The transactions that the block shares.
    pub open spec fn shared(&self) -> Set<TransactionLocator> {
        Set::new(|l: TransactionLocator| self.shares(l))
    }

    /// The transactions that the first `k` statements share, in order.
    pub open spec fn shared_list(&self, k: int) -> Seq<TransactionLocator>
        decreases k,
    {
        if k <= 0 {
            Seq::empty()
        } else if self.statements@[k - 1] is Share {
            self.shared_list(k - 1).push(
                TransactionLocator { block: self.reference, offset: (k - 1) as u64 },
            )
        } else {
            self.shared_list(k - 1)
        }
    }

    /// The transactions that the block shares, in order.
    pub open spec fn shared_locators(&self) -> Seq<TransactionLocator> {
        self.shared_list(self.statements@.len() as int)
    }

    /// The transactions that the block shares, in order.
    pub fn shared_transactions(&self) -> (r: Vec<TransactionLocator>)
        ensures
            r@ == self.shared_locators(),
            forall|i: int| 0 <= i < r@.len() ==> self.shares(#[trigger] r@[i]),
            forall|i: int, j: int| 0 <= i < j < r@.len() ==> r@[i].offset < r@[j].offset,
            forall|l: TransactionLocator| #[trigger] self.shares(l) ==> r@.contains(l),
    {
        let mut out: Vec<TransactionLocator> = Vec::new();
        let mut i: usize = 0;
        while i < self.statements.len()
            invariant
                i <= self.statements@.len(),
                out@ == self.shared_list(i as int),
                forall|k: int|
                    0 <= k < out@.len() ==> self.shares(#[trigger] out@[k]) && out@[k].offset < i,
                forall|a: int, b: int| 0 <= a < b < out@.len() ==> out@[a].offset < out@[b].offset,
                forall|l: TransactionLocator|
                    #[trigger] self.shares(l) && l.offset < i ==> out@.contains(l),
            decreases self.statements@.len() - i,
        {
            let ghost before = out@;
            let l = TransactionLocator { block: self.reference, offset: i as u64 };
            match &self.statements[i] {
                BaseStatement::Share(_) => {
                    out.push(l);
                    assert(out@[out@.len() - 1] == l);
                },
                _ => {},
            }
            proof {
                assert forall|m: TransactionLocator| #[trigger] self.shares(m) && m.offset < i + 1 implies
                    out@.contains(m) by {
                    if m.offset < i {
                        assert(before.contains(m));
                        let k = choose|k: int| 0 <= k < before.len() && before[k] == m;
                        assert(out@[k] == m);
                    } else {
                        assert(m == l);
                    }
                }
            }
            i = i + 1;
        }
        out
    }

    /// The runs of transactions that the block shares.
    pub open spec fn shared_ranges_spec(&self) -> Seq<TransactionLocatorRange> {
        let (done, run) = share_runs(self.statements@, self.statements@.len() as int);
        let all = match run {
            Some(r) => done.push(r),
            None => done,
        };
        Seq::new(
            all.len(),
            |i: int|
                TransactionLocatorRange {
                    block: self.reference,
                    start: all[i].start,
                    end: all[i].end,
                },
        )
    }

    /// The transactions that the block shares, as runs of consecutive offsets.
    pub fn shared_ranges(&self) -> (r: Vec<TransactionLocatorRange>)
        ensures
            r@ == self.shared_ranges_spec(),
    {
        let mut out: Vec<TransactionLocatorRange> = Vec::new();
        let mut builder = VoteRangeBuilder::new();
        let ghost mut done: Seq<OffsetRange> = Seq::empty();
        let mut i: usize = 0;
        while i < self.statements.len()
            invariant
                i <= self.statements@.len(),
                share_runs(self.statements@, i as int) == (done, builder.range),
                out@.len() == done.len(),
                forall|k: int|
                    0 <= k < done.len() ==> #[trigger] out@[k] == (TransactionLocatorRange {
                        block: self.reference,
                        start: done[k].start,
                        end: done[k].end,
                    }),
            decreases self.statements@.len() - i,
        {
            match &self.statements[i] {
                BaseStatement::Share(_) => {
                    match builder.add(i as u64) {
                        Some(run) => {
                            proof {
                                done = done.push(run);
                            }
                            out.push(
                                TransactionLocatorRange {
                                    block: self.reference,
                                    start: run.start,
                                    end: run.end,
                                },
                            );
                        },
                        None => {},
                    }
                },
                _ => {},
            }
            i = i + 1;
        }
        match builder.finish() {
            Some(run) => {
                out.push(
                    TransactionLocatorRange {
                        block: self.reference,
                        start: run.start,
                        end: run.end,
                    },
                );
            },
            None => {},
        }
        assert(out@ =~= self.shared_ranges_spec());
        out
    }
}

/// The blocks that a node holds, by their references.
pub struct BlockStore {
    pub blocks: KeyMap<BlockReference, StatementBlock>,
}

impl View for BlockStore {
    type V = Map<BlockReference, StatementBlock>;

    open spec fn view(&self) -> Map<BlockReference, StatementBlock> {
        self.blocks@
    }
}

impl BlockStore {
    /// Every block is held under its own reference.
    pub open spec fn wf(&self) -> bool {
        &&& self.blocks.wf()
        &&& forall|r: BlockReference|
            self@.dom().contains(r) ==> (#[trigger] self@[r]).reference == r
    }

    /// A store without blocks.
    pub fn new() -> (r: Self)
        ensures
            r.wf(),
            r@ == Map::<BlockReference, StatementBlock>::empty(),
    {
        BlockStore { blocks: KeyMap::new() }
    }

    /// The block with a reference.
    pub fn get_block(&self, reference: BlockReference) -> (r: Option<&StatementBlock>)
        requires
            self.wf(),
        ensures
            r is Some <==> self@.dom().contains(reference),
            r matches Some(b) ==> *b == self@[reference],
    {
        self.blocks.get(&reference)
    }

    /// Whether the store holds a block.
    pub fn block_exists(&self, reference: BlockReference) -> (b: bool)
        requires
            self.wf(),
        ensures
            b == self@.dom().contains(reference),
    {
        self.blocks.contains_key(&reference)
    }

    /// Holds a block under its reference.
    pub fn insert_block(&mut self, block: StatementBlock)
        requires
            old(self).wf(),
        ensures
            final(self).wf(),
            final(self)@ == old(self)@.insert(block.reference, block),
    {
        let reference = block.reference;
        let ghost before = self@;
        self.blocks.insert(reference, block);
        assert forall|r: BlockReference| self@.dom().contains(r) implies (
        #[trigger] self@[r]).reference == r by {
            if r != reference {
                assert(before[r].reference == r);
            }
        }
    }

    /// The transaction that a locator names.
    pub open spec fn transaction(&self, locator: TransactionLocator) -> Option<Transaction> {
        if self@.dom().contains(locator.block) && self@[locator.block].shares(locator) {
            Some(self@[locator.block].statements@[locator.offset as int]->Share_0)
        } else {
            None
        }
    }

    /// The transaction that a locator names.
    pub fn get_transaction(&self, locator: &TransactionLocator) -> (r: Option<&Transaction>)
        requires
            self.wf(),
        ensures
            r is Some <==> self.transaction(*locator) is Some,
            r matches Some(t) ==> Some(*t) == self.transaction(*locator),
    {
        match self.get_block(locator.block) {
            Some(block) => {
                if locator.offset >= block.statements.len() as u64 {
                    return None;
                }
                match &block.statements[locator.offset as usize] {
                    BaseStatement::Share(t) => Some(t),
                    _ => None,
                }
            },
            None => None,
        }
    }
}

/// A run holds an offset.
spec fn covered(runs: Seq<OffsetRange>, o: int) -> bool {
    exists|i: int| 0 <= i < runs.len() && (#[trigger] runs[i]).start <= o < runs[i].end
}

/// All runs, the one that has not ended last.
spec fn with_last(done: Seq<OffsetRange>, run: Option<OffsetRange>) -> Seq<OffsetRange> {
    match run {
        Some(r) => done.push(r),
        None => done,
    }
}

proof fn lemma_share_runs(s: Seq<BaseStatement>, k: int)
    requires
        0 <= k <= s.len() <= u64::MAX,
    ensures
        ({
            let all = with_last(share_runs(s, k).0, share_runs(s, k).1);
            &&& forall|i: int|
                0 <= i < all.len() ==> (#[trigger] all[i]).start < all[i].end && all[i].end <= k
            &&& forall|i: int, j: int|
                0 <= i < j < all.len() ==> (#[trigger] all[i]).end < (#[trigger] all[j]).start
            &&& forall|o: int| 0 <= o < k ==> ((#[trigger] s[o]) is Share <==> covered(all, o))
            &&& share_runs(s, k).1 is None ==> share_runs(s, k).0.len() == 0
        }),
    decreases k,
{
    if k > 0 {
        lemma_share_runs(s, k - 1);
        let (done, run) = share_runs(s, k - 1);
        let before = with_last(done, run);
        let all = with_last(share_runs(s, k).0, share_runs(s, k).1);
        let last = all.len() - 1;
        if s[k - 1] is Share {
            if run is Some {
                assert(before[before.len() - 1].start < before[before.len() - 1].end);
            }
            assert(all[last].start <= k - 1 < all[last].end);
            assert(covered(all, k - 1));
            assert forall|o: int| 0 <= o < k - 1 implies ((#[trigger] s[o]) is Share <==> covered(
                all,
                o,
            )) by {
                if covered(before, o) {
                    let i = choose|i: int|
                        0 <= i < before.len() && (#[trigger] before[i]).start <= o < before[i].end;
                    assert(all[i].start <= o < all[i].end);
                }
                if covered(all, o) {
                    let i = choose|i: int|
                        0 <= i < all.len() && (#[trigger] all[i]).start <= o < all[i].end;
                    assert(i < before.len());
                    assert(before[i].start <= o < before[i].end);
                }
            }
            assert forall|i: int, j: int| 0 <= i < j < all.len() implies (#[trigger] all[i]).end
                < (#[trigger] all[j]).start by {
                assert(before[i] == all[i]);
                if j < before.len() {
                    assert(before[j].start == all[j].start);
                } else {
                    assert(before.last().end < k - 1);
                    if i < before.len() - 1 {
                        assert(before[i].end < before[before.len() - 1].start);
                    }
                }
            }
            assert forall|i: int| 0 <= i < all.len() implies (#[trigger] all[i]).start < all[i].end
                && all[i].end <= k by {
                if i < before.len() {
                    assert(before[i].start == all[i].start);
                }
            }
        } else {
            assert(!covered(all, k - 1)) by {
                if covered(all, k - 1) {
                    let i = choose|i: int|
                        0 <= i < all.len() && (#[trigger] all[i]).start <= k - 1 < all[i].end;
                    assert(before[i].end <= k - 1);
                }
            }
        }
    }
}

/// The runs of a block are its shared transactions: each is a run of the block that is
/// not empty, they follow each other with a gap between any two, and a transaction is in
/// one of them exactly where the statement at its offset shares it.
pub proof fn law_ranges_are_what_is_shared(block: StatementBlock, l: TransactionLocator)
    requires
        block.statements@.len() <= u64::MAX,
    ensures
        forall|i: int|
            0 <= i < block.shared_ranges_spec().len() ==> {
                let range = #[trigger] block.shared_ranges_spec()[i];
                range.block == block.reference && range.start < range.end <= block.statements@.len()
            },
        forall|i: int, j: int|
            0 <= i < j < block.shared_ranges_spec().len() ==> (
            #[trigger] block.shared_ranges_spec()[i]).end < (
            #[trigger] block.shared_ranges_spec()[j]).start,
        (exists|i: int|
            {
                let range = #[trigger] block.shared_ranges_spec()[i];
                &&& 0 <= i < block.shared_ranges_spec().len()
                &&& range.block == l.block
                &&& range.start <= l.offset < range.end
            }) <==> (l.block == block.reference && l.offset < block.statements@.len()
            && block.statements@[l.offset as int] is Share),
{
    let s = block.statements@;
    lemma_share_runs(s, s.len() as int);
    let (done, run) = share_runs(s, s.len() as int);
    let all = with_last(done, run);
    let ranges = block.shared_ranges_spec();
    assert(ranges.len() == all.len());
    assert forall|i: int| 0 <= i < ranges.len() implies {
        let range = #[trigger] ranges[i];
        range.block == block.reference && range.start < range.end <= s.len()
    } by {
        assert(ranges[i].start == all[i].start && ranges[i].end == all[i].end);
    }
    assert forall|i: int, j: int| 0 <= i < j < ranges.len() implies (#[trigger] ranges[i]).end < (
    #[trigger] ranges[j]).start by {
        assert(all[i].end < all[j].start);
    }
    let o = l.offset as int;
    if l.block == block.reference && o < s.len() && s[o] is Share {
        assert(covered(all, o));
        let i = choose|i: int| 0 <= i < all.len() && (#[trigger] all[i]).start <= o < all[i].end;
        assert(ranges[i].block == l.block && ranges[i].start <= l.offset < ranges[i].end);
    }
    if exists|i: int|
        {
            let range = #[trigger] ranges[i];
            &&& 0 <= i < ranges.len()
            &&& range.block == l.block
            &&& range.start <= l.offset < range.end
        } {
        let i = choose|i: int|
            {
                let range = #[trigger] ranges[i];
                &&& 0 <= i < ranges.len()
                &&& range.block == l.block
                &&& range.start <= l.offset < range.end
            };
        assert(all[i].start <= o < all[i].end <= s.len());
        assert(covered(all, o));
        assert(s[o] is Share);
    }
}

proof fn lemma_shared_list_members(block: StatementBlock, k: int)
    requires
        0 <= k <= block.statements@.len() <= u64::MAX,
    ensures
        forall|i: int|
            0 <= i < block.shared_list(k).len() ==> block.shares(#[trigger] block.shared_list(k)[i])
                && block.shared_list(k)[i].offset < k,
        forall|i: int, j: int|
            0 <= i < j < block.shared_list(k).len() ==> (#[trigger] block.shared_list(k)[i]).offset < (
            #[trigger] block.shared_list(k)[j]).offset,
        forall|l: TransactionLocator|
            #[trigger] block.shares(l) && l.offset < k ==> block.shared_list(k).contains(l),
    decreases k,
{
    if k > 0 {
        lemma_shared_list_members(block, k - 1);
        let before = block.shared_list(k - 1);
        let after = block.shared_list(k);
        assert forall|l: TransactionLocator| #[trigger] block.shares(l) && l.offset < k implies
            after.contains(l) by {
            if l.offset < k - 1 {
                assert(before.contains(l));
                let i = choose|i: int| 0 <= i < before.len() && before[i] == l;
                assert(after[i] == l);
            } else {
                assert(after[after.len() - 1] == l);
            }
        }
        assert forall|i: int| 0 <= i < after.len() implies block.shares(#[trigger] after[i])
            && after[i].offset < k by {
            if i < before.len() {
                assert(after[i] == before[i]);
            }
        }
        assert forall|i: int, j: int| 0 <= i < j < after.len() implies (#[trigger] after[i]).offset
            < (#[trigger] after[j]).offset by {
            assert(after[i] == before[i]);
            if j < before.len() {
                assert(after[j] == before[j]);
            }
        }
    }
}

/// The shared transactions of a block are named once each, the ones of earlier
/// statements first: a name is among them exactly where it is of this block and the
/// statement at its offset shares a transaction.
pub proof fn law_shared_transactions_in_order(block: StatementBlock, l: TransactionLocator)
    requires
        block.statements@.len() <= u64::MAX,
    ensures
        block.shared_locators().contains(l) <==> (l.block == block.reference && l.offset
            < block.statements@.len() && block.statements@[l.offset as int] is Share),
        forall|i: int, j: int|
            0 <= i < j < block.shared_locators().len() ==> (
            #[trigger] block.shared_locators()[i]).offset < (
            #[trigger] block.shared_locators()[j]).offset,
{
    lemma_shared_list_members(block, block.statements@.len() as int);
    let ls = block.shared_locators();
    if ls.contains(l) {
        let i = choose|i: int| 0 <= i < ls.len() && ls[i] == l;
        assert(block.shares(ls[i]));
    }
    if l.block == block.reference && l.offset < block.statements@.len()
        && block.statements@[l.offset as int] is Share {
        assert(block.shares(l));
    }
}

/// The transactions of a range are those of its block from its start up to its end, each
/// at its distance from the start.
pub proof fn law_range_names_consecutive_offsets(
    range: TransactionLocatorRange,
    l: TransactionLocator,
    i: int,
)
    ensures
        range.locators_spec().contains(l) <==> l.block == range.block && range.start <= l.offset
            < range.end,
        range.start <= range.end ==> range.locators_spec().len() + range.start == range.end,
        range.end <= range.start ==> range.locators_spec().len() == 0,
        0 <= i < range.locators_spec().len() ==> range.locators_spec()[i].offset == range.start + i
            && range.locators_spec()[i].block == range.block,
{
    let ls = range.locators_spec();
    if l.block == range.block && range.start <= l.offset < range.end {
        assert(ls[l.offset - range.start] == l);
    }
    if ls.contains(l) {
        let j = choose|j: int| 0 <= j < ls.len() && ls[j] == l;
        assert(ls[j] == range.at(j));
    }
}

/// A transaction is found exactly where its block is held and the statement at its offset
/// shares it, and it is the one that is shared there.
pub proof fn law_transactions_are_found_in_their_blocks(
    store: BlockStore,
    l: TransactionLocator,
    t: Transaction,
)
    requires
        store@.dom().contains(l.block) ==> store@[l.block].reference == l.block,
    ensures
        store.transaction(l) == Some(t) <==> {
            &&& store@.dom().contains(l.block)
            &&& l.offset < store@[l.block].statements@.len()
            &&& store@[l.block].statements@[l.offset as int] == BaseStatement::Share(t)
        },
{
}

} // verus!
