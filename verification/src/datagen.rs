//! The generation of benchmark data: the voters' tree, the distribution of
//! voters over validators and of validators over workers, and the commands that
//! run the workers.
use crate::ballot::voter_leaf;
use crate::curve::Point;
use crate::decimal;
use crate::decimal::push_decimal;
use crate::dkg;
use crate::dkg::run_dkg_simulation_for_data_generator;
use crate::field;
use crate::field::FieldElement;
use crate::modular;
use crate::poseidon::PoseidonParams;
use crate::text;
use crate::text::{join_path, text};
use vstd::arithmetic::power2::pow2;
use vstd::prelude::*;

verus! {

/// The seed of the key generation.
pub const GLOBAL_DKG_SEED: u64 = 1234567890;

/// `h` is the height of the smallest tree, of at least two leaves, that has room
/// for `k` voters.
pub open spec fn is_merkle_height(h: int, k: int) -> bool {
    &&& h >= 1
    &&& k <= pow2(h as nat)
    &&& h > 1 ==> pow2((h - 1) as nat) < k
}

/// The height of the tree for `k` voters, one voter at least.
pub fn merkle_height(k: usize) -> (h: usize)
    requires
        k <= 0x8000000000000000,
    ensures
        is_merkle_height(h as int, if k == 0 {
            1
        } else {
            k as int
        }),
        h <= 63,
{
    let mut h: usize = 1;
    let mut size: u64 = 2;
    proof {
        vstd::arithmetic::power2::lemma2_to64();
        vstd::arithmetic::power2::lemma2_to64_rest();
    }
    while size < k as u64
        invariant
            1 <= h <= 63,
            size == pow2(h as nat),
            k <= 0x8000000000000000,
            h > 1 ==> pow2((h - 1) as nat) < k,
            pow2(63) == 0x8000000000000000,
        decreases 64 - h,
    {
        proof {
            if h >= 63 {
                assert(size == 0x8000000000000000);
            }
            vstd::arithmetic::power2::lemma_pow2_unfold((h + 1) as nat);
            if h < 63 {
                vstd::arithmetic::power2::lemma_pow2_strictly_increases(h as nat, 63);
            }
        }
        size = size * 2;
        h = h + 1;
    }
    h
}

/// The height of the tree for a number of voters, where there are any.
pub fn checked_merkle_height(k: usize) -> (r: Option<usize>)
    requires
        k <= 0x8000000000000000,
    ensures
        r is Some == (k > 0),
        r matches Some(h) ==> is_merkle_height(h as int, k as int) && h <= 63,
{
    if k == 0 {
        None
    } else {
        Some(merkle_height(k))
    }
}

/// How many leaves a tree has.
pub fn leaf_count(height: usize) -> (r: usize)
    requires
        pow2(height as nat) <= usize::MAX,
    ensures
        r == pow2(height as nat),
{
    let mut r: usize = 1;
    let mut i: usize = 0;
    proof {
        vstd::arithmetic::power2::lemma2_to64();
    }
    while i < height
        invariant
            i <= height,
            r == pow2(i as nat),
            pow2(height as nat) <= usize::MAX,
        decreases height - i,
    {
        proof {
            vstd::arithmetic::power2::lemma_pow2_unfold((i + 1) as nat);
            if i + 1 < height {
                vstd::arithmetic::power2::lemma_pow2_strictly_increases(
                    (i + 1) as nat,
                    height as nat,
                );
            }
        }
        r = r * 2;
        i = i + 1;
    }
    r
}

/// The leaves of the voters, one for each credential.
pub fn voter_leaves(params_leaf: &PoseidonParams, creds: &[FieldElement], election_id: &FieldElement) -> (r:
    Vec<FieldElement>)
    requires
        params_leaf.wf(),
    ensures
        r@.len() == creds@.len(),
        forall|i: int|
            0 <= i < creds@.len() ==> (#[trigger] r@[i])@ == params_leaf.hash_of(
                seq![creds@[i]@, election_id@],
            ),
{
    let mut out: Vec<FieldElement> = Vec::new();
    let mut i: usize = 0;
    while i < creds.len()
        invariant
            i <= creds@.len(),
            params_leaf.wf(),
            out@.len() == i,
            forall|k: int|
                0 <= k < i ==> (#[trigger] out@[k])@ == params_leaf.hash_of(
                    seq![creds@[k]@, election_id@],
                ),
        decreases creds@.len() - i,
    {
        out.push(voter_leaf(params_leaf, &creds[i], election_id));
        i = i + 1;
    }
    out
}

/// Fills the leaves of a tree up with zeroes.
pub fn pad_leaves(leaves: Vec<FieldElement>, count: usize) -> (r: Vec<FieldElement>)
    ensures
        r@.len() == (if leaves@.len() < count {
            count as int
        } else {
            leaves@.len() as int
        }),
        forall|i: int| 0 <= i < leaves@.len() ==> r@[i] == leaves@[i],
        forall|i: int| leaves@.len() <= i < r@.len() ==> (#[trigger] r@[i])@ == 0,
{
    let ghost before = leaves@;
    let mut out = leaves;
    while out.len() < count
        invariant
            before.len() <= out@.len(),
            out@.len() <= count || out@.len() == before.len(),
            forall|i: int| 0 <= i < before.len() ==> out@[i] == before[i],
            forall|i: int| before.len() <= i < out@.len() ==> (#[trigger] out@[i])@ == 0,
        decreases count - out@.len(),
    {
        out.push(FieldElement::zero());
    }
    out
}

/// How many voters a validator gets: their number over that of the validators,
/// rounded up.
pub open spec fn chunk_size(k: int, n: int) -> int {
    (k + n - 1) / n
}

/// The voters of the validator `i`: a range, its end left out.
pub open spec fn voter_range(k: int, n: int, i: int) -> (int, int) {
    let c = chunk_size(k, n);
    (i * c, if (i + 1) * c < k {
        (i + 1) * c
    } else {
        k
    })
}

/// The voters of each validator, in turn: every validator gets the same number,
/// but for the last one that gets any, until no voter is left.
pub fn voter_ranges(k: usize, n: usize) -> (r: Vec<(usize, usize)>)
    requires
        k > 0,
        n > 0,
        k + n - 1 <= usize::MAX,
    ensures
        0 < r@.len() <= n,
        forall|i: int|
            0 <= i < r@.len() ==> (#[trigger] r@[i]).0 == voter_range(k as int, n as int, i).0
                && r@[i].1 == voter_range(k as int, n as int, i).1 && r@[i].0 < r@[i].1,
        r@.last().1 == k,
{
    let c: usize = (k + (n - 1)) / n;
    let ghost cs = chunk_size(k as int, n as int);
    proof {
        assert(cs * n >= k && cs >= 1) by (nonlinear_arith)
            requires
                cs == (k + n - 1) / (n as int),
                n > 0,
                k > 0,
        ;
    }
    let mut out: Vec<(usize, usize)> = Vec::new();
    let mut start: usize = 0;
    assert(0 * cs == 0) by (nonlinear_arith);
    assert(out@.len() * cs == 0);
    while start < k
        invariant
            c == cs,
            cs == chunk_size(k as int, n as int),
            cs >= 1,
            cs * n >= k,
            start <= k,
            n > 0,
            start == (if out@.len() * cs < k {
                out@.len() * cs
            } else {
                k as int
            }),
            out@.len() > 0 ==> out@.last().1 == start,
            out@.len() <= n,
            forall|i: int|
                0 <= i < out@.len() ==> (#[trigger] out@[i]).0 == voter_range(k as int, n as int, i).0
                    && out@[i].1 == voter_range(k as int, n as int, i).1 && out@[i].0 < out@[i].1,
        decreases k - start,
    {
        let ghost m = out@.len() as int;
        let end: usize = if k - start > c {
            start + c
        } else {
            k
        };
        proof {
            assert(start == m * cs);
            assert(m < n) by (nonlinear_arith)
                requires
                    m * cs < k,
                    cs * n >= k,
                    cs >= 1,
                    m >= 0,
                    n > 0,
            ;
            assert((m + 1) * cs == m * cs + cs) by (nonlinear_arith);
        }
        out.push((start, end));
        start = end;
    }
    out
}

/// Every voter belongs to exactly one validator.
pub proof fn law_every_voter_has_one_validator(k: int, n: int, v: int)
    requires
        k > 0,
        n > 0,
        0 <= v < k,
    ensures
        exists|i: int|
            0 <= i < n && (#[trigger] voter_range(k, n, i)).0 <= v < voter_range(k, n, i).1,
        forall|i: int, j: int|
            0 <= i < n && 0 <= j < n && (#[trigger] voter_range(k, n, i)).0 <= v < voter_range(k, n, i).1
                && (#[trigger] voter_range(k, n, j)).0 <= v < voter_range(k, n, j).1 ==> i == j,
{
    let c = chunk_size(k, n);
    assert(c >= 1 && c * n >= k) by (nonlinear_arith)
        requires
            c == (k + n - 1) / n,
            k > 0,
            n > 0,
    ;
    let i = v / c;
    assert(i * c <= v < (i + 1) * c && 0 <= i) by (nonlinear_arith)
        requires
            i == v / c,
            c >= 1,
            v >= 0,
    ;
    assert(i < n) by (nonlinear_arith)
        requires
            i * c <= v,
            v < k,
            c * n >= k,
            c >= 1,
            i >= 0,
            n > 0,
    ;
    assert(voter_range(k, n, i).0 <= v < voter_range(k, n, i).1);
    assert forall|a: int, b: int|
        0 <= a < n && 0 <= b < n && (#[trigger] voter_range(k, n, a)).0 <= v < voter_range(k, n, a).1
            && (#[trigger] voter_range(k, n, b)).0 <= v < voter_range(k, n, b).1 implies a == b by {
        if a < b {
            assert((a + 1) * c <= b * c) by (nonlinear_arith)
                requires
                    a + 1 <= b,
                    c >= 1,
            ;
        }
        if b < a {
            assert((b + 1) * c <= a * c) by (nonlinear_arith)
                requires
                    b + 1 <= a,
                    c >= 1,
            ;
        }
    }
}

/// The validators of the two workers: ranges with both ends.
pub fn worker_ranges(committee_size: usize) -> (r: ((usize, usize), (usize, usize)))
    requires
        committee_size >= 2,
    ensures
        r.0.0 == 0,
        r.0.1 == committee_size / 2 - 1,
        r.1.0 == committee_size / 2,
        r.1.1 == committee_size - 1,
        r.0.1 + 1 == r.1.0,
        0 <= (r.1.1 - r.1.0) - (r.0.1 - r.0.0) <= 1,
{
    let half: usize = committee_size / 2;
    ((0, half - 1), (half, committee_size - 1))
}

/// Whether progress is reported after `done` of `total` ballots, and the
/// percentage: ten times, but not at the end.
pub fn progress_report(done: usize, total: usize) -> (r: Option<usize>)
    requires
        total > 0,
        done * 100 <= usize::MAX,
    ensures
        r is Some == (done < total && done as int % (if total >= 10 {
            total as int / 10
        } else {
            1
        }) == 0),
        r matches Some(p) ==> p == (done * 100) / (total as int),
{
    let tenth: usize = total / 10;
    let interval: usize = if tenth > 1 {
        tenth
    } else {
        1
    };
    if done % interval == 0 && done < total {
        Some(done * 100 / total)
    } else {
        None
    }
}

/// The name of the directory for a run.
pub fn run_directory(n: usize, t: usize, k: usize) -> (r: String)
    ensures
        r@ == "n"@ + decimal::decimal(n as nat) + "_t"@ + decimal::decimal(t as nat) + "_k"@
            + decimal::decimal(k as nat),
{
    let mut s = text("n");
    push_decimal(&mut s, n as u64);
    s.append("_t");
    push_decimal(&mut s, t as u64);
    s.append("_k");
    push_decimal(&mut s, k as u64);
    s
}

/// The name of the file with a validator's input.
pub open spec fn input_name(i: nat) -> Seq<char> {
    "validator_"@ + decimal::decimal(i) + "_input.bin"@
}

/// The name of the file with a validator's input.
pub fn input_file(i: usize) -> (r: String)
    ensures
        r@ == input_name(i as nat),
{
    let mut s = text("validator_");
    push_decimal(&mut s, i as u64);
    s.append("_input.bin");
    s
}

/// The name of the file with a validator's ballots.
pub open spec fn output_name(i: nat) -> Seq<char> {
    "validator_"@ + decimal::decimal(i) + "_txs.bin"@
}

/// The name of the file with a validator's ballots.
pub fn output_file(i: usize) -> (r: String)
    ensures
        r@ == output_name(i as nat),
{
    let mut s = text("validator_");
    push_decimal(&mut s, i as u64);
    s.append("_txs.bin");
    s
}

/// What the data of a run are made from, apart from chance.
pub struct CommonInputs {
    pub output_dir: String,
    pub master_pk: Point,
    pub merkle_height: usize,
    pub num_leaves: usize,
    pub ranges: Vec<(usize, usize)>,
}

/// Plans the data of a run: the joint public key, the size of the voters' tree
/// and the distribution of the voters. `None` where there are no voters.
pub fn plan_common_inputs(output_dir: &str, n: usize, t: usize, k: usize) -> (r: Option<CommonInputs>)
    requires
        n > 0,
        t > 0,
        k + n - 1 <= usize::MAX,
        k <= 0x8000000000000000,
        k <= usize::MAX / 2 + 1,
    ensures
        r is Some == (k > 0),
        r matches Some(p) ==> {
            &&& p.output_dir@ == text::joined(
                output_dir@,
                "n"@ + decimal::decimal(n as nat) + "_t"@ + decimal::decimal(t as nat) + "_k"@
                    + decimal::decimal(k as nat),
            )
            &&& p.master_pk.log() == modular::sum(n as nat, dkg::contribution(GLOBAL_DKG_SEED))
                % field::scalar_order()
            &&& is_merkle_height(p.merkle_height as int, k as int)
            &&& p.num_leaves == pow2(p.merkle_height as nat)
            &&& 0 < p.ranges@.len() <= n
            &&& forall|i: int|
                0 <= i < p.ranges@.len() ==> (#[trigger] p.ranges@[i]).0 == voter_range(
                    k as int,
                    n as int,
                    i,
                ).0 && p.ranges@[i].1 == voter_range(k as int, n as int, i).1 && p.ranges@[i].0
                    < p.ranges@[i].1
            &&& p.ranges@.last().1 == k
        },
{
    let dir = run_directory(n, t, k);
    let path = join_path(output_dir, dir.as_str());
    let master_pk = run_dkg_simulation_for_data_generator(n, t, GLOBAL_DKG_SEED);
    let height = match checked_merkle_height(k) {
        Some(h) => h,
        None => {
            return None;
        },
    };
    proof {
        lemma_leaves_fit(height as int, k as int);
    }
    let num_leaves = leaf_count(height);
    let ranges = voter_ranges(k, n);
    Some(CommonInputs { output_dir: path, master_pk, merkle_height: height, num_leaves, ranges })
}

/// A tree for `k` voters has fewer than twice as many leaves, or two.
pub proof fn lemma_leaves_fit(h: int, k: int)
    requires
        is_merkle_height(h, k),
        0 < k <= usize::MAX / 2 + 1,
    ensures
        pow2(h as nat) <= usize::MAX,
{
    vstd::arithmetic::power2::lemma2_to64();
    if h > 1 {
        vstd::arithmetic::power2::lemma_pow2_unfold(h as nat);
    }
}

/// The parameters that a worker is started with.
pub struct WorkerArgs {
    pub committee_size: usize,
    pub threshold: usize,
    pub num_voters: usize,
    pub num_candidates: usize,
    pub election_id: String,
}

/// The command that starts a worker on a range of validators.
pub fn worker_command(args: &WorkerArgs, start: usize, end: usize) -> (r: String)
    ensures
        r@ == "./zk_worker --mode worker --committee-size "@ + decimal::decimal(
            args.committee_size as nat,
        ) + " --threshold "@ + decimal::decimal(args.threshold as nat) + " --num-voters "@
            + decimal::decimal(args.num_voters as nat) + " --num-candidates "@ + decimal::decimal(
            args.num_candidates as nat,
        ) + " --election-id "@ + args.election_id@
            + " --input-dir . --worker-output-dir worker_out --validator-start "@
            + decimal::decimal(start as nat) + " --validator-end "@ + decimal::decimal(end as nat),
{
    let mut s = text("./zk_worker --mode worker --committee-size ");
    push_decimal(&mut s, args.committee_size as u64);
    s.append(" --threshold ");
    push_decimal(&mut s, args.threshold as u64);
    s.append(" --num-voters ");
    push_decimal(&mut s, args.num_voters as u64);
    s.append(" --num-candidates ");
    push_decimal(&mut s, args.num_candidates as u64);
    s.append(" --election-id ");
    s.append(args.election_id.as_str());
    s.append(" --input-dir . --worker-output-dir worker_out --validator-start ");
    push_decimal(&mut s, start as u64);
    s.append(" --validator-end ");
    push_decimal(&mut s, end as u64);
    s
}

/// A step of the work with a remote worker.
pub enum RemoteStep {
    /// Copies a local file to the worker.
    Upload { local: String, remote: String },
    /// Runs a command on the worker.
    Execute { command: String },
    /// Compresses a local file, next to it.
    Compress { local: String },
    /// Copies a file of the worker here.
    Download { remote: String, local: String },
}

/// A step as mathematical values.
pub enum StepView {
    Upload(Seq<char>, Seq<char>),
    Execute(Seq<char>),
    Compress(Seq<char>),
    Download(Seq<char>, Seq<char>),
}

impl View for RemoteStep {
    type V = StepView;

    open spec fn view(&self) -> StepView {
        match *self {
            RemoteStep::Upload { local, remote } => StepView::Upload(local@, remote@),
            RemoteStep::Execute { command } => StepView::Execute(command@),
            RemoteStep::Compress { local } => StepView::Compress(local@),
            RemoteStep::Download { remote, local } => StepView::Download(remote@, local@),
        }
    }
}

/// Steps as mathematical values.
pub open spec fn steps(v: Seq<RemoteStep>) -> Seq<StepView> {
    Seq::new(v.len(), |i: int| v[i]@)
}

/// The steps that bring one validator's input to a worker.
pub open spec fn input_steps(output_dir: Seq<char>, i: nat) -> Seq<StepView> {
    let local = text::joined(output_dir, input_name(i));
    let remote = input_name(i) + ".gz"@;
    seq![
        StepView::Compress(local),
        StepView::Upload(local + ".gz"@, remote),
        StepView::Execute("gzip -d -f "@ + remote),
    ]
}

/// The steps that bring the inputs of `count` validators from `start` on.
pub open spec fn all_input_steps(output_dir: Seq<char>, start: nat, count: nat) -> Seq<StepView>
    decreases count,
{
    if count == 0 {
        Seq::empty()
    } else {
        all_input_steps(output_dir, start, (count - 1) as nat) + input_steps(
            output_dir,
            (start + count - 1) as nat,
        )
    }
}

/// The steps that bring a worker what all validators need.
pub open spec fn shared_steps(
    output_dir: Seq<char>,
    worker_gz: Seq<char>,
    key_gz: Seq<char>,
) -> Seq<StepView> {
    seq![
        StepView::Upload(worker_gz, "zk_worker.gz"@),
        StepView::Execute("gzip -d -f zk_worker.gz && chmod +x zk_worker"@),
        StepView::Upload(key_gz, "proving_key.bin.gz"@),
        StepView::Execute("gzip -d -f proving_key.bin.gz"@),
        StepView::Upload(text::joined(output_dir, "master_pk.bin"@), "master_pk.bin"@),
        StepView::Upload(text::joined(output_dir, "crypto-config.yaml"@), "crypto-config.yaml"@),
    ]
}

/// How many validators `start..=end` are.
pub open spec fn validators(start: int, end: int) -> nat {
    if start <= end {
        (end - start + 1) as nat
    } else {
        0
    }
}

/// The steps that bring a worker everything for the validators `start..=end`.
pub fn upload_worker_files_for_range(
    output_dir: &str,
    start: usize,
    end: usize,
    worker_gz: &str,
    key_gz: &str,
) -> (r: Vec<RemoteStep>)
    requires
        end < usize::MAX,
    ensures
        steps(r@) == shared_steps(output_dir@, worker_gz@, key_gz@) + all_input_steps(
            output_dir@,
            start as nat,
            validators(start as int, end as int),
        ),
{
    let mut out: Vec<RemoteStep> = Vec::new();
    out.push(RemoteStep::Upload { local: text(worker_gz), remote: text("zk_worker.gz") });
    out.push(
        RemoteStep::Execute { command: text("gzip -d -f zk_worker.gz && chmod +x zk_worker") },
    );
    out.push(RemoteStep::Upload { local: text(key_gz), remote: text("proving_key.bin.gz") });
    out.push(RemoteStep::Execute { command: text("gzip -d -f proving_key.bin.gz") });
    out.push(
        RemoteStep::Upload {
            local: join_path(output_dir, "master_pk.bin"),
            remote: text("master_pk.bin"),
        },
    );
    out.push(
        RemoteStep::Upload {
            local: join_path(output_dir, "crypto-config.yaml"),
            remote: text("crypto-config.yaml"),
        },
    );
    let ghost shared = shared_steps(output_dir@, worker_gz@, key_gz@);
    assert(steps(out@) =~= shared + all_input_steps(output_dir@, start as nat, 0));
    let mut i: usize = start;
    while i <= end
        invariant
            start <= i,
            i <= end + 1 || i == start,
            end < usize::MAX,
            steps(out@) == shared + all_input_steps(output_dir@, start as nat, (i - start) as nat),
        decreases end + 1 - i,
    {
        let name = input_file(i);
        let local = join_path(output_dir, name.as_str());
        let mut local_gz = text(local.as_str());
        local_gz.append(".gz");
        let mut remote_gz = text(name.as_str());
        remote_gz.append(".gz");
        let mut command = text("gzip -d -f ");
        command.append(remote_gz.as_str());
        let ghost before = steps(out@);
        let ghost more = input_steps(output_dir@, i as nat);
        out.push(RemoteStep::Compress { local });
        out.push(RemoteStep::Upload { local: local_gz, remote: remote_gz });
        out.push(RemoteStep::Execute { command });
        proof {
            assert(steps(out@) =~= before + more);
            assert(steps(out@) =~= shared + all_input_steps(
                output_dir@,
                start as nat,
                (i + 1 - start) as nat,
            ));
        }
        i = i + 1;
    }
    out
}

/// The steps that run a worker on the validators `start..=end`.
pub fn run_remote_worker(args: &WorkerArgs, start: usize, end: usize) -> (r: Vec<RemoteStep>)
    ensures
        r@.len() == 2,
        r@[0]@ == StepView::Execute("mkdir -p worker_out"@),
        r@[1]@ == StepView::Execute(
            "./zk_worker --mode worker --committee-size "@ + decimal::decimal(
                args.committee_size as nat,
            ) + " --threshold "@ + decimal::decimal(args.threshold as nat) + " --num-voters "@
                + decimal::decimal(args.num_voters as nat) + " --num-candidates "@ + decimal::decimal(
                args.num_candidates as nat,
            ) + " --election-id "@ + args.election_id@
                + " --input-dir . --worker-output-dir worker_out --validator-start "@
                + decimal::decimal(start as nat) + " --validator-end "@ + decimal::decimal(end as nat),
        ),
{
    let mut out: Vec<RemoteStep> = Vec::new();
    out.push(RemoteStep::Execute { command: text("mkdir -p worker_out") });
    out.push(RemoteStep::Execute { command: worker_command(args, start, end) });
    out
}

/// The steps that bring the ballots of the validators `start..=end` back.
pub fn download_results(local_dir: &str, start: usize, end: usize) -> (r: Vec<RemoteStep>)
    requires
        end < usize::MAX,
    ensures
        r@.len() == validators(start as int, end as int),
        forall|i: int|
            0 <= i < r@.len() ==> (#[trigger] r@[i])@ == StepView::Download(
                "worker_out/"@ + output_name((start + i) as nat),
                text::joined(local_dir@, output_name((start + i) as nat)),
            ),
{
    let mut out: Vec<RemoteStep> = Vec::new();
    let mut i: usize = start;
    while i <= end
        invariant
            start <= i,
            i <= end + 1 || i == start,
            end < usize::MAX,
            out@.len() == i - start,
            forall|k: int|
                0 <= k < out@.len() ==> (#[trigger] out@[k])@ == StepView::Download(
                    "worker_out/"@ + output_name((start + k) as nat),
                    text::joined(local_dir@, output_name((start + k) as nat)),
                ),
        decreases end + 1 - i,
    {
        let name = output_file(i);
        let mut remote = text("worker_out/");
        remote.append(name.as_str());
        let local = join_path(local_dir, name.as_str());
        out.push(RemoteStep::Download { remote, local });
        i = i + 1;
    }
    out
}

/// What follows an attempt that may be repeated.
#[derive(Clone, Copy, Debug, PartialEq, Eq, Structural)]
pub enum Attempt {
    Done,
    RetryAfterSeconds(u64),
    GiveUp,
}

/// How often an upload is attempted.
pub const MAX_UPLOAD_ATTEMPTS: u64 = 10;

/// What follows the attempt number `attempt`, from one, at an upload: a failure
/// is repeated after five seconds times its number, but for the last one.
pub fn after_upload(attempt: u64, succeeded: bool) -> (r: Attempt)
    requires
        1 <= attempt <= MAX_UPLOAD_ATTEMPTS,
    ensures
        r == (if succeeded {
            Attempt::Done
        } else if attempt < MAX_UPLOAD_ATTEMPTS {
            Attempt::RetryAfterSeconds((5 * attempt) as u64)
        } else {
            Attempt::GiveUp
        }),
{
    if succeeded {
        Attempt::Done
    } else if attempt < MAX_UPLOAD_ATTEMPTS {
        Attempt::RetryAfterSeconds(5 * attempt)
    } else {
        Attempt::GiveUp
    }
}

/// How often a connection is attempted.
pub const MAX_CONNECTION_ATTEMPTS: u64 = 60;

/// What follows the attempt number `attempt`, from zero, at a connection: a
/// failure is followed by a wait of five seconds.
pub fn after_connection(attempt: u64, connected: bool) -> (r: Attempt)
    ensures
        r == (if attempt >= MAX_CONNECTION_ATTEMPTS {
            Attempt::GiveUp
        } else if connected {
            Attempt::Done
        } else {
            Attempt::RetryAfterSeconds(5)
        }),
{
    if attempt >= MAX_CONNECTION_ATTEMPTS {
        Attempt::GiveUp
    } else if connected {
        Attempt::Done
    } else {
        Attempt::RetryAfterSeconds(5)
    }
}

/// Whether an instance can be used: it runs and has a name in the network.
pub fn instance_ready(state: &str, public_dns: &str) -> (b: bool)
    ensures
        b == (state@ == "Running"@ && public_dns@.len() > 0),
{
    text::same_text(state, "Running") && !text::is_blank(public_dns)
}

/// The name that an instance is reached under: that of the accelerator, where
/// there is one.
pub fn choose_host(accelerator_dns: &str, public_dns: &str) -> (r: String)
    ensures
        r@ == (if accelerator_dns@.len() > 0 {
            accelerator_dns@
        } else {
            public_dns@
        }),
{
    if text::is_blank(accelerator_dns) {
        text(public_dns)
    } else {
        text(accelerator_dns)
    }
}

/// Where a file of the worker is, for a copying program.
pub fn remote_address(user: &str, host: &str, path: &str) -> (r: String)
    ensures
        r@ == user@ + "@"@ + host@ + ":"@ + path@,
{
    let mut s = text(user);
    s.append("@");
    s.append(host);
    s.append(":");
    s.append(path);
    s
}

/// Voters are shared out evenly: each validator gets as many as the smallest number that
/// suffices for all, but for the last ones, and the ranges follow each other.
pub proof fn law_voters_are_shared_out_evenly(k: int, n: int, i: int)
    requires
        k > 0,
        n > 0,
        0 <= i < n,
    ensures
        ({
            let c = chunk_size(k, n);
            let (from, to) = voter_range(k, n, i);
            &&& c * n >= k
            &&& (c - 1) * n < k
            &&& to - from <= c
            &&& to <= k
            &&& to < k ==> to - from == c && voter_range(k, n, i + 1).0 == to
            &&& i == 0 ==> from == 0
        }),
{
    let c = chunk_size(k, n);
    assert(c * n >= k && (c - 1) * n < k && c >= 1) by (nonlinear_arith)
        requires
            c == (k + n - 1) / n,
            k > 0,
            n > 0,
    ;
    assert((i + 1) * c == i * c + c) by (nonlinear_arith);
    assert(0 * c == 0);
}

/// The tree of the voters has the smallest height that has a leaf for each of them.
pub proof fn law_tree_is_as_low_as_can_be(h: int, other: int, k: int)
    requires
        k >= 1,
        is_merkle_height(h, k),
        other >= 1,
        k <= pow2(other as nat),
    ensures
        h <= other,
        k <= pow2(h as nat),
{
    if other < h {
        if other < h - 1 {
            vstd::arithmetic::power2::lemma_pow2_strictly_increases(other as nat, (h - 1) as nat);
        }
    }
}

/// The inputs of validators are brought one after the other, three steps for each: it is
/// packed, sent, and unpacked.
pub proof fn law_inputs_are_brought_in_turn(output_dir: Seq<char>, start: nat, count: nat, i: nat)
    requires
        i < count,
    ensures
        ({
            let all = all_input_steps(output_dir, start, count);
            let local = text::joined(output_dir, input_name(start + i));
            let remote = input_name(start + i) + ".gz"@;
            &&& all.len() == 3 * count
            &&& all[3 * (i as int)] == StepView::Compress(local)
            &&& all[3 * (i as int) + 1] == StepView::Upload(local + ".gz"@, remote)
            &&& all[3 * (i as int) + 2] == StepView::Execute("gzip -d -f "@ + remote)
        }),
    decreases count,
{
    let m = (count - 1) as nat;
    lemma_input_steps_len(output_dir, start, m);
    let before = all_input_steps(output_dir, start, m);
    let last = input_steps(output_dir, (start + count - 1) as nat);
    assert(last.len() == 3);
    if i < m {
        law_inputs_are_brought_in_turn(output_dir, start, m, i);
    }
}

proof fn lemma_input_steps_len(output_dir: Seq<char>, start: nat, count: nat)
    ensures
        all_input_steps(output_dir, start, count).len() == 3 * count,
    decreases count,
{
    if count > 0 {
        lemma_input_steps_len(output_dir, start, (count - 1) as nat);
    }
}

} // verus!
