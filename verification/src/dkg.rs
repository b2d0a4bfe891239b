//! Distributed key generation: deterministic randomness and a run of the
//! whole protocol in one process.
use crate::curve::Point;
use crate::elgamal;
use crate::elgamal::{pk_from_commitments, verify_share_with_commitments, Share};
use crate::field;
use crate::field::Scalar;
use crate::modular;
use ark_ff::{PrimeField, UniformRand};
use rand::SeedableRng;
use vstd::arithmetic::power::pow;
use vstd::prelude::*;

verus! {

/// The generator of pseudo-random numbers of the `rand` crate.
#[verifier::external_type_specification]
#[verifier::external_body]
pub struct ExStdRng(rand::rngs::StdRng);

/// The scalar that a generator with this seed draws when it has drawn
/// `position` scalars before.
pub uninterp spec fn seeded_scalar(seed: Seq<u8>, position: nat) -> int;

/// A generator of pseudo-random scalars that its seed determines.
pub struct SeededRng {
    rng: rand::rngs::StdRng,
    seed: Ghost<Seq<u8>>,
    drawn: Ghost<nat>,
}

impl SeededRng {
    /// The seed that the generator started from.
    pub closed spec fn seed(&self) -> Seq<u8> {
        self.seed@
    }

    /// How many scalars it has drawn.
    pub closed spec fn drawn(&self) -> nat {
        self.drawn@
    }

    /// `SeedableRng::from_seed` on `rand::rngs::StdRng` starts a generator from
    /// a seed of 32 bytes.
    #[verifier::external_body]
    pub(crate) fn from_seed(seed: &[u8]) -> (r: Self)
        requires
            seed@.len() == 32,
        ensures
            r.seed() == seed@,
            r.drawn() == 0,
    {
        let bytes: [u8; 32] = seed.try_into().unwrap();
        SeededRng { rng: rand::rngs::StdRng::from_seed(bytes), seed: Ghost(seed@), drawn: Ghost(0) }
    }

    /// `UniformRand::rand` on `ark_ed_on_bls12_381::Fr` draws the next scalar:
    /// the seed and the number of earlier draws determine it.
    #[verifier::external_body]
    pub(crate) fn next_scalar(&mut self) -> (r: Scalar)
        ensures
            r@ == seeded_scalar(old(self).seed(), old(self).drawn()),
            final(self).seed() == old(self).seed(),
            final(self).drawn() == old(self).drawn() + 1,
    {
        let v = ark_ed_on_bls12_381::Fr::rand(&mut self.rng);
        Scalar::from_limbs(v.into_bigint().0).unwrap()
    }
}

/// The seed that stands for a number: its 32 little-endian bytes.
pub open spec fn seed_of(v: u64) -> Seq<u8> {
    choose|s: Seq<u8>| s.len() == 32 && #[trigger] field::le_value(s) == v
}

/// Appending a byte adds its weight.
proof fn lemma_le_value_push(s: Seq<u8>, b: u8)
    ensures
        field::le_value(s.push(b)) == field::le_value(s) + b * pow(256, s.len()),
    decreases s.len(),
{
    reveal(pow);
    if s.len() == 0 {
        assert(s.push(b).drop_first() =~= s);
        assert(field::le_value(s) == 0);
        assert(pow(256, 0) == 1);
        assert(b * 1 == b);
    } else {
        assert(s.push(b).drop_first() =~= s.drop_first().push(b));
        lemma_le_value_push(s.drop_first(), b);
        let p = pow(256, s.drop_first().len());
        assert(pow(256, s.len()) == 256 * p);
        assert(256 * (b * p) == b * (256 * p)) by (nonlinear_arith);
    }
}

/// A generator seeded with a number.
pub fn rng_at_seed(seed: u64) -> (r: SeededRng)
    ensures
        r.seed() == seed_of(seed),
        r.drawn() == 0,
{
    let mut bytes: Vec<u8> = Vec::new();
    let mut rest: u64 = seed;
    let mut i: usize = 0;
    proof {
        assert(pow(256, 0) == 1) by {
            reveal(pow);
        }
        assert(rest * 1 == rest);
    }
    while i < 32
        invariant
            i <= 32,
            bytes.len() == i,
            field::le_value(bytes@) + rest * pow(256, i as nat) == seed,
            i >= 1 ==> rest < 0x100000000000000,
            i >= 2 ==> rest < 0x1000000000000,
            i >= 3 ==> rest < 0x10000000000,
            i >= 4 ==> rest < 0x100000000,
            i >= 5 ==> rest < 0x1000000,
            i >= 6 ==> rest < 0x10000,
            i >= 7 ==> rest < 0x100,
            i >= 8 ==> rest == 0,
        decreases 32 - i,
    {
        let b: u8 = (rest % 256) as u8;
        let next: u64 = rest / 256;
        proof {
            lemma_le_value_push(bytes@, b);
            let p = pow(256, i as nat);
            assert(pow(256, (i + 1) as nat) == 256 * p) by {
                reveal(pow);
            }
            assert(rest == 256 * next + b);
            assert(rest * p == b * p + next * (256 * p)) by (nonlinear_arith)
                requires
                    rest == 256 * next + b,
            ;
        }
        bytes.push(b);
        rest = next;
        i = i + 1;
    }
    proof {
        assert(0 * pow(256, 32) == 0);
        assert(bytes@.len() == 32 && field::le_value(bytes@) == seed);
        field::lemma_le_value_injective(bytes@, seed_of(seed));
    }
    SeededRng::from_seed(bytes.as_slice())
}

/// The generator of a participant, at an offset from the global seed.
pub fn get_dkg_rng_for_participant(global_seed: u64, authority_index: u64) -> (r: SeededRng)
    ensures
        r.seed() == seed_of(global_seed.wrapping_add(authority_index)),
        r.drawn() == 0,
{
    rng_at_seed(global_seed.wrapping_add(authority_index))
}

/// The secrets that the participants of a run contribute.
pub open spec fn contribution(global_seed: u64) -> spec_fn(int) -> int {
    |i: int| seeded_scalar(seed_of(global_seed.wrapping_add(i as u64)), 0)
}

/// What the participant at position `i` commits to: its own contribution is
/// the constant term.
pub open spec fn honest_commitments(commits: Seq<Point>, t: int, global_seed: u64, i: int) -> bool {
    commits.len() == t && commits[0].log() == contribution(global_seed)(i)
}

/// A share from one participant to another in a run.
pub struct ShareMessage {
    pub from: u64,
    pub to: u64,
    pub value: Scalar,
}

/// Every message holds a share that its sender's commitments confirm.
pub open spec fn messages_confirmed(messages: Seq<ShareMessage>, commits: Seq<Vec<Point>>, g: Point) -> bool {
    forall|k: int|
        0 <= k < messages.len() ==> 1 <= (#[trigger] messages[k]).from <= commits.len()
            && elgamal::share_matches(
            (Share { index: messages[k].to, value: messages[k].value }),
            commits[messages[k].from - 1]@,
            g,
        )
}

/// The dealing phase: every participant deals shares of its own contribution.
fn deal_all(n: usize, t: usize, global_dkg_seed: u64, g: Point) -> (r: (
    Vec<Vec<Point>>,
    Vec<ShareMessage>,
))
    requires
        t > 0,
        g.log() == 1,
    ensures
        r.0.len() == n,
        forall|i: int|
            0 <= i < n ==> honest_commitments((#[trigger] r.0[i])@, t as int, global_dkg_seed, i),
        messages_confirmed(r.1@, r.0@, g),
{
    let mut commits: Vec<Vec<Point>> = Vec::new();
    let mut messages: Vec<ShareMessage> = Vec::new();
    let mut i: u64 = 0;
    while i < n as u64
        invariant
            i <= n <= u64::MAX,
            t > 0,
            g.log() == 1,
            commits.len() == i,
            forall|j: int|
                0 <= j < i ==> honest_commitments(
                    (#[trigger] commits[j])@,
                    t as int,
                    global_dkg_seed,
                    j,
                ),
            messages_confirmed(messages@, commits@, g),
        decreases n - i,
    {
        let mut rng = get_dkg_rng_for_participant(global_dkg_seed, i);
        let secret = rng.next_scalar();
        let (shares, coeffs, own) = elgamal::shamir_split_with_commitments(
            secret,
            t,
            n,
            g,
            &mut rng,
        );
        proof {
            assert(own[0].log() == (g.log() * coeffs[0]@) % field::scalar_order());
            assert(1 * coeffs[0]@ == coeffs[0]@);
            field::lemma_scalar_range(coeffs[0]);
            modular::lemma_small(coeffs[0]@, field::scalar_order());
        }
        let ghost before = commits@;
        commits.push(own);
        assert(messages_confirmed(messages@, commits@, g)) by {
            assert forall|k: int| 0 <= k < messages@.len() implies 1 <= (#[trigger] messages@[k]).from
                <= commits@.len() && elgamal::share_matches(
                (Share { index: messages@[k].to, value: messages@[k].value }),
                commits@[messages@[k].from - 1]@,
                g,
            ) by {
                assert(commits@[messages@[k].from - 1] == before[messages@[k].from - 1]);
            }
        }
        let mut j: usize = 0;
        while j < shares.len()
            invariant
                j <= shares.len(),
                i < n <= u64::MAX,
                shares.len() == n,
                commits.len() == i + 1,
                elgamal::deals(shares@, coeffs@, n as int),
                elgamal::commits_to(commits[i as int]@, coeffs@, g),
                messages_confirmed(messages@, commits@, g),
            decreases shares.len() - j,
        {
            proof {
                elgamal::law_dealt_share_is_accepted(
                    shares@,
                    coeffs@,
                    commits[i as int]@,
                    g,
                    n as int,
                    j as int,
                );
            }
            let share = shares[j];
            messages.push(ShareMessage { from: i + 1, to: share.index, value: share.value });
            j = j + 1;
        }
        i = i + 1;
    }
    (commits, messages)
}

/// Whether every share that was sent is confirmed by its sender's commitments.
pub fn verify_all(messages: &[ShareMessage], commits: &[Vec<Point>], g: Point) -> (b: bool)
    requires
        forall|k: int|
            0 <= k < messages@.len() ==> 1 <= (#[trigger] messages@[k]).from <= commits@.len(),
    ensures
        b == messages_confirmed(messages@, commits@, g),
{
    let mut k: usize = 0;
    while k < messages.len()
        invariant
            k <= messages.len(),
            forall|k: int|
                0 <= k < messages@.len() ==> 1 <= (#[trigger] messages@[k]).from <= commits@.len(),
            forall|j: int|
                0 <= j < k ==> elgamal::share_matches(
                    (Share { index: (#[trigger] messages@[j]).to, value: messages@[j].value }),
                    commits@[messages@[j].from - 1]@,
                    g,
                ),
        decreases messages.len() - k,
    {
        let m = &messages[k];
        let share = Share { index: m.to, value: m.value };
        let at: usize = (m.from - 1) as usize;
        if !verify_share_with_commitments(&share, commits[at].as_slice(), g) {
            assert(!elgamal::share_matches(
                (Share { index: messages@[k as int].to, value: messages@[k as int].value }),
                commits@[messages@[k as int].from - 1]@,
                g,
            ));
            return false;
        }
        k = k + 1;
    }
    true
}

/// The participants' commitments at one position, as logarithms.
pub open spec fn commitment_log(commits: Seq<Vec<Point>>, k: int) -> spec_fn(int) -> int {
    |i: int| commits[i]@[k].log()
}

/// Adds the participants' commitments position by position, up to `t`.
pub fn aggregate_commitments(commits: &[Vec<Point>], t: usize) -> (r: Vec<Point>)
    requires
        forall|i: int| 0 <= i < commits@.len() ==> (#[trigger] commits@[i])@.len() >= t,
    ensures
        r.len() == t,
        forall|k: int|
            0 <= k < t ==> #[trigger] r[k].log() == modular::sum(
                commits@.len(),
                commitment_log(commits@, k),
            ) % field::scalar_order(),
{
    let mut out: Vec<Point> = Vec::new();
    let ghost n = field::scalar_order();
    let mut k: usize = 0;
    while k < t
        invariant
            k <= t,
            out.len() == k,
            n == field::scalar_order(),
            forall|i: int| 0 <= i < commits@.len() ==> (#[trigger] commits@[i])@.len() >= t,
            forall|j: int|
                0 <= j < k ==> #[trigger] out[j].log() == modular::sum(
                    commits@.len(),
                    commitment_log(commits@, j),
                ) % n,
        decreases t - k,
    {
        let ghost f = commitment_log(commits@, k as int);
        let mut acc = Point::identity();
        let mut i: usize = 0;
        while i < commits.len()
            invariant
                i <= commits.len(),
                k < t,
                n == field::scalar_order(),
                f == commitment_log(commits@, k as int),
                forall|i: int| 0 <= i < commits@.len() ==> (#[trigger] commits@[i])@.len() >= t,
                modular::eqm(acc.log(), modular::sum(i as nat, f), n),
            decreases commits.len() - i,
        {
            assert(commits@[i as int]@.len() >= t);
            let p = commits[i][k];
            proof {
                modular::lemma_eqm_add(
                    acc.log(),
                    modular::sum(i as nat, f),
                    p.log(),
                    f(i as int),
                    n,
                );
                modular::lemma_eqm_mod(acc.log() + p.log(), n);
                assert(modular::sum((i + 1) as nat, f) == modular::sum(i as nat, f) + f(i as int));
            }
            acc = acc.plus(&p);
            i = i + 1;
        }
        proof {
            crate::curve::lemma_log_range(acc);
            modular::lemma_small(acc.log(), n);
        }
        out.push(acc);
        k = k + 1;
    }
    out
}

/// Runs the key generation of `n` participants in one process and gives the
/// joint public key: every share passes its check, and the key's secret is the
/// sum of the participants' contributions.
pub fn run_dkg_simulation_for_data_generator(n: usize, t: usize, global_dkg_seed: u64) -> (r: Point)
    requires
        t > 0,
    ensures
        r.log() == modular::sum(n as nat, contribution(global_dkg_seed)) % field::scalar_order(),
{
    let g = Point::generator();
    let (commits, messages) = deal_all(n, t, global_dkg_seed, g);
    let valid = verify_all(messages.as_slice(), commits.as_slice(), g);
    assert(valid);
    let master = aggregate_commitments(commits.as_slice(), t);
    proof {
        let f = commitment_log(commits@, 0);
        assert forall|i: int| 0 <= i < n implies #[trigger] f(i) == contribution(global_dkg_seed)(
            i,
        ) by {
            assert(honest_commitments(commits[i]@, t as int, global_dkg_seed, i));
        }
        modular::lemma_sum_ext(n as nat, f, contribution(global_dkg_seed));
        assert(master[0].log() == modular::sum(n as nat, f) % field::scalar_order());
    }
    pk_from_commitments(master.as_slice())
}

/// Messages are confirmed where each of them is: by the commitments of its own sender, at
/// the number of its receiver.
pub proof fn law_each_message_is_confirmed(
    messages: Seq<ShareMessage>,
    next: ShareMessage,
    commits: Seq<Vec<Point>>,
    g: Point,
)
    ensures
        messages_confirmed(Seq::empty(), commits, g),
        messages_confirmed(messages.push(next), commits, g) <==> {
            &&& messages_confirmed(messages, commits, g)
            &&& 1 <= next.from <= commits.len()
            &&& elgamal::share_matches(
                (Share { index: next.to, value: next.value }),
                commits[next.from - 1]@,
                g,
            )
        },
{
    let all = messages.push(next);
    if messages_confirmed(all, commits, g) {
        assert(all[messages.len() as int] == next);
        assert forall|k: int| 0 <= k < messages.len() implies 1 <= (#[trigger] messages[k]).from
            <= commits.len() && elgamal::share_matches(
            (Share { index: messages[k].to, value: messages[k].value }),
            commits[messages[k].from - 1]@,
            g,
        ) by {
            assert(all[k] == messages[k]);
        }
    }
    if messages_confirmed(messages, commits, g) {
        assert forall|k: int| 0 <= k < messages.len() implies 1 <= (#[trigger] all[k]).from
            <= commits.len() && elgamal::share_matches(
            (Share { index: all[k].to, value: all[k].value }),
            commits[all[k].from - 1]@,
            g,
        ) by {
            assert(all[k] == messages[k]);
        }
    }
}

/// A further participant adds its own commitment at each position to the sum.
pub proof fn law_commitments_add_up(commits: Seq<Vec<Point>>, next: Vec<Point>, k: int)
    ensures
        modular::sum(commits.len() + 1, commitment_log(commits.push(next), k)) == modular::sum(
            commits.len(),
            commitment_log(commits, k),
        ) + next@[k].log(),
        modular::sum(0, commitment_log(commits, k)) == 0,
{
    let all = commits.push(next);
    let f = commitment_log(all, k);
    assert forall|i: int| 0 <= i < commits.len() implies #[trigger] f(i) == commitment_log(
        commits,
        k,
    )(i) by {
        assert(all[i] == commits[i]);
    }
    modular::lemma_sum_ext(commits.len(), f, commitment_log(commits, k));
    assert(all[commits.len() as int] == next);
}

} // verus!
