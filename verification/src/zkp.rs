//! Ballot proofs: what they prove, their public inputs, and their
//! verification one by one and in batches.
use crate::ballot;
use crate::curve::Point;
use crate::field;
use crate::field::FieldElement;
use crate::modular;
use crate::pairing;
use crate::pairing::{Gt, G1, G2};
use ark_bls12_381::{Bls12_381, Fr, G1Affine};
use ark_crypto_primitives::snark::SNARK;
use ark_ff::BigInt;
use ark_groth16::{Groth16, Proof as Groth16Proof, VerifyingKey as Groth16Key};
use ark_serialize::{CanonicalDeserialize, CanonicalSerialize, Valid};
use vstd::prelude::*;

verus! {

/// What can go wrong in the verification of proofs.
#[derive(Clone, Copy, Debug, PartialEq, Eq, Structural)]
pub enum ZkError {
    /// The numbers of proofs, inputs or ciphertexts do not fit together.
    Unsatisfiable,
    /// The verifying key is for another number of public inputs.
    MalformedVerifyingKey,
}

/// A candidate's encrypted count in a ballot.
#[derive(Clone, Copy, Debug, PartialEq, Eq, Structural)]
pub struct ZKElgamalCiphertext {
    pub c1: Point,
    pub c2: Point,
}

/// A Groth16 proof.
#[derive(Debug)]
pub struct Proof {
    pub a: G1,
    pub b: G2,
    pub c: G1,
}

/// A ballot as it is submitted.
#[derive(Debug)]
pub struct VoteTransaction {
    pub proof: Proof,
    pub nullifier: FieldElement,
    pub enc_vote_vec: Vec<ZKElgamalCiphertext>,
}

/// The key that proofs are verified with.
#[derive(Debug)]
pub struct VerifyingKey {
    pub alpha_g1: G1,
    pub beta_g2: G2,
    pub gamma_g2: G2,
    pub delta_g2: G2,
    pub gamma_abc_g1: Vec<G1>,
}

/// A verifying key with the pairing of its first two elements.
#[derive(Debug)]
pub struct PreparedVerifyingKey {
    pub vk: VerifyingKey,
    pub alpha_g1_beta_g2: Gt,
}

impl PreparedVerifyingKey {
    /// The pairing is that of the key's elements.
    pub open spec fn wf(&self) -> bool {
        self.alpha_g1_beta_g2.log() == (self.vk.alpha_g1.log() * self.vk.beta_g2.log())
            % field::field_order()
    }
}

/// The numbers of a list of field elements.
pub open spec fn elements(s: Seq<FieldElement>) -> Seq<int> {
    Seq::new(s.len(), |i: int| s[i]@)
}

/// The public inputs of a ballot: the coordinates of its ciphertexts in turn,
/// the root of the voters' tree, and the nullifier.
pub open spec fn public_input(
    cts: Seq<ZKElgamalCiphertext>,
    root: int,
    nullifier: int,
    k: int,
) -> int {
    if k < 4 * cts.len() {
        let ct = cts[k / 4];
        if k % 4 == 0 {
            ct.c1.coords().0
        } else if k % 4 == 1 {
            ct.c1.coords().1
        } else if k % 4 == 2 {
            ct.c2.coords().0
        } else {
            ct.c2.coords().1
        }
    } else if k == 4 * cts.len() {
        root
    } else {
        nullifier
    }
}

/// The public inputs of a ballot.
pub fn prepare_public_inputs(
    enc_vote_vec: &[ZKElgamalCiphertext],
    voter_set_root: FieldElement,
    nullifier: FieldElement,
) -> (r: Vec<FieldElement>)
    ensures
        r@.len() == 4 * enc_vote_vec@.len() + 2,
        forall|k: int|
            0 <= k < r@.len() ==> (#[trigger] r@[k])@ == public_input(
                enc_vote_vec@,
                voter_set_root@,
                nullifier@,
                k,
            ),
{
    let mut out: Vec<FieldElement> = Vec::new();
    let mut i: usize = 0;
    while i < enc_vote_vec.len()
        invariant
            i <= enc_vote_vec@.len(),
            out@.len() == 4 * i,
            forall|k: int|
                0 <= k < out@.len() ==> (#[trigger] out@[k])@ == public_input(
                    enc_vote_vec@,
                    voter_set_root@,
                    nullifier@,
                    k,
                ),
        decreases enc_vote_vec@.len() - i,
    {
        let ct = &enc_vote_vec[i];
        let ghost before = out@;
        out.push(ct.c1.x());
        out.push(ct.c1.y());
        out.push(ct.c2.x());
        out.push(ct.c2.y());
        proof {
            assert forall|k: int| 0 <= k < out@.len() implies (#[trigger] out@[k])@ == public_input(
                enc_vote_vec@,
                voter_set_root@,
                nullifier@,
                k,
            ) by {
                if k < before.len() {
                    assert(out@[k] == before[k]);
                } else {
                    assert(k / 4 == i);
                }
            }
        }
        i = i + 1;
    }
    out.push(voter_set_root);
    out.push(nullifier);
    out
}

/// The contribution of each public input beyond the first key element.
pub open spec fn input_term(vk: VerifyingKey, inputs: Seq<int>) -> spec_fn(int) -> int {
    |j: int| inputs[j] * vk.gamma_abc_g1@[j + 1].log()
}

/// The combination of the key's elements by the public inputs, as a logarithm.
pub open spec fn input_log(vk: VerifyingKey, inputs: Seq<int>, k: nat) -> int {
    vk.gamma_abc_g1@[0].log() + modular::sum(k, input_term(vk, inputs))
}

/// By how much a proof misses the verification equation, in the exponent.
pub open spec fn defect(vk: VerifyingKey, proof: Proof, inputs: Seq<int>, k: nat) -> int {
    proof.a.log() * proof.b.log() - vk.alpha_g1.log() * vk.beta_g2.log() - input_log(vk, inputs, k)
        * vk.gamma_g2.log() - proof.c.log() * vk.delta_g2.log()
}

/// The verification equation holds of a proof.
pub open spec fn proof_holds(vk: VerifyingKey, proof: Proof, inputs: Seq<int>, k: nat) -> bool {
    modular::eqm(defect(vk, proof, inputs, k), 0, field::field_order())
}

/// Appends bytes.
fn push_bytes(out: &mut Vec<u8>, bytes: &[u8])
    ensures
        final(out)@ == old(out)@ + bytes@,
{
    let ghost before = out@;
    let mut i: usize = 0;
    while i < bytes.len()
        invariant
            i <= bytes@.len(),
            out@ == before + bytes@.take(i as int),
        decreases bytes@.len() - i,
    {
        out.push(bytes[i]);
        i = i + 1;
        assert(out@ =~= before + bytes@.take(i as int));
    }
    assert(bytes@.take(i as int) =~= bytes@);
}

/// The uncompressed elements of a proof, in the order of `ark_groth16::Proof`.
fn proof_bytes(proof: &Proof) -> (r: Vec<u8>)
    ensures
        r@ == proof.a.encoding() + proof.b.encoding() + proof.c.encoding(),
{
    let mut out: Vec<u8> = Vec::new();
    push_bytes(&mut out, proof.a.raw());
    push_bytes(&mut out, proof.b.raw());
    push_bytes(&mut out, proof.c.raw());
    assert(out@ =~= proof.a.encoding() + proof.b.encoding() + proof.c.encoding());
    out
}

/// The uncompressed elements of a list, one after the other.
pub open spec fn list_bytes(points: Seq<G1>, k: int) -> Seq<u8>
    decreases k,
{
    if k <= 0 {
        Seq::empty()
    } else {
        list_bytes(points, k - 1) + points[k - 1].encoding()
    }
}

/// The uncompressed elements of a key, one after the other, with the length of
/// the list before it.
pub open spec fn key_encoding(vk: VerifyingKey) -> Seq<u8> {
    vk.alpha_g1.encoding() + vk.beta_g2.encoding() + vk.gamma_g2.encoding()
        + vk.delta_g2.encoding() + vstd::bytes::spec_u64_to_le_bytes(
        vk.gamma_abc_g1@.len() as u64,
    ) + list_bytes(vk.gamma_abc_g1@, vk.gamma_abc_g1@.len() as int)
}

/// The uncompressed elements of a key, in the order of
/// `ark_groth16::VerifyingKey`, with the length of the list before it.
pub fn key_bytes(vk: &VerifyingKey) -> (r: Vec<u8>)
    ensures
        r@ == key_encoding(*vk),
{
    let mut out: Vec<u8> = Vec::new();
    push_bytes(&mut out, vk.alpha_g1.raw());
    push_bytes(&mut out, vk.beta_g2.raw());
    push_bytes(&mut out, vk.gamma_g2.raw());
    push_bytes(&mut out, vk.delta_g2.raw());
    let len = vstd::bytes::u64_to_le_bytes(vk.gamma_abc_g1.len() as u64);
    push_bytes(&mut out, len.as_slice());
    let ghost head = vk.alpha_g1.encoding() + vk.beta_g2.encoding() + vk.gamma_g2.encoding()
        + vk.delta_g2.encoding() + len@;
    assert(out@ =~= head + list_bytes(vk.gamma_abc_g1@, 0));
    let mut i: usize = 0;
    while i < vk.gamma_abc_g1.len()
        invariant
            i <= vk.gamma_abc_g1@.len(),
            out@ == head + list_bytes(vk.gamma_abc_g1@, i as int),
        decreases vk.gamma_abc_g1@.len() - i,
    {
        let ghost before = out@;
        push_bytes(&mut out, vk.gamma_abc_g1[i].raw());
        i = i + 1;
        assert(out@ =~= head + list_bytes(vk.gamma_abc_g1@, i as int));
    }
    out
}

/// The uncompressed elements of the key that bytes are read as, where they are read as
/// one whose elements are in the groups.
pub uninterp spec fn key_decoding(bytes: Seq<u8>) -> Option<Seq<u8>>;

/// There are bytes for the first elements of a key, and for as many further ones as
/// it is said that there are.
pub open spec fn key_fits(bytes: Seq<u8>) -> bool {
    &&& 680 <= bytes.len() <= usize::MAX / 4
    &&& 680 + 96 * ballot::length_at(bytes, 672) <= bytes.len()
}

/// A key is read back from its bytes.
pub open spec fn key_is_read_back(vk: VerifyingKey) -> bool {
    &&& key_fits(key_encoding(vk))
    &&& key_decoding(key_encoding(vk)) == Some(key_encoding(vk))
}

/// `serialize_uncompressed` on `ark_groth16::VerifyingKey` writes the elements one
/// after the other, with the length of the list before it. The key is read back from
/// the bytes, unless they are too long for a machine.
#[verifier::external_body]
pub(crate) fn write_key(vk: &VerifyingKey) -> (r: Vec<u8>)
    ensures
        r@ == key_encoding(*vk),
        r@.len() <= usize::MAX / 4 ==> key_fits(r@),
        key_decoding(r@) == Some(key_encoding(*vk)),
{
    let key = Groth16Key::<Bls12_381>::deserialize_uncompressed_unchecked(&key_bytes(vk)[..]);
    let mut out = Vec::new();
    key.unwrap().serialize_uncompressed(&mut out).unwrap();
    out
}

/// `deserialize_uncompressed` on `ark_groth16::VerifyingKey`, and `Valid::check` on the
/// key that it gives: the bytes determine the result. Reading alone takes points beside
/// the curve for elements of the groups; the check refuses them. Bytes that promise more
/// elements than they hold are left out, as room is made for what they promise.
#[verifier::external_body]
fn read_key(bytes: &[u8]) -> (r: Option<VerifyingKey>)
    requires
        key_fits(bytes@),
    ensures
        r is Some == key_decoding(bytes@) is Some,
        r matches Some(vk) ==> key_decoding(bytes@) == Some(key_encoding(vk)),
{
    let key = Groth16Key::<Bls12_381>::deserialize_uncompressed(bytes).ok()?;
    key.check().ok()?;
    let g1 = |p: &G1Affine| {
        let mut out = Vec::new();
        p.serialize_compressed(&mut out).unwrap();
        G1::from_bytes(&out).unwrap()
    };
    let [beta_g2, gamma_g2, delta_g2] = [key.beta_g2, key.gamma_g2, key.delta_g2].map(|p| {
        let mut out = Vec::new();
        p.serialize_compressed(&mut out).unwrap();
        G2::from_bytes(&out).unwrap()
    });
    let gamma_abc_g1 = key.gamma_abc_g1.iter().map(g1).collect();
    Some(VerifyingKey { alpha_g1: g1(&key.alpha_g1), beta_g2, gamma_g2, delta_g2, gamma_abc_g1 })
}

/// Reads a key from its bytes.
pub fn key_from_bytes(bytes: &[u8]) -> (r: Option<VerifyingKey>)
    ensures
        r is Some == (key_fits(bytes@) && key_decoding(bytes@) is Some),
        r matches Some(vk) ==> key_decoding(bytes@) == Some(key_encoding(vk)),
{
    let total: usize = bytes.len();
    if total < 680 || total > usize::MAX / 4 {
        return None;
    }
    let count: u64 = ballot::read_length(bytes, 672);
    if count > (total as u64 - 680) / 96 {
        return None;
    }
    read_key(bytes)
}

/// `SNARK::verify` of `ark_groth16::Groth16`: `None` where the key is for another
/// number of inputs, and else whether
/// `e(a, b) = e(alpha, beta) e(inputs, gamma) e(c, delta)`.
#[verifier::external_body]
fn groth16_verify(vk: &VerifyingKey, inputs: &[FieldElement], proof: &Proof) -> (r: Option<bool>)
    ensures
        r is Some == (inputs@.len() + 1 == vk.gamma_abc_g1@.len()),
        r matches Some(b) ==> b == proof_holds(*vk, *proof, elements(inputs@), inputs@.len()),
{
    let key = Groth16Key::deserialize_uncompressed_unchecked(&key_bytes(vk)[..]).unwrap();
    let p = Groth16Proof::deserialize_uncompressed_unchecked(&proof_bytes(proof)[..]).unwrap();
    let xs: Vec<Fr> = inputs.iter().map(|x| Fr::from(BigInt::new(x.limbs()))).collect();
    Groth16::<Bls12_381>::verify(&key, &xs, &p).ok()
}

/// The public inputs as numbers.
pub open spec fn ballot_inputs(cts: Seq<ZKElgamalCiphertext>, root: int, nullifier: int) -> Seq<int> {
    Seq::new((4 * cts.len() + 2) as nat, |k: int| public_input(cts, root, nullifier, k))
}

/// Verifies the proof of a ballot. It fails where the key is for another
/// number of candidates.
pub fn verify(
    vk: &VerifyingKey,
    proof: &Proof,
    enc_vote_vec: &[ZKElgamalCiphertext],
    voter_set_root: FieldElement,
    nullifier: FieldElement,
) -> (r: Result<bool, ZkError>)
    ensures
        r matches Err(e) ==> e == ZkError::MalformedVerifyingKey,
        r is Ok == (4 * enc_vote_vec@.len() + 3 == vk.gamma_abc_g1@.len()),
        r matches Ok(b) ==> b == proof_holds(
            *vk,
            *proof,
            ballot_inputs(enc_vote_vec@, voter_set_root@, nullifier@),
            (4 * enc_vote_vec@.len() + 2) as nat,
        ),
{
    let inputs = prepare_public_inputs(enc_vote_vec, voter_set_root, nullifier);
    assert(elements(inputs@) =~= ballot_inputs(enc_vote_vec@, voter_set_root@, nullifier@));
    match groth16_verify(vk, inputs.as_slice(), proof) {
        Some(b) => Ok(b),
        None => Err(ZkError::MalformedVerifyingKey),
    }
}

/// Prepares a verifying key: pairs its first two elements once.
pub fn prepare_verifying_key(vk: VerifyingKey) -> (r: PreparedVerifyingKey)
    ensures
        r.wf(),
        r.vk == vk,
{
    let mut a: Vec<G1> = Vec::new();
    let mut b: Vec<G2> = Vec::new();
    a.push(vk.alpha_g1.duplicate());
    b.push(vk.beta_g2.duplicate());
    let gt = Gt::pairing_product(a.as_slice(), b.as_slice());
    proof {
        let f = pairing::pairing_term(a@, b@);
        assert(modular::sum(1, f) == modular::sum(0, f) + f(0));
        assert(modular::sum(0, f) == 0);
    }
    PreparedVerifyingKey { vk, alpha_g1_beta_g2: gt }
}

/// The rows of public inputs as numbers.
pub open spec fn rows(inputs: Seq<Vec<FieldElement>>) -> Seq<Seq<int>> {
    Seq::new(inputs.len(), |i: int| elements(inputs[i]@))
}

/// Each proof's defect, weighted with its randomizer.
pub open spec fn weighted_defect(
    vk: VerifyingKey,
    proofs: Seq<Proof>,
    xs: Seq<Seq<int>>,
    rs: Seq<int>,
    k: nat,
) -> spec_fn(int) -> int {
    |i: int| rs[i] * defect(vk, proofs[i], xs[i], k)
}

spec fn weight(rs: Seq<int>) -> spec_fn(int) -> int {
    |i: int| rs[i]
}

spec fn weighted_ab(proofs: Seq<Proof>, rs: Seq<int>) -> spec_fn(int) -> int {
    |i: int| (proofs[i].a.log() * rs[i]) * proofs[i].b.log()
}

spec fn weighted_c(proofs: Seq<Proof>, rs: Seq<int>) -> spec_fn(int) -> int {
    |i: int| proofs[i].c.log() * rs[i]
}

spec fn weighted_inputs(vk: VerifyingKey, xs: Seq<Seq<int>>, rs: Seq<int>, k: nat) -> spec_fn(int) -> int {
    |i: int| rs[i] * input_log(vk, xs[i], k)
}

/// The weighted sum of one column of public inputs.
spec fn column(xs: Seq<Seq<int>>, rs: Seq<int>, m: nat, j: int) -> int {
    modular::sum(m, |i: int| xs[i][j] * rs[i])
}

spec fn column_term(vk: VerifyingKey, xs: Seq<Seq<int>>, rs: Seq<int>, m: nat) -> spec_fn(int) -> int {
    |j: int| column(xs, rs, m, j) * vk.gamma_abc_g1@[j + 1].log()
}

/// The weighted defects, gathered by what they are made of.
proof fn lemma_defect_sum(
    vk: VerifyingKey,
    proofs: Seq<Proof>,
    xs: Seq<Seq<int>>,
    rs: Seq<int>,
    k: nat,
    m: nat,
)
    ensures
        modular::sum(m, weighted_defect(vk, proofs, xs, rs, k)) == modular::sum(
            m,
            weighted_ab(proofs, rs),
        ) - (vk.alpha_g1.log() * vk.beta_g2.log()) * modular::sum(m, weight(rs)) - modular::sum(
            m,
            weighted_inputs(vk, xs, rs, k),
        ) * vk.gamma_g2.log() - modular::sum(m, weighted_c(proofs, rs)) * vk.delta_g2.log(),
    decreases m,
{
    let ab = vk.alpha_g1.log() * vk.beta_g2.log();
    let ga = vk.gamma_g2.log();
    let de = vk.delta_g2.log();
    if m == 0 {
        assert(ab * 0 == 0 && 0 * ga == 0 && 0 * de == 0) by (nonlinear_arith);
    } else {
        let n = (m - 1) as nat;
        lemma_defect_sum(vk, proofs, xs, rs, k, n);
        let r = rs[m - 1];
        let a = proofs[m - 1].a.log();
        let b = proofs[m - 1].b.log();
        let c = proofs[m - 1].c.log();
        let l = input_log(vk, xs[m - 1], k);
        let sr = modular::sum(n, weight(rs));
        let sl = modular::sum(n, weighted_inputs(vk, xs, rs, k));
        let sc = modular::sum(n, weighted_c(proofs, rs));
        let x = a * b;
        let y = l * ga;
        let z = c * de;
        assert(r * (x - ab - y - z) == r * x - r * ab - r * y - r * z) by (nonlinear_arith);
        assert(r * (a * b) == (a * r) * b) by (nonlinear_arith);
        assert(r * ab == ab * r) by (nonlinear_arith);
        assert(r * (l * ga) == (r * l) * ga) by (nonlinear_arith);
        assert(r * (c * de) == (c * r) * de) by (nonlinear_arith);
        assert(ab * (sr + r) == ab * sr + ab * r) by (nonlinear_arith);
        assert((sl + r * l) * ga == sl * ga + (r * l) * ga) by (nonlinear_arith);
        assert((sc + c * r) * de == sc * de + (c * r) * de) by (nonlinear_arith);
    }
}

/// The weighted inputs, column by column.
proof fn lemma_columns(vk: VerifyingKey, xs: Seq<Seq<int>>, rs: Seq<int>, k: nat, m: nat)
    ensures
        modular::sum(m, weighted_inputs(vk, xs, rs, k)) == vk.gamma_abc_g1@[0].log() * modular::sum(
            m,
            weight(rs),
        ) + modular::sum(k, column_term(vk, xs, rs, m)),
    decreases m,
{
    let g0 = vk.gamma_abc_g1@[0].log();
    if m == 0 {
        let f = column_term(vk, xs, rs, 0);
        let z = |j: int| 0int;
        assert forall|j: int| 0 <= j < k implies #[trigger] f(j) == z(j) by {
            assert(column(xs, rs, 0, j) == 0);
            assert(0 * vk.gamma_abc_g1@[j + 1].log() == 0) by (nonlinear_arith);
        }
        modular::lemma_sum_ext(k, f, z);
        modular::lemma_sum_zero(k);
        assert(g0 * 0 == 0) by (nonlinear_arith);
    } else {
        let n = (m - 1) as nat;
        lemma_columns(vk, xs, rs, k, n);
        let r = rs[m - 1];
        let x = xs[m - 1];
        let f = column_term(vk, xs, rs, m);
        let g = column_term(vk, xs, rs, n);
        let t = input_term(vk, x);
        let h = |j: int| r * t(j);
        let gh = |j: int| g(j) + h(j);
        assert forall|j: int| 0 <= j < k implies #[trigger] f(j) == gh(j) by {
            let q = |i: int| xs[i][j] * rs[i];
            assert(modular::sum(m, q) == modular::sum(n, q) + q(m - 1));
            let u = column(xs, rs, n, j);
            let w = x[j];
            let b = vk.gamma_abc_g1@[j + 1].log();
            assert((u + w * r) * b == u * b + r * (w * b)) by (nonlinear_arith);
        }
        modular::lemma_sum_ext(k, f, gh);
        modular::lemma_sum_plus(k, g, h);
        modular::lemma_sum_scale(k, t, r);
        let sr = modular::sum(n, weight(rs));
        let st = modular::sum(k, t);
        assert(g0 * (sr + r) == g0 * sr + g0 * r) by (nonlinear_arith);
        assert(r * (g0 + st) == g0 * r + r * st) by (nonlinear_arith);
    }
}

/// The sum of the randomizers.
fn total_weight(randomizers: &[FieldElement]) -> (r: FieldElement)
    ensures
        modular::eqm(
            r@,
            modular::sum(randomizers@.len(), weight(elements(randomizers@))),
            field::field_order(),
        ),
{
    let ghost q = field::field_order();
    let ghost f = weight(elements(randomizers@));
    let mut acc = FieldElement::zero();
    let mut i: usize = 0;
    while i < randomizers.len()
        invariant
            i <= randomizers@.len(),
            q == field::field_order(),
            f == weight(elements(randomizers@)),
            modular::eqm(acc@, modular::sum(i as nat, f), q),
        decreases randomizers@.len() - i,
    {
        proof {
            let k = i as int;
            assert(modular::sum((i + 1) as nat, f) == modular::sum(i as nat, f) + f(k));
            modular::lemma_eqm_add(acc@, modular::sum(i as nat, f), randomizers@[k]@, f(k), q);
            modular::lemma_eqm_mod(acc@ + randomizers@[k]@, q);
        }
        acc = acc.plus(&randomizers[i]);
        i = i + 1;
    }
    acc
}

/// The weighted sum of one column of public inputs.
fn aggregate_column(
    public_inputs: &[Vec<FieldElement>],
    randomizers: &[FieldElement],
    j: usize,
) -> (r: FieldElement)
    requires
        public_inputs@.len() == randomizers@.len(),
        forall|i: int| 0 <= i < public_inputs@.len() ==> j < (#[trigger] public_inputs@[i])@.len(),
    ensures
        modular::eqm(
            r@,
            column(
                rows(public_inputs@),
                elements(randomizers@),
                public_inputs@.len(),
                j as int,
            ),
            field::field_order(),
        ),
{
    let ghost q = field::field_order();
    let ghost xs = rows(public_inputs@);
    let ghost rs = elements(randomizers@);
    let ghost f = |i: int| xs[i][j as int] * rs[i];
    let mut acc = FieldElement::zero();
    let mut i: usize = 0;
    while i < public_inputs.len()
        invariant
            i <= public_inputs@.len(),
            q == field::field_order(),
            public_inputs@.len() == randomizers@.len(),
            forall|i: int| 0 <= i < public_inputs@.len() ==> j < (#[trigger] public_inputs@[i])@.len(),
            xs == rows(public_inputs@),
            rs == elements(randomizers@),
            f == (|i: int| xs[i][j as int] * rs[i]),
            modular::eqm(acc@, modular::sum(i as nat, f), q),
        decreases public_inputs@.len() - i,
    {
        assert(j < public_inputs@[i as int]@.len());
        let term = public_inputs[i][j].times(&randomizers[i]);
        proof {
            let k = i as int;
            modular::lemma_eqm_mod(public_inputs@[k]@[j as int]@ * randomizers@[k]@, q);
            assert(modular::sum((i + 1) as nat, f) == modular::sum(i as nat, f) + f(k));
            modular::lemma_eqm_add(acc@, modular::sum(i as nat, f), term@, f(k), q);
            modular::lemma_eqm_mod(acc@ + term@, q);
        }
        acc = acc.plus(&term);
        i = i + 1;
    }
    acc
}

/// Combines the key's elements by public inputs, as `prepare_inputs` of
/// `ark_groth16` does. It fails where their number does not fit the key.
pub fn prepare_inputs(vk: &VerifyingKey, inputs: &[FieldElement]) -> (r: Result<G1, ZkError>)
    ensures
        r is Ok == (inputs@.len() + 1 == vk.gamma_abc_g1@.len()),
        r matches Err(e) ==> e == ZkError::MalformedVerifyingKey,
        r matches Ok(p) ==> modular::eqm(
            p.log(),
            input_log(*vk, elements(inputs@), inputs@.len()),
            field::field_order(),
        ),
{
    if vk.gamma_abc_g1.len() == 0 || vk.gamma_abc_g1.len() - 1 != inputs.len() {
        return Err(ZkError::MalformedVerifyingKey);
    }
    let ghost q = field::field_order();
    let ghost f = input_term(*vk, elements(inputs@));
    let mut acc = vk.gamma_abc_g1[0].duplicate();
    let mut i: usize = 0;
    while i < inputs.len()
        invariant
            i <= inputs@.len(),
            inputs@.len() + 1 == vk.gamma_abc_g1@.len(),
            q == field::field_order(),
            f == input_term(*vk, elements(inputs@)),
            modular::eqm(
                acc.log(),
                vk.gamma_abc_g1@[0].log() + modular::sum(i as nat, f),
                q,
            ),
        decreases inputs@.len() - i,
    {
        let term = vk.gamma_abc_g1[i + 1].times(&inputs[i]);
        proof {
            let k = i as int;
            let b = vk.gamma_abc_g1@[k + 1].log();
            let x = inputs@[k]@;
            modular::lemma_eqm_mod(b * x, q);
            assert(b * x == x * b) by (nonlinear_arith);
            assert(modular::sum((i + 1) as nat, f) == modular::sum(i as nat, f) + f(k));
            modular::lemma_eqm_add(
                acc.log(),
                vk.gamma_abc_g1@[0].log() + modular::sum(i as nat, f),
                term.log(),
                f(k),
                q,
            );
            modular::lemma_eqm_mod(acc.log() + term.log(), q);
        }
        acc = acc.plus(&term);
        i = i + 1;
    }
    Ok(acc)
}

/// The batch equation: the weighted defects cancel.
pub open spec fn batch_holds(
    vk: VerifyingKey,
    proofs: Seq<Proof>,
    xs: Seq<Seq<int>>,
    rs: Seq<int>,
    k: nat,
) -> bool {
    modular::eqm(
        modular::sum(proofs.len(), weighted_defect(vk, proofs, xs, rs, k)),
        0,
        field::field_order(),
    )
}

/// Two sums over one list each, of lists that agree so far, with one more pair.
proof fn lemma_pairing_push(a: Seq<G1>, b: Seq<G2>, x: G1, y: G2)
    requires
        a.len() == b.len(),
    ensures
        modular::sum(a.len() + 1, pairing::pairing_term(a.push(x), b.push(y))) == modular::sum(
            a.len(),
            pairing::pairing_term(a, b),
        ) + x.log() * y.log(),
{
    let f = pairing::pairing_term(a.push(x), b.push(y));
    let g = pairing::pairing_term(a, b);
    assert forall|i: int| 0 <= i < a.len() implies #[trigger] f(i) == g(i) by {}
    modular::lemma_sum_ext(a.len(), f, g);
}

/// The pairings of the proofs' first elements, weighted, and the elements for
/// the multi-scalar multiplication.
fn weighted_pairs(proofs: &[Proof], randomizers: &[FieldElement]) -> (r: (Vec<G1>, Vec<G2>, Vec<G1>))
    requires
        proofs@.len() == randomizers@.len(),
    ensures
        r.0@.len() == proofs@.len(),
        r.1@.len() == proofs@.len(),
        r.2@.len() == proofs@.len(),
        modular::eqm(
            modular::sum(proofs@.len(), pairing::pairing_term(r.0@, r.1@)),
            modular::sum(proofs@.len(), weighted_ab(proofs@, elements(randomizers@))),
            field::field_order(),
        ),
        modular::sum(proofs@.len(), pairing::msm_term(r.2@, randomizers@)) == modular::sum(
            proofs@.len(),
            weighted_c(proofs@, elements(randomizers@)),
        ),
{
    let ghost q = field::field_order();
    let ghost rs = elements(randomizers@);
    let mut scaled: Vec<G1> = Vec::new();
    let mut bs: Vec<G2> = Vec::new();
    let mut cs: Vec<G1> = Vec::new();
    let mut i: usize = 0;
    while i < proofs.len()
        invariant
            i <= proofs@.len(),
            proofs@.len() == randomizers@.len(),
            q == field::field_order(),
            rs == elements(randomizers@),
            scaled@.len() == i,
            bs@.len() == i,
            cs@.len() == i,
            forall|k: int|
                0 <= k < i ==> #[trigger] scaled@[k].log() == (proofs@[k].a.log() * rs[k]) % q,
            forall|k: int| 0 <= k < i ==> #[trigger] bs@[k].log() == proofs@[k].b.log(),
            forall|k: int| 0 <= k < i ==> #[trigger] cs@[k].log() == proofs@[k].c.log(),
        decreases proofs@.len() - i,
    {
        scaled.push(proofs[i].a.times(&randomizers[i]));
        bs.push(proofs[i].b.duplicate());
        cs.push(proofs[i].c.duplicate());
        i = i + 1;
    }
    proof {
        let f = pairing::pairing_term(scaled@, bs@);
        let g = weighted_ab(proofs@, rs);
        assert forall|k: int| 0 <= k < proofs@.len() implies modular::eqm(#[trigger] f(k), g(k), q) by {
            assert(scaled@[k].log() == (proofs@[k].a.log() * rs[k]) % q);
            assert(bs@[k].log() == proofs@[k].b.log());
            let w = proofs@[k].a.log() * rs[k];
            modular::lemma_eqm_mod(w, q);
            modular::lemma_eqm_mul(w % q, w, bs@[k].log(), bs@[k].log(), q);
        }
        modular::lemma_sum_eqm(proofs@.len(), f, g, q);
        let u = pairing::msm_term(cs@, randomizers@);
        let v = weighted_c(proofs@, rs);
        assert forall|k: int| 0 <= k < proofs@.len() implies #[trigger] u(k) == v(k) by {
            assert(cs@[k].log() == proofs@[k].c.log());
        }
        modular::lemma_sum_ext(proofs@.len(), u, v);
    }
    (scaled, bs, cs)
}

/// Verifies proofs together, weighted with the given randomizers: fails where
/// the numbers of proofs and inputs differ, or the inputs do not fit the key;
/// accepts nothing to verify; and else tells whether the batch equation holds.
pub fn batch_verify_with(
    pvk: &PreparedVerifyingKey,
    proofs: &[Proof],
    public_inputs: &[Vec<FieldElement>],
    randomizers: &[FieldElement],
) -> (r: Result<bool, ZkError>)
    requires
        pvk.wf(),
        randomizers@.len() == proofs@.len(),
        proofs@.len() == public_inputs@.len() ==> forall|i: int|
            0 <= i < public_inputs@.len() ==> public_inputs@[0]@.len() <= (
            #[trigger] public_inputs@[i])@.len(),
    ensures
        proofs@.len() != public_inputs@.len() ==> r == Err::<bool, ZkError>(ZkError::Unsatisfiable),
        proofs@.len() == public_inputs@.len() && proofs@.len() == 0 ==> r == Ok::<bool, ZkError>(
            true,
        ),
        proofs@.len() == public_inputs@.len() && proofs@.len() > 0 ==> {
            let k = public_inputs@[0]@.len();
            if k + 1 != pvk.vk.gamma_abc_g1@.len() {
                r == Err::<bool, ZkError>(ZkError::MalformedVerifyingKey)
            } else {
                r == Ok::<bool, ZkError>(
                    batch_holds(
                        pvk.vk,
                        proofs@,
                        rows(public_inputs@),
                        elements(randomizers@),
                        k,
                    ),
                )
            }
        },
{
    if proofs.len() != public_inputs.len() {
        return Err(ZkError::Unsatisfiable);
    }
    if proofs.len() == 0 {
        return Ok(true);
    }
    let ghost q = field::field_order();
    let ghost vk = pvk.vk;
    let ghost m = proofs@.len();
    let ghost xs = rows(public_inputs@);
    let ghost rs = elements(randomizers@);
    let ghost k = public_inputs@[0]@.len();
    let total_r = total_weight(randomizers);
    let num_inputs: usize = public_inputs[0].len();
    let mut aggregated: Vec<FieldElement> = Vec::new();
    let mut j: usize = 0;
    while j < num_inputs
        invariant
            j <= num_inputs,
            k == num_inputs,
            m == public_inputs@.len(),
            public_inputs@.len() == randomizers@.len(),
            q == field::field_order(),
            xs == rows(public_inputs@),
            rs == elements(randomizers@),
            forall|i: int|
                0 <= i < public_inputs@.len() ==> num_inputs <= (#[trigger] public_inputs@[i])@.len(),
            aggregated@.len() == j,
            forall|c: int|
                0 <= c < j ==> modular::eqm((#[trigger] aggregated@[c])@, column(xs, rs, m, c), q),
        decreases num_inputs - j,
    {
        aggregated.push(aggregate_column(public_inputs, randomizers, j));
        j = j + 1;
    }
    let g_ic = match prepare_inputs(&pvk.vk, aggregated.as_slice()) {
        Ok(p) => p,
        Err(e) => {
            return Err(e);
        },
    };
    let factor = total_r.minus(&FieldElement::one());
    let adjustment = pvk.vk.gamma_abc_g1[0].times(&factor);
    let l_sum = g_ic.plus(&adjustment);
    let (mut left, mut right, c_points) = weighted_pairs(proofs, randomizers);
    let ghost left0 = left@;
    let ghost right0 = right@;
    let c_sum = G1::msm(c_points.as_slice(), randomizers);
    let neg_gamma = pvk.vk.gamma_g2.negated();
    let neg_delta = pvk.vk.delta_g2.negated();
    proof {
        lemma_pairing_push(left0, right0, l_sum, neg_gamma);
        lemma_pairing_push(left0.push(l_sum), right0.push(neg_gamma), c_sum, neg_delta);
    }
    left.push(l_sum);
    right.push(neg_gamma);
    left.push(c_sum);
    right.push(neg_delta);
    let lhs = Gt::pairing_product(left.as_slice(), right.as_slice());
    let rhs = pvk.alpha_g1_beta_g2.power(&total_r);
    proof {
        let sr = modular::sum(m, weight(rs));
        let sab = modular::sum(m, weighted_ab(proofs@, rs));
        let sl = modular::sum(m, weighted_inputs(vk, xs, rs, k));
        let sc = modular::sum(m, weighted_c(proofs@, rs));
        let ab = vk.alpha_g1.log() * vk.beta_g2.log();
        let ga = vk.gamma_g2.log();
        let de = vk.delta_g2.log();
        let g0 = vk.gamma_abc_g1@[0].log();
        // The combined inputs.
        let f = input_term(vk, elements(aggregated@));
        let g = column_term(vk, xs, rs, m);
        assert forall|c: int| 0 <= c < k implies modular::eqm(#[trigger] f(c), g(c), q) by {
            assert(modular::eqm(aggregated@[c]@, column(xs, rs, m, c), q));
            let b = vk.gamma_abc_g1@[c + 1].log();
            modular::lemma_eqm_mul(aggregated@[c]@, column(xs, rs, m, c), b, b, q);
        }
        modular::lemma_sum_eqm(k, f, g, q);
        lemma_columns(vk, xs, rs, k, m);
        let sg = modular::sum(k, g);
        modular::lemma_eqm_add(g0, g0, modular::sum(k, f), sg, q);
        modular::lemma_small(1, q);
        modular::lemma_eqm_add(total_r@, sr, 1, 1, q);
        modular::lemma_eqm_mod(total_r@ - 1, q);
        modular::lemma_eqm_mul(g0, g0, factor@, sr - 1, q);
        modular::lemma_eqm_mod(g0 * factor@, q);
        modular::lemma_eqm_add(g_ic.log(), g0 + sg, adjustment.log(), g0 * (sr - 1), q);
        modular::lemma_eqm_mod(g_ic.log() + adjustment.log(), q);
        assert(g0 + sg + g0 * (sr - 1) == g0 * sr + sg) by (nonlinear_arith);
        assert(modular::eqm(l_sum.log(), sl, q));
        // The pairings.
        modular::lemma_eqm_mod(0 - ga, q);
        modular::lemma_eqm_mod(0 - de, q);
        modular::lemma_eqm_mul(l_sum.log(), sl, neg_gamma.log(), 0 - ga, q);
        modular::lemma_eqm_mod(sc, q);
        modular::lemma_eqm_mul(c_sum.log(), sc, neg_delta.log(), 0 - de, q);
        let p0 = modular::sum(m, pairing::pairing_term(left0, right0));
        modular::lemma_eqm_add(p0, sab, l_sum.log() * neg_gamma.log(), sl * (0 - ga), q);
        modular::lemma_eqm_add(
            p0 + l_sum.log() * neg_gamma.log(),
            sab + sl * (0 - ga),
            c_sum.log() * neg_delta.log(),
            sc * (0 - de),
            q,
        );
        assert(sl * (0 - ga) == -(sl * ga)) by (nonlinear_arith);
        assert(sc * (0 - de) == -(sc * de)) by (nonlinear_arith);
        let t = modular::sum(left@.len(), pairing::pairing_term(left@, right@));
        modular::lemma_eqm_mod(t, q);
        assert(modular::eqm(lhs.log(), sab - sl * ga - sc * de, q));
        // The other side.
        modular::lemma_eqm_mod(ab, q);
        modular::lemma_eqm_mul(pvk.alpha_g1_beta_g2.log(), ab, total_r@, sr, q);
        modular::lemma_eqm_mod(pvk.alpha_g1_beta_g2.log() * total_r@, q);
        assert(modular::eqm(rhs.log(), ab * sr, q));
        lemma_defect_sum(vk, proofs@, xs, rs, k, m);
        let d = modular::sum(m, weighted_defect(vk, proofs@, xs, rs, k));
        assert(d == sab - ab * sr - sl * ga - sc * de);
        modular::lemma_eqm_add(lhs.log(), sab - sl * ga - sc * de, rhs.log(), ab * sr, q);
        assert(modular::eqm(lhs.log() - rhs.log(), d, q));
        lemma_gt_difference(lhs, rhs, d);
    }
    Ok(lhs.same(&rhs))
}

/// Two elements of the target group are the same where their logarithms differ
/// by a multiple of the order.
proof fn lemma_gt_difference(a: Gt, b: Gt, d: int)
    requires
        modular::eqm(a.log() - b.log(), d, field::field_order()),
    ensures
        (a.log() == b.log()) == modular::eqm(d, 0, field::field_order()),
{
    let q = field::field_order();
    pairing::lemma_gt_range(a);
    pairing::lemma_gt_range(b);
    if modular::eqm(d, 0, q) {
        modular::lemma_eqm_add(a.log() - b.log(), 0, b.log(), b.log(), q);
        modular::lemma_eqm_small(a.log(), b.log(), q);
    }
}

/// Verifies proofs together, weighted with fresh randomizers.
pub fn batch_verify(
    pvk: &PreparedVerifyingKey,
    proofs: &[Proof],
    public_inputs: &[Vec<FieldElement>],
) -> (r: Result<bool, ZkError>)
    requires
        pvk.wf(),
        proofs@.len() == public_inputs@.len() ==> forall|i: int|
            0 <= i < public_inputs@.len() ==> public_inputs@[0]@.len() <= (
            #[trigger] public_inputs@[i])@.len(),
    ensures
        proofs@.len() != public_inputs@.len() ==> r == Err::<bool, ZkError>(ZkError::Unsatisfiable),
        proofs@.len() == public_inputs@.len() && proofs@.len() == 0 ==> r == Ok::<bool, ZkError>(
            true,
        ),
        proofs@.len() == public_inputs@.len() && proofs@.len() > 0 ==> {
            let k = public_inputs@[0]@.len();
            if k + 1 != pvk.vk.gamma_abc_g1@.len() {
                r == Err::<bool, ZkError>(ZkError::MalformedVerifyingKey)
            } else {
                exists|rs: Seq<int>|
                    rs.len() == proofs@.len() && r == Ok::<bool, ZkError>(
                        #[trigger] batch_holds(pvk.vk, proofs@, rows(public_inputs@), rs, k),
                    )
            }
        },
{
    let mut randomizers: Vec<FieldElement> = Vec::new();
    let mut i: usize = 0;
    while i < proofs.len()
        invariant
            i <= proofs@.len(),
            randomizers@.len() == i,
        decreases proofs@.len() - i,
    {
        randomizers.push(FieldElement::random());
        i = i + 1;
    }
    let r = batch_verify_with(pvk, proofs, public_inputs, randomizers.as_slice());
    assert(elements(randomizers@).len() == proofs@.len());
    r
}

/// A batch of valid proofs is accepted, whatever the randomizers.
pub proof fn law_valid_batch_is_accepted(
    vk: VerifyingKey,
    proofs: Seq<Proof>,
    xs: Seq<Seq<int>>,
    rs: Seq<int>,
    k: nat,
)
    requires
        forall|i: int| 0 <= i < proofs.len() ==> proof_holds(vk, #[trigger] proofs[i], xs[i], k),
    ensures
        batch_holds(vk, proofs, xs, rs, k),
{
    let q = field::field_order();
    let f = weighted_defect(vk, proofs, xs, rs, k);
    let z = |i: int| 0int;
    assert forall|i: int| 0 <= i < proofs.len() implies modular::eqm(#[trigger] f(i), z(i), q) by {
        let d = defect(vk, proofs[i], xs[i], k);
        assert(proof_holds(vk, proofs[i], xs[i], k));
        modular::lemma_eqm_mul(rs[i], rs[i], d, 0, q);
        assert(rs[i] * 0 == 0) by (nonlinear_arith);
    }
    modular::lemma_sum_eqm(proofs.len(), f, z, q);
    modular::lemma_sum_zero(proofs.len());
}

/// An invalid proof is not hidden by the others: if a batch is accepted under
/// two choices of one proof's randomizer, the difference of the two takes that
/// proof's defect to zero.
pub proof fn law_batch_exposes_an_invalid_proof(
    vk: VerifyingKey,
    proofs: Seq<Proof>,
    xs: Seq<Seq<int>>,
    rs: Seq<int>,
    k: nat,
    at: int,
    other: int,
)
    requires
        rs.len() == proofs.len(),
        0 <= at < proofs.len(),
        batch_holds(vk, proofs, xs, rs, k),
        batch_holds(vk, proofs, xs, rs.update(at, other), k),
    ensures
        modular::eqm(
            (other - rs[at]) * defect(vk, proofs[at], xs[at], k),
            0,
            field::field_order(),
        ),
{
    let q = field::field_order();
    let rs2 = rs.update(at, other);
    let f = weighted_defect(vk, proofs, xs, rs, k);
    let g = weighted_defect(vk, proofs, xs, rs2, k);
    let d = defect(vk, proofs[at], xs[at], k);
    let r = rs[at];
    assert((other - r) * d == other * d - r * d) by (nonlinear_arith);
    lemma_sum_change(proofs.len(), f, g, at);
    modular::lemma_eqm_add(
        modular::sum(proofs.len(), g),
        0,
        modular::sum(proofs.len(), f),
        0,
        q,
    );
}

/// Sums that differ in one term differ by its change.
proof fn lemma_sum_change(k: nat, f: spec_fn(int) -> int, g: spec_fn(int) -> int, at: int)
    requires
        0 <= at < k,
        forall|i: int| 0 <= i < k && i != at ==> #[trigger] f(i) == g(i),
    ensures
        modular::sum(k, g) - modular::sum(k, f) == g(at) - f(at),
    decreases k,
{
    if at == k - 1 {
        modular::lemma_sum_ext((k - 1) as nat, f, g);
    } else {
        assert(f(k - 1) == g(k - 1));
        lemma_sum_change((k - 1) as nat, f, g, at);
    }
}

/// The public inputs of a ballot: four for each ciphertext, the coordinates of its first
/// and of its second point, then the root of the voters' tree and the nullifier.
pub proof fn law_public_inputs(
    cts: Seq<ZKElgamalCiphertext>,
    root: int,
    nullifier: int,
    i: int,
)
    requires
        0 <= i < cts.len(),
    ensures
        ({
            let row = ballot_inputs(cts, root, nullifier);
            &&& row.len() == 4 * cts.len() + 2
            &&& (row[4 * i], row[4 * i + 1]) == cts[i].c1.coords()
            &&& (row[4 * i + 2], row[4 * i + 3]) == cts[i].c2.coords()
            &&& row[4 * cts.len() as int] == root
            &&& row[row.len() - 1] == nullifier
        }),
{
}

/// A proof holds exactly where the pairing of its first two elements is that of the key's,
/// times that of the inputs' combination, times that of its third, in the exponent.
pub proof fn law_proof_equation(vk: VerifyingKey, proof: Proof, inputs: Seq<int>, k: nat)
    ensures
        proof_holds(vk, proof, inputs, k) <==> modular::eqm(
            proof.a.log() * proof.b.log(),
            vk.alpha_g1.log() * vk.beta_g2.log() + (vk.gamma_abc_g1@[0].log() + modular::sum(
                k,
                |j: int| inputs[j] * vk.gamma_abc_g1@[j + 1].log(),
            )) * vk.gamma_g2.log() + proof.c.log() * vk.delta_g2.log(),
            field::field_order(),
        ),
{
    let n = field::field_order();
    let f = |j: int| inputs[j] * vk.gamma_abc_g1@[j + 1].log();
    modular::lemma_sum_ext(k, input_term(vk, inputs), f);
    let lhs = proof.a.log() * proof.b.log();
    let rhs = vk.alpha_g1.log() * vk.beta_g2.log() + (vk.gamma_abc_g1@[0].log() + modular::sum(
        k,
        f,
    )) * vk.gamma_g2.log() + proof.c.log() * vk.delta_g2.log();
    let d = defect(vk, proof, inputs, k);
    assert(d == lhs - rhs);
    if modular::eqm(d, 0, n) {
        modular::lemma_eqm_add(d, 0, rhs, rhs, n);
    }
    if modular::eqm(lhs, rhs, n) {
        modular::lemma_eqm_add(lhs, rhs, rhs, rhs, n);
    }
}

} // verus!
