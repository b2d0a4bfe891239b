//! Ballots: their encryption, the statement that a ballot proof proves, and
//! the public inputs that go with it.
use crate::curve;
use crate::curve::Point;
use crate::elgamal::{elgamal_encrypt, encode_vote};
use crate::field;
use crate::field::{FieldElement, Scalar};
use crate::modular;
use crate::poseidon::PoseidonParams;
use crate::zkp;
use crate::zkp::{prepare_public_inputs, Proof, VoteTransaction, ZKElgamalCiphertext, ZkError};
use ark_bls12_381::Fr;
use ark_ff::{BigInt, PrimeField};
use ark_serialize::{CanonicalDeserialize, CanonicalSerialize};
use vstd::prelude::*;

verus! {

/// The way from a leaf of the voters' tree to its root: the leaf's sibling and
/// position, and the siblings of the nodes above, from the root down.
#[derive(Debug)]
pub struct MerklePath {
    pub leaf_sibling_hash: FieldElement,
    pub leaf_index: u64,
    pub auth_path: Vec<FieldElement>,
}

/// The hash of a node and its sibling: the node is the left one at an even
/// position.
pub open spec fn join(params: PoseidonParams, cur: int, sibling: int, index: int) -> int {
    if index % 2 == 0 {
        params.pair_of(cur, sibling)
    } else {
        params.pair_of(sibling, cur)
    }
}

/// The node that is reached from `cur`, at position `index` of its level, by the
/// first `level` siblings from the root down.
pub open spec fn climb(
    params: PoseidonParams,
    cur: int,
    index: int,
    siblings: Seq<int>,
    level: nat,
) -> int
    decreases level,
{
    if level == 0 {
        cur
    } else {
        climb(
            params,
            join(params, cur, siblings[level - 1], index),
            index / 2,
            siblings,
            (level - 1) as nat,
        )
    }
}

/// The root that a path leads to from a leaf.
pub open spec fn path_root(params: PoseidonParams, leaf: int, path: MerklePath) -> int {
    climb(
        params,
        join(params, leaf, path.leaf_sibling_hash@, path.leaf_index as int),
        path.leaf_index as int / 2,
        zkp::elements(path.auth_path@),
        path.auth_path@.len(),
    )
}

fn join_nodes(params: &PoseidonParams, cur: &FieldElement, sibling: &FieldElement, index: u64) -> (r:
    FieldElement)
    requires
        params.wf(),
    ensures
        r@ == join(*params, cur@, sibling@, index as int),
{
    if index % 2 == 0 {
        params.evaluate_pair(cur, sibling)
    } else {
        params.evaluate_pair(sibling, cur)
    }
}

/// The root that a path leads to from a leaf.
pub fn root_of_path(params: &PoseidonParams, leaf: &FieldElement, path: &MerklePath) -> (r:
    FieldElement)
    requires
        params.wf(),
    ensures
        r@ == path_root(*params, leaf@, *path),
{
    let ghost siblings = zkp::elements(path.auth_path@);
    let mut cur = join_nodes(params, leaf, &path.leaf_sibling_hash, path.leaf_index);
    let mut index: u64 = path.leaf_index / 2;
    let mut level: usize = path.auth_path.len();
    while level > 0
        invariant
            level <= path.auth_path@.len(),
            params.wf(),
            siblings == zkp::elements(path.auth_path@),
            climb(*params, cur@, index as int, siblings, level as nat) == path_root(
                *params,
                leaf@,
                *path,
            ),
        decreases level,
    {
        level = level - 1;
        cur = join_nodes(params, &cur, &path.auth_path[level], index);
        index = index / 2;
    }
    cur
}

/// The path of the first leaf in a tree of the given height whose other nodes
/// are all zero.
pub fn blank_path(merkle_height: usize) -> (r: MerklePath)
    requires
        merkle_height >= 1,
    ensures
        r.leaf_sibling_hash@ == 0,
        r.leaf_index == 0,
        r.auth_path@.len() == merkle_height - 1,
        forall|i: int| 0 <= i < r.auth_path@.len() ==> (#[trigger] r.auth_path@[i])@ == 0,
{
    let mut auth_path: Vec<FieldElement> = Vec::new();
    let mut i: usize = 1;
    while i < merkle_height
        invariant
            1 <= i <= merkle_height,
            auth_path@.len() == i - 1,
            forall|k: int| 0 <= k < auth_path@.len() ==> (#[trigger] auth_path@[k])@ == 0,
        decreases merkle_height - i,
    {
        auth_path.push(FieldElement::zero());
        i = i + 1;
    }
    MerklePath { leaf_sibling_hash: FieldElement::zero(), leaf_index: 0, auth_path }
}

/// The leaf of a voter: the hash of the credential and the election.
pub fn voter_leaf(params_leaf: &PoseidonParams, cred: &FieldElement, election_id: &FieldElement) -> (r:
    FieldElement)
    requires
        params_leaf.wf(),
    ensures
        r@ == params_leaf.hash_of(seq![cred@, election_id@]),
{
    let mut inputs: Vec<FieldElement> = Vec::new();
    inputs.push(*cred);
    inputs.push(*election_id);
    assert(zkp::elements(inputs@) =~= seq![cred@, election_id@]);
    params_leaf.evaluate(inputs.as_slice())
}

/// The root of the tree that a proving key is set up for: the leaf of the zero
/// credential on a blank path.
pub fn blank_root(params_leaf: &PoseidonParams, params_merkle: &PoseidonParams, path: &MerklePath) -> (r:
    FieldElement)
    requires
        params_leaf.wf(),
        params_merkle.wf(),
    ensures
        r@ == path_root(*params_merkle, params_leaf.hash_of(seq![0, 0]), *path),
{
    let leaf = voter_leaf(params_leaf, &FieldElement::zero(), &FieldElement::zero());
    root_of_path(params_merkle, &leaf, path)
}

/// The number that the bytes of `NF` stand for: it separates nullifiers from
/// other hashes.
pub open spec fn nf_constant() -> int {
    78int + 256 * 70
}

fn nullifier_domain() -> (r: FieldElement)
    ensures
        r@ == nf_constant(),
{
    let mut bytes: Vec<u8> = Vec::new();
    bytes.push(78);
    bytes.push(70);
    proof {
        let s = bytes@;
        assert(s.drop_first().len() == 1);
        assert(s.drop_first().drop_first().len() == 0);
        assert(field::le_value(s.drop_first().drop_first()) == 0);
        assert(field::le_value(s.drop_first()) == 70);
        assert(field::le_value(s) == nf_constant());
        modular::lemma_small(nf_constant(), field::field_order());
    }
    FieldElement::from_le_bytes_mod_order(bytes.as_slice())
}

/// The nullifier of a credential: it is the same in every ballot of one voter.
pub fn nullifier_of(params_nullifier: &PoseidonParams, cred: &FieldElement) -> (r: FieldElement)
    requires
        params_nullifier.wf(),
    ensures
        r@ == params_nullifier.hash_of(seq![nf_constant(), cred@]),
{
    let mut inputs: Vec<FieldElement> = Vec::new();
    inputs.push(nullifier_domain());
    inputs.push(*cred);
    assert(zkp::elements(inputs@) =~= seq![nf_constant(), cred@]);
    params_nullifier.evaluate(inputs.as_slice())
}

/// The field element that bytes stand for, reduced.
pub fn element_of_bytes(bytes: &[u8]) -> (r: FieldElement)
    ensures
        r@ == field::le_value(bytes@) % field::field_order(),
{
    FieldElement::from_le_bytes_mod_order(bytes)
}

/// What is public of a ballot.
#[derive(Debug)]
pub struct VoteStatement {
    pub election_id: FieldElement,
    pub voter_set_root: FieldElement,
    pub nullifier: FieldElement,
    pub enc_vote_vec: Vec<ZKElgamalCiphertext>,
    pub committee_pk: Point,
    pub elgamal_generator: Point,
}

/// What only the voter knows of a ballot.
#[derive(Debug)]
pub struct VoteWitness {
    pub cred: FieldElement,
    pub merkle_path: MerklePath,
    pub vote_bits: Vec<bool>,
    pub encryption_rand: Scalar,
}

/// How many of the first `k` bits are set.
pub open spec fn bits_set(bits: Seq<bool>, k: int) -> nat
    decreases k,
{
    if k <= 0 {
        0
    } else {
        bits_set(bits, k - 1) + (if bits[k - 1] {
            1nat
        } else {
            0nat
        })
    }
}

/// A ciphertext encrypts a bit under `pk` with the randomness `r`.
pub open spec fn encrypts_bit(
    ct: ZKElgamalCiphertext,
    bit: bool,
    pk: Point,
    g: Point,
    r: int,
) -> bool {
    let n = field::scalar_order();
    &&& ct.c1.log() == (g.log() * r) % n
    &&& ct.c2.log() == ((if bit {
        g.log()
    } else {
        0
    }) + pk.log() * r) % n
}

/// The statement that a ballot proof proves: the voter's leaf is in the tree,
/// the nullifier is the voter's, exactly one candidate is chosen, and the
/// ciphertexts encrypt the choice.
pub open spec fn vote_relation(
    s: VoteStatement,
    w: VoteWitness,
    params_leaf: PoseidonParams,
    params_merkle: PoseidonParams,
    params_nullifier: PoseidonParams,
) -> bool {
    &&& path_root(
        params_merkle,
        params_leaf.hash_of(seq![w.cred@, s.election_id@]),
        w.merkle_path,
    ) == s.voter_set_root@
    &&& params_nullifier.hash_of(seq![nf_constant(), w.cred@]) == s.nullifier@
    &&& bits_set(w.vote_bits@, w.vote_bits@.len() as int) == 1
    &&& forall|i: int|
        0 <= i < w.vote_bits@.len() && i < s.enc_vote_vec@.len() ==> encrypts_bit(
            #[trigger] s.enc_vote_vec@[i],
            w.vote_bits@[i],
            s.committee_pk,
            s.elgamal_generator,
            w.encryption_rand@,
        )
}

/// Whether a ciphertext encrypts a bit.
fn check_bit(ct: &ZKElgamalCiphertext, bit: bool, pk: &Point, g: &Point, r: &Scalar) -> (b: bool)
    ensures
        b == encrypts_bit(*ct, bit, *pk, *g, r@),
{
    broadcast use crate::curve::lemma_log_range;

    let c1 = g.times(r);
    let rpk = pk.times(r);
    let ghost n = field::scalar_order();
    proof {
        modular::lemma_eqm_mod(pk.log() * r@, n);
        modular::lemma_eqm_add(g.log(), g.log(), rpk.log(), pk.log() * r@, n);
    }
    let c2 = if bit {
        g.plus(&rpk)
    } else {
        rpk
    };
    ct.c1.same(&c1) && ct.c2.same(&c2)
}

/// Whether a ballot's statement holds of what the voter knows.
pub fn check_vote(
    s: &VoteStatement,
    w: &VoteWitness,
    params_leaf: &PoseidonParams,
    params_merkle: &PoseidonParams,
    params_nullifier: &PoseidonParams,
) -> (b: bool)
    requires
        params_leaf.wf(),
        params_merkle.wf(),
        params_nullifier.wf(),
    ensures
        b == vote_relation(*s, *w, *params_leaf, *params_merkle, *params_nullifier),
{
    let leaf = voter_leaf(params_leaf, &w.cred, &s.election_id);
    let root = root_of_path(params_merkle, &leaf, &w.merkle_path);
    if !root.same(&s.voter_set_root) {
        return false;
    }
    let nullifier = nullifier_of(params_nullifier, &w.cred);
    if !nullifier.same(&s.nullifier) {
        return false;
    }
    let mut set: usize = 0;
    let mut i: usize = 0;
    while i < w.vote_bits.len()
        invariant
            i <= w.vote_bits@.len(),
            set <= i,
            set == bits_set(w.vote_bits@, i as int),
        decreases w.vote_bits@.len() - i,
    {
        if w.vote_bits[i] {
            set = set + 1;
        }
        i = i + 1;
    }
    if set != 1 {
        return false;
    }
    i = 0;
    while i < w.vote_bits.len() && i < s.enc_vote_vec.len()
        invariant
            i <= w.vote_bits@.len(),
            forall|k: int|
                0 <= k < i && k < s.enc_vote_vec@.len() ==> encrypts_bit(
                    #[trigger] s.enc_vote_vec@[k],
                    w.vote_bits@[k],
                    s.committee_pk,
                    s.elgamal_generator,
                    w.encryption_rand@,
                ),
        decreases w.vote_bits@.len() - i,
    {
        if !check_bit(
            &s.enc_vote_vec[i],
            w.vote_bits[i],
            &s.committee_pk,
            &s.elgamal_generator,
            &w.encryption_rand,
        ) {
            assert(!encrypts_bit(
                s.enc_vote_vec@[i as int],
                w.vote_bits@[i as int],
                s.committee_pk,
                s.elgamal_generator,
                w.encryption_rand@,
            ));
            return false;
        }
        i = i + 1;
    }
    true
}

/// A vote for one of the candidates.
pub fn one_hot(num_candidates: usize, choice: usize) -> (r: Vec<bool>)
    requires
        choice < num_candidates,
    ensures
        r@.len() == num_candidates,
        forall|i: int| 0 <= i < num_candidates ==> r@[i] == (i == choice),
        bits_set(r@, num_candidates as int) == 1,
{
    let mut bits: Vec<bool> = Vec::new();
    let mut i: usize = 0;
    while i < num_candidates
        invariant
            i <= num_candidates,
            choice < num_candidates,
            bits@.len() == i,
            forall|k: int| 0 <= k < i ==> bits@[k] == (k == choice),
        decreases num_candidates - i,
    {
        bits.push(i == choice);
        i = i + 1;
    }
    proof {
        lemma_one_hot(bits@, choice as int, num_candidates as int);
    }
    bits
}

proof fn lemma_one_hot(bits: Seq<bool>, choice: int, k: int)
    requires
        0 <= k <= bits.len(),
        forall|i: int| 0 <= i < bits.len() ==> bits[i] == (i == choice),
    ensures
        bits_set(bits, k) == (if 0 <= choice < k {
            1nat
        } else {
            0nat
        }),
    decreases k,
{
    if k > 0 {
        lemma_one_hot(bits, choice, k - 1);
    }
}

/// Encrypts the bits of a vote, all with the same randomness.
pub fn encrypt_ballot(vote_bits: &[bool], pk: &Point, g: &Point, r: Scalar) -> (cts: Vec<
    ZKElgamalCiphertext,
>)
    ensures
        cts@.len() == vote_bits@.len(),
        forall|i: int|
            0 <= i < vote_bits@.len() ==> encrypts_bit(
                #[trigger] cts@[i],
                vote_bits@[i],
                *pk,
                *g,
                r@,
            ),
{
    let mut out: Vec<ZKElgamalCiphertext> = Vec::new();
    let mut i: usize = 0;
    while i < vote_bits.len()
        invariant
            i <= vote_bits@.len(),
            out@.len() == i,
            forall|k: int|
                0 <= k < i ==> encrypts_bit(#[trigger] out@[k], vote_bits@[k], *pk, *g, r@),
        decreases vote_bits@.len() - i,
    {
        let count: u64 = if vote_bits[i] {
            1
        } else {
            0
        };
        let point = encode_vote(count, g);
        proof {
            crate::curve::lemma_log_range(*g);
            modular::lemma_small(g.log(), field::scalar_order());
            assert(1 * g.log() == g.log());
            assert(0 * g.log() == 0);
        }
        let (c1, c2) = elgamal_encrypt(&point, pk, g, r);
        out.push(ZKElgamalCiphertext { c1, c2 });
        i = i + 1;
    }
    out
}

/// Everything that goes into the proof of a ballot: the statement, the witness
/// and the public inputs. It fails where the numbers of ciphertexts and votes
/// differ.
pub fn prepare_vote(
    cred: &[u8],
    merkle_path: MerklePath,
    vote_vec: &[u8],
    encryption_rand: Scalar,
    election_id: &[u8],
    voter_set_root: FieldElement,
    enc_vote_vec: Vec<ZKElgamalCiphertext>,
    committee_pk: Point,
    elgamal_generator: Point,
    params_nullifier: &PoseidonParams,
) -> (r: Result<(VoteStatement, VoteWitness, Vec<FieldElement>), ZkError>)
    requires
        params_nullifier.wf(),
    ensures
        r is Ok == (enc_vote_vec@.len() == vote_vec@.len()),
        r matches Err(e) ==> e == ZkError::Unsatisfiable,
        r matches Ok((s, w, inputs)) ==> {
            &&& w.cred@ == field::le_value(cred@) % field::field_order()
            &&& w.merkle_path == merkle_path
            &&& w.vote_bits@.len() == vote_vec@.len()
            &&& forall|i: int| 0 <= i < vote_vec@.len() ==> w.vote_bits@[i] == (vote_vec@[i] != 0)
            &&& w.encryption_rand == encryption_rand
            &&& s.election_id@ == field::le_value(election_id@) % field::field_order()
            &&& s.voter_set_root == voter_set_root
            &&& s.nullifier@ == params_nullifier.hash_of(seq![nf_constant(), w.cred@])
            &&& s.enc_vote_vec == enc_vote_vec
            &&& s.committee_pk == committee_pk
            &&& s.elgamal_generator == elgamal_generator
            &&& zkp::elements(inputs@) == zkp::ballot_inputs(
                enc_vote_vec@,
                voter_set_root@,
                s.nullifier@,
            )
        },
{
    if enc_vote_vec.len() != vote_vec.len() {
        return Err(ZkError::Unsatisfiable);
    }
    let mut vote_bits: Vec<bool> = Vec::new();
    let mut i: usize = 0;
    while i < vote_vec.len()
        invariant
            i <= vote_vec@.len(),
            vote_bits@.len() == i,
            forall|k: int| 0 <= k < i ==> vote_bits@[k] == (vote_vec@[k] != 0),
        decreases vote_vec@.len() - i,
    {
        vote_bits.push(vote_vec[i] != 0);
        i = i + 1;
    }
    let cred_fr = element_of_bytes(cred);
    let nullifier = nullifier_of(params_nullifier, &cred_fr);
    let inputs = prepare_public_inputs(enc_vote_vec.as_slice(), voter_set_root, nullifier);
    assert(zkp::elements(inputs@) =~= zkp::ballot_inputs(
        enc_vote_vec@,
        voter_set_root@,
        nullifier@,
    ));
    let statement = VoteStatement {
        election_id: element_of_bytes(election_id),
        voter_set_root,
        nullifier,
        enc_vote_vec,
        committee_pk,
        elgamal_generator,
    };
    let witness = VoteWitness { cred: cred_fr, merkle_path, vote_bits, encryption_rand };
    Ok((statement, witness, inputs))
}

/// The ballot to submit: its nullifier is the last public input. `None` where
/// there are no public inputs.
pub fn assemble_transaction(
    proof: Proof,
    public_inputs: &[FieldElement],
    enc_vote_vec: Vec<ZKElgamalCiphertext>,
) -> (r: Option<VoteTransaction>)
    ensures
        r is Some == (public_inputs@.len() > 0),
        r matches Some(tx) ==> tx.proof == proof && tx.nullifier == public_inputs@.last()
            && tx.enc_vote_vec == enc_vote_vec,
{
    if public_inputs.len() == 0 {
        return None;
    }
    let nullifier = public_inputs[public_inputs.len() - 1];
    Some(VoteTransaction { proof, nullifier, enc_vote_vec })
}

/// A voter: the credential, and the way from its leaf to the root.
pub type Voter = (FieldElement, MerklePath);

/// Voters as numbers: the credential, and the leaf's sibling, its position and the
/// siblings above.
pub open spec fn voters_view(voters: Seq<Voter>) -> Seq<(int, (int, u64, Seq<int>))> {
    Seq::new(
        voters.len(),
        |i: int|
            (
                voters[i].0@,
                (
                    voters[i].1.leaf_sibling_hash@,
                    voters[i].1.leaf_index,
                    zkp::elements(voters[i].1.auth_path@),
                ),
            ),
    )
}

/// The voters that bytes hold, where they hold some.
pub uninterp spec fn voters_decoding(bytes: Seq<u8>) -> Option<Seq<(int, (int, u64, Seq<int>))>>;

/// The number that eight bytes stand for.
pub open spec fn length_at(bytes: Seq<u8>, at: int) -> int {
    vstd::bytes::spec_u64_from_le_bytes(bytes.subrange(at, at + 8)) as int
}

/// Where a voter's bytes end, who begins at `at`: two elements, the length of the
/// list of siblings, the siblings, and the position.
pub open spec fn voter_end(bytes: Seq<u8>, at: int) -> int {
    at + 64 + 8 + 32 * length_at(bytes, at + 64) + 8
}

/// From `at` on there are bytes for as many voters.
pub open spec fn voters_fit(bytes: Seq<u8>, at: int, count: nat) -> bool
    decreases count,
{
    count == 0 || {
        &&& at + 72 <= bytes.len()
        &&& voter_end(bytes, at) <= bytes.len()
        &&& voters_fit(bytes, voter_end(bytes, at), (count - 1) as nat)
    }
}

/// The lengths that bytes give of lists of voters do not go beyond their end.
pub open spec fn lengths_fit(bytes: Seq<u8>) -> bool {
    &&& 8 <= bytes.len() <= usize::MAX / 4
    &&& voters_fit(bytes, 8, length_at(bytes, 0) as nat)
}

pub(crate) fn read_length(bytes: &[u8], at: usize) -> (r: u64)
    requires
        at + 8 <= bytes@.len(),
    ensures
        r == length_at(bytes@, at as int),
{
    let total: usize = bytes.len();
    assert(at + 8 <= total);
    let part = vstd::slice::slice_subrange(bytes, at, at + 8);
    vstd::bytes::u64_from_le_bytes(part)
}

fn check_lengths(bytes: &[u8]) -> (b: bool)
    ensures
        b == lengths_fit(bytes@),
{
    let total: usize = bytes.len();
    if total < 8 || total > usize::MAX / 4 {
        return false;
    }
    let mut count: u64 = read_length(bytes, 0);
    let mut at: usize = 8;
    while count > 0
        invariant
            total == bytes@.len(),
            8 <= at <= total <= usize::MAX / 4,
            lengths_fit(bytes@) == voters_fit(bytes@, at as int, count as nat),
        decreases count,
    {
        if total - at < 72 {
            return false;
        }
        let siblings: u64 = read_length(bytes, at + 64);
        let rest: u64 = (total - at - 72) as u64;
        if rest < 8 || siblings > (rest - 8) / 32 {
            return false;
        }
        at = at + 72 + 32 * siblings as usize + 8;
        count = count - 1;
    }
    true
}

/// `deserialize_uncompressed` of `ark_serialize` on a list of voters, each a
/// credential in `ark_bls12_381::Fr` and what a path in the voters' tree consists
/// of: the bytes determine the result. Bytes that give lengths beyond their end are
/// left out, as room is made for what they promise.
#[verifier::external_body]
fn read_voters(bytes: &[u8]) -> (r: Option<Vec<Voter>>)
    requires
        lengths_fit(bytes@),
    ensures
        r is Some == voters_decoding(bytes@) is Some,
        r matches Some(v) ==> voters_decoding(bytes@) == Some(voters_view(v@)),
{
    let list = Vec::<(Fr, (Fr, Vec<Fr>, u64))>::deserialize_uncompressed(bytes).ok()?;
    let of = |x: Fr| FieldElement::from_limbs(x.into_bigint().0).unwrap();
    let voter = |(cred, (sibling, above, leaf_index)): (Fr, (Fr, Vec<Fr>, u64))| {
        let auth_path = above.into_iter().map(of).collect();
        (of(cred), MerklePath { leaf_sibling_hash: of(sibling), leaf_index, auth_path })
    };
    Some(list.into_iter().map(voter).collect())
}

/// `serialize_uncompressed` of `ark_serialize` on a list of voters, each a
/// credential in `ark_bls12_381::Fr` and what a path in the voters' tree consists
/// of. They are read back from the bytes, and the lengths in the bytes are right.
#[verifier::external_body]
fn write_voters(voters: &[Voter]) -> (r: Vec<u8>)
    ensures
        voters_decoding(r@) == Some(voters_view(voters@)),
        r@.len() <= usize::MAX / 4 ==> lengths_fit(r@),
{
    let to = |x: &FieldElement| Fr::from(BigInt::new(x.limbs()));
    let voter = |v: &Voter| {
        let above: Vec<Fr> = v.1.auth_path.iter().map(to).collect();
        (to(&v.0), (to(&v.1.leaf_sibling_hash), above, v.1.leaf_index))
    };
    let list: Vec<_> = voters.iter().map(voter).collect();
    let mut bytes = Vec::new();
    list.serialize_uncompressed(&mut bytes).unwrap();
    bytes
}

/// What a worker makes the ballots of a validator from, besides the proving key.
#[derive(Debug)]
pub struct WorkerInputs {
    pub master_pk: Point,
    pub merkle_root: FieldElement,
    pub voters: Vec<Voter>,
}

/// Reads what a worker makes the ballots of a validator from: the files with the
/// joint public key and with the voters, and the root of the voters' tree as text.
/// `None` where one of them cannot be read.
pub fn read_worker_inputs(key_file: &[u8], merkle_root: &str, voters_file: &[u8]) -> (r: Option<
    WorkerInputs,
>)
    ensures
        r is Some == (curve::uncompressed_decoding(key_file@) is Some && field::field_text(
            merkle_root@,
        ) is Some && lengths_fit(voters_file@) && voters_decoding(voters_file@) is Some),
        r matches Some(w) ==> {
            &&& curve::uncompressed_decoding(key_file@) == Some(w.master_pk.coords())
            &&& field::field_text(merkle_root@) == Some(w.merkle_root@)
            &&& voters_decoding(voters_file@) == Some(voters_view(w.voters@))
        },
{
    let master_pk = match Point::from_uncompressed(key_file) {
        Some(p) => p,
        None => {
            return None;
        },
    };
    let merkle_root = match FieldElement::parse(merkle_root) {
        Some(x) => x,
        None => {
            return None;
        },
    };
    if !check_lengths(voters_file) {
        return None;
    }
    match read_voters(voters_file) {
        Some(voters) => Some(WorkerInputs { master_pk, merkle_root, voters }),
        None => None,
    }
}

/// Writes the files with the joint public key and with the voters of a validator,
/// from which a worker reads them back, unless they are too long for a machine.
pub fn write_worker_inputs(master_pk: &Point, voters: &[Voter]) -> (r: (Vec<u8>, Vec<u8>))
    ensures
        curve::uncompressed_decoding(r.0@) == Some(master_pk.coords()),
        voters_decoding(r.1@) == Some(voters_view(voters@)),
        r.1@.len() <= usize::MAX / 4 ==> lengths_fit(r.1@),
{
    (master_pk.to_uncompressed(), write_voters(voters))
}

/// An honest ballot can be proved: where the voter's leaf is in the tree and the
/// ballot is the encryption of one choice, its statement holds.
pub proof fn law_honest_ballot_is_provable(
    s: VoteStatement,
    w: VoteWitness,
    params_leaf: PoseidonParams,
    params_merkle: PoseidonParams,
    params_nullifier: PoseidonParams,
    choice: int,
)
    requires
        path_root(
            params_merkle,
            params_leaf.hash_of(seq![w.cred@, s.election_id@]),
            w.merkle_path,
        ) == s.voter_set_root@,
        s.nullifier@ == params_nullifier.hash_of(seq![nf_constant(), w.cred@]),
        0 <= choice < w.vote_bits@.len(),
        forall|i: int| 0 <= i < w.vote_bits@.len() ==> w.vote_bits@[i] == (i == choice),
        s.enc_vote_vec@.len() == w.vote_bits@.len(),
        forall|i: int|
            0 <= i < s.enc_vote_vec@.len() ==> encrypts_bit(
                #[trigger] s.enc_vote_vec@[i],
                w.vote_bits@[i],
                s.committee_pk,
                s.elgamal_generator,
                w.encryption_rand@,
            ),
    ensures
        vote_relation(s, w, params_leaf, params_merkle, params_nullifier),
{
    lemma_one_hot(w.vote_bits@, choice, w.vote_bits@.len() as int);
}

/// Two ballots of one voter have the same nullifier, whatever they choose.
pub proof fn law_one_nullifier_per_voter(
    a: (VoteStatement, VoteWitness),
    b: (VoteStatement, VoteWitness),
    params_leaf: PoseidonParams,
    params_merkle: PoseidonParams,
    params_nullifier: PoseidonParams,
)
    requires
        vote_relation(a.0, a.1, params_leaf, params_merkle, params_nullifier),
        vote_relation(b.0, b.1, params_leaf, params_merkle, params_nullifier),
        a.1.cred@ == b.1.cred@,
    ensures
        a.0.nullifier@ == b.0.nullifier@,
{
}

proof fn lemma_bits_set(bits: Seq<bool>, k: int)
    requires
        0 <= k <= bits.len(),
    ensures
        bits_set(bits, k) == 0 <==> forall|i: int| 0 <= i < k ==> !(#[trigger] bits[i]),
        bits_set(bits, k) == 1 <==> exists|i: int|
            0 <= i < k && #[trigger] bits[i] && forall|j: int|
                0 <= j < k && #[trigger] bits[j] ==> j == i,
    decreases k,
{
    if k > 0 {
        lemma_bits_set(bits, k - 1);
        if bits_set(bits, k) == 1 {
            if bits[k - 1] {
                assert(forall|j: int| 0 <= j < k && #[trigger] bits[j] ==> j == k - 1);
            } else {
                let i = choose|i: int|
                    0 <= i < k - 1 && #[trigger] bits[i] && forall|j: int|
                        0 <= j < k - 1 && #[trigger] bits[j] ==> j == i;
                assert(forall|j: int| 0 <= j < k && #[trigger] bits[j] ==> j == i);
            }
        }
        if exists|i: int|
            0 <= i < k && #[trigger] bits[i] && forall|j: int|
                0 <= j < k && #[trigger] bits[j] ==> j == i {
            let i = choose|i: int|
                0 <= i < k && #[trigger] bits[i] && forall|j: int|
                    0 <= j < k && #[trigger] bits[j] ==> j == i;
            if i == k - 1 {
                assert(forall|j: int| 0 <= j < k - 1 ==> !(#[trigger] bits[j]));
            } else {
                assert(!bits[k - 1]);
                assert(bits[i] && forall|j: int| 0 <= j < k - 1 && #[trigger] bits[j] ==> j == i);
            }
        }
    }
}

/// What the statement of a ballot says: it holds exactly where the hash of the
/// credential and the election, as a leaf at the path's position, leads to the root, the
/// nullifier is the hash of `NF` and the credential, there is one bit that is set and no
/// other, and each ciphertext encrypts its bit: the randomness times the generator, and
/// the same times the key with the generator added where the bit is set.
pub proof fn law_ballot_statement(
    s: VoteStatement,
    w: VoteWitness,
    params_leaf: PoseidonParams,
    params_merkle: PoseidonParams,
    params_nullifier: PoseidonParams,
)
    ensures
        vote_relation(s, w, params_leaf, params_merkle, params_nullifier) <==> {
            &&& path_root(
                params_merkle,
                params_leaf.hash_of(seq![w.cred@, s.election_id@]),
                w.merkle_path,
            ) == s.voter_set_root@
            &&& params_nullifier.hash_of(seq![17998int, w.cred@]) == s.nullifier@
            &&& exists|i: int|
                0 <= i < w.vote_bits@.len() && #[trigger] w.vote_bits@[i] && forall|j: int|
                    0 <= j < w.vote_bits@.len() && #[trigger] w.vote_bits@[j] ==> j == i
            &&& forall|i: int|
                0 <= i < w.vote_bits@.len() && i < s.enc_vote_vec@.len() ==> {
                    let ct = #[trigger] s.enc_vote_vec@[i];
                    let (g, pk, r) = (
                        s.elgamal_generator.log(),
                        s.committee_pk.log(),
                        w.encryption_rand@,
                    );
                    &&& ct.c1.log() == (g * r) % field::scalar_order()
                    &&& w.vote_bits@[i] ==> ct.c2.log() == (g + pk * r) % field::scalar_order()
                    &&& !w.vote_bits@[i] ==> ct.c2.log() == (pk * r) % field::scalar_order()
                }
        },
{
    lemma_bits_set(w.vote_bits@, w.vote_bits@.len() as int);
    if vote_relation(s, w, params_leaf, params_merkle, params_nullifier) {
        assert forall|i: int|
            0 <= i < w.vote_bits@.len() && i < s.enc_vote_vec@.len() implies {
            let ct = #[trigger] s.enc_vote_vec@[i];
            let (g, pk, r) = (
                s.elgamal_generator.log(),
                s.committee_pk.log(),
                w.encryption_rand@,
            );
            &&& ct.c1.log() == (g * r) % field::scalar_order()
            &&& w.vote_bits@[i] ==> ct.c2.log() == (g + pk * r) % field::scalar_order()
            &&& !w.vote_bits@[i] ==> ct.c2.log() == (pk * r) % field::scalar_order()
        } by {
            assert(encrypts_bit(
                s.enc_vote_vec@[i],
                w.vote_bits@[i],
                s.committee_pk,
                s.elgamal_generator,
                w.encryption_rand@,
            ));
        }
    }
}

/// The votes of a ballot whose statement holds add up to one: two bits that are set, or
/// none, make it fail; and what the ciphertexts hold, where there is one for each bit,
/// adds up to the generator.
pub proof fn law_a_ballot_is_one_vote(
    s: VoteStatement,
    w: VoteWitness,
    params_leaf: PoseidonParams,
    params_merkle: PoseidonParams,
    params_nullifier: PoseidonParams,
    i: int,
    j: int,
)
    requires
        vote_relation(s, w, params_leaf, params_merkle, params_nullifier),
    ensures
        0 <= i < w.vote_bits@.len() && 0 <= j < w.vote_bits@.len() && w.vote_bits@[i]
            && w.vote_bits@[j] ==> i == j,
        exists|k: int| 0 <= k < w.vote_bits@.len() && #[trigger] w.vote_bits@[k],
        s.enc_vote_vec@.len() == w.vote_bits@.len() ==> modular::eqm(
            modular::sum(
                s.enc_vote_vec@.len(),
                |k: int|
                    s.enc_vote_vec@[k].c2.log() - s.committee_pk.log() * w.encryption_rand@,
            ),
            s.elgamal_generator.log(),
            field::scalar_order(),
        ),
{
    lemma_bits_set(w.vote_bits@, w.vote_bits@.len() as int);
    if s.enc_vote_vec@.len() == w.vote_bits@.len() {
        lemma_votes_add_up(s, w, w.vote_bits@.len());
        let gl = s.elgamal_generator.log();
        assert(1 * gl == gl);
    }
}

proof fn lemma_votes_add_up(s: VoteStatement, w: VoteWitness, k: nat)
    requires
        k <= w.vote_bits@.len(),
        s.enc_vote_vec@.len() == w.vote_bits@.len(),
        forall|i: int|
            0 <= i < w.vote_bits@.len() && i < s.enc_vote_vec@.len() ==> encrypts_bit(
                #[trigger] s.enc_vote_vec@[i],
                w.vote_bits@[i],
                s.committee_pk,
                s.elgamal_generator,
                w.encryption_rand@,
            ),
    ensures
        modular::eqm(
            modular::sum(
                k,
                |i: int|
                    s.enc_vote_vec@[i].c2.log() - s.committee_pk.log() * w.encryption_rand@,
            ),
            bits_set(w.vote_bits@, k as int) * s.elgamal_generator.log(),
            field::scalar_order(),
        ),
    decreases k,
{
    let n = field::scalar_order();
    let g = s.elgamal_generator.log();
    let p = s.committee_pk.log() * w.encryption_rand@;
    let f = |i: int| s.enc_vote_vec@[i].c2.log() - s.committee_pk.log() * w.encryption_rand@;
    if k == 0 {
        assert(0 * g == 0);
    } else {
        let m = (k - 1) as nat;
        lemma_votes_add_up(s, w, m);
        assert(encrypts_bit(
            s.enc_vote_vec@[m as int],
            w.vote_bits@[m as int],
            s.committee_pk,
            s.elgamal_generator,
            w.encryption_rand@,
        ));
        let v = if w.vote_bits@[m as int] {
            g
        } else {
            0
        };
        let b = bits_set(w.vote_bits@, m as int);
        modular::lemma_eqm_mod(v + p, n);
        modular::lemma_eqm_add(s.enc_vote_vec@[m as int].c2.log(), v + p, p, p, n);
        modular::lemma_eqm_add(modular::sum(m, f), b * g, f(m as int), v, n);
        assert((b + 1) * g == b * g + g) by (nonlinear_arith);
    }
}

/// What a ciphertext of a ballot holds is the bit: the secret of the key takes the
/// randomness off, and leaves the generator where the bit is set, and nothing else.
pub proof fn law_bit_is_decrypted(
    ct: ZKElgamalCiphertext,
    bit: bool,
    pk: Point,
    g: Point,
    r: int,
    secret: int,
)
    requires
        encrypts_bit(ct, bit, pk, g, r),
        pk.log() == (g.log() * secret) % field::scalar_order(),
    ensures
        bit ==> modular::eqm(ct.c2.log() - ct.c1.log() * secret, g.log(), field::scalar_order()),
        !bit ==> modular::eqm(ct.c2.log() - ct.c1.log() * secret, 0, field::scalar_order()),
        ct.c1.log() == (g.log() * r) % field::scalar_order(),
{
    let n = field::scalar_order();
    let gl = g.log();
    let v = if bit {
        gl
    } else {
        0
    };
    modular::lemma_eqm_mod(v + pk.log() * r, n);
    modular::lemma_eqm_mod(gl * secret, n);
    modular::lemma_eqm_mod(gl * r, n);
    modular::lemma_eqm_mul(pk.log(), gl * secret, r, r, n);
    modular::lemma_eqm_mul(ct.c1.log(), gl * r, secret, secret, n);
    assert(gl * secret * r == gl * r * secret) by (nonlinear_arith);
    modular::lemma_eqm_add(v, v, pk.log() * r, gl * secret * r, n);
    modular::lemma_eqm_add(
        ct.c2.log(),
        v + gl * secret * r,
        ct.c1.log() * secret,
        gl * r * secret,
        n,
    );
}

proof fn lemma_climb(
    params: PoseidonParams,
    cur: int,
    index: int,
    siblings: Seq<int>,
    top: int,
    level: nat,
)
    requires
        level <= siblings.len(),
        0 <= index,
    ensures
        climb(params, cur, index, seq![top] + siblings, level + 1) == join(
            params,
            climb(params, cur, index, siblings, level),
            top,
            index / vstd::arithmetic::power2::pow2(level) as int,
        ),
    decreases level,
{
    let all = seq![top] + siblings;
    if level == 0 {
        vstd::arithmetic::power2::lemma2_to64();
        assert(all[0] == top);
        assert(climb(params, join(params, cur, all[0], index), index / 2, all, 0) == join(
            params,
            cur,
            top,
            index,
        ));
    } else {
        let m = (level - 1) as nat;
        assert(all[level as int] == siblings[m as int]);
        lemma_climb(params, join(params, cur, siblings[m as int], index), index / 2, siblings, top, m);
        vstd::arithmetic::power2::lemma_pow2_unfold(level);
        vstd::arithmetic::power2::lemma_pow2_pos(m);
        vstd::arithmetic::div_mod::lemma_div_denominator(
            index,
            2,
            vstd::arithmetic::power2::pow2(m) as int,
        );
    }
}

/// A path is followed from the leaf up. The leaf and its sibling are hashed together,
/// the leaf first where its position is even; and a further node at the top is hashed
/// with what the rest of the path leads to, which comes first where its own position,
/// that of the leaf without its last bits, is even.
pub proof fn law_path_is_followed_upwards(
    params: PoseidonParams,
    leaf: int,
    path: MerklePath,
    top: FieldElement,
    longer: MerklePath,
)
    requires
        longer.leaf_sibling_hash@ == path.leaf_sibling_hash@,
        longer.leaf_index == path.leaf_index,
        zkp::elements(longer.auth_path@) == seq![top@] + zkp::elements(path.auth_path@),
    ensures
        path.auth_path@.len() == 0 ==> path_root(params, leaf, path) == (if path.leaf_index % 2
            == 0 {
            params.pair_of(leaf, path.leaf_sibling_hash@)
        } else {
            params.pair_of(path.leaf_sibling_hash@, leaf)
        }),
        path_root(params, leaf, longer) == (if (path.leaf_index as int / 2
            / vstd::arithmetic::power2::pow2(path.auth_path@.len()) as int) % 2 == 0 {
            params.pair_of(path_root(params, leaf, path), top@)
        } else {
            params.pair_of(top@, path_root(params, leaf, path))
        }),
{
    let siblings = zkp::elements(path.auth_path@);
    assert(longer.auth_path@.len() == zkp::elements(longer.auth_path@).len());
    lemma_climb(
        params,
        join(params, leaf, path.leaf_sibling_hash@, path.leaf_index as int),
        path.leaf_index as int / 2,
        siblings,
        top@,
        siblings.len(),
    );
}

} // verus!
