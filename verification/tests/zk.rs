use ark_bls12_381::{Bls12_381, Fq, Fq2, Fr, G1Affine, G2Affine};
use ark_crypto_primitives::crh::poseidon::constraints::{
    CRHGadget, CRHParametersVar, TwoToOneCRHGadget,
};
use ark_crypto_primitives::crh::poseidon::{TwoToOneCRH, CRH};
use ark_crypto_primitives::crh::CRHSchemeGadget;
use ark_crypto_primitives::encryption::elgamal::constraints::{OutputVar, PublicKeyVar};
use ark_crypto_primitives::merkle_tree::constraints::{ConfigGadget, PathVar};
use ark_crypto_primitives::merkle_tree::{Config, IdentityDigestConverter, MerkleTree, Path};
use ark_crypto_primitives::snark::{CircuitSpecificSetupSNARK, SNARK};
use ark_crypto_primitives::sponge::poseidon::PoseidonConfig;
use ark_ec::{AffineRepr, CurveGroup};
use ark_ed_on_bls12_381::constraints::EdwardsVar;
use ark_ed_on_bls12_381::{EdwardsAffine, EdwardsProjective, Fr as JubJubFr};
use ark_ff::{BigInt, BigInteger, PrimeField, UniformRand, Zero};
use ark_groth16::Groth16;
use ark_r1cs_std::alloc::AllocVar;
use ark_r1cs_std::boolean::Boolean;
use ark_r1cs_std::eq::EqGadget;
use ark_r1cs_std::fields::fp::FpVar;
use ark_r1cs_std::fields::FieldVar;
use ark_r1cs_std::groups::CurveVar;
use ark_relations::r1cs::{ConstraintSynthesizer, ConstraintSystemRef, Result as R1CSResult};
use ark_serialize::CanonicalSerialize;
use ark_std::rand::rngs::StdRng;
use ark_std::rand::SeedableRng;
use ark_std::test_rng;
use mysticeti_vote::ballot::{
    blank_path, blank_root, check_vote, encrypt_ballot, one_hot, prepare_vote, read_worker_inputs,
    root_of_path, voter_leaf, write_worker_inputs, MerklePath, VoteStatement, VoteWitness,
};
use mysticeti_vote::crypto_config::{crypto_config, read_key};
use mysticeti_vote::curve::Point;
use mysticeti_vote::datagen::{leaf_count, merkle_height, pad_leaves, voter_leaves};
use mysticeti_vote::dkg::run_dkg_simulation_for_data_generator;
use mysticeti_vote::field::{FieldElement, Scalar};
use mysticeti_vote::mempool::{verify as take_in, verify_transactions, BallotRules, Rejection};
use mysticeti_vote::net_sync::{
    ballots_fault, verify_ballots, verify_ballots_with, verify_block_batch,
    verify_block_batch_with, BlockRejection,
};
use mysticeti_vote::nullifier::NullifierDB;
use mysticeti_vote::pairing::{G1, G2};
use mysticeti_vote::poseidon::{setup_poseidon_params, PoseidonParams};
use mysticeti_vote::zkp::{
    batch_verify, batch_verify_with, key_bytes, key_from_bytes, prepare_public_inputs,
    prepare_verifying_key, verify, PreparedVerifyingKey, Proof, VerifyingKey, VoteTransaction, ZKElgamalCiphertext,
    ZkError,
};

struct TreeConfig;

impl Config for TreeConfig {
    type Leaf = [Fr];
    type LeafDigest = Fr;
    type LeafInnerDigestConverter = IdentityDigestConverter<Fr>;
    type InnerDigest = Fr;
    type LeafHash = CRH<Fr>;
    type TwoToOneHash = TwoToOneCRH<Fr>;
}

struct TreeGadget;

impl ConfigGadget<TreeConfig, Fr> for TreeGadget {
    type Leaf = [FpVar<Fr>];
    type LeafDigest = FpVar<Fr>;
    type LeafInnerConverter = IdentityDigestConverter<FpVar<Fr>>;
    type InnerDigest = FpVar<Fr>;
    type LeafHash = CRHGadget<Fr>;
    type TwoToOneHash = TwoToOneCRHGadget<Fr>;
}

fn to_fr(x: &FieldElement) -> Fr {
    Fr::from(BigInt::new(x.limbs()))
}

fn from_fr(x: &Fr) -> FieldElement {
    FieldElement::from_limbs(x.into_bigint().0).unwrap()
}

fn to_scalar(x: &Scalar) -> JubJubFr {
    JubJubFr::from(BigInt::new(x.limbs()))
}

fn from_scalar(x: &JubJubFr) -> Scalar {
    Scalar::from_limbs(x.into_bigint().0).unwrap()
}

fn to_point(p: &Point) -> EdwardsAffine {
    EdwardsAffine::new_unchecked(to_fr(&p.x()), to_fr(&p.y()))
}

fn to_config(p: &PoseidonParams) -> PoseidonConfig<Fr> {
    let rows = |m: &Vec<Vec<FieldElement>>| -> Vec<Vec<Fr>> {
        m.iter().map(|row| row.iter().map(to_fr).collect()).collect()
    };
    PoseidonConfig::new(
        p.full_rounds,
        p.partial_rounds,
        p.alpha,
        rows(&p.mds),
        rows(&p.ark),
        p.rate,
        p.capacity,
    )
}

fn from_g1(p: &G1Affine) -> G1 {
    let mut bytes = Vec::new();
    p.serialize_compressed(&mut bytes).unwrap();
    G1::from_bytes(&bytes).unwrap()
}

fn from_g2(p: &G2Affine) -> G2 {
    let mut bytes = Vec::new();
    p.serialize_compressed(&mut bytes).unwrap();
    G2::from_bytes(&bytes).unwrap()
}

fn from_key(vk: &ark_groth16::VerifyingKey<Bls12_381>) -> VerifyingKey {
    VerifyingKey {
        alpha_g1: from_g1(&vk.alpha_g1),
        beta_g2: from_g2(&vk.beta_g2),
        gamma_g2: from_g2(&vk.gamma_g2),
        delta_g2: from_g2(&vk.delta_g2),
        gamma_abc_g1: vk.gamma_abc_g1.iter().map(from_g1).collect(),
    }
}

fn from_proof(p: &ark_groth16::Proof<Bls12_381>) -> Proof {
    Proof { a: from_g1(&p.a), b: from_g2(&p.b), c: from_g1(&p.c) }
}

struct VoteCircuit {
    statement: VoteStatement,
    witness: VoteWitness,
    params_leaf: PoseidonConfig<Fr>,
    params_merkle: PoseidonConfig<Fr>,
    params_nullifier: PoseidonConfig<Fr>,
}

impl ConstraintSynthesizer<Fr> for VoteCircuit {
    fn generate_constraints(self, cs: ConstraintSystemRef<Fr>) -> R1CSResult<()> {
        let (s, w) = (self.statement, self.witness);
        let leaf_params = CRHParametersVar::new_constant(cs.clone(), self.params_leaf)?;
        let merkle_params = CRHParametersVar::new_constant(cs.clone(), self.params_merkle)?;
        let nullifier_params = CRHParametersVar::new_constant(cs.clone(), self.params_nullifier)?;
        let nf = FpVar::new_constant(cs.clone(), Fr::from_le_bytes_mod_order(b"NF"))?;
        let pk = PublicKeyVar::<EdwardsProjective, EdwardsVar>::new_constant(
            cs.clone(),
            to_point(&s.committee_pk),
        )?;
        let g = <EdwardsVar as AllocVar<EdwardsAffine, Fr>>::new_constant(
            cs.clone(),
            to_point(&s.elgamal_generator),
        )?;
        let eid = FpVar::new_constant(cs.clone(), to_fr(&s.election_id))?;
        let mut cts = Vec::new();
        for ct in s.enc_vote_vec.iter() {
            let pair = (to_point(&ct.c1), to_point(&ct.c2));
            cts.push(OutputVar::<EdwardsProjective, EdwardsVar>::new_input(cs.clone(), || {
                Ok(pair)
            })?);
        }
        let root = FpVar::new_input(cs.clone(), || Ok(to_fr(&s.voter_set_root)))?;
        let nullifier = FpVar::new_input(cs.clone(), || Ok(to_fr(&s.nullifier)))?;
        let cred = FpVar::new_witness(cs.clone(), || Ok(to_fr(&w.cred)))?;
        let r_bits = Vec::<Boolean<Fr>>::new_witness(cs.clone(), || {
            Ok(to_scalar(&w.encryption_rand).into_bigint().to_bits_le())
        })?;
        let mut bits = Vec::new();
        for b in w.vote_bits.iter() {
            bits.push(Boolean::new_witness(cs.clone(), || Ok(*b))?);
        }
        let path = to_path(&w.merkle_path);
        let path =
            PathVar::<TreeConfig, Fr, TreeGadget>::new_witness(cs.clone(), || Ok(&path))?;
        let leaf = [cred.clone(), eid];
        path.verify_membership(&leaf_params, &merkle_params, &root, &leaf[..])?
            .enforce_equal(&Boolean::TRUE)?;
        CRHGadget::evaluate(&nullifier_params, &[nf, cred])?.enforce_equal(&nullifier)?;
        let mut sum = FpVar::<Fr>::zero();
        for bit in &bits {
            sum += bit.select(&FpVar::one(), &FpVar::zero())?;
        }
        sum.enforce_equal(&FpVar::one())?;
        let rg = g.scalar_mul_le(r_bits.iter())?;
        let rpk = pk.pk.scalar_mul_le(r_bits.iter())?;
        for (bit, ct) in bits.iter().zip(cts.iter()) {
            let mg = g.scalar_mul_le(std::iter::once(bit))?;
            ct.c1.enforce_equal(&rg)?;
            ct.c2.enforce_equal(&(&rpk + &mg))?;
        }
        Ok(())
    }
}

fn to_path(p: &MerklePath) -> Path<TreeConfig> {
    Path {
        leaf_sibling_hash: to_fr(&p.leaf_sibling_hash),
        leaf_index: p.leaf_index as usize,
        auth_path: p.auth_path.iter().map(to_fr).collect(),
    }
}

fn from_path(p: &Path<TreeConfig>) -> MerklePath {
    MerklePath {
        leaf_sibling_hash: from_fr(&p.leaf_sibling_hash),
        leaf_index: p.leaf_index as u64,
        auth_path: p.auth_path.iter().map(from_fr).collect(),
    }
}

struct Election {
    election_id: &'static str,
    num_candidates: usize,
    pk: Point,
    params: (PoseidonParams, PoseidonParams, PoseidonParams),
    creds: Vec<FieldElement>,
    tree: MerkleTree<TreeConfig>,
    proving_key: ark_groth16::ProvingKey<Bls12_381>,
    verifying_key: ark_groth16::VerifyingKey<Bls12_381>,
}

impl Election {
    fn new(election_id: &'static str) -> Self {
        let (n, t, num_voters, num_candidates, height) = (10, 3, 10, 3, 4);
        let pk = run_dkg_simulation_for_data_generator(n, t, 1234567890);
        assert_eq!(merkle_height(num_voters), height);
        let params = setup_poseidon_params();
        let eid = Fr::from_le_bytes_mod_order(election_id.as_bytes());

        let path = blank_path(height);
        let root = blank_root(&params.0, &params.1, &path);
        let identity = Point::identity();
        let blank = VoteCircuit {
            statement: VoteStatement {
                election_id: from_fr(&eid),
                voter_set_root: root,
                nullifier: FieldElement::zero(),
                enc_vote_vec: (0..num_candidates)
                    .map(|_| ZKElgamalCiphertext { c1: identity, c2: identity })
                    .collect(),
                committee_pk: pk,
                elgamal_generator: Point::generator(),
            },
            witness: VoteWitness {
                cred: FieldElement::zero(),
                merkle_path: path,
                vote_bits: vec![false; num_candidates],
                encryption_rand: Scalar::zero(),
            },
            params_leaf: to_config(&params.0),
            params_merkle: to_config(&params.1),
            params_nullifier: to_config(&params.2),
        };
        let mut rng = StdRng::seed_from_u64(4711);
        let (proving_key, verifying_key) = Groth16::<Bls12_381>::setup(blank, &mut rng).unwrap();

        let mut data_rng = StdRng::seed_from_u64(999);
        let creds: Vec<FieldElement> =
            (0..num_voters).map(|_| from_fr(&Fr::rand(&mut data_rng))).collect();
        let leaves = voter_leaves(&params.0, &creds, &from_fr(&eid));
        let leaves = pad_leaves(leaves, leaf_count(height));
        assert_eq!(leaves.len(), 16);
        let tree = MerkleTree::<TreeConfig>::new_with_leaf_digest(
            &to_config(&params.0),
            &to_config(&params.1),
            leaves.iter().map(to_fr).collect::<Vec<_>>(),
        )
        .unwrap();
        Election {
            election_id,
            num_candidates,
            pk,
            params,
            creds,
            tree,
            proving_key,
            verifying_key,
        }
    }

    fn root(&self) -> FieldElement {
        from_fr(&self.tree.root())
    }

    fn ballot(&self, voter: usize, choice: usize, seed: u64) -> (VoteStatement, VoteWitness, Vec<FieldElement>, StdRng) {
        let mut rng = StdRng::seed_from_u64(seed);
        let r = from_scalar(&JubJubFr::rand(&mut rng));
        let bits = one_hot(self.num_candidates, choice);
        let cts = encrypt_ballot(&bits, &self.pk, &Point::generator(), r);
        let votes: Vec<u8> = bits.iter().map(|b| *b as u8).collect();
        let path = from_path(&self.tree.generate_proof(voter).unwrap());
        let (s, w, inputs) = prepare_vote(
            &to_fr(&self.creds[voter]).into_bigint().to_bytes_le(),
            path,
            &votes,
            r,
            self.election_id.as_bytes(),
            self.root(),
            cts,
            self.pk,
            Point::generator(),
            &self.params.2,
        )
        .unwrap();
        (s, w, inputs, rng)
    }

    fn prove(&self, voter: usize, choice: usize, seed: u64) -> (VoteTransaction, Vec<FieldElement>) {
        let (statement, witness, inputs, mut rng) = self.ballot(voter, choice, seed);
        assert!(check_vote(
            &statement,
            &witness,
            &self.params.0,
            &self.params.1,
            &self.params.2
        ));
        let nullifier = statement.nullifier;
        let enc_vote_vec = statement
            .enc_vote_vec
            .iter()
            .map(|c| ZKElgamalCiphertext { c1: c.c1, c2: c.c2 })
            .collect();
        let circuit = VoteCircuit {
            statement,
            witness,
            params_leaf: to_config(&self.params.0),
            params_merkle: to_config(&self.params.1),
            params_nullifier: to_config(&self.params.2),
        };
        let proof = Groth16::<Bls12_381>::prove(&self.proving_key, circuit, &mut rng).unwrap();
        (VoteTransaction { proof: from_proof(&proof), nullifier, enc_vote_vec }, inputs)
    }

    fn prepared(&self) -> PreparedVerifyingKey {
        prepare_verifying_key(from_key(&self.verifying_key))
    }
}

#[test]
fn test_batch_verification_flow() {
    let election = Election::new("batch-test-election");
    let pvk = election.prepared();
    let mut proofs = Vec::new();
    let mut inputs = Vec::new();
    for i in 0..10 {
        let (vote, public) = election.prove(i, i % 3, 1000 + i as u64);
        let expected =
            prepare_public_inputs(&vote.enc_vote_vec, election.root(), vote.nullifier);
        assert_eq!(public, expected);
        proofs.push(vote.proof);
        inputs.push(public);
    }
    assert!(batch_verify(&pvk, &proofs, &inputs).expect("Batch verify error"));

    let forged = ark_bls12_381::G1Projective::rand(&mut test_rng()).into_affine();
    proofs[0].a = from_g1(&forged);
    assert!(!batch_verify(&pvk, &proofs, &inputs).expect("Batch verify error"));
}

#[test]
fn test_integration_dkg_and_zk_flow() {
    let election = Election::new("test-election-2025");
    let (vote, _) = election.prove(0, 1, 1111);
    let vk = from_key(&election.verifying_key);
    let valid = verify(&vk, &vote.proof, &vote.enc_vote_vec, election.root(), vote.nullifier)
        .expect("Verify function error");
    assert!(valid);

    let other = FieldElement::from_u64(5);
    let forged = verify(&vk, &vote.proof, &vote.enc_vote_vec, election.root(), other);
    assert_eq!(forged, Ok(false));
    let short = verify(&vk, &vote.proof, &vote.enc_vote_vec[..2], election.root(), vote.nullifier);
    assert_eq!(short, Err(ZkError::MalformedVerifyingKey));
}

#[test]
fn ballots_are_admitted_once() {
    let election = Election::new("test-election-2025");
    let (vote, _) = election.prove(3, 2, 77);
    let (again, _) = election.prove(3, 0, 78);
    let root = crypto_config(3, &election.root(), &from_key(&election.verifying_key), 1)
        .unwrap()
        .merkle_root;
    assert_eq!(root, to_fr(&election.root()).to_string());
    let rules = BallotRules::new(from_key(&election.verifying_key), &root, 3).unwrap();
    assert_eq!(rules.merkle_root, election.root());

    let mut db = NullifierDB::new();
    let votes = vec![Some(vote), Some(again), None];
    assert_eq!(verify_transactions(&rules, &votes, &mut db), vec![true, false, false]);
    assert_eq!(take_in(&rules, &votes[0], &mut db), Err(Rejection::NullifierDuplicate));
    assert_eq!(take_in(&rules, &votes[2], &mut db), Err(Rejection::Deserialize));

    let few = BallotRules::new(from_key(&election.verifying_key), &root, 2).unwrap();
    assert_eq!(few.judge(&votes[0]), Err(Rejection::ZkCandidates));
    let elsewhere = BallotRules::new(from_key(&election.verifying_key), "12345", 3).unwrap();
    assert_eq!(elsewhere.judge(&votes[0]), Err(Rejection::ZkInvalidProof));
    let mut short = from_key(&election.verifying_key);
    short.gamma_abc_g1.pop();
    let malformed = BallotRules::new(short, &root, 3).unwrap();
    assert_eq!(malformed.judge(&votes[0]), Err(Rejection::ZkVerificationError));
    assert!(BallotRules::new(from_key(&election.verifying_key), "not a number", 3).is_none());

    let pvk = election.prepared();
    assert_eq!(ballots_fault(&votes, 3), Some(BlockRejection::Deserialize));
    let valid: Vec<Option<VoteTransaction>> = votes.into_iter().take(2).collect();
    assert_eq!(ballots_fault(&valid, 2), Some(BlockRejection::ZkCandidates));
    assert_eq!(ballots_fault(&valid, 3), None);
    assert_eq!(verify_ballots(&pvk, &valid, 3, election.root()), Ok(true));
    assert_eq!(verify_ballots(&pvk, &valid, 3, FieldElement::from_u64(9)), Ok(false));

    let (root, nowhere) = (election.root(), FieldElement::from_u64(9));
    let weights = [FieldElement::from_u64(5), FieldElement::from_u64(8)];
    let zeros = [FieldElement::zero(), FieldElement::zero()];
    assert_eq!(verify_ballots_with(&pvk, &valid, 3, root, &weights), Ok(true));
    assert_eq!(verify_ballots_with(&pvk, &valid, 3, nowhere, &weights), Ok(false));
    assert_eq!(verify_ballots_with(&pvk, &valid, 3, nowhere, &zeros), Ok(true));
    let check =
        |root, fresh| verify_block_batch_with(&pvk, &valid, 3, root, &weights, fresh);
    assert_eq!(check(root, Some(true)), Ok(()));
    assert_eq!(check(root, Some(false)), Err(BlockRejection::NullifierDuplicate));
    assert_eq!(check(root, None), Err(BlockRejection::NullifierDbError));
    assert_eq!(check(nowhere, None), Err(BlockRejection::ZkInvalidBatchProof));
    assert_eq!(
        verify_block_batch(&pvk, &valid, 2, root, Some(true)),
        Err(BlockRejection::ZkCandidates)
    );
    assert_eq!(
        verify_block_batch(&pvk, &vec![None], 3, root, Some(true)),
        Err(BlockRejection::Deserialize)
    );
    assert_eq!(verify_block_batch(&pvk, &valid, 3, root, Some(true)), Ok(()));
    assert_eq!(verify_block_batch(&pvk, &vec![], 3, root, None), Ok(()));
    let mut short = from_key(&election.verifying_key);
    short.gamma_abc_g1.pop();
    assert_eq!(
        verify_block_batch(&prepare_verifying_key(short), &valid, 3, root, Some(true)),
        Err(BlockRejection::ZkVerificationError)
    );
}

#[test]
fn workers_read_what_was_prepared() {
    let election = Election::new("test-election-2025");
    let paths: Vec<Path<TreeConfig>> =
        (0..4).map(|v| election.tree.generate_proof(v).unwrap()).collect();
    let voters: Vec<(FieldElement, MerklePath)> = paths
        .iter()
        .zip(&election.creds)
        .map(|(path, cred)| (*cred, from_path(path)))
        .collect();
    let (key_file, voters_file) = write_worker_inputs(&election.pk, &voters);

    let mut expected = Vec::new();
    to_point(&election.pk).serialize_uncompressed(&mut expected).unwrap();
    assert_eq!(key_file, expected);
    let mut expected = Vec::new();
    election.creds[..4]
        .iter()
        .map(to_fr)
        .zip(paths)
        .collect::<Vec<(Fr, Path<TreeConfig>)>>()
        .serialize_uncompressed(&mut expected)
        .unwrap();
    assert_eq!(voters_file, expected);

    let text = to_fr(&election.root()).to_string();
    let read = read_worker_inputs(&key_file, &text, &voters_file).unwrap();
    assert_eq!(read.master_pk, election.pk);
    assert_eq!(read.merkle_root, election.root());
    assert_eq!(read.voters.len(), 4);
    for (a, b) in read.voters.iter().zip(&voters) {
        assert_eq!(a.0, b.0);
        assert_eq!(a.1.leaf_sibling_hash, b.1.leaf_sibling_hash);
        assert_eq!(a.1.leaf_index, b.1.leaf_index);
        assert_eq!(a.1.auth_path, b.1.auth_path);
    }

    assert!(read_worker_inputs(&key_file[..63], &text, &voters_file).is_none());
    assert!(read_worker_inputs(&[1; 64], &text, &voters_file).is_none());
    assert!(read_worker_inputs(&key_file, "no number", &voters_file).is_none());
    assert!(read_worker_inputs(&key_file, &text, &voters_file[..voters_file.len() - 1]).is_none());
    assert!(read_worker_inputs(&key_file, &text, &[255; 8]).is_none());
    let mut large = voters_file.clone();
    large[8..40].fill(255);
    assert!(read_worker_inputs(&key_file, &text, &large).is_none());
    let mut promised = voters_file.clone();
    promised[72..80].fill(255);
    assert!(read_worker_inputs(&key_file, &text, &promised).is_none());
    assert!(read_worker_inputs(&key_file, &text, &[0; 8]).unwrap().voters.is_empty());
}

#[test]
fn empty_and_uneven_batches() {
    let election = Election::new("test-election-2025");
    let pvk = election.prepared();
    assert_eq!(batch_verify(&pvk, &[], &[]), Ok(true));
    let (vote, inputs) = election.prove(1, 1, 5);
    assert_eq!(batch_verify(&pvk, &[], &[inputs.clone()]), Err(ZkError::Unsatisfiable));
    let proofs = vec![vote.proof];
    let one = vec![FieldElement::one()];
    assert_eq!(batch_verify_with(&pvk, &proofs, &[inputs], &one), Ok(true));
}

#[test]
fn key_bytes_are_the_uncompressed_encoding() {
    let election = Election::new("test-election-2025");
    let mut bytes = Vec::new();
    election.verifying_key.serialize_uncompressed(&mut bytes).unwrap();
    let key = from_key(&election.verifying_key);
    assert_eq!(key_bytes(&key), bytes);

    let text = crypto_config(3, &election.root(), &key, 1).unwrap().verifying_key;
    assert_eq!(key_bytes(&read_key(&text).unwrap()), bytes);
    assert_eq!(key_bytes(&key_from_bytes(&bytes).unwrap()), bytes);
    assert!(read_key("").is_none());
    assert!(read_key(&text[..text.len() - 1]).is_none());
    assert!(read_key(&format!("{text}=")).is_none());
    assert!(read_key(&format!("-{}", &text[1..])).is_none());
    assert!(key_from_bytes(&bytes[..bytes.len() - 1]).is_none());
    let mut promised = bytes.clone();
    promised[672..680].fill(255);
    assert!(key_from_bytes(&promised).is_none());
    let mut elsewhere = bytes.clone();
    elsewhere[95] ^= 1;
    assert!(key_from_bytes(&elsewhere).is_none());
    let beside = |change: &dyn Fn(&mut ark_groth16::VerifyingKey<Bls12_381>)| {
        let mut key = election.verifying_key.clone();
        change(&mut key);
        let mut bytes = Vec::new();
        key.serialize_uncompressed(&mut bytes).unwrap();
        bytes
    };
    let (u, v) = (Fq::from(3u64), Fq2::from(3u64));
    let p = G1Affine::generator();
    let p = G1Affine::new_unchecked(p.x * u * u, p.y * u * u * u);
    let q = G2Affine::generator();
    let q = G2Affine::new_unchecked(q.x * v * v, q.y * v * v * v);
    assert!(!p.is_on_curve() && !q.is_on_curve());
    assert!(key_from_bytes(&beside(&|key| key.alpha_g1 = p)).is_none());
    assert!(key_from_bytes(&beside(&|key| key.beta_g2 = q)).is_none());
    assert!(key_from_bytes(&beside(&|key| key.gamma_g2 = q)).is_none());
    assert!(key_from_bytes(&beside(&|key| key.delta_g2 = q)).is_none());
    assert!(key_from_bytes(&beside(&|key| key.gamma_abc_g1[1] = p)).is_none());
    assert!(key_from_bytes(&beside(&|key| key.alpha_g1 = G1Affine::identity())).is_some());
    let config = crypto_config(3, &FieldElement::from_u64(30), &key, 1234567890).unwrap();
    assert_eq!(config.merkle_root, "30");
    assert_eq!(config.verifying_key.len(), bytes.len().div_ceil(3) * 4);
    assert_eq!((config.num_candidates, config.global_seed), (3, 1234567890));
}

#[test]
fn points_and_scalars_match_the_curve() {
    assert_eq!(to_point(&Point::generator()), EdwardsAffine::generator());
    assert_eq!(to_point(&Point::identity()), EdwardsAffine::zero());
    assert!(Point::identity().is_zero());
    assert_eq!(to_scalar(&Scalar::from_u64(7)), JubJubFr::from(7u64));
}

#[test]
fn statements_of_other_choices_do_not_hold() {
    let election = Election::new("test-election-2025");
    let (statement, mut witness, _, _) = election.ballot(2, 1, 9);
    let p = &election.params;
    assert!(check_vote(&statement, &witness, &p.0, &p.1, &p.2));
    witness.vote_bits = vec![true, false, false];
    assert!(!check_vote(&statement, &witness, &p.0, &p.1, &p.2));
    witness.vote_bits = vec![false, false, false];
    assert!(!check_vote(&statement, &witness, &p.0, &p.1, &p.2));

    let leaf = voter_leaf(&p.0, &election.creds[2], &statement.election_id);
    assert_eq!(root_of_path(&p.1, &leaf, &witness.merkle_path), election.root());
    let stranger = voter_leaf(&p.0, &FieldElement::one(), &statement.election_id);
    assert_ne!(root_of_path(&p.1, &stranger, &witness.merkle_path), election.root());
}

#[test]
fn votes_and_ciphertexts_are_equally_many() {
    let params = setup_poseidon_params();
    let result = prepare_vote(
        &[1],
        blank_path(2),
        &[1, 0],
        Scalar::one(),
        b"e",
        FieldElement::zero(),
        Vec::new(),
        Point::generator(),
        Point::generator(),
        &params.2,
    );
    assert!(matches!(result, Err(ZkError::Unsatisfiable)));
}
