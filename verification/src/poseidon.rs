//! The Poseidon hash: its parameters and its two uses, on a list of elements
//! and on a pair.
use crate::field::FieldElement;
use ark_bls12_381::Fr;
use ark_crypto_primitives::crh::poseidon::{TwoToOneCRH, CRH};
use ark_crypto_primitives::crh::{CRHScheme, TwoToOneCRHScheme};
use ark_crypto_primitives::sponge::poseidon::PoseidonConfig;
use ark_ff::{BigInt, PrimeField};
use vstd::prelude::*;

verus! {

/// The number of full rounds.
pub const FULL_ROUNDS: usize = 8;

/// The number of partial rounds.
pub const PARTIAL_ROUNDS: usize = 31;

/// The exponent of the substitution.
pub const ALPHA: u64 = 17;

/// How many elements are absorbed at a time.
pub const RATE: usize = 2;

/// How many elements of the state are never absorbed into.
pub const CAPACITY: usize = 1;

/// The number of bits of the field's order.
pub const FIELD_BITS: u64 = 255;

/// The parameters for inner nodes of the voters' tree.
pub const DOMAIN_ID_MERKLE: u64 = 0;

/// The parameters for nullifiers.
pub const DOMAIN_ID_NULLIFIER: u64 = 1;

/// The parameters for leaves of the voters' tree.
pub const DOMAIN_ID_LEAF: u64 = 2;

/// The round constants and the matrix for these sizes, with `skip` matrices
/// passed over.
pub uninterp spec fn poseidon_constants(
    prime_bits: int,
    rate: int,
    full_rounds: int,
    partial_rounds: int,
    skip: int,
) -> (Seq<Seq<int>>, Seq<Seq<int>>);

/// The hash of a list of elements.
pub uninterp spec fn poseidon_hash(
    full_rounds: int,
    partial_rounds: int,
    alpha: int,
    mds: Seq<Seq<int>>,
    ark: Seq<Seq<int>>,
    rate: int,
    capacity: int,
    inputs: Seq<int>,
) -> int;

/// The hash of a pair of elements.
pub uninterp spec fn poseidon_pair(
    full_rounds: int,
    partial_rounds: int,
    alpha: int,
    mds: Seq<Seq<int>>,
    ark: Seq<Seq<int>>,
    rate: int,
    capacity: int,
    left: int,
    right: int,
) -> int;

/// The numbers of a table of field elements.
pub open spec fn table(m: Seq<Vec<FieldElement>>) -> Seq<Seq<int>> {
    Seq::new(m.len(), |i: int| Seq::new(m[i]@.len(), |j: int| m[i]@[j]@))
}

/// The parameters of the hash.
#[derive(Debug)]
pub struct PoseidonParams {
    pub full_rounds: usize,
    pub partial_rounds: usize,
    pub alpha: u64,
    pub mds: Vec<Vec<FieldElement>>,
    pub ark: Vec<Vec<FieldElement>>,
    pub rate: usize,
    pub capacity: usize,
}

/// Every row of a table has the same number of entries.
pub open spec fn rows_of(m: Seq<Vec<FieldElement>>, n: int) -> bool {
    forall|i: int| 0 <= i < m.len() ==> (#[trigger] m[i])@.len() == n
}

impl PoseidonParams {
    /// The tables have the shape that the sizes ask for, and there is
    /// something to absorb into.
    pub open spec fn wf(&self) -> bool {
        &&& 0 < self.rate
        &&& self.rate + self.capacity <= usize::MAX
        &&& self.full_rounds + self.partial_rounds <= usize::MAX
        &&& self.ark@.len() == self.full_rounds + self.partial_rounds
        &&& rows_of(self.ark@, self.rate + self.capacity)
        &&& self.mds@.len() == self.rate + self.capacity
        &&& rows_of(self.mds@, self.rate + self.capacity)
    }

    /// The hash of a list of elements under these parameters.
    pub open spec fn hash_of(&self, inputs: Seq<int>) -> int {
        poseidon_hash(
            self.full_rounds as int,
            self.partial_rounds as int,
            self.alpha as int,
            table(self.mds@),
            table(self.ark@),
            self.rate as int,
            self.capacity as int,
            inputs,
        )
    }

    /// The hash of a pair of elements under these parameters.
    pub open spec fn pair_of(&self, left: int, right: int) -> int {
        poseidon_pair(
            self.full_rounds as int,
            self.partial_rounds as int,
            self.alpha as int,
            table(self.mds@),
            table(self.ark@),
            self.rate as int,
            self.capacity as int,
            left,
            right,
        )
    }

    /// `CRHScheme::evaluate` of `ark_crypto_primitives::crh::poseidon::CRH`: the
    /// parameters and the elements determine the hash.
    #[verifier::external_body]
    pub(crate) fn evaluate(&self, inputs: &[FieldElement]) -> (r: FieldElement)
        requires
            self.wf(),
        ensures
            r@ == poseidon_hash(
                self.full_rounds as int,
                self.partial_rounds as int,
                self.alpha as int,
                table(self.mds@),
                table(self.ark@),
                self.rate as int,
                self.capacity as int,
                crate::zkp::elements(inputs@),
            ),
    {
        let to = |x: &FieldElement| Fr::from(BigInt::new(x.limbs()));
        let row = |r: &Vec<FieldElement>| r.iter().map(to).collect();
        let (mds, ark) = (self.mds.iter().map(row).collect(), self.ark.iter().map(row).collect());
        let (full, part) = (self.full_rounds, self.partial_rounds);
        let cfg = PoseidonConfig::new(full, part, self.alpha, mds, ark, self.rate, self.capacity);
        let xs: Vec<_> = inputs.iter().map(to).collect();
        let h = CRH::evaluate(&cfg, &xs[..]).unwrap();
        FieldElement::from_limbs(h.into_bigint().0).unwrap()
    }

    /// `TwoToOneCRHScheme::evaluate` of
    /// `ark_crypto_primitives::crh::poseidon::TwoToOneCRH`: the parameters and the
    /// pair determine the hash.
    #[verifier::external_body]
    pub(crate) fn evaluate_pair(&self, left: &FieldElement, right: &FieldElement) -> (r: FieldElement)
        requires
            self.wf(),
        ensures
            r@ == poseidon_pair(
                self.full_rounds as int,
                self.partial_rounds as int,
                self.alpha as int,
                table(self.mds@),
                table(self.ark@),
                self.rate as int,
                self.capacity as int,
                left@,
                right@,
            ),
    {
        let to = |x: &FieldElement| Fr::from(BigInt::new(x.limbs()));
        let row = |r: &Vec<FieldElement>| r.iter().map(to).collect();
        let (mds, ark) = (self.mds.iter().map(row).collect(), self.ark.iter().map(row).collect());
        let (full, part) = (self.full_rounds, self.partial_rounds);
        let cfg = PoseidonConfig::new(full, part, self.alpha, mds, ark, self.rate, self.capacity);
        let h = TwoToOneCRH::<Fr>::evaluate(&cfg, to(left), to(right)).unwrap();
        FieldElement::from_limbs(h.into_bigint().0).unwrap()
    }
}

/// `find_poseidon_ark_and_mds` of `ark_crypto_primitives`, for the field of
/// `ark_bls12_381::Fr`: the round constants, one row for each round, and the
/// square matrix. Other sizes than these are left out, as it does not return
/// for all of them.
#[verifier::external_body]
fn find_constants(
    prime_bits: u64,
    rate: usize,
    full_rounds: u64,
    partial_rounds: u64,
    skip: u64,
) -> (r: (Vec<Vec<FieldElement>>, Vec<Vec<FieldElement>>))
    requires
        prime_bits == 255,
        rate == 2,
        full_rounds == 8,
        partial_rounds == 31,
        skip <= 2,
    ensures
        (table(r.0@), table(r.1@)) == poseidon_constants(
            prime_bits as int,
            rate as int,
            full_rounds as int,
            partial_rounds as int,
            skip as int,
        ),
        r.0@.len() == full_rounds + partial_rounds,
        rows_of(r.0@, rate + 1),
        r.1@.len() == rate + 1,
        rows_of(r.1@, rate + 1),
{
    let find = ark_crypto_primitives::sponge::poseidon::find_poseidon_ark_and_mds;
    let (ark, mds) = find(prime_bits, rate, full_rounds, partial_rounds, skip);
    let of = |x: Fr| FieldElement::from_limbs(x.into_bigint().0).unwrap();
    let rows = |m: Vec<Vec<Fr>>| {
        m.into_iter().map(|row| row.into_iter().map(of).collect()).collect()
    };
    (rows(ark), rows(mds))
}

/// The parameters of one domain.
pub open spec fn domain_params(p: PoseidonParams, domain: u64) -> bool {
    &&& p.wf()
    &&& p.full_rounds == FULL_ROUNDS
    &&& p.partial_rounds == PARTIAL_ROUNDS
    &&& p.alpha == ALPHA
    &&& p.rate == RATE
    &&& p.capacity == CAPACITY
    &&& (table(p.ark@), table(p.mds@)) == poseidon_constants(
        FIELD_BITS as int,
        RATE as int,
        FULL_ROUNDS as int,
        PARTIAL_ROUNDS as int,
        domain as int,
    )
}

fn params_for(domain: u64) -> (r: PoseidonParams)
    requires
        domain <= 2,
    ensures
        domain_params(r, domain),
{
    let (ark, mds) = find_constants(
        FIELD_BITS,
        RATE,
        FULL_ROUNDS as u64,
        PARTIAL_ROUNDS as u64,
        domain,
    );
    PoseidonParams {
        full_rounds: FULL_ROUNDS,
        partial_rounds: PARTIAL_ROUNDS,
        alpha: ALPHA,
        mds,
        ark,
        rate: RATE,
        capacity: CAPACITY,
    }
}

/// The parameters for leaves, for inner nodes and for nullifiers.
pub fn setup_poseidon_params() -> (r: (PoseidonParams, PoseidonParams, PoseidonParams))
    ensures
        domain_params(r.0, DOMAIN_ID_LEAF),
        domain_params(r.1, DOMAIN_ID_MERKLE),
        domain_params(r.2, DOMAIN_ID_NULLIFIER),
{
    let merkle = params_for(DOMAIN_ID_MERKLE);
    let nullifier = params_for(DOMAIN_ID_NULLIFIER);
    let leaf = params_for(DOMAIN_ID_LEAF);
    (leaf, merkle, nullifier)
}

} // verus!
