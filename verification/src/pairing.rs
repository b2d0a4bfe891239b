//! The groups of the BLS12-381 pairing.
//!
//! Every element is a multiple of a generator, and contracts speak of it by
//! that factor, its logarithm, modulo the field's order; no function computes
//! it. The pairing of two elements has the product of their logarithms.
use crate::field;
use crate::field::FieldElement;
use crate::modular;
use ark_bls12_381::{Bls12_381, G1Affine, G2Affine};
use ark_ec::pairing::{Pairing, PairingOutput};
use ark_ec::{AffineRepr, CurveGroup, VariableBaseMSM};
use ark_ff::{BigInt, UniformRand};
use ark_serialize::{CanonicalDeserialize, CanonicalSerialize};
use rand::SeedableRng;
use vstd::prelude::*;

verus! {

/// The uncompressed encoding of `k` times the generator of the first group.
pub uninterp spec fn g1_multiple(k: int) -> Seq<u8>;

/// The uncompressed encoding of `k` times the generator of the second group.
pub uninterp spec fn g2_multiple(k: int) -> Seq<u8>;

/// The uncompressed encoding of the `k`-th power of the pairing of the
/// generators.
pub uninterp spec fn gt_multiple(k: int) -> Seq<u8>;

/// The logarithm of the element of the first group that compressed bytes are
/// read as, where they are read as one.
pub uninterp spec fn g1_decoding(bytes: Seq<u8>) -> Option<int>;

/// The logarithm of the element of the second group that compressed bytes are
/// read as, where they are read as one.
pub uninterp spec fn g2_decoding(bytes: Seq<u8>) -> Option<int>;

/// An element of the first group.
#[derive(Debug)]
pub struct G1 {
    bytes: Vec<u8>,
}

/// An element of the second group.
#[derive(Debug)]
pub struct G2 {
    bytes: Vec<u8>,
}

/// An element of the target group.
#[derive(Debug)]
pub struct Gt {
    bytes: Vec<u8>,
}

fn same_bytes(a: &Vec<u8>, b: &Vec<u8>) -> (r: bool)
    ensures
        r == (a@ == b@),
{
    if a.len() != b.len() {
        return false;
    }
    let mut i: usize = 0;
    while i < a.len()
        invariant
            i <= a@.len(),
            a@.len() == b@.len(),
            forall|j: int| 0 <= j < i ==> a@[j] == b@[j],
        decreases a@.len() - i,
    {
        if a[i] != b[i] {
            return false;
        }
        i = i + 1;
    }
    assert(a@ =~= b@);
    true
}

impl G1 {
    /// The uncompressed encoding.
    pub closed spec fn encoding(&self) -> Seq<u8> {
        self.bytes@
    }

    /// The factor that takes the generator to this element.
    pub closed spec fn log(&self) -> int {
        (choose|k: int|
            0 <= k < field::field_order() && self.bytes@ == #[trigger] g1_multiple(k))
            % field::field_order()
    }

    #[verifier::type_invariant]
    spec fn in_group(self) -> bool {
        exists|k: int| 0 <= k < field::field_order() && self.bytes@ == #[trigger] g1_multiple(k)
    }

    pub(crate) fn raw(&self) -> (r: &[u8])
        ensures
            r@ == self.encoding(),
    {
        self.bytes.as_slice()
    }

    /// `deserialize_compressed` on `ark_bls12_381::G1Affine` reads an element of
    /// the group, and refuses everything else. The element is kept in the
    /// encoding of `serialize_uncompressed`.
    #[verifier::external_body]
    fn read(bytes: &[u8]) -> (r: Option<Self>)
        ensures
            r is Some == g1_decoding(bytes@) is Some,
            r matches Some(p) ==> g1_decoding(bytes@) == Some(p.log()) && p.encoding()
                == g1_multiple(p.log()),
    {
        let p = G1Affine::deserialize_compressed(bytes).ok()?;
        let mut out = Vec::new();
        p.serialize_uncompressed(&mut out).unwrap();
        Some(G1 { bytes: out })
    }

    /// Reads a compressed element.
    pub fn from_bytes(bytes: &[u8]) -> (r: Option<Self>)
        ensures
            r is Some == g1_decoding(bytes@) is Some,
            r matches Some(p) ==> g1_decoding(bytes@) == Some(p.log()),
    {
        G1::read(bytes)
    }

    /// `serialize_compressed` on `ark_bls12_381::G1Affine` writes 48 bytes, from
    /// which the element is read back.
    #[verifier::external_body]
    fn written(&self) -> (r: Vec<u8>)
        ensures
            g1_decoding(r@) == Some(self.log()),
            r@.len() == 48,
    {
        let p = G1Affine::deserialize_uncompressed_unchecked(self.raw()).unwrap();
        let mut out = Vec::new();
        p.serialize_compressed(&mut out).unwrap();
        out
    }

    /// The compressed encoding.
    pub fn to_bytes(&self) -> (r: Vec<u8>)
        ensures
            g1_decoding(r@) == Some(self.log()),
            r@.len() == 48,
    {
        self.written()
    }

    /// Addition in `ark_bls12_381::G1Affine`: logarithms add.
    #[verifier::external_body]
    pub(crate) fn plus(&self, other: &Self) -> (r: Self)
        ensures
            r.log() == (self.log() + other.log()) % field::field_order(),
            r.encoding() == g1_multiple(r.log()),
    {
        let a = G1Affine::deserialize_uncompressed_unchecked(self.raw()).unwrap();
        let b = G1Affine::deserialize_uncompressed_unchecked(other.raw()).unwrap();
        let mut out = Vec::new();
        (a + b).into_affine().serialize_uncompressed(&mut out).unwrap();
        G1 { bytes: out }
    }

    /// Scalar multiplication in `ark_bls12_381::G1Affine`: the logarithm is
    /// multiplied.
    #[verifier::external_body]
    pub(crate) fn times(&self, s: &FieldElement) -> (r: Self)
        ensures
            r.log() == (self.log() * s@) % field::field_order(),
            r.encoding() == g1_multiple(r.log()),
    {
        let a = G1Affine::deserialize_uncompressed_unchecked(self.raw()).unwrap();
        let k = ark_bls12_381::Fr::from(BigInt::new(s.limbs()));
        let mut out = Vec::new();
        (a * k).into_affine().serialize_uncompressed(&mut out).unwrap();
        G1 { bytes: out }
    }

    /// `VariableBaseMSM::msm` on `ark_bls12_381::G1Projective`: the sum of the
    /// elements, each multiplied by its scalar.
    #[verifier::external_body]
    pub(crate) fn msm(points: &[G1], scalars: &[FieldElement]) -> (r: Self)
        requires
            points@.len() == scalars@.len(),
        ensures
            r.log() == modular::sum(points@.len(), msm_term(points@, scalars@))
                % field::field_order(),
            r.encoding() == g1_multiple(r.log()),
    {
        let read = |p: &G1| G1Affine::deserialize_uncompressed_unchecked(p.raw()).unwrap();
        let bases: Vec<G1Affine> = points.iter().map(read).collect();
        let to = |s: &FieldElement| ark_bls12_381::Fr::from(BigInt::new(s.limbs()));
        let ks: Vec<ark_bls12_381::Fr> = scalars.iter().map(to).collect();
        let mut out = Vec::new();
        let sum = ark_bls12_381::G1Projective::msm(&bases, &ks).unwrap();
        sum.into_affine().serialize_uncompressed(&mut out).unwrap();
        G1 { bytes: out }
    }

    /// A copy of the element.
    pub fn duplicate(&self) -> (r: Self)
        ensures
            r.encoding() == self.encoding(),
            r.log() == self.log(),
    {
        proof {
            use_type_invariant(self);
        }
        let mut bytes: Vec<u8> = Vec::new();
        let mut i: usize = 0;
        while i < self.bytes.len()
            invariant
                i <= self.bytes@.len(),
                bytes@ == self.bytes@.take(i as int),
            decreases self.bytes@.len() - i,
        {
            bytes.push(self.bytes[i]);
            i = i + 1;
            assert(self.bytes@.take(i as int) =~= self.bytes@.take(i - 1).push(self.bytes@[i - 1]));
        }
        assert(self.bytes@.take(i as int) =~= self.bytes@);
        G1 { bytes }
    }
}

/// The contribution of each element to a multi-scalar multiplication.
pub open spec fn msm_term(points: Seq<G1>, scalars: Seq<FieldElement>) -> spec_fn(int) -> int {
    |i: int| points[i].log() * scalars[i]@
}

impl G2 {
    /// The uncompressed encoding.
    pub closed spec fn encoding(&self) -> Seq<u8> {
        self.bytes@
    }

    /// The factor that takes the generator to this element.
    pub closed spec fn log(&self) -> int {
        (choose|k: int|
            0 <= k < field::field_order() && self.bytes@ == #[trigger] g2_multiple(k))
            % field::field_order()
    }

    #[verifier::type_invariant]
    spec fn in_group(self) -> bool {
        exists|k: int| 0 <= k < field::field_order() && self.bytes@ == #[trigger] g2_multiple(k)
    }

    pub(crate) fn raw(&self) -> (r: &[u8])
        ensures
            r@ == self.encoding(),
    {
        self.bytes.as_slice()
    }

    /// `deserialize_compressed` on `ark_bls12_381::G2Affine` reads an element of
    /// the group, and refuses everything else. The element is kept in the
    /// encoding of `serialize_uncompressed`.
    #[verifier::external_body]
    fn read(bytes: &[u8]) -> (r: Option<Self>)
        ensures
            r is Some == g2_decoding(bytes@) is Some,
            r matches Some(p) ==> g2_decoding(bytes@) == Some(p.log()) && p.encoding()
                == g2_multiple(p.log()),
    {
        let p = G2Affine::deserialize_compressed(bytes).ok()?;
        let mut out = Vec::new();
        p.serialize_uncompressed(&mut out).unwrap();
        Some(G2 { bytes: out })
    }

    /// Reads a compressed element.
    pub fn from_bytes(bytes: &[u8]) -> (r: Option<Self>)
        ensures
            r is Some == g2_decoding(bytes@) is Some,
            r matches Some(p) ==> g2_decoding(bytes@) == Some(p.log()),
    {
        G2::read(bytes)
    }

    /// `serialize_compressed` on `ark_bls12_381::G2Affine` writes 96 bytes, from
    /// which the element is read back.
    #[verifier::external_body]
    fn written(&self) -> (r: Vec<u8>)
        ensures
            g2_decoding(r@) == Some(self.log()),
            r@.len() == 96,
    {
        let p = G2Affine::deserialize_uncompressed_unchecked(self.raw()).unwrap();
        let mut out = Vec::new();
        p.serialize_compressed(&mut out).unwrap();
        out
    }

    /// The compressed encoding.
    pub fn to_bytes(&self) -> (r: Vec<u8>)
        ensures
            g2_decoding(r@) == Some(self.log()),
            r@.len() == 96,
    {
        self.written()
    }

    /// Negation in `ark_bls12_381::G2Affine`: the logarithm is negated.
    #[verifier::external_body]
    pub(crate) fn negated(&self) -> (r: Self)
        ensures
            r.log() == (0 - self.log()) % field::field_order(),
            r.encoding() == g2_multiple(r.log()),
    {
        let a = G2Affine::deserialize_uncompressed_unchecked(self.raw()).unwrap();
        let mut out = Vec::new();
        (-a).serialize_uncompressed(&mut out).unwrap();
        G2 { bytes: out }
    }

    /// A copy of the element.
    pub fn duplicate(&self) -> (r: Self)
        ensures
            r.encoding() == self.encoding(),
            r.log() == self.log(),
    {
        proof {
            use_type_invariant(self);
        }
        let mut bytes: Vec<u8> = Vec::new();
        let mut i: usize = 0;
        while i < self.bytes.len()
            invariant
                i <= self.bytes@.len(),
                bytes@ == self.bytes@.take(i as int),
            decreases self.bytes@.len() - i,
        {
            bytes.push(self.bytes[i]);
            i = i + 1;
            assert(self.bytes@.take(i as int) =~= self.bytes@.take(i - 1).push(self.bytes@[i - 1]));
        }
        assert(self.bytes@.take(i as int) =~= self.bytes@);
        G2 { bytes }
    }
}

/// The contribution of each pair to a product of pairings.
pub open spec fn pairing_term(a: Seq<G1>, b: Seq<G2>) -> spec_fn(int) -> int {
    |i: int| a[i].log() * b[i].log()
}

impl Gt {
    /// The uncompressed encoding.
    pub closed spec fn encoding(&self) -> Seq<u8> {
        self.bytes@
    }

    /// The exponent that takes the pairing of the generators to this element.
    pub closed spec fn log(&self) -> int {
        (choose|k: int|
            0 <= k < field::field_order() && self.bytes@ == #[trigger] gt_multiple(k))
            % field::field_order()
    }

    #[verifier::type_invariant]
    spec fn in_group(self) -> bool {
        exists|k: int| 0 <= k < field::field_order() && self.bytes@ == #[trigger] gt_multiple(k)
    }

    fn raw(&self) -> &[u8] {
        self.bytes.as_slice()
    }

    /// `Pairing::multi_pairing` of `ark_bls12_381::Bls12_381`, which is the Miller
    /// loop and the final exponentiation: the product of the pairings of the
    /// elements at the same position.
    #[verifier::external_body]
    pub(crate) fn pairing_product(a: &[G1], b: &[G2]) -> (r: Self)
        requires
            a@.len() == b@.len(),
        ensures
            r.log() == modular::sum(a@.len(), pairing_term(a@, b@)) % field::field_order(),
            r.encoding() == gt_multiple(r.log()),
    {
        let g1 = |p: &G1| G1Affine::deserialize_uncompressed_unchecked(p.raw()).unwrap();
        let g2 = |p: &G2| G2Affine::deserialize_uncompressed_unchecked(p.raw()).unwrap();
        let value = Bls12_381::multi_pairing(a.iter().map(g1), b.iter().map(g2));
        let mut out = Vec::new();
        value.serialize_uncompressed(&mut out).unwrap();
        Gt { bytes: out }
    }

    /// Powers in the target group, which `ark_ec` writes as scalar
    /// multiplication on `PairingOutput`: the exponent is multiplied.
    #[verifier::external_body]
    pub(crate) fn power(&self, s: &FieldElement) -> (r: Self)
        ensures
            r.log() == (self.log() * s@) % field::field_order(),
            r.encoding() == gt_multiple(r.log()),
    {
        let a = PairingOutput::<Bls12_381>::deserialize_uncompressed_unchecked(self.raw()).unwrap();
        let k = ark_bls12_381::Fr::from(BigInt::new(s.limbs()));
        let mut out = Vec::new();
        (a * k).serialize_uncompressed(&mut out).unwrap();
        Gt { bytes: out }
    }

    /// Whether two elements are the same.
    pub fn same(&self, other: &Self) -> (b: bool)
        ensures
            b == (self.log() == other.log()),
    {
        proof {
            use_type_invariant(self);
            use_type_invariant(other);
            modular::lemma_small(
                choose|k: int|
                    0 <= k < field::field_order() && self.bytes@ == #[trigger] gt_multiple(k),
                field::field_order(),
            );
            modular::lemma_small(
                choose|k: int|
                    0 <= k < field::field_order() && other.bytes@ == #[trigger] gt_multiple(k),
                field::field_order(),
            );
        }
        same_bytes(&self.bytes, &other.bytes)
    }
}

impl FieldElement {
    /// `UniformRand::rand` on `ark_bls12_381::Fr`, from a generator that the
    /// operating system seeds. Nothing is promised of the element.
    #[verifier::external_body]
    pub(crate) fn random() -> FieldElement {
        let mut rng = rand::rngs::StdRng::from_entropy();
        let v = ark_bls12_381::Fr::rand(&mut rng);
        FieldElement::from_limbs(ark_ff::PrimeField::into_bigint(v).0).unwrap()
    }
}

/// A logarithm in the target group is below the field's order.
pub broadcast proof fn lemma_gt_range(p: Gt)
    ensures
        0 <= #[trigger] p.log() < field::field_order(),
{
    modular::lemma_eqm_mod(
        choose|k: int|
            0 <= k < field::field_order() && p.bytes@ == #[trigger] gt_multiple(k),
        field::field_order(),
    );
}

} // verus!
