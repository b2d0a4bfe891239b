//! Points of the prime-order subgroup of the JubJub curve.
//!
//! Every point is a multiple of the generator. Contracts speak of a point by
//! its logarithm, the factor below the group's order; no function computes it.
use crate::field;
use crate::field::{FieldElement, Scalar};
use ark_ec::{AffineRepr, CurveGroup};
use ark_ed_on_bls12_381::EdwardsAffine;
use ark_ff::{BigInt, PrimeField};
use ark_serialize::{CanonicalDeserialize, CanonicalSerialize};
use vstd::prelude::*;

verus! {

/// The coordinates of `k` times the generator.
pub uninterp spec fn generator_multiple(k: int) -> (int, int);

/// The 32 bytes that the point with these coordinates is written as.
pub uninterp spec fn point_encoding(coords: (int, int)) -> Seq<u8>;

/// The coordinates of the point that bytes are read as, where they are read
/// as one.
pub uninterp spec fn point_decoding(bytes: Seq<u8>) -> Option<(int, int)>;

/// The coordinates of the point that bytes hold without compression, where they
/// hold one.
pub uninterp spec fn uncompressed_decoding(bytes: Seq<u8>) -> Option<(int, int)>;

/// A point of the group, by its affine coordinates.
#[derive(Clone, Copy, Debug, PartialEq, Eq, Structural)]
pub struct Point {
    x: FieldElement,
    y: FieldElement,
}

impl Point {
    /// The coordinates as numbers.
    pub closed spec fn coords(&self) -> (int, int) {
        (self.x@, self.y@)
    }

    /// The factor, below the group's order, that takes the generator to this
    /// point.
    pub closed spec fn log(&self) -> int {
        (choose|k: int|
            0 <= k < field::scalar_order() && self.coords() == #[trigger] generator_multiple(k))
            % field::scalar_order()
    }

    #[verifier::type_invariant]
    spec fn in_group(self) -> bool {
        exists|k: int|
            0 <= k < field::scalar_order() && self.coords() == #[trigger] generator_multiple(k)
    }

    /// The first coordinate.
    pub fn x(&self) -> (r: FieldElement)
        ensures
            r@ == self.coords().0,
    {
        self.x
    }

    /// The second coordinate.
    pub fn y(&self) -> (r: FieldElement)
        ensures
            r@ == self.coords().1,
    {
        self.y
    }

    /// Whether two points are the same.
    pub fn same(&self, other: &Self) -> (b: bool)
        ensures
            b == (self.coords() == other.coords()),
            b == (self.log() == other.log()),
    {
        proof {
            use_type_invariant(self);
            use_type_invariant(other);
            crate::modular::lemma_small(
                choose|k: int|
                    0 <= k < field::scalar_order() && self.coords() == #[trigger] generator_multiple(k),
                field::scalar_order(),
            );
            crate::modular::lemma_small(
                choose|k: int|
                    0 <= k < field::scalar_order() && other.coords() == #[trigger] generator_multiple(k),
                field::scalar_order(),
            );
        }
        self.x.same(&other.x) && self.y.same(&other.y)
    }

    /// `AffineRepr::generator` on `ark_ed_on_bls12_381::EdwardsAffine`: the
    /// generator is its own multiple by one.
    #[verifier::external_body]
    pub(crate) fn base() -> (r: Self)
        ensures
            r.log() == 1,
            r.coords() == generator_multiple(1),
    {
        let p = EdwardsAffine::generator();
        let x = FieldElement::from_limbs(p.x.into_bigint().0).unwrap();
        let y = FieldElement::from_limbs(p.y.into_bigint().0).unwrap();
        Point { x, y }
    }

    /// The generator of the group.
    pub fn generator() -> (r: Self)
        ensures
            r.log() == 1,
            r.coords() == generator_multiple(1),
    {
        Point::base()
    }

    /// `AffineRepr::zero` on `ark_ed_on_bls12_381::EdwardsAffine`: the neutral
    /// element is the generator's multiple by zero.
    #[verifier::external_body]
    pub(crate) fn neutral() -> (r: Self)
        ensures
            r.log() == 0,
            r.coords() == generator_multiple(0),
    {
        let p = EdwardsAffine::zero();
        let x = FieldElement::from_limbs(p.x.into_bigint().0).unwrap();
        let y = FieldElement::from_limbs(p.y.into_bigint().0).unwrap();
        Point { x, y }
    }

    /// The neutral element of the group.
    pub fn identity() -> (r: Self)
        ensures
            r.log() == 0,
            r.coords() == generator_multiple(0),
    {
        Point::neutral()
    }

    /// Whether the point is the neutral element.
    pub fn is_zero(&self) -> (b: bool)
        ensures
            b == (self.log() == 0),
    {
        self.same(&Point::identity())
    }

    /// Point addition of `ark_ed_on_bls12_381`: logarithms add modulo the order.
    #[verifier::external_body]
    pub(crate) fn plus(&self, other: &Self) -> (r: Self)
        ensures
            r.log() == (self.log() + other.log()) % field::scalar_order(),
            r.coords() == generator_multiple(r.log()),
    {
        let a = EdwardsAffine::new_unchecked(
            ark_bls12_381::Fr::from(BigInt::new(self.x.limbs())),
            ark_bls12_381::Fr::from(BigInt::new(self.y.limbs())),
        );
        let b = EdwardsAffine::new_unchecked(
            ark_bls12_381::Fr::from(BigInt::new(other.x.limbs())),
            ark_bls12_381::Fr::from(BigInt::new(other.y.limbs())),
        );
        let p = (a + b).into_affine();
        let x = FieldElement::from_limbs(p.x.into_bigint().0).unwrap();
        let y = FieldElement::from_limbs(p.y.into_bigint().0).unwrap();
        Point { x, y }
    }

    /// Point subtraction of `ark_ed_on_bls12_381`: logarithms subtract modulo
    /// the order.
    #[verifier::external_body]
    pub(crate) fn minus(&self, other: &Self) -> (r: Self)
        ensures
            r.log() == (self.log() - other.log()) % field::scalar_order(),
            r.coords() == generator_multiple(r.log()),
    {
        let a = EdwardsAffine::new_unchecked(
            ark_bls12_381::Fr::from(BigInt::new(self.x.limbs())),
            ark_bls12_381::Fr::from(BigInt::new(self.y.limbs())),
        );
        let b = EdwardsAffine::new_unchecked(
            ark_bls12_381::Fr::from(BigInt::new(other.x.limbs())),
            ark_bls12_381::Fr::from(BigInt::new(other.y.limbs())),
        );
        let p = (a.into_group() - b).into_affine();
        let x = FieldElement::from_limbs(p.x.into_bigint().0).unwrap();
        let y = FieldElement::from_limbs(p.y.into_bigint().0).unwrap();
        Point { x, y }
    }

    /// Scalar multiplication of `ark_ed_on_bls12_381`: the logarithm is
    /// multiplied by the scalar modulo the order.
    #[verifier::external_body]
    pub(crate) fn times(&self, s: &Scalar) -> (r: Self)
        ensures
            r.log() == (self.log() * s@) % field::scalar_order(),
            r.coords() == generator_multiple(r.log()),
    {
        let a = EdwardsAffine::new_unchecked(
            ark_bls12_381::Fr::from(BigInt::new(self.x.limbs())),
            ark_bls12_381::Fr::from(BigInt::new(self.y.limbs())),
        );
        let k = ark_ed_on_bls12_381::Fr::from(BigInt::new(s.limbs()));
        let p = (a * k).into_affine();
        let x = FieldElement::from_limbs(p.x.into_bigint().0).unwrap();
        let y = FieldElement::from_limbs(p.y.into_bigint().0).unwrap();
        Point { x, y }
    }

    /// `serialize_compressed` on `ark_ed_on_bls12_381::EdwardsAffine` writes a
    /// point as 32 bytes, from which it is read back.
    #[verifier::external_body]
    pub(crate) fn to_bytes(&self) -> (r: Vec<u8>)
        ensures
            r@ == point_encoding(self.coords()),
            r@.len() == 32,
            point_decoding(r@) == Some(self.coords()),
    {
        let a = EdwardsAffine::new_unchecked(
            ark_bls12_381::Fr::from(BigInt::new(self.x.limbs())),
            ark_bls12_381::Fr::from(BigInt::new(self.y.limbs())),
        );
        let mut bytes = Vec::new();
        a.serialize_compressed(&mut bytes).unwrap();
        bytes
    }

    /// `deserialize_compressed` on `ark_ed_on_bls12_381::EdwardsAffine` reads a
    /// point of the group, and refuses everything else.
    #[verifier::external_body]
    pub(crate) fn from_bytes(bytes: &[u8]) -> (r: Option<Self>)
        ensures
            r is Some == point_decoding(bytes@) is Some,
            r matches Some(p) ==> point_decoding(bytes@) == Some(p.coords()),
    {
        let p = EdwardsAffine::deserialize_compressed(bytes).ok()?;
        let x = FieldElement::from_limbs(p.x.into_bigint().0).unwrap();
        let y = FieldElement::from_limbs(p.y.into_bigint().0).unwrap();
        Some(Point { x, y })
    }

    /// `serialize_uncompressed` on `ark_ed_on_bls12_381::EdwardsAffine` writes a
    /// point as 64 bytes, from which it is read back.
    #[verifier::external_body]
    pub(crate) fn to_uncompressed(&self) -> (r: Vec<u8>)
        ensures
            r@.len() == 64,
            uncompressed_decoding(r@) == Some(self.coords()),
    {
        let a = EdwardsAffine::new_unchecked(
            ark_bls12_381::Fr::from(BigInt::new(self.x.limbs())),
            ark_bls12_381::Fr::from(BigInt::new(self.y.limbs())),
        );
        let mut bytes = Vec::new();
        a.serialize_uncompressed(&mut bytes).unwrap();
        bytes
    }

    /// `deserialize_uncompressed` on `ark_ed_on_bls12_381::EdwardsAffine` reads a
    /// point of the group, and refuses everything else.
    #[verifier::external_body]
    pub(crate) fn from_uncompressed(bytes: &[u8]) -> (r: Option<Self>)
        ensures
            r is Some == uncompressed_decoding(bytes@) is Some,
            r matches Some(p) ==> uncompressed_decoding(bytes@) == Some(p.coords()),
    {
        let p = EdwardsAffine::deserialize_uncompressed(bytes).ok()?;
        let x = FieldElement::from_limbs(p.x.into_bigint().0).unwrap();
        let y = FieldElement::from_limbs(p.y.into_bigint().0).unwrap();
        Some(Point { x, y })
    }
}

/// A logarithm is below the group's order.
pub broadcast proof fn lemma_log_range(p: Point)
    ensures
        0 <= #[trigger] p.log() < field::scalar_order(),
{
    crate::modular::lemma_eqm_mod(
        choose|k: int|
            0 <= k < field::scalar_order() && p.coords() == #[trigger] generator_multiple(k),
        field::scalar_order(),
    );
}

} // verus!
