//! Elements of the two prime fields: `Scalar`, the exponents of the group that
//! the ballots live in, and `FieldElement`, the coordinates of its points and
//! the values of the proof system.
use crate::decimal;
use ark_ff::{BigInt, Field, PrimeField};
use ark_serialize::CanonicalSerialize;
use vstd::prelude::*;

verus! {

/// The number of points in the group, a prime.
pub open spec fn scalar_order() -> int {
    0x0e7db4ea6533afa906673b0101343b00a6682093ccc81082d0970e5ed6f72cb7int
}

/// The number of elements of the coordinate field, a prime.
pub open spec fn field_order() -> int {
    0x73eda753299d7d483339d80809a1d80553bda402fffe5bfeffffffff00000001int
}

/// The number that four 64-bit limbs stand for, the least significant first.
pub open spec fn limbs_value(l0: u64, l1: u64, l2: u64, l3: u64) -> int {
    l0 + l1 * 0x10000000000000000int + l2 * 0x100000000000000000000000000000000int + l3
        * 0x1000000000000000000000000000000000000000000000000int
}

/// The number that little-endian bytes stand for.
pub open spec fn le_value(bytes: Seq<u8>) -> int
    decreases bytes.len(),
{
    if bytes.len() == 0 {
        0
    } else {
        bytes[0] + 256 * le_value(bytes.drop_first())
    }
}

/// Equal numbers have equal limbs.
pub proof fn lemma_limbs_injective(
    a0: u64,
    a1: u64,
    a2: u64,
    a3: u64,
    b0: u64,
    b1: u64,
    b2: u64,
    b3: u64,
)
    requires
        limbs_value(a0, a1, a2, a3) == limbs_value(b0, b1, b2, b3),
    ensures
        a0 == b0,
        a1 == b1,
        a2 == b2,
        a3 == b3,
{
}

/// An exponent: an integer modulo the order of the group.
#[derive(Clone, Copy, Debug, PartialEq, Eq, Structural)]
pub struct Scalar {
    l0: u64,
    l1: u64,
    l2: u64,
    l3: u64,
}

impl View for Scalar {
    type V = int;

    closed spec fn view(&self) -> int {
        limbs_value(self.l0, self.l1, self.l2, self.l3) % scalar_order()
    }
}

impl Scalar {
    #[verifier::type_invariant]
    spec fn canonical(self) -> bool {
        limbs_value(self.l0, self.l1, self.l2, self.l3) < scalar_order()
    }

    /// The element zero.
    pub fn zero() -> (r: Self)
        ensures
            r@ == 0,
    {
        Scalar { l0: 0, l1: 0, l2: 0, l3: 0 }
    }

    /// The element one.
    pub fn one() -> (r: Self)
        ensures
            r@ == 1,
    {
        Scalar { l0: 1, l1: 0, l2: 0, l3: 0 }
    }

    /// The element that an integer stands for.
    pub fn from_u64(v: u64) -> (r: Self)
        ensures
            r@ == v,
    {
        Scalar { l0: v, l1: 0, l2: 0, l3: 0 }
    }

    /// Whether two elements are the same number.
    pub fn same(&self, other: &Self) -> (b: bool)
        ensures
            b == (self@ == other@),
    {
        proof {
            use_type_invariant(self);
            use_type_invariant(other);
            if self@ == other@ {
                lemma_limbs_injective(
                    self.l0,
                    self.l1,
                    self.l2,
                    self.l3,
                    other.l0,
                    other.l1,
                    other.l2,
                    other.l3,
                );
            }
        }
        self.l0 == other.l0 && self.l1 == other.l1 && self.l2 == other.l2 && self.l3 == other.l3
    }

    /// The element with these limbs, where they are below the order.
    pub fn from_limbs(limbs: [u64; 4]) -> (r: Option<Self>)
        ensures
            r is Some <==> limbs_value(limbs[0], limbs[1], limbs[2], limbs[3]) < scalar_order(),
            r matches Some(v) ==> v@ == limbs_value(limbs[0], limbs[1], limbs[2], limbs[3]),
    {
        let l0: u64 = limbs[0];
        let l1: u64 = limbs[1];
        let l2: u64 = limbs[2];
        let l3: u64 = limbs[3];
        let below = l3 < 0x0e7db4ea6533afa9 || (l3 == 0x0e7db4ea6533afa9 && (l2 < 0x06673b0101343b00
            || (l2 == 0x06673b0101343b00 && (l1 < 0xa6682093ccc81082 || (l1 == 0xa6682093ccc81082
            && l0 < 0xd0970e5ed6f72cb7)))));
        if below {
            Some(Scalar { l0, l1, l2, l3 })
        } else {
            None
        }
    }

    /// The limbs of the number, the least significant first.
    pub fn limbs(&self) -> (r: [u64; 4])
        ensures
            limbs_value(r[0], r[1], r[2], r[3]) == self@,
    {
        proof {
            use_type_invariant(self);
        }
        [self.l0, self.l1, self.l2, self.l3]
    }

    /// `+` on `ark_ed_on_bls12_381::Fr` adds modulo the order.
    #[verifier::external_body]
    pub(crate) fn plus(&self, other: &Self) -> (r: Self)
        ensures
            r@ == (self@ + other@) % scalar_order(),
    {
        let a = ark_ed_on_bls12_381::Fr::from(BigInt::new(self.limbs()));
        let b = ark_ed_on_bls12_381::Fr::from(BigInt::new(other.limbs()));
        let [l0, l1, l2, l3] = (a + b).into_bigint().0;
        Scalar { l0, l1, l2, l3 }
    }

    /// `-` on `ark_ed_on_bls12_381::Fr` subtracts modulo the order.
    #[verifier::external_body]
    pub(crate) fn minus(&self, other: &Self) -> (r: Self)
        ensures
            r@ == (self@ - other@) % scalar_order(),
    {
        let a = ark_ed_on_bls12_381::Fr::from(BigInt::new(self.limbs()));
        let b = ark_ed_on_bls12_381::Fr::from(BigInt::new(other.limbs()));
        let [l0, l1, l2, l3] = (a - b).into_bigint().0;
        Scalar { l0, l1, l2, l3 }
    }

    /// `*` on `ark_ed_on_bls12_381::Fr` multiplies modulo the order, a prime:
    /// a product is zero only where a factor is.
    #[verifier::external_body]
    pub(crate) fn times(&self, other: &Self) -> (r: Self)
        ensures
            r@ == (self@ * other@) % scalar_order(),
            r@ == 0 ==> self@ == 0 || other@ == 0,
    {
        let a = ark_ed_on_bls12_381::Fr::from(BigInt::new(self.limbs()));
        let b = ark_ed_on_bls12_381::Fr::from(BigInt::new(other.limbs()));
        let [l0, l1, l2, l3] = (a * b).into_bigint().0;
        Scalar { l0, l1, l2, l3 }
    }

    /// `Field::inverse` on `ark_ed_on_bls12_381::Fr` gives the multiplicative
    /// inverse of every element but zero, and `None` for zero.
    #[verifier::external_body]
    pub(crate) fn inverse(&self) -> (r: Option<Self>)
        ensures
            r is Some <==> self@ != 0,
            r matches Some(v) ==> (self@ * v@) % scalar_order() == 1,
    {
        let v = ark_ed_on_bls12_381::Fr::from(BigInt::new(self.limbs())).inverse()?;
        let [l0, l1, l2, l3] = v.into_bigint().0;
        Some(Scalar { l0, l1, l2, l3 })
    }
}

/// A scalar's number is below the order.
pub broadcast proof fn lemma_scalar_range(s: Scalar)
    ensures
        0 <= #[trigger] s@ < scalar_order(),
{
}

/// A coordinate of a point, and a value of the proof system: an integer modulo
/// the order of the coordinate field.
#[derive(Clone, Copy, Debug, PartialEq, Eq, Structural)]
pub struct FieldElement {
    l0: u64,
    l1: u64,
    l2: u64,
    l3: u64,
}

impl View for FieldElement {
    type V = int;

    closed spec fn view(&self) -> int {
        limbs_value(self.l0, self.l1, self.l2, self.l3) % field_order()
    }
}

impl FieldElement {
    #[verifier::type_invariant]
    spec fn canonical(self) -> bool {
        limbs_value(self.l0, self.l1, self.l2, self.l3) < field_order()
    }

    /// The element zero.
    pub fn zero() -> (r: Self)
        ensures
            r@ == 0,
    {
        FieldElement { l0: 0, l1: 0, l2: 0, l3: 0 }
    }

    /// The element one.
    pub fn one() -> (r: Self)
        ensures
            r@ == 1,
    {
        FieldElement { l0: 1, l1: 0, l2: 0, l3: 0 }
    }

    /// The element that an integer stands for.
    pub fn from_u64(v: u64) -> (r: Self)
        ensures
            r@ == v,
    {
        FieldElement { l0: v, l1: 0, l2: 0, l3: 0 }
    }

    /// Whether two elements are the same number.
    pub fn same(&self, other: &Self) -> (b: bool)
        ensures
            b == (self@ == other@),
    {
        proof {
            use_type_invariant(self);
            use_type_invariant(other);
            if self@ == other@ {
                lemma_limbs_injective(
                    self.l0,
                    self.l1,
                    self.l2,
                    self.l3,
                    other.l0,
                    other.l1,
                    other.l2,
                    other.l3,
                );
            }
        }
        self.l0 == other.l0 && self.l1 == other.l1 && self.l2 == other.l2 && self.l3 == other.l3
    }

    /// The element with these limbs, where they are below the modulus.
    pub fn from_limbs(limbs: [u64; 4]) -> (r: Option<Self>)
        ensures
            r is Some <==> limbs_value(limbs[0], limbs[1], limbs[2], limbs[3]) < field_order(),
            r matches Some(v) ==> v@ == limbs_value(limbs[0], limbs[1], limbs[2], limbs[3]),
    {
        let l0: u64 = limbs[0];
        let l1: u64 = limbs[1];
        let l2: u64 = limbs[2];
        let l3: u64 = limbs[3];
        let below = l3 < 0x73eda753299d7d48 || (l3 == 0x73eda753299d7d48 && (l2 < 0x3339d80809a1d805
            || (l2 == 0x3339d80809a1d805 && (l1 < 0x53bda402fffe5bfe || (l1 == 0x53bda402fffe5bfe
            && l0 < 0xffffffff00000001)))));
        if below {
            Some(FieldElement { l0, l1, l2, l3 })
        } else {
            None
        }
    }

    /// The limbs of the number, the least significant first.
    pub fn limbs(&self) -> (r: [u64; 4])
        ensures
            limbs_value(r[0], r[1], r[2], r[3]) == self@,
    {
        proof {
            use_type_invariant(self);
        }
        [self.l0, self.l1, self.l2, self.l3]
    }

    /// `+` on `ark_bls12_381::Fr` adds modulo the field's order.
    #[verifier::external_body]
    pub(crate) fn plus(&self, other: &Self) -> (r: Self)
        ensures
            r@ == (self@ + other@) % field_order(),
    {
        let a = ark_bls12_381::Fr::from(BigInt::new(self.limbs()));
        let b = ark_bls12_381::Fr::from(BigInt::new(other.limbs()));
        let [l0, l1, l2, l3] = (a + b).into_bigint().0;
        FieldElement { l0, l1, l2, l3 }
    }

    /// `-` on `ark_bls12_381::Fr` subtracts modulo the field's order.
    #[verifier::external_body]
    pub(crate) fn minus(&self, other: &Self) -> (r: Self)
        ensures
            r@ == (self@ - other@) % field_order(),
    {
        let a = ark_bls12_381::Fr::from(BigInt::new(self.limbs()));
        let b = ark_bls12_381::Fr::from(BigInt::new(other.limbs()));
        let [l0, l1, l2, l3] = (a - b).into_bigint().0;
        FieldElement { l0, l1, l2, l3 }
    }

    /// `*` on `ark_bls12_381::Fr` multiplies modulo the field's order.
    #[verifier::external_body]
    pub(crate) fn times(&self, other: &Self) -> (r: Self)
        ensures
            r@ == (self@ * other@) % field_order(),
    {
        let a = ark_bls12_381::Fr::from(BigInt::new(self.limbs()));
        let b = ark_bls12_381::Fr::from(BigInt::new(other.limbs()));
        let [l0, l1, l2, l3] = (a * b).into_bigint().0;
        FieldElement { l0, l1, l2, l3 }
    }

    /// `PrimeField::from_le_bytes_mod_order` on `ark_bls12_381::Fr` reduces the
    /// number that little-endian bytes stand for.
    #[verifier::external_body]
    pub(crate) fn from_le_bytes_mod_order(bytes: &[u8]) -> (r: Self)
        ensures
            r@ == le_value(bytes@) % field_order(),
    {
        let v = ark_bls12_381::Fr::from_le_bytes_mod_order(bytes);
        let [l0, l1, l2, l3] = v.into_bigint().0;
        FieldElement { l0, l1, l2, l3 }
    }

    /// The canonical encoding of an element: `serialize_compressed` on
    /// `ark_bls12_381::Fr` writes the number as 32 little-endian bytes.
    #[verifier::external_body]
    pub(crate) fn to_bytes(&self) -> (r: Vec<u8>)
        ensures
            r@.len() == 32,
            le_value(r@) == self@,
    {
        let mut bytes = Vec::new();
        let v = ark_bls12_381::Fr::from(BigInt::new(self.limbs()));
        v.serialize_compressed(&mut bytes).unwrap();
        bytes
    }
}

/// What a text stands for as a field element, where it stands for one.
pub uninterp spec fn field_text(s: Seq<char>) -> Option<int>;

impl FieldElement {
    /// `FromStr::from_str` on `ark_bls12_381::Fr` reads an integer and reduces
    /// it. A text of decimal digits alone is read as their number; which other
    /// texts (with a sign or with underscores) are read, and how, is only named.
    #[verifier::external_body]
    pub(crate) fn parse(s: &str) -> (r: Option<Self>)
        ensures
            r is Some == field_text(s@) is Some,
            r matches Some(v) ==> field_text(s@) == Some(v@),
            decimal::is_decimal(s@) ==> r is Some && r->0@ == decimal::decimal_value(s@) as int
                % field_order(),
    {
        let v = <ark_bls12_381::Fr as std::str::FromStr>::from_str(s).ok()?;
        let [l0, l1, l2, l3] = v.into_bigint().0;
        Some(FieldElement { l0, l1, l2, l3 })
    }
}

impl FieldElement {
    /// `Display` of `ark_bls12_381::Fr`: the number in decimal, without leading
    /// zeros.
    #[verifier::external_body]
    pub(crate) fn to_text(&self) -> (r: String)
        ensures
            r@ == decimal::decimal(self@ as nat),
    {
        ark_bls12_381::Fr::from(ark_ff::BigInt::new(self.limbs())).to_string()
    }
}

/// A field element's number is below the field's order.
pub broadcast proof fn lemma_field_range(s: FieldElement)
    ensures
        0 <= #[trigger] s@ < field_order(),
{
}

/// Little-endian bytes of one length with one value are the same bytes.
pub proof fn lemma_le_value_injective(a: Seq<u8>, b: Seq<u8>)
    requires
        a.len() == b.len(),
        le_value(a) == le_value(b),
    ensures
        a == b,
    decreases a.len(),
{
    if a.len() > 0 {
        lemma_le_value_injective(a.drop_first(), b.drop_first());
        assert(a == seq![a[0]] + a.drop_first());
        assert(b == seq![b[0]] + b.drop_first());
    }
}

} // verus!
