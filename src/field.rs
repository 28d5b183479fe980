//! Elements of the scalar field of the ristretto255 group, held as their
//! canonical 32-byte little-endian encoding.  All arithmetic is modulo the
//! group order and is carried out by `curve25519_dalek`.
use vstd::prelude::*;
use vstd::arithmetic::power2::pow2;
use curve25519_dalek::scalar::Scalar;

verus! {

/// The order of the ristretto255 group: 2^252 + 27742317777372353535851937790883648493.
pub open spec fn group_order() -> nat {
    pow2(252) + 27742317777372353535851937790883648493nat
}

/// The integer that a little-endian byte sequence encodes.
pub open spec fn bytes_value(s: Seq<u8>) -> nat
    decreases s.len(),
{
    if s.len() == 0 {
        0
    } else {
        s[0] as nat + 256 * bytes_value(s.drop_first())
    }
}

/// The residue of an integer in the field.
pub open spec fn fmod(x: int) -> nat {
    (x % (group_order() as int)) as nat
}

/// A field element: the canonical encoding of an integer below the group order.
#[derive(Clone, Copy, Debug, PartialEq, Eq)]
pub struct FieldElement {
    pub bytes: [u8; 32],
}

impl FieldElement {
    /// The integer this element stands for.
    pub open spec fn val(&self) -> int {
        bytes_value(self.bytes@) as int
    }

    /// The encoding is canonical.
    pub open spec fn wf(&self) -> bool {
        self.val() < group_order()
    }

    pub open spec fn spec_bytes(&self) -> [u8; 32] {
        self.bytes
    }

    /// The 32-byte little-endian encoding.
    pub fn to_bytes(&self) -> (r: [u8; 32])
        ensures
            r == self.spec_bytes(),
    {
        self.bytes
    }

    /// Decodes a 32-byte little-endian encoding; `None` unless it is canonical.
    pub fn from_canonical_bytes(bytes: [u8; 32]) -> (r: Option<FieldElement>)
        ensures
            r.is_some() <==> bytes_value(bytes@) < group_order(),
            r.is_some() ==> r.unwrap().spec_bytes() == bytes && r.unwrap().wf(),
    {
        scalar_from_canonical_bytes(bytes)
    }

    /// The element 0.
    pub fn zero() -> (r: FieldElement)
        ensures
            r.wf(),
            r.val() == 0,
    {
        scalar_from_u64(0)
    }

    /// The element 1.
    pub fn one() -> (r: FieldElement)
        ensures
            r.wf(),
            r.val() == 1,
    {
        scalar_from_u64(1)
    }

    /// The element that stands for `x`.
    pub fn from_u64(x: u64) -> (r: FieldElement)
        ensures
            r.wf(),
            r.val() == x,
    {
        scalar_from_u64(x)
    }

    /// `self + other` in the field.
    pub fn add(&self, other: &FieldElement) -> (r: FieldElement)
        requires
            self.wf(),
            other.wf(),
        ensures
            r.wf(),
            r.val() == fmod(self.val() + other.val()),
    {
        scalar_add(self, other)
    }

    /// `self - other` in the field.
    pub fn sub(&self, other: &FieldElement) -> (r: FieldElement)
        requires
            self.wf(),
            other.wf(),
        ensures
            r.wf(),
            r.val() == fmod(self.val() - other.val()),
    {
        scalar_sub(self, other)
    }

    /// `self * other` in the field; the field has no zero divisors.
    pub fn mul(&self, other: &FieldElement) -> (r: FieldElement)
        requires
            self.wf(),
            other.wf(),
        ensures
            r.wf(),
            r.val() == fmod(self.val() * other.val()),
            r.val() == 0 ==> self.val() == 0 || other.val() == 0,
    {
        scalar_mul(self, other)
    }

    /// `-self` in the field.
    pub fn neg(&self) -> (r: FieldElement)
        requires
            self.wf(),
        ensures
            r.wf(),
            r.val() == fmod(-self.val()),
    {
        scalar_neg(self)
    }
}

/// Decoding an encoding gives back the element.
pub proof fn lemma_encoding_round_trip(x: FieldElement)
    requires
        x.wf(),
    ensures
        bytes_value(x.spec_bytes()@) < group_order(),
        (FieldElement { bytes: x.spec_bytes() }) == x,
{
}

/// Relies on `Scalar::from_canonical_bytes`: `Some` exactly for an encoding of an
/// integer below the group order (a set top bit is refused first), and `to_bytes`
/// hands those bytes back unchanged.
#[verifier::external_body]
fn scalar_from_canonical_bytes(bytes: [u8; 32]) -> (r: Option<FieldElement>)
    ensures
        r.is_some() <==> bytes_value(bytes@) < group_order(),
        r.is_some() ==> r.unwrap().bytes == bytes,
{
    Scalar::from_canonical_bytes(bytes).map(|s| FieldElement { bytes: s.to_bytes() })
}

/// Relies on `Scalar::from(u64)`: the little-endian bytes of `x`.
#[verifier::external_body]
fn scalar_from_u64(x: u64) -> (r: FieldElement)
    ensures
        r.val() == x,
{
    FieldElement { bytes: Scalar::from(x).to_bytes() }
}

/// Relies on `Scalar + Scalar`: the sum reduced modulo the group order.
#[verifier::external_body]
fn scalar_add(a: &FieldElement, b: &FieldElement) -> (r: FieldElement)
    requires
        a.wf(),
        b.wf(),
    ensures
        r.val() == fmod(a.val() + b.val()),
{
    FieldElement { bytes: (Scalar::from_bits(a.bytes) + Scalar::from_bits(b.bytes)).to_bytes() }
}

/// Relies on `Scalar - Scalar`: the difference reduced modulo the group order.
#[verifier::external_body]
fn scalar_sub(a: &FieldElement, b: &FieldElement) -> (r: FieldElement)
    requires
        a.wf(),
        b.wf(),
    ensures
        r.val() == fmod(a.val() - b.val()),
{
    FieldElement { bytes: (Scalar::from_bits(a.bytes) - Scalar::from_bits(b.bytes)).to_bytes() }
}

/// Relies on `Scalar * Scalar`: the product reduced modulo the group order, which
/// is prime (scalar.rs: "Both the Ristretto group and the Ed25519 basepoint have
/// prime order"), so a zero product has a zero factor.
#[verifier::external_body]
fn scalar_mul(a: &FieldElement, b: &FieldElement) -> (r: FieldElement)
    requires
        a.wf(),
        b.wf(),
    ensures
        r.val() == fmod(a.val() * b.val()),
        r.val() == 0 ==> a.val() == 0 || b.val() == 0,
{
    FieldElement { bytes: (Scalar::from_bits(a.bytes) * Scalar::from_bits(b.bytes)).to_bytes() }
}

/// Relies on `-Scalar`: the negation reduced modulo the group order.
#[verifier::external_body]
fn scalar_neg(a: &FieldElement) -> (r: FieldElement)
    requires
        a.wf(),
    ensures
        r.val() == fmod(-a.val()),
{
    FieldElement { bytes: (-Scalar::from_bits(a.bytes)).to_bytes() }
}

} // verus!
