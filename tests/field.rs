use curve25519_dalek::scalar::Scalar;
use r1cs_gadgets::field::FieldElement;

#[test]
fn field_arithmetic_test() {
    let a = FieldElement::from_u64(7);
    let b = FieldElement::from_u64(5);
    assert_eq!(a.add(&b).to_bytes(), FieldElement::from_u64(12).to_bytes());
    assert_eq!(a.sub(&b).to_bytes(), FieldElement::from_u64(2).to_bytes());
    assert_eq!(a.mul(&b).to_bytes(), FieldElement::from_u64(35).to_bytes());
    assert_eq!(b.sub(&a).to_bytes(), (-Scalar::from(2u32)).to_bytes());
    assert_eq!(a.neg().add(&a).to_bytes(), FieldElement::zero().to_bytes());
}

#[test]
fn field_round_trip_test() {
    let zero = FieldElement::zero();
    let largest = FieldElement::one().neg();
    let mid = FieldElement::from_u64(0x1234_5678_9abc_def0);
    for x in [zero, largest, mid] {
        let back = FieldElement::from_canonical_bytes(x.to_bytes()).unwrap();
        assert_eq!(back, x);
    }
    assert_eq!(largest.add(&FieldElement::one()).to_bytes(), [0u8; 32]);
}

#[test]
fn non_canonical_bytes_are_refused_test() {
    let mut order_bytes = (-Scalar::one()).to_bytes();
    order_bytes[0] += 1;
    assert!(FieldElement::from_canonical_bytes(order_bytes).is_none());
    assert!(FieldElement::from_canonical_bytes([0xFFu8; 32]).is_none());
}
