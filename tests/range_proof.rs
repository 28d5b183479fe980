use curve25519_dalek::scalar::Scalar;
use libspartan::{InputsAssignment, NIZKGens, NIZK};
use merlin::Transcript;
use r1cs_gadgets::bit_helpers::get_pow_2;
use r1cs_gadgets::field::FieldElement;
use r1cs_gadgets::range_proof::{build_range_r1cs, produce_range_r1cs};

fn fe(s: Scalar) -> FieldElement {
    FieldElement::from_canonical_bytes(s.to_bytes()).unwrap()
}

fn pow2(n: usize) -> Scalar {
    Scalar::from_canonical_bytes(get_pow_2(n).to_bytes()).unwrap()
}

/// Decides through the backend's satisfiability check on the produced instance
/// and witness, which is what a proof of the instance attests.
fn range_proof_test_helper(x: Scalar, a: Scalar, b: Scalar, expected_to_verify: bool) {
    let (_, _, _, _, _, _, _, witness_satisfies_instance) = produce_range_r1cs(fe(x), fe(a), fe(b));
    assert_eq!(expected_to_verify, witness_satisfies_instance, "testing range proof");
}

/// Proves and verifies with the backend's NIZK.
fn range_proof_nizk(x: Scalar, a: Scalar, b: Scalar) -> bool {
    let (num_cons, num_vars, num_inputs, _, inst, assignment_vars, assignment_inputs, _) =
        produce_range_r1cs(fe(x), fe(a), fe(b));
    let gens = NIZKGens::new(num_cons, num_vars, num_inputs);
    let mut prover_transcript = Transcript::new(b"range_proof_test");
    let proof = NIZK::prove(&inst, assignment_vars, &assignment_inputs, &gens, &mut prover_transcript);
    let custom_inputs = vec![Scalar::zero().to_bytes(); num_inputs];
    let custom_assignment_inputs = InputsAssignment::new(&custom_inputs).unwrap();
    let mut verifier_transcript = Transcript::new(b"range_proof_test");
    proof
        .verify(&inst, &custom_assignment_inputs, &mut verifier_transcript, &gens)
        .is_ok()
}

#[test]
fn range_proof_nizk_in_range_test() {
    assert!(range_proof_nizk(Scalar::from(3u32), Scalar::from(2u32), Scalar::from(5u32)));
}

#[test]
fn range_proof_nizk_out_of_range_test() {
    assert!(!range_proof_nizk(Scalar::from(7u32), Scalar::from(2u32), Scalar::from(5u32)));
}

#[test]
fn range_proof_small_in_range_test() {
    let a: Scalar = Scalar::from(2u32);
    let b: Scalar = Scalar::from(5u32);
    range_proof_test_helper(Scalar::from(2u32), a, b, true);
    range_proof_test_helper(Scalar::from(3u32), a, b, true);
    range_proof_test_helper(Scalar::from(4u32), a, b, true);
    range_proof_test_helper(Scalar::from(4u32), a, b, true);
}

#[test]
fn range_proof_small_out_of_range_test() {
    let a: Scalar = Scalar::from(2u32);
    let b: Scalar = Scalar::from(5u32);
    range_proof_test_helper(-Scalar::one(), a, b, false);
    range_proof_test_helper(Scalar::zero(), a, b, false);
    range_proof_test_helper(Scalar::one(), a, b, false);
    range_proof_test_helper(Scalar::from(6u32), a, b, false);
    range_proof_test_helper(Scalar::from(7u32), a, b, false);
}

#[test]
fn range_proof_large_in_range_test() {
    let a: Scalar = pow2(88);
    let b: Scalar = pow2(97);
    range_proof_test_helper(pow2(88), a, b, true);
    range_proof_test_helper(pow2(97), a, b, true);
    range_proof_test_helper(pow2(88) + Scalar::one(), a, b, true);
    range_proof_test_helper(pow2(92), a, b, true);
}

#[test]
fn range_proof_large_out_of_range_test() {
    let a: Scalar = pow2(88);
    let b: Scalar = pow2(97);
    range_proof_test_helper(Scalar::one(), a, b, false);
    range_proof_test_helper(pow2(97) + Scalar::one(), a, b, false);
    range_proof_test_helper(pow2(88) + -Scalar::one(), a, b, false);
    range_proof_test_helper(pow2(98), a, b, false);
    range_proof_test_helper(pow2(65), a, b, false);
}

#[test]
fn range_self_check_test() {
    let a = FieldElement::from_u64(2);
    let b = FieldElement::from_u64(5);
    for x in 2u64..6 {
        let r = produce_range_r1cs(FieldElement::from_u64(x), a, b);
        assert!(r.7, "x = {} lies in the range", x);
    }
    for x in [0u64, 1, 6, 7] {
        let r = produce_range_r1cs(FieldElement::from_u64(x), a, b);
        assert!(!r.7, "x = {} lies outside the range", x);
    }
    let minus_one = FieldElement::one().neg();
    assert!(!produce_range_r1cs(minus_one, a, b).7);
}

#[test]
fn range_sizes_test() {
    let r = produce_range_r1cs(FieldElement::from_u64(3), FieldElement::from_u64(2), FieldElement::from_u64(5));
    assert_eq!((r.0, r.1, r.2, r.3), (208, 207, 0, 411));
}

#[test]
fn range_helper_bits_test() {
    // (2 - 3) * (3 - 5) = 2: bit 1 set, all others clear.
    let r = build_range_r1cs(FieldElement::from_u64(3), FieldElement::from_u64(2), FieldElement::from_u64(5));
    let w = r.witness_vector().unwrap();
    assert_eq!(w.len(), 207);
    assert_eq!(w[4], FieldElement::from_u64(2).to_bytes());
    for i in 0..202 {
        let expected = if i == 1 { 1 } else { 0 };
        assert_eq!(w[5 + i], FieldElement::from_u64(expected).to_bytes(), "bit {}", i);
    }
    // (2 - 6) * (6 - 5) = -4: two's complement ...11100.
    let r = build_range_r1cs(FieldElement::from_u64(6), FieldElement::from_u64(2), FieldElement::from_u64(5));
    let w = r.witness_vector().unwrap();
    for i in 0..202 {
        let expected = if i < 2 { 0 } else { 1 };
        assert_eq!(w[5 + i], FieldElement::from_u64(expected).to_bytes(), "bit {}", i);
    }
}
