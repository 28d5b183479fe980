use curve25519_dalek::scalar::Scalar;
use libspartan::{InputsAssignment, NIZKGens, NIZK, SNARKGens, SNARK};
use merlin::Transcript;
use r1cs_gadgets::field::FieldElement;
use r1cs_gadgets::r1cs::R1csError;
use r1cs_gadgets::set_membership::{build_set_membership_r1cs, produce_set_membership_r1cs};

fn fe(s: Scalar) -> FieldElement {
    FieldElement::from_canonical_bytes(s.to_bytes()).unwrap()
}

/// Decides through the backend's satisfiability check on the produced instance
/// and witness, which is what a proof of the instance attests.
fn set_membership_test_helper(secret: Scalar, set: Vec<Scalar>) {
    let (_, _, _, _, _, _, _, witness_satisfies_instance) =
        produce_set_membership_r1cs(fe(secret), set.into_iter().map(fe).collect()).unwrap();
    assert!(witness_satisfies_instance, "testing set membership proof");
}

#[test]
fn set_membership_nizk_test() {
    let set = vec![fe(Scalar::from(1323u32)), fe(Scalar::from(3u32))];
    let (num_cons, num_vars, num_inputs, _, inst, assignment_vars, assignment_inputs, _) =
        produce_set_membership_r1cs(fe(Scalar::from(3u32)), set).unwrap();
    let gens = NIZKGens::new(num_cons, num_vars, num_inputs);
    let mut prover_transcript = Transcript::new(b"set_membership_test");
    let proof = NIZK::prove(&inst, assignment_vars, &assignment_inputs, &gens, &mut prover_transcript);
    let custom_inputs = vec![Scalar::zero().to_bytes(); num_inputs];
    let custom_assignment_inputs = InputsAssignment::new(&custom_inputs).unwrap();
    let mut verifier_transcript = Transcript::new(b"set_membership_test");
    assert!(proof
        .verify(&inst, &custom_assignment_inputs, &mut verifier_transcript, &gens)
        .is_ok());
}

#[test]
#[should_panic]
fn set_membership_empty_set_test() {
    set_membership_test_helper(Scalar::from(156u32), Vec::new());
}

#[test]
fn set_membership_singleton_set_is_member_test() {
    set_membership_test_helper(Scalar::from(1323u32), Vec::from([Scalar::from(1323u32)]));
}

#[test]
fn set_membership_small_set_is_member_test() {
    let set: Vec<Scalar> = Vec::from([
        Scalar::from(1323u32),
        Scalar::from(3u32),
        Scalar::from(0u32),
        Scalar::from(4235u32),
        Scalar::from(13532u32),
        Scalar::from(4892332u32),
    ]);
    for value in set.iter() {
        set_membership_test_helper(*value, set.clone());
    }
}

#[test]
#[should_panic]
fn set_membership_small_set_is_not_member_test() {
    let set: Vec<Scalar> = Vec::from([
        Scalar::from(1323u32),
        Scalar::from(3u32),
        Scalar::from(0u32),
        Scalar::from(321u32),
        Scalar::from(13532u32),
        Scalar::from(4892332u32),
    ]);
    set_membership_test_helper(Scalar::from(4235u32), set);
}

#[test]
fn empty_set_is_refused_test() {
    let r = produce_set_membership_r1cs(FieldElement::from_u64(156), Vec::new());
    assert!(matches!(r, Err(R1csError::EmptySet)));
    assert!(matches!(build_set_membership_r1cs(FieldElement::from_u64(1), &Vec::new()), Err(R1csError::EmptySet)));
}

#[test]
fn membership_self_check_test() {
    let set: Vec<FieldElement> = [1323u64, 3, 0, 4235].iter().map(|v| FieldElement::from_u64(*v)).collect();
    for v in [1323u64, 3, 0, 4235] {
        let r = produce_set_membership_r1cs(FieldElement::from_u64(v), set.clone()).unwrap();
        assert!(r.7, "{} is a member", v);
        assert_eq!((r.0, r.1, r.2), (13, 13, 0));
    }
    for v in [1u64, 2, 4236] {
        let r = produce_set_membership_r1cs(FieldElement::from_u64(v), set.clone()).unwrap();
        assert!(!r.7, "{} is not a member", v);
    }
}

#[test]
fn membership_witness_values_test() {
    // secret 5 against {2, 7}: differences 3 and -2, product -6.
    let set = vec![FieldElement::from_u64(2), FieldElement::from_u64(7)];
    let r = build_set_membership_r1cs(FieldElement::from_u64(5), &set).unwrap();
    let w = r.witness_vector().unwrap();
    assert_eq!(w.len(), 7);
    // variables: one, set[0], set[1], secret, secret_diff0, secret_diff1, secret_prod1
    assert_eq!(w[0], FieldElement::one().to_bytes());
    assert_eq!(w[4], FieldElement::from_u64(3).to_bytes());
    assert_eq!(w[5], FieldElement::from_u64(2).neg().to_bytes());
    assert_eq!(w[6], FieldElement::from_u64(6).neg().to_bytes());
}

#[test]
fn set_membership_snark_test() {
    let set = vec![fe(Scalar::from(1323u32))];
    let (num_cons, num_vars, num_inputs, num_non_zero_entries, inst, assignment_vars, assignment_inputs, _) =
        produce_set_membership_r1cs(fe(Scalar::from(1323u32)), set).unwrap();
    let gens = SNARKGens::new(num_cons, num_vars, num_inputs, num_non_zero_entries);
    let (comm, decomm) = SNARK::encode(&inst, &gens);
    let mut prover_transcript = Transcript::new(b"set_membership_test");
    let proof = SNARK::prove(&inst, &comm, &decomm, assignment_vars, &assignment_inputs, &gens, &mut prover_transcript);
    let custom_inputs = vec![Scalar::zero().to_bytes(); num_inputs];
    let custom_assignment_inputs = InputsAssignment::new(&custom_inputs).unwrap();
    let mut verifier_transcript = Transcript::new(b"set_membership_test");
    assert!(proof
        .verify(&comm, &custom_assignment_inputs, &mut verifier_transcript, &gens)
        .is_ok());
}
