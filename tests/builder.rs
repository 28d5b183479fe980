use r1cs_gadgets::field::FieldElement;
use r1cs_gadgets::r1cs::{R1CS, R1csError};
use r1cs_gadgets::r1cs_helpers::{add_mult_constraint, decimal_string, get_var_index};

#[test]
fn index_is_stable_test() {
    let mut r = R1CS::empty();
    let x = r.get_var_index("x");
    let y = r.get_var_index("y");
    assert_eq!((x, y), (0, 1));
    assert_eq!(r.get_var_index("x"), 0);
    assert_eq!(r.get_var_index("y"), 1);
    assert_eq!(r.get_var_index("z"), 2);
}

#[test]
fn free_index_is_stable_test() {
    let mut vars: Vec<String> = Vec::new();
    assert_eq!(get_var_index("a".to_string(), &mut vars), 0);
    assert_eq!(get_var_index("b".to_string(), &mut vars), 1);
    assert_eq!(get_var_index("a".to_string(), &mut vars), 0);
    assert_eq!(vars, vec!["a".to_string(), "b".to_string()]);
}

#[test]
fn mult_row_test() {
    let mut id: usize = 0;
    let mut nnz: usize = 0;
    let mut vars: Vec<String> = Vec::new();
    let (mut a, mut b, mut c) = (Vec::new(), Vec::new(), Vec::new());
    add_mult_constraint("x".to_string(), "y".to_string(), "z".to_string(), &mut id, &mut nnz, &mut vars, &mut a, &mut b, &mut c);
    let one = FieldElement::one().to_bytes();
    assert_eq!(a, vec![(0, 0, one)]);
    assert_eq!(b, vec![(0, 1, one)]);
    assert_eq!(c, vec![(0, 2, one)]);
    assert_eq!((id, nnz), (1, 3));
}

#[test]
fn deterministic_sessions_test() {
    let build = || {
        let mut r = R1CS::new(&vec![("A", FieldElement::from_u64(2)), ("B", FieldElement::from_u64(9))]);
        r.new_range_constraint("A", "B", "x");
        r
    };
    let r1 = build();
    let r2 = build();
    assert_eq!(r1.A, r2.A);
    assert_eq!(r1.B, r2.B);
    assert_eq!(r1.C, r2.C);
    assert_eq!(r1.variables, r2.variables);
}

#[test]
fn new_pins_inputs_test() {
    let r = R1CS::new(&vec![("A", FieldElement::from_u64(2))]);
    assert_eq!(r.variables, vec!["one".to_string(), "A".to_string()]);
    assert_eq!(r.A, vec![(0, 0, FieldElement::from_u64(2).to_bytes())]);
    assert_eq!(r.C, vec![(0, 1, FieldElement::one().to_bytes())]);
}

#[test]
fn incomplete_witness_is_refused_test() {
    let mut r = R1CS::empty();
    r.new_mult_constraint("x", "y", "z");
    r.add_witness_var_assignment("x", FieldElement::from_u64(3));
    assert!(matches!(r.witness_vector(), Err(R1csError::WitnessIncomplete)));
    r.add_witness_var_assignment("y", FieldElement::from_u64(4));
    r.generate_witness_mult(FieldElement::from_u64(3), FieldElement::from_u64(4), "z");
    let w = r.witness_vector().unwrap();
    assert_eq!(w[2], FieldElement::from_u64(12).to_bytes());
}

#[test]
fn decimal_names_test() {
    assert_eq!(decimal_string(0), "0");
    assert_eq!(decimal_string(201), "201");
    assert_eq!(decimal_string(1_000_007), "1000007");
}

#[test]
fn new_without_inputs_has_one_test() {
    let r = R1CS::new(&Vec::new());
    assert_eq!(r.variables, vec!["one".to_string()]);
    assert!(r.A.is_empty());
}
