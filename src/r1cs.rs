//! The constraint-system builder: a variable table, a witness table and the
//! three sparse matrices, grown one row at a time and closed by
//! `build_instance` and `build_witness`.
use vstd::prelude::*;
use vstd::arithmetic::power2::pow2;
use crate::field::{FieldElement, bytes_value, group_order, fmod};
use crate::bit_helpers::{get_bit, sum_last_n_bits, bit_of, bits_sum, lemma_top_byte, lemma_bit_of_value};
use vstd::arithmetic::power2::{lemma_pow2_pos, lemma_pow2_adds};
use vstd::arithmetic::div_mod::{
    lemma_fundamental_div_mod, lemma_fundamental_div_mod_converse, lemma_mod_breakdown, lemma_mod_mod,
};
use crate::backend::{
    new_instance, new_assignment, valid_entries, all_canonical, instance_matrices, instance_dims, assignment_values,
    encoded_values,
};
use libspartan::{Assignment, Instance};
use crate::r1cs_helpers::{Entry, names, interned, col, canonical, in_bounds, mat, one_name, bit_name, minus_one};
use crate::r1cs_helpers::{
    add_mult_constraint, add_mult_scalar_constraint, add_addition_constraint,
    add_subtraction_constraint, add_is_bit_constraint, add_equality_constraint,
    add_equality_scalar_constraint, push_bit_rows, push_decomposition_row, interned_bits,
    bit_rows_a, bit_rows_b, decomp_row_a, bit_var_name, lemma_interned, lemma_interned_bits,
    lemma_interned_bits_present, lemma_col_interned, lemma_bit_name_injective,
};

verus! {

/// A constraint system under construction, with its witness.
pub struct R1CS {
    pub constraint_count: usize,
    pub num_non_zero: usize,
    pub variables: Vec<String>,
    pub witness_assignments: Vec<(String, FieldElement)>,
    pub A: Vec<Entry>,
    pub B: Vec<Entry>,
    pub C: Vec<Entry>,
    pub finalized: bool,
}

/// What can go wrong while closing a builder or choosing a gadget's inputs.
#[derive(Clone, Copy, Debug, PartialEq, Eq)]
pub enum R1csError {
    /// Some variable has no witness value, or the tables differ in size.
    WitnessIncomplete,
    /// Membership in an empty set was asked for.
    EmptySet,
}

impl R1CS {
    /// The variable names, by index.
    pub open spec fn vars(&self) -> Seq<Seq<char>> {
        names(self.variables@)
    }

    /// The witness: each assigned name with its value, in order of assignment.
    pub open spec fn wit(&self) -> Seq<(Seq<char>, int)> {
        self.witness_assignments@.map_values(|p: (String, FieldElement)| (p.0@, p.1.val()))
    }

    /// The names that have a witness value.
    pub open spec fn wit_names(&self) -> Seq<Seq<char>> {
        self.witness_assignments@.map_values(|p: (String, FieldElement)| p.0@)
    }

    pub open spec fn wf(&self) -> bool {
        &&& !self.finalized
        &&& self.vars().no_duplicates()
        &&& self.wit_names().no_duplicates()
        &&& forall|k: int| 0 <= k < self.witness_assignments@.len() ==> (#[trigger] self.witness_assignments@[k]).1.wf()
        &&& canonical(self.A@)
        &&& canonical(self.B@)
        &&& canonical(self.C@)
        &&& in_bounds(self.A@, self.constraint_count as int, self.variables.len() as int)
        &&& in_bounds(self.B@, self.constraint_count as int, self.variables.len() as int)
        &&& in_bounds(self.C@, self.constraint_count as int, self.variables.len() as int)
    }

    /// There is room for one more gadget without the counters overflowing.
    pub open spec fn has_room(&self) -> bool {
        &&& self.constraint_count <= usize::MAX - 1024
        &&& self.num_non_zero <= usize::MAX - 4096
    }

    /// The matrices, counters and variables are those of `other`.
    pub open spec fn same_constraints(&self, other: &R1CS) -> bool {
        &&& self.constraint_count == other.constraint_count
        &&& self.num_non_zero == other.num_non_zero
        &&& self.variables@ == other.variables@
        &&& self.A@ == other.A@
        &&& self.B@ == other.B@
        &&& self.C@ == other.C@
        &&& self.finalized == other.finalized
    }

    /// An empty builder.
    pub fn empty() -> (r: R1CS)
        ensures
            r.wf(),
            r.constraint_count == 0,
            r.num_non_zero == 0,
            r.vars().len() == 0,
            r.wit().len() == 0,
            r.A@.len() == 0,
            r.B@.len() == 0,
            r.C@.len() == 0,
    {
        let r = R1CS {
            constraint_count: 0,
            num_non_zero: 0,
            variables: Vec::new(),
            witness_assignments: Vec::new(),
            A: Vec::new(),
            B: Vec::new(),
            C: Vec::new(),
            finalized: false,
        };
        proof {
            assert(r.vars() =~= Seq::<Seq<char>>::empty());
            assert(r.wit_names() =~= Seq::<Seq<char>>::empty());
            assert(r.wit() =~= Seq::<(Seq<char>, int)>::empty());
        }
        r
    }

    /// Returns the index that `var` holds in the final witness vector, creating
    /// the variable if it does not exist yet.
    pub fn get_var_index(&mut self, var: &str) -> (r: usize)
        requires
            old(self).wf(),
        ensures
            final(self).wf(),
            final(self).vars() == interned(old(self).vars(), var@),
            r == col(final(self).vars(), var@),
            r < final(self).vars().len(),
            final(self).constraint_count == old(self).constraint_count,
            final(self).num_non_zero == old(self).num_non_zero,
            final(self).A@ == old(self).A@,
            final(self).B@ == old(self).B@,
            final(self).C@ == old(self).C@,
            final(self).witness_assignments@ == old(self).witness_assignments@,
    {
        crate::r1cs_helpers::get_var_index(var.to_owned(), &mut self.variables)
    }

    /// Sets the witness value of `var` to `value`.
    pub fn add_witness_var_assignment(&mut self, var: &str, value: FieldElement)
        requires
            old(self).wf(),
            value.wf(),
            !old(self).wit_names().contains(var@),
        ensures
            final(self).wf(),
            final(self).same_constraints(old(self)),
            final(self).wit() == old(self).wit().push((var@, value.val())),
            final(self).wit_names() == old(self).wit_names().push(var@),
    {
        let ghost w0 = self.wit();
        let ghost n0 = self.wit_names();
        self.witness_assignments.push((var.to_owned(), value));
        proof {
            assert(self.wit() =~= w0.push((var@, value.val())));
            assert(self.wit_names() =~= n0.push(var@));
        }
    }

    /// Adds the row `x * y == z`.
    pub fn new_mult_constraint(&mut self, x: &str, y: &str, z: &str)
        requires
            old(self).wf(),
            old(self).has_room(),
        ensures
            final(self).wf(),
            final(self).witness_assignments@ == old(self).witness_assignments@,
        final(self).vars() == interned(interned(interned(old(self).vars(), x@), y@), z@),
        final(self).constraint_count == old(self).constraint_count + 1,
        final(self).num_non_zero == old(self).num_non_zero + 3,
        mat(final(self).A@) == mat(old(self).A@).push((old(self).constraint_count as int, col(final(self).vars(), x@), 1)),
        mat(final(self).B@) == mat(old(self).B@).push((old(self).constraint_count as int, col(final(self).vars(), y@), 1)),
        mat(final(self).C@) == mat(old(self).C@).push((old(self).constraint_count as int, col(final(self).vars(), z@), 1)),
    {
        add_mult_constraint(
            x.to_owned(), y.to_owned(), z.to_owned(),
            &mut self.constraint_count,
            &mut self.num_non_zero,
            &mut self.variables,
            &mut self.A,
            &mut self.B,
            &mut self.C,
        );
    }

    /// Adds the row `x * y == z` for a constant `y`.
    pub fn new_mult_scalar_constraint(&mut self, x: &str, y: FieldElement, z: &str)
        requires
            old(self).wf(),
            old(self).has_room(),
            y.wf(),
        ensures
            final(self).wf(),
            final(self).witness_assignments@ == old(self).witness_assignments@,
        final(self).vars() == interned(interned(interned(old(self).vars(), x@), one_name()), z@),
        final(self).constraint_count == old(self).constraint_count + 1,
        final(self).num_non_zero == old(self).num_non_zero + 3,
        mat(final(self).A@) == mat(old(self).A@).push((old(self).constraint_count as int, col(final(self).vars(), x@), 1)),
        mat(final(self).B@) == mat(old(self).B@).push((old(self).constraint_count as int, col(final(self).vars(), one_name()), y.val())),
        mat(final(self).C@) == mat(old(self).C@).push((old(self).constraint_count as int, col(final(self).vars(), z@), 1)),
    {
        add_mult_scalar_constraint(
            x.to_owned(), y, z.to_owned(),
            &mut self.constraint_count,
            &mut self.num_non_zero,
            &mut self.variables,
            &mut self.A,
            &mut self.B,
            &mut self.C,
        );
    }

    /// Adds the row `x + y == z`.
    pub fn new_addition_constraint(&mut self, x: &str, y: &str, z: &str)
        requires
            old(self).wf(),
            old(self).has_room(),
        ensures
            final(self).wf(),
            final(self).witness_assignments@ == old(self).witness_assignments@,
        final(self).vars() == interned(interned(interned(interned(old(self).vars(), x@), y@), one_name()), z@),
        final(self).constraint_count == old(self).constraint_count + 1,
        final(self).num_non_zero == old(self).num_non_zero + 4,
        mat(final(self).A@) == mat(old(self).A@).push((old(self).constraint_count as int, col(final(self).vars(), x@), 1)).push((old(self).constraint_count as int, col(final(self).vars(), y@), 1)),
        mat(final(self).B@) == mat(old(self).B@).push((old(self).constraint_count as int, col(final(self).vars(), one_name()), 1)),
        mat(final(self).C@) == mat(old(self).C@).push((old(self).constraint_count as int, col(final(self).vars(), z@), 1)),
    {
        add_addition_constraint(
            x.to_owned(), y.to_owned(), z.to_owned(),
            &mut self.constraint_count,
            &mut self.num_non_zero,
            &mut self.variables,
            &mut self.A,
            &mut self.B,
            &mut self.C,
        );
    }

    /// Adds the row `x - y == z`.
    pub fn new_subtraction_constraint(&mut self, x: &str, y: &str, z: &str)
        requires
            old(self).wf(),
            old(self).has_room(),
        ensures
            final(self).wf(),
            final(self).witness_assignments@ == old(self).witness_assignments@,
        final(self).vars() == interned(interned(interned(interned(old(self).vars(), x@), y@), one_name()), z@),
        final(self).constraint_count == old(self).constraint_count + 1,
        final(self).num_non_zero == old(self).num_non_zero + 4,
        mat(final(self).A@) == mat(old(self).A@).push((old(self).constraint_count as int, col(final(self).vars(), x@), 1)).push((old(self).constraint_count as int, col(final(self).vars(), y@), minus_one())),
        mat(final(self).B@) == mat(old(self).B@).push((old(self).constraint_count as int, col(final(self).vars(), one_name()), 1)),
        mat(final(self).C@) == mat(old(self).C@).push((old(self).constraint_count as int, col(final(self).vars(), z@), 1)),
    {
        add_subtraction_constraint(
            x.to_owned(), y.to_owned(), z.to_owned(),
            &mut self.constraint_count,
            &mut self.num_non_zero,
            &mut self.variables,
            &mut self.A,
            &mut self.B,
            &mut self.C,
        );
    }

    /// Adds the row `x * (x - 1) == 0`, forcing `x` into {0, 1}.
    pub fn new_is_bit_constraint(&mut self, x: &str)
        requires
            old(self).wf(),
            old(self).has_room(),
        ensures
            final(self).wf(),
            final(self).witness_assignments@ == old(self).witness_assignments@,
        final(self).vars() == interned(interned(old(self).vars(), x@), one_name()),
        final(self).constraint_count == old(self).constraint_count + 1,
        final(self).num_non_zero == old(self).num_non_zero + 3,
        mat(final(self).A@) == mat(old(self).A@).push((old(self).constraint_count as int, col(final(self).vars(), x@), 1)),
        mat(final(self).B@) == mat(old(self).B@).push((old(self).constraint_count as int, col(final(self).vars(), x@), 1)).push((old(self).constraint_count as int, col(final(self).vars(), one_name()), minus_one())),
        final(self).C@ == old(self).C@,
    {
        add_is_bit_constraint(
            x.to_owned(),
            &mut self.constraint_count,
            &mut self.num_non_zero,
            &mut self.variables,
            &mut self.A,
            &mut self.B,
            &mut self.C,
        );
    }

    /// Adds the row `x == y`.
    pub fn new_equality_constraint(&mut self, x: &str, y: &str)
        requires
            old(self).wf(),
            old(self).has_room(),
        ensures
            final(self).wf(),
            final(self).witness_assignments@ == old(self).witness_assignments@,
        final(self).vars() == interned(interned(interned(old(self).vars(), x@), one_name()), y@),
        final(self).constraint_count == old(self).constraint_count + 1,
        final(self).num_non_zero == old(self).num_non_zero + 3,
        mat(final(self).A@) == mat(old(self).A@).push((old(self).constraint_count as int, col(final(self).vars(), x@), 1)),
        mat(final(self).B@) == mat(old(self).B@).push((old(self).constraint_count as int, col(final(self).vars(), one_name()), 1)),
        mat(final(self).C@) == mat(old(self).C@).push((old(self).constraint_count as int, col(final(self).vars(), y@), 1)),
    {
        add_equality_constraint(
            x.to_owned(), y.to_owned(),
            &mut self.constraint_count,
            &mut self.num_non_zero,
            &mut self.variables,
            &mut self.A,
            &mut self.B,
            &mut self.C,
        );
    }

    /// Adds the row `x == y` for a constant `y`.
    pub fn new_equality_scalar_constraint(&mut self, x: &str, y: FieldElement)
        requires
            old(self).wf(),
            old(self).has_room(),
            y.wf(),
        ensures
            final(self).wf(),
            final(self).witness_assignments@ == old(self).witness_assignments@,
        final(self).vars() == interned(interned(old(self).vars(), one_name()), x@),
        final(self).constraint_count == old(self).constraint_count + 1,
        final(self).num_non_zero == old(self).num_non_zero + 3,
        mat(final(self).A@) == mat(old(self).A@).push((old(self).constraint_count as int, col(final(self).vars(), one_name()), y.val())),
        mat(final(self).B@) == mat(old(self).B@).push((old(self).constraint_count as int, col(final(self).vars(), one_name()), 1)),
        mat(final(self).C@) == mat(old(self).C@).push((old(self).constraint_count as int, col(final(self).vars(), x@), 1)),
    {
        add_equality_scalar_constraint(
            x.to_owned(), y,
            &mut self.constraint_count,
            &mut self.num_non_zero,
            &mut self.variables,
            &mut self.A,
            &mut self.B,
            &mut self.C,
        );
    }

    /// Assigns `z` the value `x * y`.
    pub fn generate_witness_mult(&mut self, x: FieldElement, y: FieldElement, z: &str)
        requires
            old(self).wf(),
            x.wf(),
            y.wf(),
            !old(self).wit_names().contains(z@),
        ensures
            final(self).wf(),
            final(self).same_constraints(old(self)),
            final(self).wit() == old(self).wit().push((z@, fmod(x.val() * y.val()) as int)),
            final(self).wit_names() == old(self).wit_names().push(z@),
    {
        let v = x.mul(&y);
        self.add_witness_var_assignment(z, v);
    }

    /// Assigns `z` the value `x * y`, for a constant `y`.
    pub fn generate_witness_mult_scalar(&mut self, x: FieldElement, y: FieldElement, z: &str)
        requires
            old(self).wf(),
            x.wf(),
            y.wf(),
            !old(self).wit_names().contains(z@),
        ensures
            final(self).wf(),
            final(self).same_constraints(old(self)),
            final(self).wit() == old(self).wit().push((z@, fmod(x.val() * y.val()) as int)),
            final(self).wit_names() == old(self).wit_names().push(z@),
    {
        let v = x.mul(&y);
        self.add_witness_var_assignment(z, v);
    }

    /// Assigns `z` the value `x + y`.
    pub fn generate_witness_addition(&mut self, x: FieldElement, y: FieldElement, z: &str)
        requires
            old(self).wf(),
            x.wf(),
            y.wf(),
            !old(self).wit_names().contains(z@),
        ensures
            final(self).wf(),
            final(self).same_constraints(old(self)),
            final(self).wit() == old(self).wit().push((z@, fmod(x.val() + y.val()) as int)),
            final(self).wit_names() == old(self).wit_names().push(z@),
    {
        let v = x.add(&y);
        self.add_witness_var_assignment(z, v);
    }

    /// Assigns `z` the value `x + y`, for a constant `y`.
    pub fn generate_witness_addition_scalar(&mut self, x: FieldElement, y: FieldElement, z: &str)
        requires
            old(self).wf(),
            x.wf(),
            y.wf(),
            !old(self).wit_names().contains(z@),
        ensures
            final(self).wf(),
            final(self).same_constraints(old(self)),
            final(self).wit() == old(self).wit().push((z@, fmod(x.val() + y.val()) as int)),
            final(self).wit_names() == old(self).wit_names().push(z@),
    {
        let v = x.add(&y);
        self.add_witness_var_assignment(z, v);
    }

    /// A builder whose only rows pin each input to its public value, with the
    /// variable "one" and the inputs assigned in the witness.
    pub fn new(inputs: &Vec<(&str, FieldElement)>) -> (r: R1CS)
        requires
            inputs.len() <= 0x1000_0000,
            forall|k: int| 0 <= k < inputs.len() ==> (#[trigger] inputs@[k]).1.wf(),
            (seq![one_name()] + input_names(inputs@)).no_duplicates(),
        ensures
            r.wf(),
            r.constraint_count == inputs.len(),
            r.num_non_zero == 3 * inputs.len(),
            r.vars() == seq![one_name()] + input_names(inputs@),
            r.wit() == seq![(one_name(), 1int)] + input_values(inputs@),
            r.wit_names() == seq![one_name()] + input_names(inputs@),
            mat(r.A@) == Seq::new(inputs.len() as nat, |k: int| (k, 0int, inputs@[k].1.val())),
            mat(r.B@) == Seq::new(inputs.len() as nat, |k: int| (k, 0int, 1int)),
            mat(r.C@) == Seq::new(inputs.len() as nat, |k: int| (k, k + 1, 1int)),
    {
        let mut r = R1CS::empty();
        proof {
            reveal_strlit("one");
        }
        r.add_witness_var_assignment("one", FieldElement::one());
        r.get_var_index("one");
        proof {
            assert(r.vars() =~= seq![one_name()]);
        }
        let ghost all = seq![one_name()] + input_names(inputs@);
        let mut i: usize = 0;
        while i < inputs.len()
            invariant
                inputs.len() <= 0x1000_0000,
                i <= inputs.len(),
                forall|k: int| 0 <= k < inputs.len() ==> (#[trigger] inputs@[k]).1.wf(),
                all == seq![one_name()] + input_names(inputs@),
                all.no_duplicates(),
                r.wf(),
                r.constraint_count == i,
                r.num_non_zero == 3 * i,
                r.vars() == all.subrange(0, i + 1),
                r.wit() == seq![(one_name(), 1int)] + input_values(inputs@).subrange(0, i as int),
                r.wit_names() == all.subrange(0, i + 1),
                mat(r.A@) == Seq::new(i as nat, |k: int| (k, 0int, inputs@[k].1.val())),
                mat(r.B@) == Seq::new(i as nat, |k: int| (k, 0int, 1int)),
                mat(r.C@) == Seq::new(i as nat, |k: int| (k, k + 1, 1int)),
            decreases inputs.len() - i,
        {
            let (name, value) = inputs[i];
            let ghost v0 = r.vars();
            proof {
                assert(all[i + 1] == name@);
                assert(!all.subrange(0, i + 1).contains(name@)) by {
                    if all.subrange(0, i + 1).contains(name@) {
                        let q = choose|q: int| 0 <= q < i + 1 && #[trigger] all.subrange(0, i + 1)[q] == name@;
                        assert(all[q] == all[i + 1]);
                    }
                }
                assert(all[0] == one_name());
            }
            r.new_equality_scalar_constraint(name, value);
            proof {
                assert(v0[0] == one_name());
                assert(v0.contains(one_name()));
                assert(r.vars() =~= all.subrange(0, i + 2));
                assert(all.subrange(0, i + 2)[0] == one_name());
                assert(all.subrange(0, i + 2)[i + 1] == name@);
                crate::r1cs_helpers::lemma_col(r.vars(), one_name(), 0);
                crate::r1cs_helpers::lemma_col(r.vars(), name@, i + 1);
                assert(mat(r.A@) =~= Seq::new((i + 1) as nat, |k: int| (k, 0int, inputs@[k].1.val())));
                assert(mat(r.B@) =~= Seq::new((i + 1) as nat, |k: int| (k, 0int, 1int)));
                assert(mat(r.C@) =~= Seq::new((i + 1) as nat, |k: int| (k, k + 1, 1int)));
            }
            r.add_witness_var_assignment(name, value);
            proof {
                assert(r.wit() =~= seq![(one_name(), 1int)] + input_values(inputs@).subrange(0, i + 1));
                assert(r.wit_names() =~= all.subrange(0, i + 2));
            }
            i = i + 1;
        }
        proof {
            assert(input_values(inputs@).subrange(0, i as int) =~= input_values(inputs@));
            assert(all.subrange(0, i + 1) =~= all);
        }
        r
    }

    /// The value assigned to `name`.
    pub open spec fn assigned_value(&self, name: Seq<char>) -> int {
        self.wit()[self.wit_names().index_of(name)].1
    }

    /// Every variable has a witness value and no name has one that is not a variable.
    pub open spec fn witness_complete(&self) -> bool {
        &&& self.wit().len() == self.vars().len()
        &&& forall|i: int| 0 <= i < self.vars().len() ==> self.wit_names().contains(#[trigger] self.vars()[i])
    }

    /// Closes the builder: adds the row `1 * 1 == one`, whose `1` is the backend's
    /// constant column (column `num_vars`), and hands the matrices to the backend.
    /// Returns the instance, the number of rows, of variables and of public inputs
    /// (always 0), and the number of entries of the largest matrix, which sizes the
    /// backend's commitment to the matrices.
    pub fn build_instance(&mut self) -> (r: (Instance, usize, usize, usize, usize))
        requires
            old(self).wf(),
            old(self).has_room(),
            old(self).constraint_count < 0x4000_0000,
            old(self).variables.len() < 0x4000_0000,
        ensures
            final(self).finalized,
            final(self).witness_assignments@ == old(self).witness_assignments@,
            final(self).vars() == interned(old(self).vars(), one_name()),
            final(self).constraint_count == old(self).constraint_count + 1,
            final(self).num_non_zero == old(self).num_non_zero + 3,
            mat(final(self).A@) == mat(old(self).A@).push((old(self).constraint_count as int, final(self).vars().len() as int, 1)),
            mat(final(self).B@) == mat(old(self).B@).push((old(self).constraint_count as int, final(self).vars().len() as int, 1)),
            mat(final(self).C@) == mat(old(self).C@).push((old(self).constraint_count as int, col(final(self).vars(), one_name()), 1)),
            r.1 == final(self).constraint_count,
            r.2 == final(self).vars().len(),
            r.3 == 0,
            r.4 == max3(final(self).A@.len() as int, final(self).B@.len() as int, final(self).C@.len() as int),
            instance_matrices(r.0) == (mat(final(self).A@), mat(final(self).B@), mat(final(self).C@)),
            instance_dims(r.0) == (final(self).constraint_count as nat, final(self).vars().len(), 0nat),
    {
        proof {
            reveal_strlit("one");
        }
        let one_ind = self.get_var_index("one");
        let one = FieldElement::one();
        let nv = self.variables.len();
        let row = self.constraint_count;
        let ghost a0 = mat(self.A@);
        let ghost b0 = mat(self.B@);
        let ghost c0 = mat(self.C@);
        self.A.push((row, nv, one.to_bytes()));
        self.B.push((row, nv, one.to_bytes()));
        self.C.push((row, one_ind, one.to_bytes()));
        self.num_non_zero = self.num_non_zero + 3;
        self.constraint_count = self.constraint_count + 1;
        self.finalized = true;
        proof {
            assert(mat(self.A@) =~= a0.push((row as int, nv as int, 1)));
            assert(mat(self.B@) =~= b0.push((row as int, nv as int, 1)));
            assert(mat(self.C@) =~= c0.push((row as int, one_ind as int, 1)));
            assert(valid_entries(self.A@, self.constraint_count as int, nv + 1));
            assert(valid_entries(self.B@, self.constraint_count as int, nv + 1));
            assert(valid_entries(self.C@, self.constraint_count as int, nv + 1));
        }
        let inst = new_instance(self.constraint_count, nv, 0, &self.A, &self.B, &self.C);
        let mut largest = self.A.len();
        if self.B.len() > largest {
            largest = self.B.len();
        }
        if self.C.len() > largest {
            largest = self.C.len();
        }
        (inst.unwrap(), self.constraint_count, nv, 0, largest)
    }

    /// The value assigned to `name`, if any.
    pub fn witness_value(&self, name: &String) -> (r: Option<FieldElement>)
        requires
            self.wit_names().no_duplicates(),
            forall|k: int| 0 <= k < self.witness_assignments@.len() ==> (#[trigger] self.witness_assignments@[k]).1.wf(),
        ensures
            r.is_some() <==> self.wit_names().contains(name@),
            r.is_some() ==> r.unwrap().wf() && r.unwrap().val() == self.assigned_value(name@),
    {
        let mut k: usize = 0;
        while k < self.witness_assignments.len()
            invariant
                k <= self.witness_assignments.len(),
                self.wit_names().no_duplicates(),
                forall|k: int| 0 <= k < self.witness_assignments@.len() ==> (#[trigger] self.witness_assignments@[k]).1.wf(),
                forall|j: int| 0 <= j < k ==> self.wit_names()[j] != name@,
            decreases self.witness_assignments.len() - k,
        {
            if self.witness_assignments[k].0 == *name {
                proof {
                    assert(self.wit_names()[k as int] == name@);
                    crate::r1cs_helpers::lemma_col(self.wit_names(), name@, k as int);
                }
                return Some(self.witness_assignments[k].1);
            }
            k = k + 1;
        }
        proof {
            assert(!self.wit_names().contains(name@));
        }
        None
    }

    /// The dense witness vector: position `i` holds the encoding of the value of
    /// variable `i`.  Fails unless every variable, and nothing else, has a value.
    pub fn witness_vector(&self) -> (r: Result<Vec<[u8; 32]>, R1csError>)
        requires
            self.vars().no_duplicates(),
            self.wit_names().no_duplicates(),
            forall|k: int| 0 <= k < self.witness_assignments@.len() ==> (#[trigger] self.witness_assignments@[k]).1.wf(),
        ensures
            r is Ok <==> self.witness_complete(),
            r is Err ==> r == Err::<Vec<[u8; 32]>, R1csError>(R1csError::WitnessIncomplete),
            r is Ok ==> r.unwrap()@.len() == self.vars().len()
                && all_canonical(r.unwrap()@)
                && forall|i: int| 0 <= i < self.vars().len() ==> bytes_value((#[trigger] r.unwrap()@[i])@) == self.assigned_value(self.vars()[i]),
    {
        if self.witness_assignments.len() != self.variables.len() {
            return Err(R1csError::WitnessIncomplete);
        }
        let mut out: Vec<[u8; 32]> = Vec::new();
        let mut i: usize = 0;
        while i < self.variables.len()
            invariant
                i <= self.variables.len(),
                self.witness_assignments.len() == self.variables.len(),
                self.wit_names().no_duplicates(),
                forall|k: int| 0 <= k < self.witness_assignments@.len() ==> (#[trigger] self.witness_assignments@[k]).1.wf(),
                out@.len() == i,
                all_canonical(out@),
                forall|j: int| 0 <= j < i ==> self.wit_names().contains(#[trigger] self.vars()[j]),
                forall|j: int| 0 <= j < i ==> bytes_value((#[trigger] out@[j])@) == self.assigned_value(self.vars()[j]),
            decreases self.variables.len() - i,
        {
            match self.witness_value(&self.variables[i]) {
                Some(v) => {
                    out.push(v.to_bytes());
                },
                None => {
                    proof {
                        assert(!self.wit_names().contains(self.vars()[i as int]));
                    }
                    return Err(R1csError::WitnessIncomplete);
                },
            }
            i = i + 1;
        }
        Ok(out)
    }

    /// The backend's variable assignment (the witness vector) and its input
    /// assignment (empty).  Fails unless every variable, and nothing else, has a
    /// value.
    pub fn build_witness(&self) -> (r: Result<(Assignment, Assignment), R1csError>)
        requires
            self.vars().no_duplicates(),
            self.wit_names().no_duplicates(),
            forall|k: int| 0 <= k < self.witness_assignments@.len() ==> (#[trigger] self.witness_assignments@[k]).1.wf(),
        ensures
            r is Ok <==> self.witness_complete(),
            r is Err ==> r == Err::<(Assignment, Assignment), R1csError>(R1csError::WitnessIncomplete),
            r is Ok ==> assignment_values(r.unwrap().0).len() == self.vars().len()
                && assignment_values(r.unwrap().1).len() == 0
                && forall|i: int| 0 <= i < self.vars().len() ==>
                    #[trigger] assignment_values(r.unwrap().0)[i] == self.assigned_value(self.vars()[i]),
    {
        match self.witness_vector() {
            Ok(values) => {
                let vars = new_assignment(&values);
                let no_inputs: Vec<[u8; 32]> = Vec::new();
                let inputs = new_assignment(&no_inputs);
                proof {
                    assert(all_canonical(no_inputs@));
                    assert(encoded_values(no_inputs@).len() == 0);
                }
                Ok((vars.unwrap(), inputs.unwrap()))
            },
            Err(e) => Err(e),
        }
    }

    /// Creates `x_bit0 .. x_bit(N-1)`, one row per bit forcing it into {0, 1}, then
    /// the row `sum_{i < N-1} 2^i x_bit_i - 2^(N-1) x_bit_(N-1) == x`, which reads the
    /// bits as an `N`-bit two's-complement number.
    pub fn new_twos_complement_decomposition_constraint(&mut self, x: &str, N: usize)
        requires
            old(self).wf(),
            old(self).has_room(),
            N <= 253,
        ensures
            final(self).wf(),
            final(self).witness_assignments@ == old(self).witness_assignments@,
            final(self).vars() == interned_bits(interned(interned(old(self).vars(), x@), one_name()), x@, N as nat),
            final(self).constraint_count == old(self).constraint_count + N + 1,
            final(self).num_non_zero == old(self).num_non_zero + 4 * N + 2,
            mat(final(self).A@) == mat(old(self).A@) + bit_rows_a(old(self).constraint_count as int, final(self).vars(), x@, N as nat)
                + decomp_row_a(old(self).constraint_count + N, final(self).vars(), x@, N as nat),
            mat(final(self).B@) == (mat(old(self).B@) + bit_rows_b(old(self).constraint_count as int, final(self).vars(), x@, N as nat))
                .push((old(self).constraint_count + N, col(final(self).vars(), one_name()), 1)),
            mat(final(self).C@) == mat(old(self).C@).push((old(self).constraint_count + N, col(final(self).vars(), x@), 1)),
    {
        proof {
            reveal_strlit("one");
        }
        self.get_var_index(x);
        let ghost n1 = self.vars();
        self.get_var_index("one");
        let ghost n2 = self.vars();
        proof {
            lemma_interned(old(self).vars(), x@);
            lemma_interned(n1, one_name());
            lemma_col_interned(n1, x@, one_name());
        }
        push_bit_rows(x, N, &mut self.constraint_count, &mut self.num_non_zero, &mut self.variables, &mut self.A, &mut self.B, &mut self.C);
        let ghost n3 = self.vars();
        proof {
            lemma_interned_bits(n2, x@, N as nat);
            assert(n3.contains(one_name()));
            assert(n3.contains(x@));
        }
        push_decomposition_row(x, N, &mut self.constraint_count, &mut self.num_non_zero, &mut self.variables, &mut self.A, &mut self.B, &mut self.C);
        proof {
            lemma_interned_bits_present(n3, x@, N as nat);
            assert(self.vars() == n3);
        }
    }

    /// Assigns `var_bit0 .. var_bit(N-1)` the bits of `value` as an `N`-bit
    /// two's-complement number.  A value whose top byte is nonzero is read as
    /// negative: the low `N` bits of its negation are complemented and one is added.
    pub fn generate_witness_twos_complement_decomposition(&mut self, var: &str, value: FieldElement, N: usize)
        requires
            old(self).wf(),
            value.wf(),
            N <= 256,
            forall|i: nat| i < N ==> !old(self).wit_names().contains(#[trigger] bit_name(var@, i)),
        ensures
            final(self).wf(),
            final(self).same_constraints(old(self)),
            final(self).wit() == old(self).wit() + Seq::new(N as nat, |i: int| (bit_name(var@, i as nat), tc_bit(value.val(), N as nat, i as nat))),
            final(self).wit_names() == old(self).wit_names() + Seq::new(N as nat, |i: int| bit_name(var@, i as nat)),
    {
        let zero = FieldElement::zero();
        let one = FieldElement::one();
        let bytes = value.to_bytes();
        proof {
            crate::bit_helpers::lemma_bits_sum_bound(bytes@, 248, 256);
        }
        let var_is_neg: bool = sum_last_n_bits(bytes, 8) != 0;
        let var_bits: [u8; 32] = if var_is_neg { value.neg().to_bytes() } else { bytes };
        let ghost v = value.val();
        let ghost m = bytes_value(var_bits@) as int;
        proof {
            lemma_top_byte(bytes@);
            vstd::arithmetic::power2::lemma_pow2_pos(252);
            if var_is_neg {
                vstd::arithmetic::power2::lemma_pow2_pos(248);
                vstd::arithmetic::div_mod::lemma_fundamental_div_mod_converse(-v, group_order() as int, -1, group_order() - v);
                assert(m == group_order() - v);
                assert(signed_value(v) == -m);
            } else {
                assert(signed_value(v) == m);
            }
            vstd::arithmetic::power2::lemma2_to64();
        }
        let ghost w0 = self.wit();
        let ghost wn0 = self.wit_names();
        let ghost mut sum: int = 0;
        let mut carry: u8 = 1;
        let mut i: usize = 0;
        while i < N
            invariant
                i <= N <= 256,
                self.wf(),
                self.same_constraints(old(self)),
                zero.wf() && zero.val() == 0,
                one.wf() && one.val() == 1,
                carry <= 1,
                m == bytes_value(var_bits@),
                v == value.val(),
                var_is_neg ==> signed_value(v) == -m,
                !var_is_neg ==> signed_value(v) == m,
                var_is_neg ==> 0 <= sum < pow2(i as nat) && sum + carry * pow2(i as nat) == pow2(i as nat) - m % (pow2(i as nat) as int),
                wn0 == old(self).wit_names(),
                w0 == old(self).wit(),
                forall|j: nat| j < N ==> !wn0.contains(#[trigger] bit_name(var@, j)),
                self.wit() == w0 + Seq::new(i as nat, |j: int| (bit_name(var@, j as nat), tc_bit(v, N as nat, j as nat))),
                self.wit_names() == wn0 + Seq::new(i as nat, |j: int| bit_name(var@, j as nat)),
            decreases N - i,
        {
            let mut u_bit = get_bit(var_bits, i);
            let ghost p = pow2(i as nat) as int;
            proof {
                lemma_bit_of_value(var_bits@, i as nat);
                vstd::arithmetic::power2::lemma_pow2_pos(i as nat);
                vstd::arithmetic::power2::lemma_pow2_unfold((i + 1) as nat);
                lemma_twos_complement_step(signed_value(v), i as nat, N as nat);
                if m >= 0 {
                    lemma_mod_breakdown(m, p, 2);
                }
            }
            if var_is_neg {
                let t: u8 = (1 - u_bit) + carry;
                let ghost old_carry = carry as int;
                carry = if t > 1 { 1 } else { 0 };
                u_bit = t & 1;
                proof {
                    assert(t & 1 == t % 2) by (bit_vector);
                    let s1 = sum + p * u_bit;
                    assert(s1 + carry * (2 * p) == 2 * p - m % (2 * p)) by (nonlinear_arith)
                        requires
                            sum + old_carry * p == p - m % p,
                            m % (2 * p) == p * ((m / p) % 2) + m % p,
                            u_bit as int == (t as int) % 2,
                            t as int == 1 - (m / p) % 2 + old_carry,
                            carry as int == (if t > 1 { 1int } else { 0int }),
                            0 <= (m / p) % 2 <= 1,
                            0 <= old_carry <= 1,
                            s1 == sum + p * u_bit,
                    ;
                    assert(0 <= s1 < 2 * p) by (nonlinear_arith)
                        requires 0 <= sum < p, s1 == sum + p * u_bit, 0 <= u_bit <= 1, p > 0;
                    lemma_neg_mod_from_carry(m, i as nat, sum, old_carry);
                    lemma_neg_mod_from_carry(m, (i + 1) as nat, s1, carry as int);
                    assert(p * u_bit == p * tc_bit(v, N as nat, i as nat)) by (nonlinear_arith)
                        requires
                            s1 == sum + p * u_bit,
                            sum == (-m) % p,
                            s1 == (-m) % (2 * p),
                            (-m) % (2 * p) == p * tc_bit(v, N as nat, i as nat) + (-m) % p;
                    vstd::arithmetic::mul::lemma_mul_equality_converse(p, u_bit as int, tc_bit(v, N as nat, i as nat));
                    sum = s1;
                }
            } else {
                proof {
                    assert(p * u_bit == p * tc_bit(v, N as nat, i as nat)) by (nonlinear_arith)
                        requires
                            m % (2 * p) == p * ((m / p) % 2) + m % p,
                            m % (2 * p) == p * tc_bit(v, N as nat, i as nat) + m % p,
                            u_bit as int == (m / p) % 2;
                    vstd::arithmetic::mul::lemma_mul_equality_converse(p, u_bit as int, tc_bit(v, N as nat, i as nat));
                }
            }
            let b = if u_bit == 1 { one } else { zero };
            let name = bit_var_name(var, i);
            proof {
                assert(!self.wit_names().contains(name@)) by {
                    if self.wit_names().contains(name@) {
                        let q = choose|q: int| 0 <= q < self.wit_names().len() && self.wit_names()[q] == name@;
                        if q >= wn0.len() {
                            lemma_bit_name_injective(var@, (q - wn0.len()) as nat, i as nat);
                        } else {
                            assert(wn0[q] == name@);
                        }
                    }
                }
            }
            self.add_witness_var_assignment(name.as_str(), b);
            proof {
                assert(self.wit_names() =~= wn0 + Seq::new((i + 1) as nat, |j: int| bit_name(var@, j as nat)));
                assert(self.wit() =~= w0 + Seq::new((i + 1) as nat, |j: int| (bit_name(var@, j as nat), tc_bit(v, N as nat, j as nat))));
            }
            i = i + 1;
        }
    }

    /// Adds the row `(a - x) * (x - b) == y`.
    fn new_range_row(&mut self, a: &str, b: &str, x: &str, y: &str)
        requires
            old(self).wf(),
            old(self).has_room(),
        ensures
            final(self).wf(),
            final(self).witness_assignments@ == old(self).witness_assignments@,
            final(self).vars() == interned(interned(interned(interned(old(self).vars(), a@), b@), x@), y@),
            final(self).constraint_count == old(self).constraint_count + 1,
            final(self).num_non_zero == old(self).num_non_zero + 5,
            mat(final(self).A@) == mat(old(self).A@).push((old(self).constraint_count as int, col(final(self).vars(), a@), 1))
                .push((old(self).constraint_count as int, col(final(self).vars(), x@), minus_one())),
            mat(final(self).B@) == mat(old(self).B@).push((old(self).constraint_count as int, col(final(self).vars(), x@), 1))
                .push((old(self).constraint_count as int, col(final(self).vars(), b@), minus_one())),
            mat(final(self).C@) == mat(old(self).C@).push((old(self).constraint_count as int, col(final(self).vars(), y@), 1)),
    {
        let one = FieldElement::one();
        let minus = one.neg();
        proof {
            crate::r1cs_helpers::lemma_minus_one();
        }
        let ghost n0 = self.vars();
        let ai = self.get_var_index(a);
        let ghost n1 = self.vars();
        let bi = self.get_var_index(b);
        let ghost n2 = self.vars();
        let xi = self.get_var_index(x);
        let ghost n3 = self.vars();
        let yi = self.get_var_index(y);
        proof {
            lemma_interned(n0, a@);
            lemma_interned(n1, b@);
            lemma_interned(n2, x@);
            lemma_interned(n3, y@);
            lemma_col_interned(n1, a@, b@);
            lemma_col_interned(n2, a@, x@);
            lemma_col_interned(n2, b@, x@);
            lemma_col_interned(n3, a@, y@);
            lemma_col_interned(n3, b@, y@);
            lemma_col_interned(n3, x@, y@);
        }
        let row = self.constraint_count;
        let ghost a0 = mat(self.A@);
        let ghost b0 = mat(self.B@);
        let ghost c0 = mat(self.C@);
        self.A.push((row, ai, one.to_bytes()));
        self.A.push((row, xi, minus.to_bytes()));
        self.B.push((row, xi, one.to_bytes()));
        self.B.push((row, bi, minus.to_bytes()));
        self.C.push((row, yi, one.to_bytes()));
        self.num_non_zero = self.num_non_zero + 5;
        self.constraint_count = self.constraint_count + 1;
        proof {
            assert(mat(self.A@) =~= a0.push((row as int, ai as int, 1)).push((row as int, xi as int, minus_one())));
            assert(mat(self.B@) =~= b0.push((row as int, xi as int, 1)).push((row as int, bi as int, minus_one())));
            assert(mat(self.C@) =~= c0.push((row as int, yi as int, 1)));
        }
    }

    /// Adds the rows proving `a <= x <= b`: `y = (a - x) * (x - b)` for the helper
    /// variable `y` named `x_a_b_range_helper`, the 202-bit two's-complement
    /// decomposition of `y`, and `y_bit201 == 0`, which says that `y` is not negative.
    pub fn new_range_constraint(&mut self, a: &str, b: &str, x: &str)
        requires
            old(self).wf(),
            old(self).constraint_count <= usize::MAX - 4096,
            old(self).num_non_zero <= usize::MAX - 8192,
        ensures
            final(self).wf(),
            final(self).witness_assignments@ == old(self).witness_assignments@,
            final(self).vars() == range_vars(old(self).vars(), a@, b@, x@),
            final(self).constraint_count == old(self).constraint_count + 205,
            final(self).num_non_zero == old(self).num_non_zero + 5 + 4 * 202 + 2 + 3,
            mat(final(self).A@) == mat(old(self).A@) + range_rows_a(old(self).constraint_count as int, final(self).vars(), a@, b@, x@),
            mat(final(self).B@) == mat(old(self).B@) + range_rows_b(old(self).constraint_count as int, final(self).vars(), a@, b@, x@),
            mat(final(self).C@) == mat(old(self).C@) + range_rows_c(old(self).constraint_count as int, final(self).vars(), a@, b@, x@),
    {
        let helper = range_helper_var_name(a, b, x);
        let ghost y = helper@;
        let ghost r = self.constraint_count as int;
        self.new_range_row(a, b, x, helper.as_str());
        let ghost n1 = self.vars();
        let ghost a1 = mat(self.A@);
        let ghost b1 = mat(self.B@);
        let ghost c1 = mat(self.C@);
        self.new_twos_complement_decomposition_constraint(helper.as_str(), 202);
        let ghost n2 = self.vars();
        let ghost a2 = mat(self.A@);
        let ghost b2 = mat(self.B@);
        let ghost c2 = mat(self.C@);
        let top = bit_var_name(helper.as_str(), 201);
        self.new_equality_scalar_constraint(top.as_str(), FieldElement::zero());
        proof {
            reveal_strlit("one");
            let n0 = old(self).vars();
            lemma_interned(n0, a@);
            lemma_interned(interned(n0, a@), b@);
            lemma_interned(interned(interned(n0, a@), b@), x@);
            lemma_interned(interned(interned(interned(n0, a@), b@), x@), y);
            lemma_interned(n1, y);
            lemma_interned(n1, one_name());
            assert(interned(n1, y) == n1);
            lemma_interned_bits(interned(n1, one_name()), y, 202);
            assert(n2.contains(one_name()));
            assert(n2.contains(bit_name(y, 201)));
            lemma_interned(n2, one_name());
            lemma_interned(n2, bit_name(y, 201));
            assert(self.vars() == n2);
            let nf = self.vars();
            assert forall|nm: Seq<char>| n1.contains(nm) implies col(nf, nm) == col(n1, nm) by {
                lemma_col_interned(n1, nm, one_name());
            }
            assert(n1.contains(a@));
            assert(n1.contains(b@));
            assert(n1.contains(x@));
            assert(n1.contains(y));
            assert(mat(self.A@) =~= mat(old(self).A@) + range_rows_a(r, nf, a@, b@, x@));
            assert(mat(self.B@) =~= mat(old(self).B@) + range_rows_b(r, nf, a@, b@, x@));
            assert(mat(self.C@) =~= mat(old(self).C@) + range_rows_c(r, nf, a@, b@, x@));
        }
    }

    /// Assigns the helper variable of `new_range_constraint` the value
    /// `(a - x) * (x - b)` and its bits their values.
    pub fn generate_witness_range(&mut self, a: &str, b: &str, x: &str, a_val: FieldElement, b_val: FieldElement, x_val: FieldElement)
        requires
            old(self).wf(),
            a_val.wf(),
            b_val.wf(),
            x_val.wf(),
            !old(self).wit_names().contains(range_helper_name(a@, b@, x@)),
            forall|i: nat| i < 202 ==> !old(self).wit_names().contains(#[trigger] bit_name(range_helper_name(a@, b@, x@), i)),
        ensures
            final(self).wf(),
            final(self).same_constraints(old(self)),
            final(self).wit() == old(self).wit().push((range_helper_name(a@, b@, x@), range_helper_value(a_val.val(), b_val.val(), x_val.val())))
                + Seq::new(202, |i: int| (bit_name(range_helper_name(a@, b@, x@), i as nat),
                    tc_bit(range_helper_value(a_val.val(), b_val.val(), x_val.val()), 202, i as nat))),
            final(self).wit_names() == old(self).wit_names().push(range_helper_name(a@, b@, x@))
                + Seq::new(202, |i: int| bit_name(range_helper_name(a@, b@, x@), i as nat)),
    {
        let helper = range_helper_var_name(a, b, x);
        let d1 = a_val.sub(&x_val);
        let d2 = x_val.sub(&b_val);
        let helper_val = d1.mul(&d2);
        proof {
            lemma_range_helper_value(a_val.val(), b_val.val(), x_val.val());
        }
        self.add_witness_var_assignment(helper.as_str(), helper_val);
        let ghost w1 = self.wit();
        proof {
            assert forall|i: nat| i < 202 implies !self.wit_names().contains(#[trigger] bit_name(helper@, i)) by {
                assert(bit_name(helper@, i).len() > helper@.len());
                if self.wit_names().contains(bit_name(helper@, i)) {
                    let q = choose|q: int| 0 <= q < self.wit_names().len() && self.wit_names()[q] == bit_name(helper@, i);
                    if q < old(self).wit_names().len() {
                        assert(old(self).wit_names()[q] == bit_name(helper@, i));
                    }
                }
            }
        }
        self.generate_witness_twos_complement_decomposition(helper.as_str(), helper_val, 202);
    }
}

/// The largest of three integers.
pub open spec fn max3(a: int, b: int, c: int) -> int {
    if a >= b && a >= c {
        a
    } else if b >= c {
        b
    } else {
        c
    }
}

/// The names of the public inputs.
pub open spec fn input_names(inputs: Seq<(&str, FieldElement)>) -> Seq<Seq<char>> {
    inputs.map_values(|p: (&str, FieldElement)| p.0@)
}

/// The public inputs as (name, value) pairs.
pub open spec fn input_values(inputs: Seq<(&str, FieldElement)>) -> Seq<(Seq<char>, int)> {
    inputs.map_values(|p: (&str, FieldElement)| (p.0@, p.1.val()))
}

/// The name of the range helper variable: `x_a_b_range_helper`.
pub open spec fn range_helper_name(a: Seq<char>, b: Seq<char>, x: Seq<char>) -> Seq<char> {
    x + "_"@ + a + "_"@ + b + "_range_helper"@
}

/// The value of the range helper: `(a - x) * (x - b)` in the field.
pub open spec fn range_helper_value(a: int, b: int, x: int) -> int {
    fmod((a - x) * (x - b)) as int
}

proof fn lemma_range_helper_value(a: int, b: int, x: int)
    requires
        0 <= a < group_order(),
        0 <= b < group_order(),
        0 <= x < group_order(),
    ensures
        fmod((fmod(a - x) * fmod(x - b)) as int) == range_helper_value(a, b, x),
{
    vstd::arithmetic::power2::lemma_pow2_pos(252);
    vstd::arithmetic::div_mod::lemma_mul_mod_noop(a - x, x - b, group_order() as int);
}

/// The variables after `new_range_constraint`.
pub open spec fn range_vars(ns: Seq<Seq<char>>, a: Seq<char>, b: Seq<char>, x: Seq<char>) -> Seq<Seq<char>> {
    let y = range_helper_name(a, b, x);
    interned_bits(interned(interned(interned(interned(interned(ns, a), b), x), y), one_name()), y, 202)
}

/// The `A` entries of the range rows starting at row `r`.
pub open spec fn range_rows_a(r: int, ns: Seq<Seq<char>>, a: Seq<char>, b: Seq<char>, x: Seq<char>) -> Seq<(int, int, int)> {
    let y = range_helper_name(a, b, x);
    seq![(r, col(ns, a), 1), (r, col(ns, x), minus_one())] + bit_rows_a(r + 1, ns, y, 202) + decomp_row_a(r + 203, ns, y, 202)
        + seq![(r + 204, col(ns, one_name()), 0)]
}

/// The `B` entries of the range rows starting at row `r`.
pub open spec fn range_rows_b(r: int, ns: Seq<Seq<char>>, a: Seq<char>, b: Seq<char>, x: Seq<char>) -> Seq<(int, int, int)> {
    let y = range_helper_name(a, b, x);
    seq![(r, col(ns, x), 1), (r, col(ns, b), minus_one())] + bit_rows_b(r + 1, ns, y, 202)
        + seq![(r + 203, col(ns, one_name()), 1), (r + 204, col(ns, one_name()), 1)]
}

/// The `C` entries of the range rows starting at row `r`.
pub open spec fn range_rows_c(r: int, ns: Seq<Seq<char>>, a: Seq<char>, b: Seq<char>, x: Seq<char>) -> Seq<(int, int, int)> {
    let y = range_helper_name(a, b, x);
    seq![(r, col(ns, y), 1), (r + 203, col(ns, y), 1), (r + 204, col(ns, bit_name(y, 201)), 1)]
}

/// The name of the range helper variable.
pub fn range_helper_var_name(a: &str, b: &str, x: &str) -> (r: String)
    ensures
        r@ == range_helper_name(a@, b@, x@),
{
    proof {
        reveal_strlit("_");
        reveal_strlit("_range_helper");
    }
    let mut s = x.to_owned();
    s.append("_");
    s.append(a);
    s.append("_");
    s.append(b);
    s.append("_range_helper");
    s
}


/// The signed integer a field value stands for: values from `2^248` up stand for
/// their difference with the group order, a negative number.
pub open spec fn signed_value(v: int) -> int {
    if v >= pow2(248) {
        v - group_order()
    } else {
        v
    }
}

/// Bit `i` of the `n`-bit two's-complement pattern of the signed integer that
/// the field value `v` stands for.
pub open spec fn tc_bit(v: int, n: nat, i: nat) -> int {
    ((signed_value(v) % (pow2(n) as int)) / (pow2(i) as int)) % 2
}

/// The low `i + 1` bits of `x` are its low `i` bits and bit `i` of its `n`-bit
/// pattern.
pub proof fn lemma_twos_complement_step(x: int, i: nat, n: nat)
    requires
        i < n,
    ensures
        x % (2 * pow2(i)) as int == (pow2(i) as int) * (((x % (pow2(n) as int)) / (pow2(i) as int)) % 2) + x % (pow2(i) as int),
{
    let p = pow2(i) as int;
    lemma_pow2_pos(i);
    lemma_pow2_pos(n);
    vstd::arithmetic::power2::lemma_pow2_unfold(i + 1);
    lemma_pow2_adds(i + 1, (n - i - 1) as nat);
    lemma_pow2_adds(i, (n - i) as nat);
    lemma_pow2_pos((n - i - 1) as nat);
    lemma_pow2_pos((n - i) as nat);
    let big = x % (pow2(n) as int);
    vstd::arithmetic::div_mod::lemma_mod_bound(x, pow2(n) as int);
    lemma_mod_mod(x, 2 * p, pow2((n - i - 1) as nat) as int);
    lemma_mod_mod(x, p, pow2((n - i) as nat) as int);
    lemma_mod_breakdown(big, p, 2);
}

/// The carry invariant of two's-complement negation: with `S + c * 2^k` equal to
/// `2^k - (m mod 2^k)`, `S` is `-m mod 2^k`.
pub proof fn lemma_neg_mod_from_carry(m: int, k: nat, S: int, c: int)
    requires
        m >= 0,
        0 <= S < pow2(k),
        0 <= c <= 1,
        S + c * pow2(k) == pow2(k) - m % (pow2(k) as int),
    ensures
        S == (-m) % (pow2(k) as int),
{
    let p = pow2(k) as int;
    lemma_pow2_pos(k);
    lemma_fundamental_div_mod(m, p);
    vstd::arithmetic::div_mod::lemma_mod_pos_bound(m, p);
    let q = m / p;
    let r = m % p;
    if r == 0 {
        assert(c == 1);
        assert(-m == p * (-q) + 0) by (nonlinear_arith)
            requires m == p * q + r, r == 0;
        lemma_fundamental_div_mod_converse(-m, p, -q, 0);
    } else {
        assert(c == 0);
        assert(-m == p * (-q - 1) + (p - r)) by (nonlinear_arith)
            requires m == p * q + r;
        lemma_fundamental_div_mod_converse(-m, p, -q - 1, p - r);
    }
}

} // verus!
