//! The Spartan proving backend: instances and assignments are built from the
//! library's matrices and witness vectors.
use vstd::prelude::*;
use libspartan::{Assignment, Instance};
use crate::field::{bytes_value, group_order};
use crate::r1cs_helpers::{Entry, mat};
use crate::semantics::satisfied;

verus! {

#[verifier::external_type_specification]
#[verifier::external_body]
pub struct ExInstance(Instance);

#[verifier::external_type_specification]
#[verifier::external_body]
pub struct ExAssignment(Assignment);

/// The matrices an instance was built from: its `A`, `B` and `C` as
/// (row, column, value) triples.
pub uninterp spec fn instance_matrices(i: Instance) -> (Seq<(int, int, int)>, Seq<(int, int, int)>, Seq<(int, int, int)>);

/// The numbers of rows, variables and public inputs an instance was built with.
pub uninterp spec fn instance_dims(i: Instance) -> (nat, nat, nat);

/// The values an assignment holds, in order.
pub uninterp spec fn assignment_values(a: Assignment) -> Seq<int>;

/// The integers that a sequence of encodings stands for.
pub open spec fn encoded_values(v: Seq<[u8; 32]>) -> Seq<int> {
    v.map_values(|e: [u8; 32]| bytes_value(e@) as int)
}

/// Every entry's row is below `rows`, its column below `cols`, and its value
/// is a canonical scalar.
pub open spec fn valid_entries(m: Seq<Entry>, rows: int, cols: int) -> bool {
    forall|k: int|
        0 <= k < m.len() ==> (#[trigger] m[k]).0 < rows && m[k].1 < cols && bytes_value(m[k].2@)
            < group_order()
}

/// Every value is a canonical scalar.
pub open spec fn all_canonical(v: Seq<[u8; 32]>) -> bool {
    forall|k: int| 0 <= k < v.len() ==> bytes_value((#[trigger] v[k])@) < group_order()
}

/// Relies on `libspartan::Instance::new`: it fails exactly when an entry's row is
/// not below `num_cons`, its column not below `num_vars + 1 + num_inputs`, or its
/// value is not a canonical scalar; the instance it returns holds those matrices
/// and sizes.  The bounds on the sizes keep the padding to powers of two from
/// overflowing.
#[verifier::external_body]
pub(crate) fn new_instance(
    num_cons: usize,
    num_vars: usize,
    num_inputs: usize,
    A: &Vec<Entry>,
    B: &Vec<Entry>,
    C: &Vec<Entry>,
) -> (r: Option<Instance>)
    requires
        1 <= num_cons <= 0x4000_0000,
        num_vars <= 0x4000_0000,
        num_inputs <= 0x4000_0000,
    ensures
        r.is_some() <==> (valid_entries(A@, num_cons as int, num_vars + 1 + num_inputs)
            && valid_entries(B@, num_cons as int, num_vars + 1 + num_inputs)
            && valid_entries(C@, num_cons as int, num_vars + 1 + num_inputs)),
        r.is_some() ==> instance_matrices(r.unwrap()) == (mat(A@), mat(B@), mat(C@))
            && instance_dims(r.unwrap()) == (num_cons as nat, num_vars as nat, num_inputs as nat),
{
    Instance::new(num_cons, num_vars, num_inputs, A, B, C).ok()
}

/// Relies on `libspartan::Assignment::new`: it fails exactly when a value is not a
/// canonical scalar, and otherwise holds the values in order.
#[verifier::external_body]
pub(crate) fn new_assignment(values: &Vec<[u8; 32]>) -> (r: Option<Assignment>)
    ensures
        r.is_some() <==> all_canonical(values@),
        r.is_some() ==> assignment_values(r.unwrap()) == encoded_values(values@),
{
    Assignment::new(values).ok()
}

/// Relies on `libspartan::Instance::is_sat`, which evaluates every row of the
/// instance on `z`, the variable values followed by 1 and the inputs, and checks
/// `(A_r . z) * (B_r . z) == C_r . z` in the field; the rows and variables it adds
/// as padding are zero.  A malformed assignment counts as not satisfying.
#[verifier::external_body]
pub(crate) fn instance_is_sat(inst: &Instance, vars: &Assignment, inputs: &Assignment) -> (r: bool)
    ensures
        (assignment_values(*inputs).len() == 0 && instance_dims(*inst).2 == 0
            && assignment_values(*vars).len() == instance_dims(*inst).1) ==> r == satisfied(
            instance_matrices(*inst).0,
            instance_matrices(*inst).1,
            instance_matrices(*inst).2,
            instance_dims(*inst).0 as int,
            assignment_values(*vars),
        ),
{
    inst.is_sat(vars, inputs).unwrap_or(false)
}

} // verus!
