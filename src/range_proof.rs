//! The range gadget as a whole: a session that proves `a <= x <= b`.
use vstd::prelude::*;
use libspartan::{Assignment, Instance};
use crate::field::FieldElement;
use crate::r1cs::{R1CS, range_helper_name, range_helper_value, tc_bit, range_vars, lemma_twos_complement_step, range_rows_a, range_rows_b, range_rows_c};
use crate::r1cs_helpers::{
    mat,
    bit_name, interned, interned_bits, one_name, lemma_interned_bits_fresh, lemma_bit_name_len,
};
use crate::backend::{instance_is_sat, instance_matrices, instance_dims, assignment_values};
use crate::field::{fmod, group_order};
use crate::r1cs::signed_value;
use crate::r1cs_helpers::{col, lemma_col, lemma_minus_one, bit_rows_a, bit_rows_b, decomp_row_a, decomp_coef, minus_one};
use crate::semantics::{z_at, row_dot, row_holds, satisfied, witness_values, lemma_row_dot_single, lemma_row_dot_concat};
use vstd::arithmetic::power2::pow2;
use vstd::arithmetic::div_mod::lemma_fundamental_div_mod_converse;

verus! {

/// The variables of a range session, by index: "one", "A", "B", "x", the helper
/// and its 202 bits.
pub open spec fn range_session_vars() -> Seq<Seq<char>> {
    seq![one_name(), "A"@, "B"@, "x"@, range_helper_name("A"@, "B"@, "x"@)]
        + Seq::new(202, |i: int| bit_name(range_helper_name("A"@, "B"@, "x"@), i as nat))
}

/// The witness of a range session, in the order of its variables.
pub open spec fn range_session_witness(a: int, b: int, x: int) -> Seq<(Seq<char>, int)> {
    let y = range_helper_name("A"@, "B"@, "x"@);
    let h = range_helper_value(a, b, x);
    seq![(one_name(), 1int), ("A"@, a), ("B"@, b), ("x"@, x), (y, h)]
        + Seq::new(202, |i: int| (bit_name(y, i as nat), tc_bit(h, 202, i as nat)))
}

/// Builds the constraints and the witness of a proof that `x` lies in `[a, b]`,
/// with the bounds pinned to their public values.
pub fn build_range_r1cs(x: FieldElement, a: FieldElement, b: FieldElement) -> (r: R1CS)
    requires
        x.wf(),
        a.wf(),
        b.wf(),
    ensures
        r.wf(),
        r.vars() == range_session_vars(),
        r.wit_names() == range_session_vars(),
        r.wit() == range_session_witness(a.val(), b.val(), x.val()),
        r.witness_complete(),
        r.constraint_count == 207,
        r.num_non_zero == 824,
        mat(r.A@) == Seq::new(2, |k: int| (k, 0int, if k == 0 { a.val() } else { b.val() }))
            + range_rows_a(2, range_session_vars(), "A"@, "B"@, "x"@),
        mat(r.B@) == Seq::new(2, |k: int| (k, 0int, 1int)) + range_rows_b(2, range_session_vars(), "A"@, "B"@, "x"@),
        mat(r.C@) == Seq::new(2, |k: int| (k, k + 1, 1int)) + range_rows_c(2, range_session_vars(), "A"@, "B"@, "x"@),
{
    proof {
        reveal_strlit("A");
        reveal_strlit("B");
        reveal_strlit("x");
        reveal_strlit("one");
        reveal_strlit("_");
        reveal_strlit("_range_helper");
    }
    let inputs: Vec<(&str, FieldElement)> = vec![("A", a), ("B", b)];
    proof {
        assert(crate::r1cs::input_names(inputs@) =~= seq!["A"@, "B"@]);
        assert((seq![one_name()] + seq!["A"@, "B"@]) =~= seq![one_name(), "A"@, "B"@]);
        assert(one_name().len() == 3 && "A"@.len() == 1 && "B"@.len() == 1);
        assert("A"@[0] != "B"@[0]);
        assert("A"@ != "B"@);
        assert(seq![one_name(), "A"@, "B"@].no_duplicates());
    }
    let mut r = R1CS::new(&inputs);
    proof {
        assert(Seq::new(2, |k: int| (k, 0int, inputs@[k].1.val())) =~= Seq::new(2, |k: int| (k, 0int, if k == 0 { a.val() } else { b.val() })));
    }
    let ghost n0 = r.vars();
    proof {
        assert(n0 =~= seq![one_name(), "A"@, "B"@]);
    }
    r.new_range_constraint("A", "B", "x");
    let ghost y = range_helper_name("A"@, "B"@, "x"@);
    proof {
        assert(n0[1] == "A"@);
        assert(n0[2] == "B"@);
        assert(n0.contains("A"@));
        assert(n0.contains("B"@));
        assert(!n0.contains("x"@)) by {
            assert("x"@[0] != "A"@[0] && "x"@[0] != "B"@[0]);
            assert(n0[0] != "x"@);
            assert(n0[1] != "x"@);
            assert(n0[2] != "x"@);
        }
        let n1 = n0.push("x"@);
        assert(y.len() == 18);
        assert(!n1.contains(y)) by {
            assert(n1[0].len() == 3 && n1[1].len() == 1 && n1[2].len() == 1 && n1[3].len() == 1);
        }
        let n2 = n1.push(y);
        assert(n2[0] == one_name());
        assert(n2.contains(one_name()));
        assert forall|j: nat| j < 202 implies !n2.contains(#[trigger] bit_name(y, j)) by {
            lemma_bit_name_len(y, j);
            if n2.contains(bit_name(y, j)) {
                let q = choose|q: int| 0 <= q < n2.len() && n2[q] == bit_name(y, j);
                assert(n2[q].len() <= 18);
            }
        }
        lemma_interned_bits_fresh(n2, y, 202);
        assert(range_vars(n0, "A"@, "B"@, "x"@) == n2 + Seq::new(202, |i: int| bit_name(y, i as nat)));
        assert(r.vars() =~= range_session_vars());
    }
    let ghost w0 = r.wit_names();
    r.add_witness_var_assignment("x", x);
    proof {
        assert(r.wit_names() =~= seq![one_name(), "A"@, "B"@, "x"@]);
        assert(!r.wit_names().contains(y)) by {
            let wn = r.wit_names();
            assert(wn[0].len() == 3 && wn[1].len() == 1 && wn[2].len() == 1 && wn[3].len() == 1);
        }
        assert forall|i: nat| i < 202 implies !r.wit_names().contains(#[trigger] bit_name(y, i)) by {
            lemma_bit_name_len(y, i);
            let wn = r.wit_names();
            if wn.contains(bit_name(y, i)) {
                let q = choose|q: int| 0 <= q < wn.len() && wn[q] == bit_name(y, i);
                assert(wn[q].len() <= 3);
            }
        }
    }
    let ghost w1 = r.wit();
    proof {
        assert(crate::r1cs::input_values(inputs@) =~= seq![("A"@, a.val()), ("B"@, b.val())]);
        assert(w1 =~= seq![(one_name(), 1int), ("A"@, a.val()), ("B"@, b.val()), ("x"@, x.val())]);
    }
    r.generate_witness_range("A", "B", "x", a, b, x);
    proof {
        assert(r.wit() =~= range_session_witness(a.val(), b.val(), x.val()));
        assert(r.wit_names() =~= range_session_vars());
        assert forall|i: int| 0 <= i < r.vars().len() implies r.wit_names().contains(#[trigger] r.vars()[i]) by {
            assert(r.wit_names()[i] == r.vars()[i]);
        }
    }
    r
}

/// Generates a constraint system for a proof that `x` lies in `[a, b]` (both
/// inclusive), its witness, and whether the backend finds the witness
/// satisfying.  Returns the number of rows, of variables, of public inputs and
/// of entries, the instance, the variable and input assignments, and that answer.
pub fn produce_range_r1cs(x: FieldElement, a: FieldElement, b: FieldElement) -> (r: (
    usize,
    usize,
    usize,
    usize,
    Instance,
    Assignment,
    Assignment,
    bool,
))
    requires
        x.wf(),
        a.wf(),
        b.wf(),
    ensures
        r.0 == 208,
        r.1 == 207,
        r.2 == 0,
        r.3 == 411,
        instance_matrices(r.4) == (range_instance_a(a.val(), b.val()), range_instance_b(), range_instance_c()),
        instance_dims(r.4) == (208nat, 207nat, 0nat),
        assignment_values(r.5) == witness_values(range_session_witness(a.val(), b.val(), x.val())),
        assignment_values(r.6).len() == 0,
        r.7 == satisfied(range_instance_a(a.val(), b.val()), range_instance_b(), range_instance_c(), 208,
            witness_values(range_session_witness(a.val(), b.val(), x.val()))),
        forall|ia: int, ib: int, ix: int|
            #![trigger fmod(ia), fmod(ib), fmod(ix)]
            fmod(ia) == a.val() && fmod(ib) == b.val() && fmod(ix) == x.val() && ia <= ix <= ib
                && (ia - ix) * (ix - ib) < pow2(201) ==> r.7,
        forall|ia: int, ib: int, ix: int|
            #![trigger fmod(ia), fmod(ib), fmod(ix)]
            fmod(ia) == a.val() && fmod(ib) == b.val() && fmod(ix) == x.val() && ia <= ib && (ix < ia || ix > ib)
                && -pow2(201) < (ia - ix) * (ix - ib) < pow2(201) ==> !r.7,
{
    let mut r1cs = build_range_r1cs(x, a, b);
    let ghost before = r1cs;
    let (inst, num_cons, num_vars, num_inputs, num_non_zero_entries) = r1cs.build_instance();
    proof {
        reveal_strlit("one");
        assert(range_session_vars()[0] == one_name());
        assert(range_session_vars().contains(one_name()));
        assert(r1cs.vars() == range_session_vars());
        assert(r1cs.witness_complete());
        assert(r1cs.A@.len() == mat(r1cs.A@).len());
        assert(r1cs.B@.len() == mat(r1cs.B@).len());
        assert(r1cs.C@.len() == mat(r1cs.C@).len());
    }
    let witness = r1cs.build_witness();
    let (assignment_vars, assignment_inputs) = witness.unwrap();
    let ghost wv = witness_values(range_session_witness(a.val(), b.val(), x.val()));
    proof {
        let vs = range_session_vars();
        lemma_range_session_vars_distinct();
        crate::semantics::lemma_push_is_concat(mat(before.A@), (207int, 207int, 1int));
        crate::semantics::lemma_push_is_concat(mat(before.B@), (207int, 207int, 1int));
        lemma_col(vs, one_name(), 0);
        crate::semantics::lemma_push_is_concat(mat(before.C@), (207int, 0int, 1int));
        assert forall|i: int| 0 <= i < 207 implies #[trigger] assignment_values(assignment_vars)[i] == wv[i] by {
            lemma_col(r1cs.wit_names(), vs[i], i);
        }
        assert(assignment_values(assignment_vars) =~= wv);
    }
    let witness_satisfies_instance = instance_is_sat(&inst, &assignment_vars, &assignment_inputs);
    proof {
        assert(assignment_values(assignment_inputs).len() == 0);
        assert(instance_dims(inst).2 == 0);
        assert(assignment_values(assignment_vars).len() == instance_dims(inst).1);
        assert(instance_matrices(inst).0 == range_instance_a(a.val(), b.val()));
        assert(instance_matrices(inst).1 == range_instance_b());
        assert(instance_matrices(inst).2 == range_instance_c());
        assert(witness_satisfies_instance == satisfied(range_instance_a(a.val(), b.val()), range_instance_b(), range_instance_c(), 208, wv));
        assert forall|ia: int, ib: int, ix: int|
            #![trigger fmod(ia), fmod(ib), fmod(ix)]
            fmod(ia) == a.val() && fmod(ib) == b.val() && fmod(ix) == x.val() && ia <= ix <= ib
                && (ia - ix) * (ix - ib) < pow2(201) implies witness_satisfies_instance by {
            lemma_range_witness_satisfies(ia, ib, ix);
            assert(fmod(ia) as int == a.val() && fmod(ib) as int == b.val() && fmod(ix) as int == x.val());
            assert(satisfied(range_instance_a(a.val(), b.val()), range_instance_b(), range_instance_c(), 208, wv));
        }
        assert forall|ia: int, ib: int, ix: int|
            #![trigger fmod(ia), fmod(ib), fmod(ix)]
            fmod(ia) == a.val() && fmod(ib) == b.val() && fmod(ix) == x.val() && ia <= ib && (ix < ia || ix > ib)
                && -pow2(201) < (ia - ix) * (ix - ib) < pow2(201) implies !witness_satisfies_instance by {
            lemma_range_witness_fails_outside(ia, ib, ix);
        }
    }
    (
        num_cons,
        num_vars,
        num_inputs,
        num_non_zero_entries,
        inst,
        assignment_vars,
        assignment_inputs,
        witness_satisfies_instance,
    )
}


/// The matrices of a closed range session whose public bounds have values `a`
/// and `b`: the rows of `build_range_r1cs` and the row `1 * 1 == one` that
/// `build_instance` adds.
pub open spec fn range_instance_a(a: int, b: int) -> Seq<(int, int, int)> {
    Seq::new(2, |k: int| (k, 0int, if k == 0 { a } else { b })) + range_rows_a(2, range_session_vars(), "A"@, "B"@, "x"@)
        + seq![(207int, 207int, 1int)]
}

pub open spec fn range_instance_b() -> Seq<(int, int, int)> {
    Seq::new(2, |k: int| (k, 0int, 1int)) + range_rows_b(2, range_session_vars(), "A"@, "B"@, "x"@) + seq![(207int, 207int, 1int)]
}

pub open spec fn range_instance_c() -> Seq<(int, int, int)> {
    Seq::new(2, |k: int| (k, k + 1, 1int)) + range_rows_c(2, range_session_vars(), "A"@, "B"@, "x"@) + seq![(207int, 0int, 1int)]
}

/// The variables of a range session are distinct.
pub proof fn lemma_range_session_vars_distinct()
    ensures
        range_session_vars().no_duplicates(),
        range_session_vars().len() == 207,
{
    reveal_strlit("A");
    reveal_strlit("B");
    reveal_strlit("x");
    reveal_strlit("one");
    reveal_strlit("_");
    reveal_strlit("_range_helper");
    let vs = range_session_vars();
    let y = range_helper_name("A"@, "B"@, "x"@);
    assert(y.len() == 18);
    assert forall|p: int, q: int| 0 <= p < vs.len() && 0 <= q < vs.len() && p != q implies vs[p] != vs[q] by {
        if p >= 5 && q >= 5 {
            if vs[p] == vs[q] {
                crate::r1cs_helpers::lemma_bit_name_injective(y, (p - 5) as nat, (q - 5) as nat);
            }
        } else if p >= 5 {
            lemma_bit_name_len(y, (p - 5) as nat);
            assert(vs[q].len() <= 18);
        } else if q >= 5 {
            lemma_bit_name_len(y, (q - 5) as nat);
            assert(vs[p].len() <= 18);
        } else {
            assert("A"@[0] != "B"@[0] && "A"@[0] != "x"@[0] && "B"@[0] != "x"@[0]);
            assert(vs[p].len() != vs[q].len() || vs[p][0] != vs[q][0]);
        }
    }
}

/// Columns of the named variables of a range session.
pub proof fn lemma_range_session_cols()
    ensures
        col(range_session_vars(), one_name()) == 0,
        col(range_session_vars(), "A"@) == 1,
        col(range_session_vars(), "B"@) == 2,
        col(range_session_vars(), "x"@) == 3,
        col(range_session_vars(), range_helper_name("A"@, "B"@, "x"@)) == 4,
        forall|i: nat| i < 202 ==> col(range_session_vars(), #[trigger] bit_name(range_helper_name("A"@, "B"@, "x"@), i)) == 5 + i,
{
    lemma_range_session_vars_distinct();
    let vs = range_session_vars();
    lemma_col(vs, one_name(), 0);
    lemma_col(vs, "A"@, 1);
    lemma_col(vs, "B"@, 2);
    lemma_col(vs, "x"@, 3);
    lemma_col(vs, range_helper_name("A"@, "B"@, "x"@), 4);
    assert forall|i: nat| i < 202 implies col(vs, #[trigger] bit_name(range_helper_name("A"@, "B"@, "x"@), i)) == 5 + i by {
        lemma_col(vs, bit_name(range_helper_name("A"@, "B"@, "x"@), i), 5 + i as int);
    }
}

/// The helper value of integers is the helper value of their residues.
pub proof fn lemma_helper_of_residues(a: int, b: int, x: int)
    ensures
        range_helper_value(fmod(a) as int, fmod(b) as int, fmod(x) as int) == fmod((a - x) * (x - b)),
{
    let l = group_order() as int;
    vstd::arithmetic::power2::lemma_pow2_pos(252);
    vstd::arithmetic::div_mod::lemma_sub_mod_noop(a, x, l);
    vstd::arithmetic::div_mod::lemma_sub_mod_noop(x, b, l);
    vstd::arithmetic::div_mod::lemma_mul_mod_noop(fmod(a) - fmod(x), fmod(x) - fmod(b), l);
    vstd::arithmetic::div_mod::lemma_mul_mod_noop(a - x, x - b, l);
}

/// The sign bit of a helper that stands for a negative number above `-2^201`
/// is 1, and that of a helper below `2^201` is 0; both stand for themselves.
pub proof fn lemma_helper_sign(h: int)
    requires
        -pow2(201) < h < pow2(201),
    ensures
        signed_value(fmod(h) as int) == h,
        tc_bit(fmod(h) as int, 202, 201) == (if h < 0 { 1int } else { 0int }),
{
    let l = group_order() as int;
    let pow_201 = pow2(201) as int;
    let pow_202 = pow2(202) as int;
    vstd::arithmetic::power2::lemma_pow2_unfold(202);
    vstd::arithmetic::power2::lemma_pow2_strictly_increases(201, 248);
    vstd::arithmetic::power2::lemma_pow2_strictly_increases(248, 251);
    vstd::arithmetic::power2::lemma_pow2_strictly_increases(201, 251);
    vstd::arithmetic::power2::lemma_pow2_unfold(252);
    vstd::arithmetic::power2::lemma_pow2_pos(201);
    if h < 0 {
        lemma_fundamental_div_mod_converse(h, l, -1, l + h);
        assert(fmod(h) as int == l + h);
        assert(signed_value(fmod(h) as int) == h);
        lemma_fundamental_div_mod_converse(h, pow_202, -1, pow_202 + h);
        lemma_fundamental_div_mod_converse(pow_202 + h, pow_201, 1, pow_201 + h);
    } else {
        lemma_fundamental_div_mod_converse(h, l, 0, h);
        lemma_fundamental_div_mod_converse(h, pow_202, 0, h);
        lemma_fundamental_div_mod_converse(h, pow_201, 0, h);
    }
}

/// A range session whose secret lies outside `[a, b]`, `a <= b`, with
/// `|(a - x) * (x - b)| < 2^201`, has a witness that does not satisfy its
/// instance: the row asserting that the helper's sign bit is 0 fails.
pub proof fn lemma_range_witness_fails_outside(a: int, b: int, x: int)
    requires
        a <= b,
        x < a || x > b,
        -pow2(201) < (a - x) * (x - b) < pow2(201),
    ensures
        !row_holds(range_instance_a(fmod(a) as int, fmod(b) as int), range_instance_b(), range_instance_c(), 206,
            witness_values(range_session_witness(fmod(a) as int, fmod(b) as int, fmod(x) as int))),
        !satisfied(range_instance_a(fmod(a) as int, fmod(b) as int), range_instance_b(), range_instance_c(), 208,
            witness_values(range_session_witness(fmod(a) as int, fmod(b) as int, fmod(x) as int))),
{
    let h = (a - x) * (x - b);
    assert(h < 0) by (nonlinear_arith)
        requires a <= b, x < a || x > b, h == (a - x) * (x - b);
    lemma_helper_of_residues(a, b, x);
    lemma_helper_sign(h);
    lemma_range_row_206(fmod(a) as int, fmod(b) as int, fmod(x) as int);
    lemma_minus_one();
    vstd::arithmetic::div_mod::lemma_small_mod(0, group_order());
    vstd::arithmetic::div_mod::lemma_small_mod(1, group_order());
    reveal(satisfied);
    let ia = range_instance_a(fmod(a) as int, fmod(b) as int);
    let w = witness_values(range_session_witness(fmod(a) as int, fmod(b) as int, fmod(x) as int));
    assert(row_dot(ia, 206, w) * row_dot(range_instance_b(), 206, w) == 0);
    if satisfied(ia, range_instance_b(), range_instance_c(), 208, w) {
        assert(row_holds(ia, range_instance_b(), range_instance_c(), 206, w));
    }
}

/// Row 206 of a range session, `0 * 1 == helper_bit201`.
pub proof fn lemma_range_row_206(a: int, b: int, x: int)
    ensures
        row_dot(range_instance_a(a, b), 206, witness_values(range_session_witness(a, b, x))) == 0,
        row_dot(range_instance_b(), 206, witness_values(range_session_witness(a, b, x))) == 1,
        row_dot(range_instance_c(), 206, witness_values(range_session_witness(a, b, x)))
            == tc_bit(range_helper_value(a, b, x), 202, 201),
{
    let w = witness_values(range_session_witness(a, b, x));
    let vs = range_session_vars();
    let y = range_helper_name("A"@, "B"@, "x"@);
    lemma_range_session_cols();
    assert(w.len() == 207);
    assert(w[0] == 1);
    assert(w[206] == tc_bit(range_helper_value(a, b, x), 202, 201));
    let ma = range_instance_a(a, b);
    let ka = ma.len() - 2;
    assert(ma[ka] == (206int, 0int, 0int));
    assert forall|j: int| 0 <= j < ma.len() && j != ka implies (#[trigger] ma[j]).0 != 206 by {
        if j >= 2 + 2 + 202 && j < 2 + 2 + 202 + 202 {
            assert(ma[j].0 == 205);
        }
    }
    lemma_row_dot_single(ma, ka, 206, w);
    assert(ma[ka].2 == 0);
    assert(row_dot(ma, 206, w) == ma[ka].2 * z_at(w, ma[ka].1));
    assert(row_dot(ma, 206, w) == 0);
    let mb = range_instance_b();
    let kb = mb.len() - 2;
    assert(mb[kb] == (206int, 0int, 1int));
    assert forall|j: int| 0 <= j < mb.len() && j != kb implies (#[trigger] mb[j]).0 != 206 by {
        if j >= 4 && j < 4 + 404 {
            let k = j - 4;
            assert(mb[j].0 == 3 + k / 2);
        }
    }
    lemma_row_dot_single(mb, kb, 206, w);
    assert(z_at(w, 0) == 1);
    assert(mb[kb].2 == 1);
    assert(mb[kb].1 == 0);
    assert(row_dot(mb, 206, w) == mb[kb].2 * z_at(w, mb[kb].1));
    assert(row_dot(mb, 206, w) == 1);
    let mc = range_instance_c();
    assert(mc[4] == (206int, 206int, 1int));
    assert forall|j: int| 0 <= j < mc.len() && j != 4 implies (#[trigger] mc[j]).0 != 206 by {}
    lemma_row_dot_single(mc, 4, 206, w);
    assert(z_at(w, 206) == w[206]);
    assert(mc[4].2 == 1);
    assert(mc[4].1 == 206);
    assert(row_dot(mc, 206, w) == mc[4].2 * z_at(w, mc[4].1));
    assert(mc[4].2 * z_at(w, mc[4].1) == z_at(w, 206)) by (nonlinear_arith)
        requires mc[4].2 == 1, mc[4].1 == 206;
    assert(row_dot(mc, 206, w) == w[206]);
}


/// `sum_{k < n} weight_k * w[5 + k]`, the decomposition row's first `n` terms.
pub open spec fn weighted_bits(w: Seq<int>, n: nat) -> int
    decreases n,
{
    if n == 0 {
        0
    } else {
        weighted_bits(w, (n - 1) as nat) + decomp_coef(202, (n - 1) as nat) * w[5 + n - 1]
    }
}

proof fn lemma_dot_bit_rows_a(w: Seq<int>, r: int, n: nat)
    requires
        n <= 202,
        w.len() == 207,
    ensures
        row_dot(bit_rows_a(3, range_session_vars(), range_helper_name("A"@, "B"@, "x"@), 202).subrange(0, n as int), r, w)
            == if 3 <= r < 3 + n { w[5 + r - 3] } else { 0 },
    decreases n,
{
    lemma_range_session_cols();
    let s = bit_rows_a(3, range_session_vars(), range_helper_name("A"@, "B"@, "x"@), 202);
    if n > 0 {
        lemma_dot_bit_rows_a(w, r, (n - 1) as nat);
        let t = s.subrange(0, n as int);
        assert(t.drop_last() =~= s.subrange(0, n - 1));
        assert(t.last() == (3 + n - 1, 5 + n - 1, 1int));
        assert(row_dot(t, r, w) == row_dot(t.drop_last(), r, w) + if t.last().0 == r { t.last().2 * z_at(w, t.last().1) } else { 0 });
        let wb = w[5 + n - 1];
        assert(z_at(w, 5 + n - 1) == wb);
        assert(1 * wb == wb) by (nonlinear_arith);
    }
}

proof fn lemma_dot_bit_rows_b(w: Seq<int>, r: int, n: nat)
    requires
        n <= 202,
        w.len() == 207,
    ensures
        row_dot(bit_rows_b(3, range_session_vars(), range_helper_name("A"@, "B"@, "x"@), 202).subrange(0, 2 * n as int), r, w)
            == if 3 <= r < 3 + n { w[5 + r - 3] + minus_one() * w[0] } else { 0 },
    decreases n,
{
    lemma_range_session_cols();
    let s = bit_rows_b(3, range_session_vars(), range_helper_name("A"@, "B"@, "x"@), 202);
    if n > 0 {
        lemma_dot_bit_rows_b(w, r, (n - 1) as nat);
        let t = s.subrange(0, 2 * n as int);
        let t1 = t.drop_last();
        let t2 = t1.drop_last();
        assert(row_dot(t, r, w) == row_dot(t1, r, w) + if t.last().0 == r { t.last().2 * z_at(w, t.last().1) } else { 0 });
        assert(row_dot(t1, r, w) == row_dot(t2, r, w) + if t1.last().0 == r { t1.last().2 * z_at(w, t1.last().1) } else { 0 });
        assert(t.drop_last() =~= s.subrange(0, 2 * n - 1));
        assert(t.drop_last().drop_last() =~= s.subrange(0, 2 * (n - 1)));
        assert(t.last() == (3 + n - 1, 0int, minus_one()));
        assert(t.drop_last().last() == (3 + n - 1, 5 + n - 1, 1int));
        assert(z_at(w, 0) == w[0]);
        assert(z_at(w, 5 + n - 1) == w[5 + n - 1]);
        let wb = w[5 + n - 1];
        assert(1 * wb == wb) by (nonlinear_arith);
        if 3 <= r < 3 + n - 1 {
            assert(row_dot(t, r, w) == row_dot(s.subrange(0, 2 * (n - 1)), r, w));
        } else if r == 3 + n - 1 {
            assert(row_dot(s.subrange(0, 2 * (n - 1)), r, w) == 0);
            assert(row_dot(t, r, w) == w[5 + r - 3] + minus_one() * w[0]);
        }
    }
}

proof fn lemma_dot_decomp_row(w: Seq<int>, r: int, n: nat)
    requires
        n <= 202,
        w.len() == 207,
    ensures
        row_dot(decomp_row_a(205, range_session_vars(), range_helper_name("A"@, "B"@, "x"@), 202).subrange(0, n as int), r, w)
            == if r == 205 { weighted_bits(w, n) } else { 0 },
    decreases n,
{
    lemma_range_session_cols();
    let s = decomp_row_a(205, range_session_vars(), range_helper_name("A"@, "B"@, "x"@), 202);
    if n > 0 {
        lemma_dot_decomp_row(w, r, (n - 1) as nat);
        assert(s.subrange(0, n as int).drop_last() =~= s.subrange(0, n - 1));
        assert(s.subrange(0, n as int).last() == (205int, 5 + n - 1, decomp_coef(202, (n - 1) as nat)));
    }
}

/// The low `n` weighted bits of a two's-complement pattern add up to the value
/// modulo `2^n`.
proof fn lemma_weighted_low_bits(w: Seq<int>, v: int, n: nat)
    requires
        n <= 201,
        w.len() == 207,
        forall|k: int| 0 <= k < 202 ==> #[trigger] w[5 + k] == tc_bit(v, 202, k as nat),
    ensures
        weighted_bits(w, n) == signed_value(v) % (pow2(n) as int),
    decreases n,
{
    if n == 0 {
        vstd::arithmetic::power2::lemma2_to64();
    } else {
        let m = (n - 1) as nat;
        lemma_weighted_low_bits(w, v, m);
        lemma_twos_complement_step(signed_value(v), m, 202);
        vstd::arithmetic::power2::lemma_pow2_unfold(n);
    }
}


proof fn lemma_dot_pair(e1: (int, int, int), e2: (int, int, int), r: int, w: Seq<int>)
    ensures
        row_dot(seq![e1, e2], r, w) == (if e1.0 == r { e1.2 * z_at(w, e1.1) } else { 0 })
            + (if e2.0 == r { e2.2 * z_at(w, e2.1) } else { 0 }),
        row_dot(seq![e1], r, w) == (if e1.0 == r { e1.2 * z_at(w, e1.1) } else { 0 }),
{
    let s = seq![e1, e2];
    let s1 = seq![e1];
    assert(s.drop_last() =~= s1);
    assert(s.last() == e2);
    assert(s1.last() == e1);
    assert(s1.drop_last() =~= Seq::<(int, int, int)>::empty());
    assert(row_dot(Seq::<(int, int, int)>::empty(), r, w) == 0);
    assert(row_dot(s1, r, w) == row_dot(s1.drop_last(), r, w) + if e1.0 == r { e1.2 * z_at(w, e1.1) } else { 0 });
    assert(row_dot(s, r, w) == row_dot(s1, r, w) + if e2.0 == r { e2.2 * z_at(w, e2.1) } else { 0 });
}

proof fn lemma_dot_triple(e1: (int, int, int), e2: (int, int, int), e3: (int, int, int), r: int, w: Seq<int>)
    ensures
        row_dot(seq![e1, e2, e3], r, w) == (if e1.0 == r { e1.2 * z_at(w, e1.1) } else { 0 })
            + (if e2.0 == r { e2.2 * z_at(w, e2.1) } else { 0 }) + (if e3.0 == r { e3.2 * z_at(w, e3.1) } else { 0 }),
{
    assert(seq![e1, e2, e3].drop_last() =~= seq![e1, e2]);
    lemma_dot_pair(e1, e2, r, w);
}

/// Each row of a range session's matrices, applied to a witness of the
/// session's shape.
proof fn lemma_range_row_dots(a: int, b: int, w: Seq<int>, r: int)
    requires
        w.len() == 207,
    ensures
        row_dot(range_instance_a(a, b), r, w) == (if r == 0 { a * w[0] } else if r == 1 { b * w[0] }
            else if r == 2 { 1 * w[1] + minus_one() * w[3] } else if 3 <= r < 205 { w[5 + r - 3] }
            else if r == 205 { weighted_bits(w, 202) } else if r == 206 { 0 * w[0] } else if r == 207 { 1int } else { 0int }),
        row_dot(range_instance_b(), r, w) == (if r == 0 || r == 1 { 1 * w[0] } else if r == 2 { 1 * w[3] + minus_one() * w[2] }
            else if 3 <= r < 205 { w[5 + r - 3] + minus_one() * w[0] } else if r == 205 || r == 206 { 1 * w[0] }
            else if r == 207 { 1int } else { 0int }),
        row_dot(range_instance_c(), r, w) == (if r == 0 { 1 * w[1] } else if r == 1 { 1 * w[2] } else if r == 2 || r == 205 { 1 * w[4] }
            else if r == 206 { 1 * w[206] } else if r == 207 { 1 * w[0] } else { 0 }),
{
    lemma_range_session_cols();
    let vs = range_session_vars();
    let y = range_helper_name("A"@, "B"@, "x"@);
    let s2a = Seq::new(2, |k: int| (k, 0int, if k == 0 { a } else { b }));
    let s2b = Seq::new(2, |k: int| (k, 0int, 1int));
    let s2c = Seq::new(2, |k: int| (k, k + 1, 1int));
    assert(s2a =~= seq![(0int, 0int, a), (1int, 0int, b)]);
    assert(s2b =~= seq![(0int, 0int, 1int), (1int, 0int, 1int)]);
    assert(s2c =~= seq![(0int, 1int, 1int), (1int, 2int, 1int)]);
    lemma_dot_pair((0int, 0int, a), (1int, 0int, b), r, w);
    lemma_dot_pair((0int, 0int, 1int), (1int, 0int, 1int), r, w);
    lemma_dot_pair((0int, 1int, 1int), (1int, 2int, 1int), r, w);
    let bra = bit_rows_a(3, vs, y, 202);
    let brb = bit_rows_b(3, vs, y, 202);
    let dra = decomp_row_a(205, vs, y, 202);
    assert(bra.subrange(0, 202) =~= bra);
    assert(brb.subrange(0, 404) =~= brb);
    assert(dra.subrange(0, 202) =~= dra);
    lemma_dot_bit_rows_a(w, r, 202);
    lemma_dot_bit_rows_b(w, r, 202);
    lemma_dot_decomp_row(w, r, 202);
    let pa = seq![(2int, 1int, 1int), (2int, 3int, minus_one())];
    let pb = seq![(2int, 3int, 1int), (2int, 2int, minus_one())];
    lemma_dot_pair((2int, 1int, 1int), (2int, 3int, minus_one()), r, w);
    lemma_dot_pair((2int, 3int, 1int), (2int, 2int, minus_one()), r, w);
    lemma_dot_pair((206int, 0int, 0int), (207int, 207int, 1int), r, w);
    lemma_dot_pair((205int, 0int, 1int), (206int, 0int, 1int), r, w);
    lemma_dot_pair((207int, 207int, 1int), (207int, 0int, 1int), r, w);
    lemma_dot_pair((207int, 0int, 1int), (207int, 0int, 1int), r, w);
    lemma_dot_triple((2int, 4int, 1int), (205int, 4int, 1int), (206int, 206int, 1int), r, w);
    let fa = seq![(206int, 0int, 0int)];
    let ga = seq![(207int, 207int, 1int)];
    let fb = seq![(205int, 0int, 1int), (206int, 0int, 1int)];
    let fc = seq![(2int, 4int, 1int), (205int, 4int, 1int), (206int, 206int, 1int)];
    let gc = seq![(207int, 0int, 1int)];
    assert(range_rows_a(2, vs, "A"@, "B"@, "x"@) == pa + bra + dra + fa);
    assert(range_rows_b(2, vs, "A"@, "B"@, "x"@) == pb + brb + fb);
    assert(range_rows_c(2, vs, "A"@, "B"@, "x"@) =~= fc);
    lemma_row_dot_concat(pa, bra, r, w);
    lemma_row_dot_concat(pa + bra, dra, r, w);
    lemma_row_dot_concat(pa + bra + dra, fa, r, w);
    lemma_row_dot_concat(s2a, pa + bra + dra + fa, r, w);
    lemma_row_dot_concat(s2a + (pa + bra + dra + fa), ga, r, w);
    lemma_row_dot_concat(pb, brb, r, w);
    lemma_row_dot_concat(pb + brb, fb, r, w);
    lemma_row_dot_concat(s2b, pb + brb + fb, r, w);
    lemma_row_dot_concat(s2b + (pb + brb + fb), ga, r, w);
    lemma_row_dot_concat(s2c, fc, r, w);
    lemma_row_dot_concat(s2c + fc, gc, r, w);
    assert(z_at(w, 207) == 1);
    assert(z_at(w, 0) == w[0] && z_at(w, 1) == w[1] && z_at(w, 2) == w[2] && z_at(w, 3) == w[3]);
    assert(z_at(w, 4) == w[4] && z_at(w, 206) == w[206]);
    assert(1 * z_at(w, 207) == 1int);
    assert(range_instance_a(a, b) == s2a + (pa + bra + dra + fa) + ga);
    assert(row_dot(range_instance_a(a, b), r, w) == row_dot(s2a, r, w) + row_dot(pa, r, w) + row_dot(bra, r, w)
        + row_dot(dra, r, w) + row_dot(fa, r, w) + row_dot(ga, r, w));
    assert(row_dot(bra, r, w) == if 3 <= r < 205 { w[5 + r - 3] } else { 0 });
    assert(row_dot(dra, r, w) == if r == 205 { weighted_bits(w, 202) } else { 0 });
    assert(row_dot(ga, r, w) == if r == 207 { 1int } else { 0 });
    assert(row_dot(fa, r, w) == if r == 206 { 0 * w[0] } else { 0 });
    assert(row_dot(pa, r, w) == if r == 2 { 1 * w[1] + minus_one() * w[3] } else { 0 });
    assert(row_dot(s2a, r, w) == if r == 0 { a * w[0] } else if r == 1 { b * w[0] } else { 0 });
}


/// A range session whose secret lies in `[a, b]`, with
/// `(a - x) * (x - b) < 2^201`, has a witness that satisfies every row of its
/// instance.
pub proof fn lemma_range_witness_satisfies(a: int, b: int, x: int)
    requires
        a <= x <= b,
        (a - x) * (x - b) < pow2(201),
    ensures
        satisfied(range_instance_a(fmod(a) as int, fmod(b) as int), range_instance_b(), range_instance_c(), 208,
            witness_values(range_session_witness(fmod(a) as int, fmod(b) as int, fmod(x) as int))),
{
    let l = group_order() as int;
    let fa = fmod(a) as int;
    let fb = fmod(b) as int;
    let fx = fmod(x) as int;
    let h = (a - x) * (x - b);
    assert(h >= 0) by (nonlinear_arith)
        requires a <= x <= b, h == (a - x) * (x - b);
    vstd::arithmetic::power2::lemma_pow2_pos(201);
    lemma_helper_of_residues(a, b, x);
    lemma_helper_sign(h);
    vstd::arithmetic::power2::lemma_pow2_strictly_increases(201, 252);
    vstd::arithmetic::power2::lemma_pow2_pos(252);
    vstd::arithmetic::div_mod::lemma_small_mod(h as nat, group_order());
    let hv = range_helper_value(fa, fb, fx);
    assert(hv == h);
    let w = witness_values(range_session_witness(fa, fb, fx));
    assert(w.len() == 207);
    assert(w[0] == 1 && w[1] == fa && w[2] == fb && w[3] == fx && w[4] == hv);
    assert forall|k: int| 0 <= k < 202 implies #[trigger] w[5 + k] == tc_bit(hv, 202, k as nat) by {}
    lemma_weighted_low_bits(w, hv, 201);
    vstd::arithmetic::div_mod::lemma_small_mod(h as nat, pow2(201));
    assert(w[206int] == 0);
    assert(weighted_bits(w, 202) == weighted_bits(w, 201) + decomp_coef(202, 201) * w[206int]);
    assert(weighted_bits(w, 202) == h);
    lemma_minus_one();
    vstd::arithmetic::div_mod::lemma_small_mod(0, group_order());
    vstd::arithmetic::div_mod::lemma_small_mod(1, group_order());
    vstd::arithmetic::div_mod::lemma_small_mod(fa as nat, group_order());
    vstd::arithmetic::div_mod::lemma_small_mod(fb as nat, group_order());
    vstd::arithmetic::div_mod::lemma_mod_self_0(l);
    reveal(satisfied);
    let ia = range_instance_a(fa, fb);
    assert forall|r: int| 0 <= r < 208 implies row_holds(ia, range_instance_b(), range_instance_c(), r, w) by {
        lemma_range_row_dots(fa, fb, w, r);
        if r == 0 {
            assert((fa * w[0]) * (1 * w[0]) == 1 * w[1]) by (nonlinear_arith)
                requires w[0] == 1, w[1] == fa;
        } else if r == 1 {
            assert((fb * w[0]) * (1 * w[0]) == 1 * w[2]) by (nonlinear_arith)
                requires w[0] == 1, w[2] == fb;
        } else if r == 2 {
            let aa = 1 * w[1] + minus_one() * w[3];
            let bb = 1 * w[3] + minus_one() * w[2];
            let k = fx * (fx - fb) + (fa - fx) * fb + l * fx * fb;
            lemma_row2_identity(fa, fb, fx, l);
            assert(aa == 1 * fa + (l - 1) * fx && bb == 1 * fx + (l - 1) * fb);
            vstd::arithmetic::div_mod::lemma_mod_multiples_vanish(k, (fa - fx) * (fx - fb), l);
            assert(1 * w[4] == hv);
            vstd::arithmetic::div_mod::lemma_small_mod(hv as nat, group_order());
        } else if 3 <= r < 205 {
            let t = w[5 + r - 3];
            assert(t == tc_bit(hv, 202, (r - 3) as nat));
            vstd::arithmetic::div_mod::lemma_mod_bound((h % (pow2(202) as int)) / (pow2((r - 3) as nat) as int), 2);
            assert(t == 0 || t == 1);
            assert(t * (t + minus_one() * w[0]) == 0 || t * (t + minus_one() * w[0]) == l) by (nonlinear_arith)
                requires t == 0 || t == 1, w[0] == 1, minus_one() == l - 1;
        } else if r == 205 {
            assert(weighted_bits(w, 202) * (1 * w[0]) == 1 * w[4]) by (nonlinear_arith)
                requires weighted_bits(w, 202) == h, w[0] == 1, w[4] == h;
        } else if r == 206 {
            assert((0 * w[0]) * (1 * w[0]) == 1 * w[206]) by (nonlinear_arith)
                requires w[206] == 0, w[0] == 1;
        } else {
            assert(1int * 1int == 1 * w[0]) by (nonlinear_arith)
                requires w[0] == 1;
        }
    }
}


proof fn lemma_row2_identity(fa: int, fb: int, fx: int, l: int)
    ensures
        (1 * fa + (l - 1) * fx) * (1 * fx + (l - 1) * fb)
            == l * (fx * (fx - fb) + (fa - fx) * fb + l * fx * fb) + (fa - fx) * (fx - fb),
{
    let u = fa - fx;
    let v = fx - fb;
    assert(1 * fa + (l - 1) * fx == u + l * fx) by (nonlinear_arith)
        requires u == fa - fx;
    assert(1 * fx + (l - 1) * fb == v + l * fb) by (nonlinear_arith)
        requires v == fx - fb;
    assert((u + l * fx) * (v + l * fb) == u * v + l * (fx * v + u * fb + l * fx * fb)) by (nonlinear_arith);
}


/// `sum_{k < n} weight_k * bit_k` over the 202-bit pattern of the helper value `h`.
pub open spec fn helper_weighted(h: int, n: nat) -> int
    decreases n,
{
    if n == 0 {
        0
    } else {
        helper_weighted(h, (n - 1) as nat) + decomp_coef(202, (n - 1) as nat) * tc_bit(h, 202, (n - 1) as nat)
    }
}

/// A helper value passes the range rows: its weighted bits give it back in the
/// field and its sign bit is 0.
pub open spec fn helper_passes(h: int) -> bool {
    fmod(helper_weighted(h, 202)) == h && tc_bit(h, 202, 201) == 0
}

proof fn lemma_weighted_is_helper(w: Seq<int>, h: int, n: nat)
    requires
        n <= 202,
        w.len() == 207,
        forall|k: int| 0 <= k < 202 ==> #[trigger] w[5 + k] == tc_bit(h, 202, k as nat),
    ensures
        weighted_bits(w, n) == helper_weighted(h, n),
    decreases n,
{
    if n > 0 {
        lemma_weighted_is_helper(w, h, (n - 1) as nat);
        assert(w[5 + (n - 1) as int] == tc_bit(h, 202, (n - 1) as nat));
    }
}

/// Whether a range session's witness satisfies its instance depends on the
/// helper value `(a - x) * (x - b)` alone.
pub proof fn lemma_range_satisfied_by_helper(a: int, b: int, x: int)
    requires
        0 <= a < group_order(),
        0 <= b < group_order(),
        0 <= x < group_order(),
    ensures
        satisfied(range_instance_a(a, b), range_instance_b(), range_instance_c(), 208, witness_values(range_session_witness(a, b, x)))
            == helper_passes(range_helper_value(a, b, x)),
{
    reveal(satisfied);
    let l = group_order() as int;
    vstd::arithmetic::power2::lemma_pow2_pos(252);
    let hv = range_helper_value(a, b, x);
    let w = witness_values(range_session_witness(a, b, x));
    assert(w.len() == 207);
    assert(w[0] == 1 && w[1] == a && w[2] == b && w[3] == x && w[4] == hv);
    assert forall|k: int| 0 <= k < 202 implies #[trigger] w[5 + k] == tc_bit(hv, 202, k as nat) by {}
    lemma_weighted_is_helper(w, hv, 202);
    lemma_minus_one();
    vstd::arithmetic::div_mod::lemma_small_mod(0, group_order());
    vstd::arithmetic::div_mod::lemma_small_mod(1, group_order());
    vstd::arithmetic::div_mod::lemma_small_mod(a as nat, group_order());
    vstd::arithmetic::div_mod::lemma_small_mod(b as nat, group_order());
    vstd::arithmetic::div_mod::lemma_small_mod(hv as nat, group_order());
    vstd::arithmetic::div_mod::lemma_mod_self_0(l);
    let ia = range_instance_a(a, b);
    let ib = range_instance_b();
    let ic = range_instance_c();
    let t = w[206int];
    vstd::arithmetic::div_mod::lemma_mod_bound((signed_value(hv) % (pow2(202) as int)) / (pow2(201) as int), 2);
    assert(t == 0 || t == 1);
    assert forall|r: int| 0 <= r < 208 && r != 205 && r != 206 implies row_holds(ia, ib, ic, r, w) by {
        lemma_range_row_dots(a, b, w, r);
        if r == 0 {
            assert((a * w[0]) * (1 * w[0]) == 1 * w[1]) by (nonlinear_arith)
                requires w[0] == 1, w[1] == a;
        } else if r == 1 {
            assert((b * w[0]) * (1 * w[0]) == 1 * w[2]) by (nonlinear_arith)
                requires w[0] == 1, w[2] == b;
        } else if r == 2 {
            let k = x * (x - b) + (a - x) * b + l * x * b;
            lemma_row2_identity(a, b, x, l);
            vstd::arithmetic::div_mod::lemma_mod_multiples_vanish(k, (a - x) * (x - b), l);
            assert(1 * w[4] == hv);
        } else if 3 <= r < 205 {
            let tb = w[5 + r - 3];
            assert(tb == tc_bit(hv, 202, (r - 3) as nat));
            vstd::arithmetic::div_mod::lemma_mod_bound((signed_value(hv) % (pow2(202) as int)) / (pow2((r - 3) as nat) as int), 2);
            assert(tb * (tb + minus_one() * w[0]) == 0 || tb * (tb + minus_one() * w[0]) == l) by (nonlinear_arith)
                requires tb == 0 || tb == 1, w[0] == 1, minus_one() == l - 1;
        } else {
            assert(1int * 1int == 1 * w[0]) by (nonlinear_arith)
                requires w[0] == 1;
        }
    }
    lemma_range_row_dots(a, b, w, 205);
    lemma_range_row_dots(a, b, w, 206);
    let hw = weighted_bits(w, 202);
    assert(hw * (1 * w[0]) == hw && 1 * w[4] == hv) by (nonlinear_arith)
        requires w[0] == 1, w[4] == hv;
    assert((0 * w[0]) * (1 * w[0]) == 0 && 1 * w[206int] == t) by (nonlinear_arith)
        requires w[0] == 1, w[206int] == t;
    assert(row_holds(ia, ib, ic, 205, w) == (fmod(hw) == hv));
    assert(row_holds(ia, ib, ic, 206, w) == (t == 0));
}

/// Shifting the secret and both bounds by one field element leaves the range
/// session's self-check answer unchanged.
pub proof fn lemma_range_shift_invariant(a: int, b: int, x: int, k: int)
    requires
        0 <= a < group_order(),
        0 <= b < group_order(),
        0 <= x < group_order(),
    ensures
        satisfied(range_instance_a(a, b), range_instance_b(), range_instance_c(), 208, witness_values(range_session_witness(a, b, x)))
            == satisfied(range_instance_a(fmod(a + k) as int, fmod(b + k) as int), range_instance_b(), range_instance_c(), 208,
                witness_values(range_session_witness(fmod(a + k) as int, fmod(b + k) as int, fmod(x + k) as int))),
{
    vstd::arithmetic::power2::lemma_pow2_pos(252);
    vstd::arithmetic::div_mod::lemma_mod_bound(a + k, group_order() as int);
    vstd::arithmetic::div_mod::lemma_mod_bound(b + k, group_order() as int);
    vstd::arithmetic::div_mod::lemma_mod_bound(x + k, group_order() as int);
    lemma_range_satisfied_by_helper(a, b, x);
    lemma_range_satisfied_by_helper(fmod(a + k) as int, fmod(b + k) as int, fmod(x + k) as int);
    lemma_helper_of_residues(a + k, b + k, x + k);
    assert(((a + k) - (x + k)) * ((x + k) - (b + k)) == (a - x) * (x - b));
}

/// Swapping the bounds leaves the range session's self-check answer unchanged.
pub proof fn lemma_range_swap_invariant(a: int, b: int, x: int)
    requires
        0 <= a < group_order(),
        0 <= b < group_order(),
        0 <= x < group_order(),
    ensures
        satisfied(range_instance_a(a, b), range_instance_b(), range_instance_c(), 208, witness_values(range_session_witness(a, b, x)))
            == satisfied(range_instance_a(b, a), range_instance_b(), range_instance_c(), 208, witness_values(range_session_witness(b, a, x))),
{
    lemma_range_satisfied_by_helper(a, b, x);
    lemma_range_satisfied_by_helper(b, a, x);
    assert((b - x) * (x - a) == (a - x) * (x - b)) by (nonlinear_arith);
}

} // verus!
