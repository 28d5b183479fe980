//! The set-membership gadget: `secret` is one of the public set's elements
//! exactly when the product of `secret - s_i` over the set is zero.
use vstd::prelude::*;
use libspartan::{Assignment, Instance};
use crate::field::{FieldElement, fmod};
use crate::r1cs::{R1CS, R1csError, input_names};
use crate::r1cs_helpers::{
    decimal, numbered_name, one_name, minus_one, placed, extends, mat, lemma_placed_stable,
    lemma_interned_extends, interned,
};
use crate::backend::{instance_is_sat, instance_matrices, instance_dims, assignment_values};
use crate::semantics::{named_dot, lemma_named_dot_concat};
use crate::r1cs_helpers::{lemma_col, lemma_minus_one};
use crate::semantics::{z_at, row_dot, row_holds, satisfied};

verus! {

/// The name of `secret - s_i`.
pub open spec fn diff_name(s: Seq<char>, i: nat) -> Seq<char> {
    s + "_diff"@ + decimal(i)
}

/// The name of the product of the first `i + 1` differences, for `i >= 1`.
pub open spec fn prod_name(s: Seq<char>, i: nat) -> Seq<char> {
    s + "_prod"@ + decimal(i)
}

/// The running product after element `i`: the first difference itself, then
/// the product variables.
pub open spec fn running_name(s: Seq<char>, i: nat) -> Seq<char> {
    if i == 0 {
        diff_name(s, 0)
    } else {
        prod_name(s, i)
    }
}

/// The `A` entries for element `m`: `secret - set[m] == diff_m` in row
/// `r0 + 2m - 1` (row `r0` for the first), then `running_(m-1) * diff_m == prod_m`
/// in row `r0 + 2m`.
pub open spec fn member_chunk_a(r0: int, s: Seq<char>, set: Seq<Seq<char>>, m: nat) -> Seq<(int, Seq<char>, int)> {
    if m == 0 {
        seq![(r0, s, 1), (r0, set[0], minus_one())]
    } else {
        seq![(r0 + 2 * m - 1, s, 1), (r0 + 2 * m - 1, set[m as int], minus_one()), (r0 + 2 * m, running_name(s, (m - 1) as nat), 1)]
    }
}

/// The `B` entries for element `m`.
pub open spec fn member_chunk_b(r0: int, s: Seq<char>, m: nat) -> Seq<(int, Seq<char>, int)> {
    if m == 0 {
        seq![(r0, one_name(), 1)]
    } else {
        seq![(r0 + 2 * m - 1, one_name(), 1), (r0 + 2 * m, diff_name(s, m), 1)]
    }
}

/// The `C` entries for element `m`.
pub open spec fn member_chunk_c(r0: int, s: Seq<char>, m: nat) -> Seq<(int, Seq<char>, int)> {
    if m == 0 {
        seq![(r0, diff_name(s, 0), 1)]
    } else {
        seq![(r0 + 2 * m - 1, diff_name(s, m), 1), (r0 + 2 * m, prod_name(s, m), 1)]
    }
}

pub open spec fn member_rows_a(r0: int, s: Seq<char>, set: Seq<Seq<char>>, n: nat) -> Seq<(int, Seq<char>, int)>
    decreases n,
{
    if n == 0 {
        seq![]
    } else {
        member_rows_a(r0, s, set, (n - 1) as nat) + member_chunk_a(r0, s, set, (n - 1) as nat)
    }
}

pub open spec fn member_rows_b(r0: int, s: Seq<char>, n: nat) -> Seq<(int, Seq<char>, int)>
    decreases n,
{
    if n == 0 {
        seq![]
    } else {
        member_rows_b(r0, s, (n - 1) as nat) + member_chunk_b(r0, s, (n - 1) as nat)
    }
}

pub open spec fn member_rows_c(r0: int, s: Seq<char>, n: nat) -> Seq<(int, Seq<char>, int)>
    decreases n,
{
    if n == 0 {
        seq![]
    } else {
        member_rows_c(r0, s, (n - 1) as nat) + member_chunk_c(r0, s, (n - 1) as nat)
    }
}

/// The product of `secret - set[i]` over the first `m + 1` elements, in the field.
pub open spec fn member_product(secret: int, set: Seq<int>, m: nat) -> int
    decreases m,
{
    if m == 0 {
        fmod(secret - set[0]) as int
    } else {
        fmod(member_product(secret, set, (m - 1) as nat) * fmod(secret - set[m as int])) as int
    }
}

/// The witness entries for the first `n` elements: each difference, and each
/// running product from the second element on.
pub open spec fn member_witness(s: Seq<char>, secret: int, set: Seq<int>, n: nat) -> Seq<(Seq<char>, int)>
    decreases n,
{
    if n == 0 {
        seq![]
    } else {
        let m = (n - 1) as nat;
        member_witness(s, secret, set, m) + if m == 0 {
            seq![(diff_name(s, 0), fmod(secret - set[0]) as int)]
        } else {
            seq![(diff_name(s, m), fmod(secret - set[m as int]) as int), (prod_name(s, m), member_product(secret, set, m))]
        }
    }
}

/// The values of a sequence of field elements.
pub open spec fn values(v: Seq<FieldElement>) -> Seq<int> {
    v.map_values(|e: FieldElement| e.val())
}

/// The names of a sequence of strings.
pub open spec fn string_views(v: Seq<String>) -> Seq<Seq<char>> {
    v.map_values(|e: String| e@)
}

/// A name in a table after a lookup was there before or is the one looked up.
pub proof fn lemma_interned_origin(ns: Seq<Seq<char>>, name: Seq<char>, nm: Seq<char>)
    ensures
        interned(ns, name).contains(nm) ==> ns.contains(nm) || nm == name,
{
    if interned(ns, name).contains(nm) && !ns.contains(name) {
        let q = choose|q: int| 0 <= q < ns.len() + 1 && ns.push(name)[q] == nm;
        if q < ns.len() {
            assert(ns[q] == nm);
        }
    }
}

pub proof fn lemma_extends_trans(a: Seq<Seq<char>>, b: Seq<Seq<char>>, c: Seq<Seq<char>>)
    requires
        extends(a, b),
        extends(b, c),
    ensures
        extends(a, c),
{
    assert(a.subrange(0, c.len() as int) =~= b.subrange(0, c.len() as int));
}

pub proof fn lemma_extends_contains(a: Seq<Seq<char>>, b: Seq<Seq<char>>)
    requires
        extends(a, b),
    ensures
        forall|nm: Seq<char>| b.contains(nm) ==> a.contains(nm),
{
    assert forall|nm: Seq<char>| b.contains(nm) implies a.contains(nm) by {
        let q = choose|q: int| 0 <= q < b.len() && b[q] == nm;
        assert(a.subrange(0, b.len() as int)[q] == nm);
    }
}

pub proof fn lemma_placed_concat(x: Seq<(int, Seq<char>, int)>, y: Seq<(int, Seq<char>, int)>, ns: Seq<Seq<char>>)
    ensures
        placed(x + y, ns) == placed(x, ns) + placed(y, ns),
{
    assert(placed(x + y, ns) =~= placed(x, ns) + placed(y, ns));
}

/// The name of `secret - set[i]`.
pub fn diff_var_name(secret: &str, i: usize) -> (r: String)
    ensures
        r@ == diff_name(secret@, i as nat),
{
    proof {
        reveal_strlit("_diff");
    }
    let mut prefix = secret.to_owned();
    prefix.append("_diff");
    numbered_name(prefix.as_str(), i)
}

/// The name of the running product after element `i`, for `i >= 1`.
pub fn prod_var_name(secret: &str, i: usize) -> (r: String)
    ensures
        r@ == prod_name(secret@, i as nat),
{
    proof {
        reveal_strlit("_prod");
    }
    let mut prefix = secret.to_owned();
    prefix.append("_prod");
    numbered_name(prefix.as_str(), i)
}

/// The name of the running product after element `i`.
pub fn running_var_name(secret: &str, i: usize) -> (r: String)
    ensures
        r@ == running_name(secret@, i as nat),
{
    if i == 0 {
        diff_var_name(secret, 0)
    } else {
        prod_var_name(secret, i)
    }
}

impl R1CS {
    /// Adds the rows proving that `secret` equals an element of `set`:
    /// `diff_i = secret - set[i]` for each element, the running products
    /// `prod_i = prod_(i-1) * diff_i`, and a last row asserting the final product is 0.
    #[verifier::rlimit(80)]
    pub fn new_set_membership_constraint(&mut self, secret: &str, set: &Vec<String>)
        requires
            old(self).wf(),
            1 <= set.len() <= 0x1000_0000,
            old(self).constraint_count <= 0x2000_0000,
            old(self).num_non_zero <= 0x4000_0000,
        ensures
            final(self).wf(),
            final(self).witness_assignments@ == old(self).witness_assignments@,
            extends(final(self).vars(), old(self).vars()),
            final(self).vars().contains(secret@),
            forall|k: int| 0 <= k < member_witness_names(secret@, set.len() as nat).len() ==>
                final(self).vars().contains(#[trigger] member_witness_names(secret@, set.len() as nat)[k]),
            forall|nm: Seq<char>| #[trigger] final(self).vars().contains(nm) ==> old(self).vars().contains(nm) || nm == secret@
                || nm == one_name() || string_views(set@).contains(nm) || member_witness_names(secret@, set.len() as nat).contains(nm),
            final(self).constraint_count == old(self).constraint_count + 2 * set.len(),
            final(self).num_non_zero <= 0x4000_0000 + 7 * set.len() + 3,
            mat(final(self).A@) == mat(old(self).A@) + placed(member_rows_a(old(self).constraint_count as int, secret@, string_views(set@), set.len() as nat)
                .push((old(self).constraint_count + 2 * set.len() - 1, one_name(), 0)), final(self).vars()),
            mat(final(self).B@) == mat(old(self).B@) + placed(member_rows_b(old(self).constraint_count as int, secret@, set.len() as nat)
                .push((old(self).constraint_count + 2 * set.len() - 1, one_name(), 1)), final(self).vars()),
            mat(final(self).C@) == mat(old(self).C@) + placed(member_rows_c(old(self).constraint_count as int, secret@, set.len() as nat)
                .push((old(self).constraint_count + 2 * set.len() - 1, running_name(secret@, (set.len() - 1) as nat), 1)), final(self).vars()),
    {
        let ghost r0 = self.constraint_count as int;
        let ghost a0 = mat(self.A@);
        let ghost b0 = mat(self.B@);
        let ghost c0 = mat(self.C@);
        let ghost n0 = self.vars();
        let ghost sv = string_views(set@);
        proof {
            assert(n0.subrange(0, n0.len() as int) =~= n0);
        }
        let mut i: usize = 0;
        while i < set.len()
            invariant
                1 <= set.len() <= 0x1000_0000,
                i <= set.len(),
                sv == string_views(set@),
                self.wf(),
                self.witness_assignments@ == old(self).witness_assignments@,
                extends(self.vars(), n0),
                n0 == old(self).vars(),
                r0 == old(self).constraint_count,
                r0 <= 0x2000_0000,
                self.constraint_count == r0 + if i == 0 { 0 } else { 2 * i - 1 },
                self.num_non_zero <= 0x4000_0000 + 7 * i,
                mat(self.A@) == a0 + placed(member_rows_a(r0, secret@, sv, i as nat), self.vars()),
                mat(self.B@) == b0 + placed(member_rows_b(r0, secret@, i as nat), self.vars()),
                mat(self.C@) == c0 + placed(member_rows_c(r0, secret@, i as nat), self.vars()),
                forall|k: int| 0 <= k < member_rows_a(r0, secret@, sv, i as nat).len() ==> self.vars().contains((#[trigger] member_rows_a(r0, secret@, sv, i as nat)[k]).1),
                forall|k: int| 0 <= k < member_rows_b(r0, secret@, i as nat).len() ==> self.vars().contains((#[trigger] member_rows_b(r0, secret@, i as nat)[k]).1),
                forall|k: int| 0 <= k < member_rows_c(r0, secret@, i as nat).len() ==> self.vars().contains((#[trigger] member_rows_c(r0, secret@, i as nat)[k]).1),
                i > 0 ==> self.vars().contains(running_name(secret@, (i - 1) as nat)),
                i > 0 ==> self.vars().contains(secret@),
                forall|k: int| 0 <= k < member_witness_names(secret@, i as nat).len() ==>
                    self.vars().contains(#[trigger] member_witness_names(secret@, i as nat)[k]),
                forall|nm: Seq<char>| #[trigger] self.vars().contains(nm) ==> n0.contains(nm) || nm == secret@
                    || nm == one_name() || sv.contains(nm) || member_witness_names(secret@, i as nat).contains(nm),
            decreases set.len() - i,
        {
            proof {
                reveal_strlit("_diff");
                reveal_strlit("_prod");
                reveal_strlit("one");
            }
            let d = diff_var_name(secret, i);
            let ghost v1 = self.vars();
            let ghost ra = member_rows_a(r0, secret@, sv, i as nat);
            let ghost rb = member_rows_b(r0, secret@, i as nat);
            let ghost rc = member_rows_c(r0, secret@, i as nat);
            self.new_subtraction_constraint(secret, set[i].as_str(), d.as_str());
            let ghost v2 = self.vars();
            proof {
                lemma_interned_extends(v1, secret@);
                lemma_interned_extends(interned(v1, secret@), sv[i as int]);
                lemma_interned_extends(interned(interned(v1, secret@), sv[i as int]), one_name());
                lemma_interned_extends(interned(interned(interned(v1, secret@), sv[i as int]), one_name()), d@);
                lemma_extends_trans(interned(interned(v1, secret@), sv[i as int]), interned(v1, secret@), v1);
                lemma_extends_trans(interned(interned(interned(v1, secret@), sv[i as int]), one_name()), interned(interned(v1, secret@), sv[i as int]), v1);
                lemma_extends_trans(v2, interned(interned(interned(v1, secret@), sv[i as int]), one_name()), v1);
                assert(extends(v2, v1));
                lemma_placed_stable(ra, v1, v2);
                lemma_placed_stable(rb, v1, v2);
                lemma_placed_stable(rc, v1, v2);
            }
            if i > 0 {
                let prev = running_var_name(secret, i - 1);
                let p = prod_var_name(secret, i);
                self.new_mult_constraint(prev.as_str(), d.as_str(), p.as_str());
                proof {
                    let v3 = self.vars();
                    lemma_interned_extends(v2, prev@);
                    lemma_interned_extends(interned(v2, prev@), d@);
                    lemma_interned_extends(interned(interned(v2, prev@), d@), p@);
                    lemma_extends_trans(interned(interned(v2, prev@), d@), interned(v2, prev@), v2);
                    lemma_extends_trans(v3, interned(interned(v2, prev@), d@), v2);
                    assert(extends(v3, v2));
                }
            }
            proof {
                let vf = self.vars();
                if i == 0 {
                    assert(v2.subrange(0, v2.len() as int) =~= v2);
                }
                assert(extends(vf, v2));
                assert(vf.no_duplicates());
                lemma_extends_trans(vf, v2, v1);
                let row = if i == 0 { r0 } else { r0 + 2 * i - 1 };
                let w1 = interned(v1, secret@);
                let w2 = interned(w1, sv[i as int]);
                let w3 = interned(w2, one_name());
                lemma_extends_contains(w2, w1);
                lemma_extends_contains(w3, w2);
                lemma_extends_contains(v2, w3);
                assert(v2.contains(secret@) && v2.contains(sv[i as int]) && v2.contains(one_name()) && v2.contains(d@));
                let sa = seq![(row, secret@, 1), (row, sv[i as int], minus_one())];
                let sb = seq![(row, one_name(), 1)];
                let sc = seq![(row, d@, 1)];
                lemma_placed_stable(sa, v2, vf);
                lemma_placed_stable(sb, v2, vf);
                lemma_placed_stable(sc, v2, vf);
                lemma_placed_stable(ra, v2, vf);
                lemma_placed_stable(rb, v2, vf);
                lemma_placed_stable(rc, v2, vf);
                lemma_extends_trans(vf, v1, n0);
                let ca = member_chunk_a(r0, secret@, sv, i as nat);
                let cb = member_chunk_b(r0, secret@, i as nat);
                let cc = member_chunk_c(r0, secret@, i as nat);
                lemma_placed_concat(ra, ca, vf);
                lemma_placed_concat(rb, cb, vf);
                lemma_placed_concat(rc, cc, vf);
                lemma_extends_contains(vf, v2);
                assert(mat(self.A@) =~= a0 + placed(member_rows_a(r0, secret@, sv, (i + 1) as nat), vf));
                assert(mat(self.B@) =~= b0 + placed(member_rows_b(r0, secret@, (i + 1) as nat), vf));
                assert(mat(self.C@) =~= c0 + placed(member_rows_c(r0, secret@, (i + 1) as nat), vf));
                let mw0 = member_witness_names(secret@, i as nat);
                let mw1 = member_witness_names(secret@, (i + 1) as nat);
                assert(mw1 == mw0 + if i == 0 { seq![diff_name(secret@, 0)] } else { seq![diff_name(secret@, i as nat), prod_name(secret@, i as nat)] });
                lemma_extends_contains(vf, v1);
                assert forall|k: int| 0 <= k < mw1.len() implies vf.contains(#[trigger] mw1[k]) by {
                    if k < mw0.len() {
                        assert(mw1[k] == mw0[k]);
                        assert(v1.contains(mw0[k]));
                    }
                }
                assert(sv.contains(sv[i as int]));
                assert forall|nm: Seq<char>| #[trigger] vf.contains(nm) implies n0.contains(nm) || nm == secret@
                    || nm == one_name() || sv.contains(nm) || mw1.contains(nm) by {
                    lemma_interned_origin(v1, secret@, nm);
                    lemma_interned_origin(w1, sv[i as int], nm);
                    lemma_interned_origin(w2, one_name(), nm);
                    lemma_interned_origin(w3, d@, nm);
                    if i > 0 {
                        let p = prod_name(secret@, i as nat);
                        let prev = running_name(secret@, (i - 1) as nat);
                        lemma_interned_origin(v2, prev, nm);
                        lemma_interned_origin(interned(v2, prev), d@, nm);
                        lemma_interned_origin(interned(interned(v2, prev), d@), p, nm);
                        assert(mw1[mw1.len() - 1] == p);
                    }
                    assert(mw1[mw0.len() as int] == d@);
                    if mw0.contains(nm) {
                        let q = choose|q: int| 0 <= q < mw0.len() && mw0[q] == nm;
                        assert(mw1[q] == nm);
                    }
                }
            }
            i = i + 1;
        }
        let last = running_var_name(secret, set.len() - 1);
        let ghost v1 = self.vars();
        let ghost ra = member_rows_a(r0, secret@, sv, set.len() as nat);
        let ghost rb = member_rows_b(r0, secret@, set.len() as nat);
        let ghost rc = member_rows_c(r0, secret@, set.len() as nat);
        self.new_equality_scalar_constraint(last.as_str(), FieldElement::zero());
        proof {
            reveal_strlit("one");
            let vf = self.vars();
            lemma_interned_extends(v1, one_name());
            lemma_interned_extends(interned(v1, one_name()), last@);
            lemma_extends_trans(vf, interned(v1, one_name()), v1);
            lemma_extends_trans(vf, v1, n0);
            lemma_placed_stable(ra, v1, vf);
            lemma_placed_stable(rb, v1, vf);
            lemma_placed_stable(rc, v1, vf);
            let rf = r0 + 2 * set.len() - 1;
            lemma_placed_concat(ra, seq![(rf, one_name(), 0)], vf);
            lemma_placed_concat(rb, seq![(rf, one_name(), 1)], vf);
            lemma_placed_concat(rc, seq![(rf, last@, 1)], vf);
            assert(ra.push((rf, one_name(), 0)) =~= ra + seq![(rf, one_name(), 0)]);
            assert(rb.push((rf, one_name(), 1)) =~= rb + seq![(rf, one_name(), 1)]);
            assert(rc.push((rf, last@, 1)) =~= rc + seq![(rf, last@, 1)]);
            assert(mat(self.A@) =~= mat(old(self).A@) + placed(ra.push((rf, one_name(), 0)), vf));
            assert(mat(self.B@) =~= mat(old(self).B@) + placed(rb.push((rf, one_name(), 1)), vf));
            assert(mat(self.C@) =~= mat(old(self).C@) + placed(rc.push((rf, last@, 1)), vf));
            let mw = member_witness_names(secret@, set.len() as nat);
            let m = (set.len() - 1) as nat;
            if m == 0 {
                assert(mw[0] == diff_name(secret@, 0));
            } else {
                assert(mw[mw.len() - 1] == prod_name(secret@, m));
            }
            assert(mw.contains(last@));
            assert forall|nm: Seq<char>| #[trigger] vf.contains(nm) implies old(self).vars().contains(nm) || nm == secret@
                || nm == one_name() || sv.contains(nm) || mw.contains(nm) by {
                lemma_interned_origin(v1, one_name(), nm);
                lemma_interned_origin(interned(v1, one_name()), last@, nm);
            }
            lemma_extends_contains(vf, v1);
        }
    }

    /// Assigns the differences `secret - set[i]` and the running products their
    /// values, in the order `new_set_membership_constraint` uses them.
    pub fn generate_witness_set_membership(&mut self, secret: &str, secret_val: FieldElement, set: &Vec<FieldElement>)
        requires
            old(self).wf(),
            secret_val.wf(),
            forall|k: int| 0 <= k < set.len() ==> (#[trigger] set@[k]).wf(),
            1 <= set.len() <= 0x1000_0000,
            forall|i: nat| i < set.len() ==> !old(self).wit_names().contains(#[trigger] diff_name(secret@, i)),
            forall|i: nat| i < set.len() ==> !old(self).wit_names().contains(#[trigger] prod_name(secret@, i)),
        ensures
            final(self).wf(),
            final(self).same_constraints(old(self)),
            final(self).wit() == old(self).wit() + member_witness(secret@, secret_val.val(), values(set@), set.len() as nat),
            final(self).wit_names() == old(self).wit_names() + member_witness_names(secret@, set.len() as nat),
            member_product(secret_val.val(), values(set@), (set.len() - 1) as nat) == 0 ==> exists|m: int|
                0 <= m < set.len() && #[trigger] fmod(secret_val.val() - values(set@)[m]) == 0,
    {
        let ghost w0 = self.wit();
        let ghost sv = values(set@);
        let mut running = FieldElement::zero();
        let mut i: usize = 0;
        while i < set.len()
            invariant
                1 <= set.len() <= 0x1000_0000,
                i <= set.len(),
                sv == values(set@),
                secret_val.wf(),
                forall|k: int| 0 <= k < set.len() ==> (#[trigger] set@[k]).wf(),
                self.wf(),
                self.same_constraints(old(self)),
                w0 == old(self).wit(),
                forall|j: nat| j < set.len() ==> !old(self).wit_names().contains(#[trigger] diff_name(secret@, j)),
                forall|j: nat| j < set.len() ==> !old(self).wit_names().contains(#[trigger] prod_name(secret@, j)),
                self.wit() == w0 + member_witness(secret@, secret_val.val(), sv, i as nat),
                self.wit_names() == old(self).wit_names() + member_witness_names(secret@, i as nat),
                running.wf(),
                i > 0 ==> running.val() == member_product(secret_val.val(), sv, (i - 1) as nat),
                i > 0 ==> (running.val() == 0 ==> exists|m: int| 0 <= m < i && #[trigger] fmod(secret_val.val() - sv[m]) == 0),
            decreases set.len() - i,
        {
            proof {
                reveal_strlit("_diff");
                reveal_strlit("_prod");
                lemma_member_names(secret@, i as nat);
            }
            let diff = secret_val.sub(&set[i]);
            let d = diff_var_name(secret, i);
            proof {
                assert(d@ == diff_name(secret@, i as nat));
                assert(!old(self).wit_names().contains(diff_name(secret@, i as nat)));
                lemma_fresh_member_name(old(self).wit_names(), secret@, i as nat, d@);
            }
            self.add_witness_var_assignment(d.as_str(), diff);
            proof {
                assert(sv[i as int] == set@[i as int].val());
            }
            if i == 0 {
                running = diff;
                proof {
                    assert(self.wit() =~= w0 + member_witness(secret@, secret_val.val(), sv, 1));
                    assert(self.wit_names() =~= old(self).wit_names() + member_witness_names(secret@, 1));
                }
            } else {
                let ghost before = running;
                running = running.mul(&diff);
                proof {
                    if running.val() == 0 {
                        if before.val() == 0 {
                            let m = choose|m: int| 0 <= m < i && #[trigger] fmod(secret_val.val() - sv[m]) == 0;
                            assert(fmod(secret_val.val() - sv[m]) == 0);
                        } else {
                            assert(fmod(secret_val.val() - sv[i as int]) == 0);
                        }
                    }
                }
                let p = prod_var_name(secret, i);
                proof {
                    assert(p@ == prod_name(secret@, i as nat));
                    assert(!old(self).wit_names().contains(prod_name(secret@, i as nat)));
                    lemma_fresh_member_name(old(self).wit_names(), secret@, i as nat, p@);
                }
                self.add_witness_var_assignment(p.as_str(), running);
                proof {
                    assert(self.wit() =~= w0 + member_witness(secret@, secret_val.val(), sv, (i + 1) as nat));
                    assert(self.wit_names() =~= old(self).wit_names() + member_witness_names(secret@, (i + 1) as nat));
                }
            }
            i = i + 1;
        }
    }
}

/// The names that `generate_witness_set_membership` assigns for the first `n` elements.
pub open spec fn member_witness_names(s: Seq<char>, n: nat) -> Seq<Seq<char>>
    decreases n,
{
    if n == 0 {
        seq![]
    } else {
        let m = (n - 1) as nat;
        member_witness_names(s, m) + if m == 0 {
            seq![diff_name(s, 0)]
        } else {
            seq![diff_name(s, m), prod_name(s, m)]
        }
    }
}

/// Each name assigned for the first `n` elements is a difference or a product
/// of an earlier element.
pub proof fn lemma_member_names(s: Seq<char>, n: nat)
    ensures
        forall|k: int| 0 <= k < member_witness_names(s, n).len() ==> exists|j: nat| j < n &&
            (#[trigger] member_witness_names(s, n)[k] == diff_name(s, j) || member_witness_names(s, n)[k] == prod_name(s, j)),
    decreases n,
{
    if n > 0 {
        let m = (n - 1) as nat;
        lemma_member_names(s, m);
        let mw = member_witness_names(s, n);
        assert forall|k: int| 0 <= k < mw.len() implies exists|j: nat| j < n &&
            (#[trigger] mw[k] == diff_name(s, j) || mw[k] == prod_name(s, j)) by {
            if k < member_witness_names(s, m).len() {
                assert(mw[k] == member_witness_names(s, m)[k]);
            } else if k == member_witness_names(s, m).len() {
                assert(mw[k] == diff_name(s, m));
            } else {
                assert(mw[k] == prod_name(s, m));
            }
        }
    }
}

/// The difference or product name of element `i` is not among the names
/// assigned for the elements before it.
proof fn lemma_fresh_member_name(start: Seq<Seq<char>>, s: Seq<char>, i: nat, nm: Seq<char>)
    requires
        nm == diff_name(s, i) || nm == prod_name(s, i),
        !start.contains(nm),
    ensures
        !(start + member_witness_names(s, i)).contains(nm),
        nm == prod_name(s, i) ==> !(start + member_witness_names(s, i)).push(diff_name(s, i)).contains(nm),
{
    reveal_strlit("_diff");
    reveal_strlit("_prod");
    lemma_member_names(s, i);
    let mw = member_witness_names(s, i);
    let cur = start + mw;
    assert(diff_name(s, i)[s.len() as int + 1] == 'd');
    assert(prod_name(s, i)[s.len() as int + 1] == 'p');
    assert forall|k: int| 0 <= k < cur.len() implies cur[k] != nm by {
        if k >= start.len() {
            let q = k - start.len();
            assert(cur[k] == mw[q]);
            let j = choose|j: nat| j < i && (#[trigger] mw[q] == diff_name(s, j) || mw[q] == prod_name(s, j));
            assert(diff_name(s, j)[s.len() as int + 1] == 'd');
            assert(prod_name(s, j)[s.len() as int + 1] == 'p');
            if mw[q] == nm {
                if nm == diff_name(s, i) && mw[q] == diff_name(s, j) {
                    crate::r1cs_helpers::lemma_numbered_injective(s + "_diff"@, i, j);
                } else if nm == prod_name(s, i) && mw[q] == prod_name(s, j) {
                    crate::r1cs_helpers::lemma_numbered_injective(s + "_prod"@, i, j);
                }
            }
        } else {
            assert(cur[k] == start[k]);
        }
    }
    if nm == prod_name(s, i) {
        let c2 = cur.push(diff_name(s, i));
        assert forall|k: int| 0 <= k < c2.len() implies c2[k] != nm by {
            if k < cur.len() {
                assert(c2[k] == cur[k]);
            }
        }
    }
}


pub proof fn lemma_member_witness_names_len(s: Seq<char>, n: nat)
    requires
        n >= 1,
    ensures
        member_witness_names(s, n).len() == 2 * n - 1,
    decreases n,
{
    assert(member_witness_names(s, 0).len() == 0);
    if n > 1 {
        lemma_member_witness_names_len(s, (n - 1) as nat);
    }
}

/// The name of the public input holding element `i` of the set: `set[i]`.
pub open spec fn set_element_name(i: nat) -> Seq<char> {
    "set["@ + decimal(i) + "]"@
}

/// The names of the set's elements.
pub open spec fn set_element_names(n: nat) -> Seq<Seq<char>> {
    Seq::new(n, |i: int| set_element_name(i as nat))
}

proof fn lemma_set_element_names(n: nat)
    ensures
        (seq![one_name()] + set_element_names(n)).no_duplicates(),
        forall|i: nat| i < n ==> (#[trigger] set_element_name(i))[0] == 's' && set_element_name(i)[2] == 't',
{
    reveal_strlit("set[");
    reveal_strlit("]");
    reveal_strlit("one");
    let all = seq![one_name()] + set_element_names(n);
    assert forall|i: nat| i < n implies (#[trigger] set_element_name(i))[0] == 's' && set_element_name(i)[2] == 't' by {
        assert(set_element_name(i)[0] == "set["@[0]);
        assert(set_element_name(i)[2] == "set["@[2]);
    }
    assert forall|p: int, q: int| 0 <= p < all.len() && 0 <= q < all.len() && p != q implies all[p] != all[q] by {
        if p > 0 && q > 0 {
            let i = (p - 1) as nat;
            let j = (q - 1) as nat;
            if set_element_name(i) == set_element_name(j) {
                assert(set_element_name(i).drop_last() =~= "set["@ + decimal(i));
                assert(set_element_name(j).drop_last() =~= "set["@ + decimal(j));
                crate::r1cs_helpers::lemma_numbered_injective("set["@, i, j);
            }
        } else if p == 0 && q > 0 {
            assert(all[q][0] == 's');
            assert(all[p][0] == 'o');
        } else if q == 0 && p > 0 {
            assert(all[p][0] == 's');
            assert(all[q][0] == 'o');
        }
    }
}

/// The name of public-input element `i`.
pub fn set_element_var_name(i: usize) -> (r: String)
    ensures
        r@ == set_element_name(i as nat),
{
    proof {
        reveal_strlit("set[");
        reveal_strlit("]");
    }
    let mut s = "set[".to_owned();
    let d = crate::r1cs_helpers::decimal_string(i);
    s.append(d.as_str());
    s.append("]");
    s
}

/// Builds the constraints and the witness of a proof that `secret` is an
/// element of `set`, with the elements pinned to their public values.  An empty
/// set is refused before any row is emitted.
pub fn build_set_membership_r1cs(secret: FieldElement, set: &Vec<FieldElement>) -> (r: Result<R1CS, R1csError>)
    requires
        secret.wf(),
        forall|k: int| 0 <= k < set.len() ==> (#[trigger] set@[k]).wf(),
        set.len() <= 0x1000_0000,
    ensures
        set.len() == 0 <==> r == Err::<R1CS, R1csError>(R1csError::EmptySet),
        r is Err ==> r == Err::<R1CS, R1csError>(R1csError::EmptySet),
        r is Ok ==> r.unwrap().wf() && r.unwrap().witness_complete()
            && r.unwrap().constraint_count == 3 * set.len()
            && r.unwrap().vars().len() == 3 * set.len() + 1
            && r.unwrap().has_room()
            && r.unwrap().vars().contains(one_name())
            && r.unwrap().wit() == member_session_witness(secret.val(), values(set@))
            && extends(r.unwrap().vars(), seq![one_name()] + set_element_names(set.len() as nat))
            && (forall|nm: Seq<char>| witness_names(r.unwrap().wit()).contains(nm) ==> r.unwrap().vars().contains(nm))
            && mat(r.unwrap().A@).push((3 * set.len() as int, r.unwrap().vars().len() as int, 1int))
                == member_instance_a(values(set@), r.unwrap().vars())
            && mat(r.unwrap().B@).push((3 * set.len() as int, r.unwrap().vars().len() as int, 1int))
                == member_instance_b(set.len() as nat, r.unwrap().vars())
            && mat(r.unwrap().C@).push((3 * set.len() as int, 0int, 1int))
                == member_instance_c(set.len() as nat, r.unwrap().vars())
            && (member_product(secret.val(), values(set@), (set.len() - 1) as nat) == 0 ==> exists|m: int|
                0 <= m < set.len() && #[trigger] fmod(secret.val() - values(set@)[m]) == 0),
{
    if set.len() == 0 {
        return Err(R1csError::EmptySet);
    }
    let mut names: Vec<String> = Vec::new();
    let mut i: usize = 0;
    while i < set.len()
        invariant
            i <= set.len(),
            names@.len() == i,
            forall|k: int| 0 <= k < i ==> (#[trigger] names@[k])@ == set_element_name(k as nat),
        decreases set.len() - i,
    {
        names.push(set_element_var_name(i));
        i = i + 1;
    }
    let mut inputs: Vec<(&str, FieldElement)> = Vec::new();
    let mut i: usize = 0;
    while i < set.len()
        invariant
            i <= set.len(),
            names@.len() == set.len(),
            forall|k: int| 0 <= k < set.len() ==> (#[trigger] names@[k])@ == set_element_name(k as nat),
            inputs@.len() == i,
            forall|k: int| 0 <= k < i ==> (#[trigger] inputs@[k]).0@ == set_element_name(k as nat) && inputs@[k].1 == set@[k],
        decreases set.len() - i,
    {
        inputs.push((names[i].as_str(), set[i]));
        i = i + 1;
    }
    let ghost n = set.len() as nat;
    proof {
        lemma_set_element_names(n);
        assert(input_names(inputs@) =~= set_element_names(n));
        assert(string_views(names@) =~= set_element_names(n));
    }
    let mut r = R1CS::new(&inputs);
    let ghost v0 = r.vars();
    let ghost a0 = mat(r.A@);
    let ghost b0 = mat(r.B@);
    let ghost c0 = mat(r.C@);
    let ghost w0 = r.wit();
    proof {
        assert(v0 == seq![one_name()] + set_element_names(n));
        assert(a0 =~= Seq::new(n, |k: int| (k, 0int, values(set@)[k])));
        assert(crate::r1cs::input_values(inputs@) =~= Seq::new(n, |i: int| (set_element_name(i as nat), values(set@)[i])));
    }
    r.new_set_membership_constraint("secret", &names);
    proof {
        reveal_strlit("secret");
        reveal_strlit("one");
        assert(!r.wit_names().contains("secret"@)) by {
            let wn = r.wit_names();
            if wn.contains("secret"@) {
                let q = choose|q: int| 0 <= q < wn.len() && wn[q] == "secret"@;
                if q == 0 {
                    assert(wn[0][0] == 'o');
                } else {
                    assert(wn[q] == set_element_name((q - 1) as nat));
                    assert(wn[q][2] == 't');
                }
                assert("secret"@[2] == 'c');
            }
        }
    }
    r.add_witness_var_assignment("secret", secret);
    let ghost wn1 = r.wit_names();
    proof {
        reveal_strlit("_diff");
        reveal_strlit("_prod");
        reveal_strlit("secret");
        assert(wn1 =~= seq![one_name()] + set_element_names(n) + seq!["secret"@]);
        assert forall|i: nat| i < set.len() implies !wn1.contains(#[trigger] diff_name("secret"@, i)) by {
            crate::r1cs_helpers::lemma_decimal_len(i);
            assert(diff_name("secret"@, i)[0] == 's' && diff_name("secret"@, i)[2] == 'c');
            lemma_not_input_name(wn1, diff_name("secret"@, i), n);
        }
        assert forall|i: nat| i < set.len() implies !wn1.contains(#[trigger] prod_name("secret"@, i)) by {
            crate::r1cs_helpers::lemma_decimal_len(i);
            assert(prod_name("secret"@, i)[0] == 's' && prod_name("secret"@, i)[2] == 'c');
            lemma_not_input_name(wn1, prod_name("secret"@, i), n);
        }
    }
    r.generate_witness_set_membership("secret", secret, set);
    proof {
        let vs = r.vars();
        let wn = r.wit_names();
        let mw = member_witness_names("secret"@, n);
        assert(wn == wn1 + mw);
        assert(wn1 == seq![one_name()] + set_element_names(n) + seq!["secret"@]);
        lemma_extends_contains(vs, v0);
        assert forall|nm: Seq<char>| wn.contains(nm) implies vs.contains(nm) by {
            let q = choose|q: int| 0 <= q < wn.len() && wn[q] == nm;
            if q < wn1.len() {
                if q < wn1.len() - 1 {
                    assert(v0[q] == nm);
                }
            } else {
                assert(mw[q - wn1.len()] == nm);
            }
        }
        assert forall|nm: Seq<char>| vs.contains(nm) implies wn.contains(nm) by {
            if v0.contains(nm) {
                let q = choose|q: int| 0 <= q < v0.len() && v0[q] == nm;
                assert(wn[q] == nm);
            } else if nm == "secret"@ {
                assert(wn[n as int + 1] == nm);
            } else if nm == one_name() {
                assert(wn[0] == nm);
            } else if string_views(names@).contains(nm) {
                let q = choose|q: int| 0 <= q < n && string_views(names@)[q] == nm;
                assert(wn[q + 1] == nm);
            } else {
                let q = choose|q: int| 0 <= q < mw.len() && mw[q] == nm;
                assert(wn[wn1.len() + q] == nm);
            }
        }
        assert(vs.to_set() =~= wn.to_set());
        vs.unique_seq_to_set();
        wn.unique_seq_to_set();
        lemma_member_witness_names_len("secret"@, n);
        assert forall|i: int| 0 <= i < vs.len() implies wn.contains(#[trigger] vs[i]) by {
            assert(vs.contains(vs[i]));
        }
        assert(wn[0] == one_name());
        assert(wn.contains(one_name()));
        assert(r.wit() =~= member_session_witness(secret.val(), values(set@)));
        assert(witness_names(r.wit()) =~= wn);
        let vsn = r.vars();
        assert(mat(r.A@).push((3 * n as int, vsn.len() as int, 1int)) =~= member_instance_a(values(set@), vsn));
        assert(mat(r.B@).push((3 * n as int, vsn.len() as int, 1int)) =~= member_instance_b(n, vsn));
        assert(mat(r.C@).push((3 * n as int, 0int, 1int)) =~= member_instance_c(n, vsn));
    }
    Ok(r)
}

/// The difference and product names are neither "one", a set element's name
/// nor "secret".
proof fn lemma_not_input_name(wn: Seq<Seq<char>>, nm: Seq<char>, n: nat)
    requires
        wn == seq![one_name()] + set_element_names(n) + seq!["secret"@],
        nm.len() > 11,
        nm[0] == 's',
        nm[2] == 'c',
    ensures
        !wn.contains(nm),
{
    reveal_strlit("secret");
    reveal_strlit("one");
    lemma_set_element_names(n);
    if wn.contains(nm) {
        let q = choose|q: int| 0 <= q < wn.len() && wn[q] == nm;
        if q == 0 {
            assert(wn[0][0] == 'o');
        } else if q <= n {
            assert(wn[q] == set_element_name((q - 1) as nat));
            assert(wn[q][2] == 't');
        } else {
            assert(wn[q] == "secret"@);
        }
    }
}

/// Generates a constraint system for a proof that `secret` is an element of
/// `set`, its witness, and whether the backend finds the witness satisfying;
/// fails with `EmptySet` on an empty set.  Returns the number of rows, of
/// variables, of public inputs and of entries, the instance, the variable and
/// input assignments, and that answer.
pub fn produce_set_membership_r1cs(secret: FieldElement, set: Vec<FieldElement>) -> (r: Result<(
    usize,
    usize,
    usize,
    usize,
    Instance,
    Assignment,
    Assignment,
    bool,
), R1csError>)
    requires
        secret.wf(),
        forall|k: int| 0 <= k < set.len() ==> (#[trigger] set@[k]).wf(),
        set.len() <= 0x1000_0000,
    ensures
        set.len() == 0 <==> r is Err,
        r is Err ==> r == Err::<(usize, usize, usize, usize, Instance, Assignment, Assignment, bool), R1csError>(R1csError::EmptySet),
        r is Ok ==> r.unwrap().0 == 3 * set.len() + 1 && r.unwrap().1 == 3 * set.len() + 1 && r.unwrap().2 == 0,
        r is Ok ==> instance_dims(r.unwrap().4) == ((3 * set.len() + 1) as nat, (3 * set.len() + 1) as nat, 0nat)
            && assignment_values(r.unwrap().5).len() == 3 * set.len() + 1
            && assignment_values(r.unwrap().6).len() == 0
            && r.unwrap().7 == satisfied(instance_matrices(r.unwrap().4).0, instance_matrices(r.unwrap().4).1,
                instance_matrices(r.unwrap().4).2, (3 * set.len() + 1) as int, assignment_values(r.unwrap().5)),
        r is Ok ==> (r.unwrap().7 <==> exists|j: int| 0 <= j < set.len() && #[trigger] set@[j].val() == secret.val()),
{
    let mut r1cs = match build_set_membership_r1cs(secret, &set) {
        Ok(r) => r,
        Err(e) => {
            return Err(e);
        },
    };
    let ghost before = r1cs;
    let (inst, num_cons, num_vars, num_inputs, num_non_zero_entries) = r1cs.build_instance();
    proof {
        let vs0 = before.vars();
        let pre = seq![one_name()] + set_element_names(set.len() as nat);
        assert(vs0.subrange(0, pre.len() as int) == pre);
        assert(pre[0] == one_name());
        assert(vs0.subrange(0, pre.len() as int)[0] == vs0[0]);
        lemma_col(vs0, one_name(), 0);
        crate::semantics::lemma_push_is_concat(mat(before.A@), (3 * set.len() as int, vs0.len() as int, 1int));
        assert(r1cs.vars() == before.vars());
        assert(r1cs.wit() == before.wit());
        assert(r1cs.wit_names() == before.wit_names());
        assert(r1cs.witness_complete());
    }
    let witness = r1cs.build_witness();
    let (assignment_vars, assignment_inputs) = witness.unwrap();
    let witness_satisfies_instance = instance_is_sat(&inst, &assignment_vars, &assignment_inputs);
    proof {
        let n = set.len() as nat;
        let vals = values(set@);
        let vs = r1cs.vars();
        let wv = assignment_values(assignment_vars);
        let msw = member_session_witness(secret.val(), vals);
        assert(witness_names(msw) =~= r1cs.wit_names());
        assert forall|i: int| 0 <= i < vs.len() implies wv[i] == value_of(msw, #[trigger] vs[i]) by {}
        assert(witness_satisfies_instance == satisfied(member_instance_a(vals, vs), member_instance_b(n, vs),
            member_instance_c(n, vs), (3 * n + 1) as int, wv));
        let l = crate::field::group_order() as int;
        vstd::arithmetic::power2::lemma_pow2_pos(252);
        if exists|j: int| 0 <= j < set.len() && #[trigger] set@[j].val() == secret.val() {
            let j = choose|j: int| 0 <= j < set.len() && #[trigger] set@[j].val() == secret.val();
            assert(vals[j] == secret.val());
            lemma_member_witness_satisfies(secret.val(), vals, j as nat, vs, wv);
        }
        if witness_satisfies_instance {
            lemma_member_final_row(secret.val(), vals, vs, wv);
            let m = choose|m: int| 0 <= m < set.len() && #[trigger] fmod(secret.val() - vals[m]) == 0;
            assert(vals[m] == set@[m].val());
            vstd::arithmetic::div_mod::lemma_fundamental_div_mod(secret.val() - vals[m], l);
            assert(secret.val() - vals[m] == l * ((secret.val() - vals[m]) / l));
            assert(secret.val() == vals[m]) by (nonlinear_arith)
                requires
                    secret.val() - vals[m] == l * ((secret.val() - vals[m]) / l),
                    0 <= secret.val() < l,
                    0 <= vals[m] < l;
            assert(set@[m].val() == secret.val());
        }
    }
    Ok((
        num_cons,
        num_vars,
        num_inputs,
        num_non_zero_entries,
        inst,
        assignment_vars,
        assignment_inputs,
        witness_satisfies_instance,
    ))
}


/// When the secret equals one of the first `m + 1` elements in the field, the
/// running product of the differences, which the last row of the gadget pins to
/// 0, is 0.
pub proof fn lemma_member_product_vanishes(secret: int, set: Seq<int>, m: nat, j: nat)
    requires
        j <= m < set.len(),
        fmod(secret) == fmod(set[j as int]),
    ensures
        member_product(secret, set, m) == 0,
    decreases m,
{
    let l = crate::field::group_order() as int;
    vstd::arithmetic::power2::lemma_pow2_pos(252);
    if j == m {
        vstd::arithmetic::div_mod::lemma_mod_equivalence(secret, set[j as int], l);
        if m > 0 {
            let p = member_product(secret, set, (m - 1) as nat);
            assert(p * 0 == 0);
            vstd::arithmetic::div_mod::lemma_small_mod(0, l as nat);
        }
    } else {
        lemma_member_product_vanishes(secret, set, (m - 1) as nat, j);
        vstd::arithmetic::div_mod::lemma_small_mod(0, l as nat);
        assert(0 * fmod(secret - set[m as int]) == 0);
    }
}


proof fn lemma_named_small(e1: (int, Seq<char>, int), e2: (int, Seq<char>, int), e3: (int, Seq<char>, int), r: int, val: spec_fn(Seq<char>) -> int)
    ensures
        named_dot(seq![e1], r, val) == (if e1.0 == r { e1.2 * val(e1.1) } else { 0 }),
        named_dot(seq![e1, e2], r, val) == (if e1.0 == r { e1.2 * val(e1.1) } else { 0 })
            + (if e2.0 == r { e2.2 * val(e2.1) } else { 0 }),
        named_dot(seq![e1, e2, e3], r, val) == (if e1.0 == r { e1.2 * val(e1.1) } else { 0 })
            + (if e2.0 == r { e2.2 * val(e2.1) } else { 0 }) + (if e3.0 == r { e3.2 * val(e3.1) } else { 0 }),
{
    let s1 = seq![e1];
    let s2 = seq![e1, e2];
    let s3 = seq![e1, e2, e3];
    assert(s1.drop_last() =~= Seq::<(int, Seq<char>, int)>::empty());
    assert(s2.drop_last() =~= s1);
    assert(s3.drop_last() =~= s2);
    assert(named_dot(Seq::<(int, Seq<char>, int)>::empty(), r, val) == 0);
    assert(named_dot(s1, r, val) == named_dot(s1.drop_last(), r, val) + if e1.0 == r { e1.2 * val(e1.1) } else { 0 });
    assert(named_dot(s2, r, val) == named_dot(s1, r, val) + if e2.0 == r { e2.2 * val(e2.1) } else { 0 });
    assert(named_dot(s3, r, val) == named_dot(s2, r, val) + if e3.0 == r { e3.2 * val(e3.1) } else { 0 });
}

/// The sub row of element `m` is `r0 + 2m - 1` (`r0` for the first), and the
/// product row of element `m >= 1` is `r0 + 2m`.
pub open spec fn is_sub_row(d: int, n: nat) -> bool {
    0 <= d < 2 * n - 1 && (d == 0 || d % 2 == 1)
}

pub open spec fn is_prod_row(d: int, n: nat) -> bool {
    0 < d < 2 * n - 1 && d % 2 == 0
}

proof fn lemma_member_named_dots(r0: int, s: Seq<char>, set: Seq<Seq<char>>, n: nat, r: int, val: spec_fn(Seq<char>) -> int)
    requires
        1 <= n <= set.len(),
    ensures
        named_dot(member_rows_a(r0, s, set, n), r, val) == (if is_sub_row(r - r0, n) {
            1 * val(s) + minus_one() * val(set[(r - r0 + 1) / 2])
        } else if is_prod_row(r - r0, n) {
            1 * val(running_name(s, ((r - r0) / 2 - 1) as nat))
        } else {
            0
        }),
        named_dot(member_rows_b(r0, s, n), r, val) == (if is_sub_row(r - r0, n) {
            1 * val(one_name())
        } else if is_prod_row(r - r0, n) {
            1 * val(diff_name(s, ((r - r0) / 2) as nat))
        } else {
            0
        }),
        named_dot(member_rows_c(r0, s, n), r, val) == (if is_sub_row(r - r0, n) {
            1 * val(diff_name(s, ((r - r0 + 1) / 2) as nat))
        } else if is_prod_row(r - r0, n) {
            1 * val(prod_name(s, ((r - r0) / 2) as nat))
        } else {
            0
        }),
    decreases n,
{
    let m = (n - 1) as nat;
    let ca = member_chunk_a(r0, s, set, m);
    let cb = member_chunk_b(r0, s, m);
    let cc = member_chunk_c(r0, s, m);
    assert(member_rows_a(r0, s, set, 0) =~= Seq::<(int, Seq<char>, int)>::empty());
    assert(named_dot(Seq::<(int, Seq<char>, int)>::empty(), r, val) == 0);
    lemma_named_dot_concat(member_rows_a(r0, s, set, m), ca, r, val);
    lemma_named_dot_concat(member_rows_b(r0, s, m), cb, r, val);
    lemma_named_dot_concat(member_rows_c(r0, s, m), cc, r, val);
    if m == 0 {
        lemma_named_small((r0, s, 1), (r0, set[0], minus_one()), (r0, s, 1), r, val);
        lemma_named_small((r0, one_name(), 1), (r0, one_name(), 1), (r0, one_name(), 1), r, val);
        lemma_named_small((r0, diff_name(s, 0), 1), (r0, one_name(), 1), (r0, one_name(), 1), r, val);
    } else {
        lemma_member_named_dots(r0, s, set, m, r, val);
        let ra = r0 + 2 * m - 1;
        let rb = r0 + 2 * m;
        lemma_named_small((ra, s, 1), (ra, set[m as int], minus_one()), (rb, running_name(s, (m - 1) as nat), 1), r, val);
        lemma_named_small((ra, one_name(), 1), (rb, diff_name(s, m), 1), (rb, one_name(), 1), r, val);
        lemma_named_small((ra, diff_name(s, m), 1), (rb, prod_name(s, m), 1), (rb, one_name(), 1), r, val);
        let d = r - r0;
        if d == 2 * m - 1 {
            assert((d + 1) / 2 == m);
        } else if d == 2 * m {
            assert(d / 2 == m);
        }
    }
}


/// The names of a witness.
pub open spec fn witness_names(w: Seq<(Seq<char>, int)>) -> Seq<Seq<char>> {
    w.map_values(|p: (Seq<char>, int)| p.0)
}

/// The value a witness gives `nm`.
pub open spec fn value_of(w: Seq<(Seq<char>, int)>, nm: Seq<char>) -> int {
    w[witness_names(w).index_of(nm)].1
}

/// The witness of a membership session: "one", the set's elements, the secret,
/// then the differences and running products.
pub open spec fn member_session_witness(secret: int, vals: Seq<int>) -> Seq<(Seq<char>, int)> {
    seq![(one_name(), 1int)] + Seq::new(vals.len(), |i: int| (set_element_name(i as nat), vals[i])) + seq![("secret"@, secret)]
        + member_witness("secret"@, secret, vals, vals.len())
}

proof fn lemma_value_at(w: Seq<(Seq<char>, int)>, k: int)
    requires
        witness_names(w).no_duplicates(),
        0 <= k < w.len(),
    ensures
        value_of(w, w[k].0) == w[k].1,
{
    crate::r1cs_helpers::lemma_col(witness_names(w), w[k].0, k);
}

proof fn lemma_member_witness_shape(s: Seq<char>, secret: int, vals: Seq<int>, n: nat)
    requires
        1 <= n <= vals.len(),
    ensures
        member_witness(s, secret, vals, n).len() == 2 * n - 1,
        witness_names(member_witness(s, secret, vals, n)) == member_witness_names(s, n),
        member_witness(s, secret, vals, n)[0] == (diff_name(s, 0), fmod(secret - vals[0]) as int),
        forall|m: int| 1 <= m < n ==> #[trigger] member_witness(s, secret, vals, n)[2 * m - 1]
            == (diff_name(s, m as nat), fmod(secret - vals[m]) as int),
        forall|m: int| 1 <= m < n ==> #[trigger] member_witness(s, secret, vals, n)[2 * m]
            == (prod_name(s, m as nat), member_product(secret, vals, m as nat)),
    decreases n,
{
    let mw = member_witness(s, secret, vals, n);
    if n == 1 {
        assert(member_witness(s, secret, vals, 0) =~= Seq::<(Seq<char>, int)>::empty());
        assert(member_witness_names(s, 0) =~= Seq::<Seq<char>>::empty());
        assert(witness_names(mw) =~= member_witness_names(s, 1));
    } else {
        let m = (n - 1) as nat;
        lemma_member_witness_shape(s, secret, vals, m);
        let prev = member_witness(s, secret, vals, m);
        assert forall|k: int| 1 <= k < n implies #[trigger] mw[2 * k - 1] == (diff_name(s, k as nat), fmod(secret - vals[k]) as int) by {
            if k < m {
                assert(mw[2 * k - 1] == prev[2 * k - 1]);
            }
        }
        assert forall|k: int| 1 <= k < n implies #[trigger] mw[2 * k] == (prod_name(s, k as nat), member_product(secret, vals, k as nat)) by {
            if k < m {
                assert(mw[2 * k] == prev[2 * k]);
            }
        }
        assert(mw[0] == prev[0]);
        assert(witness_names(mw) =~= member_witness_names(s, n));
    }
}

/// The names of a membership session's witness are distinct.
proof fn lemma_member_session_distinct(secret: int, vals: Seq<int>)
    requires
        vals.len() >= 1,
    ensures
        witness_names(member_session_witness(secret, vals)).no_duplicates(),
        witness_names(member_session_witness(secret, vals)) == seq![one_name()] + set_element_names(vals.len()) + seq!["secret"@]
            + member_witness_names("secret"@, vals.len()),
{
    let n = vals.len();
    reveal_strlit("secret");
    reveal_strlit("one");
    reveal_strlit("_diff");
    reveal_strlit("_prod");
    lemma_member_witness_shape("secret"@, secret, vals, n);
    let start = seq![one_name()] + set_element_names(n) + seq!["secret"@];
    let w = member_session_witness(secret, vals);
    assert(witness_names(w) =~= start + member_witness_names("secret"@, n));
    lemma_set_element_names(n);
    assert(start.no_duplicates()) by {
        let base = seq![one_name()] + set_element_names(n);
        assert forall|k: int| 0 <= k < base.len() implies base[k] != "secret"@ by {
            if k == 0 {
                assert(base[0][0] == 'o');
            } else {
                assert(base[k] == set_element_name((k - 1) as nat));
                assert(base[k][2] == 't');
            }
            assert("secret"@[2] == 'c' && "secret"@[0] == 's');
        }
        assert forall|p: int, q: int| 0 <= p < start.len() && 0 <= q < start.len() && p != q implies start[p] != start[q] by {
            if p < base.len() && q < base.len() {
                assert(start[p] == base[p] && start[q] == base[q]);
            } else if p < base.len() {
                assert(start[p] == base[p]);
            } else if q < base.len() {
                assert(start[q] == base[q]);
            }
        }
    }
    lemma_session_names_grow(start, n, n);
}

proof fn lemma_session_names_grow(start: Seq<Seq<char>>, n: nat, i: nat)
    requires
        i <= n,
        start.no_duplicates(),
        start == seq![one_name()] + set_element_names(n) + seq!["secret"@],
    ensures
        (start + member_witness_names("secret"@, i)).no_duplicates(),
    decreases i,
{
    reveal_strlit("secret");
    reveal_strlit("_diff");
    reveal_strlit("_prod");
    if i == 0 {
        assert(start + member_witness_names("secret"@, 0) =~= start);
    } else {
        let m = (i - 1) as nat;
        lemma_session_names_grow(start, n, m);
        let cur = start + member_witness_names("secret"@, m);
        crate::r1cs_helpers::lemma_decimal_len(m);
        let d = diff_name("secret"@, m);
        let p = prod_name("secret"@, m);
        assert(d[0] == 's' && d[2] == 'c' && p[0] == 's' && p[2] == 'c');
        lemma_not_input_name(start, d, n);
        lemma_not_input_name(start, p, n);
        lemma_fresh_member_name(start, "secret"@, m, d);
        lemma_fresh_member_name(start, "secret"@, m, p);
        let next = start + member_witness_names("secret"@, i);
        if m == 0 {
            assert(next =~= cur.push(d));
        } else {
            assert(next =~= cur.push(d).push(p));
            assert(d != p) by {
                assert(d["secret"@.len() as int + 1] == 'd');
                assert(p["secret"@.len() as int + 1] == 'p');
            }
        }
    }
}


/// The matrices of a closed membership session over a set with values `vals`,
/// placed in the variable table `vs`: the rows pinning the elements, the
/// gadget's rows, and the row `1 * 1 == one` that `build_instance` adds.
pub open spec fn member_instance_a(vals: Seq<int>, vs: Seq<Seq<char>>) -> Seq<(int, int, int)> {
    let n = vals.len();
    Seq::new(n, |k: int| (k, 0int, vals[k])) + placed(member_rows_a(n as int, "secret"@, set_element_names(n), n)
        .push((3 * n - 1, one_name(), 0)), vs) + seq![(3 * n as int, vs.len() as int, 1int)]
}

pub open spec fn member_instance_b(n: nat, vs: Seq<Seq<char>>) -> Seq<(int, int, int)> {
    Seq::new(n, |k: int| (k, 0int, 1int)) + placed(member_rows_b(n as int, "secret"@, n).push((3 * n - 1, one_name(), 1)), vs)
        + seq![(3 * n as int, vs.len() as int, 1int)]
}

pub open spec fn member_instance_c(n: nat, vs: Seq<Seq<char>>) -> Seq<(int, int, int)> {
    Seq::new(n, |k: int| (k, k + 1, 1int)) + placed(member_rows_c(n as int, "secret"@, n)
        .push((3 * n - 1, running_name("secret"@, (n - 1) as nat), 1)), vs) + seq![(3 * n as int, 0int, 1int)]
}

/// Every name in the gadget's rows has a witness value.
proof fn lemma_member_row_names(secret: int, vals: Seq<int>, i: nat)
    requires
        1 <= i <= vals.len(),
    ensures
        forall|k: int| 0 <= k < member_rows_a(vals.len() as int, "secret"@, set_element_names(vals.len()), i).len() ==>
            witness_names(member_session_witness(secret, vals)).contains(
                (#[trigger] member_rows_a(vals.len() as int, "secret"@, set_element_names(vals.len()), i)[k]).1),
        forall|k: int| 0 <= k < member_rows_b(vals.len() as int, "secret"@, i).len() ==>
            witness_names(member_session_witness(secret, vals)).contains((#[trigger] member_rows_b(vals.len() as int, "secret"@, i)[k]).1),
        forall|k: int| 0 <= k < member_rows_c(vals.len() as int, "secret"@, i).len() ==>
            witness_names(member_session_witness(secret, vals)).contains((#[trigger] member_rows_c(vals.len() as int, "secret"@, i)[k]).1),
        witness_names(member_session_witness(secret, vals)).contains(running_name("secret"@, (i - 1) as nat)),
    decreases i,
{
    let n = vals.len();
    let wn = witness_names(member_session_witness(secret, vals));
    lemma_member_session_distinct(secret, vals);
    lemma_member_witness_names_len("secret"@, n);
    let mw = member_witness_names("secret"@, n);
    lemma_member_witness_shape("secret"@, secret, vals, n);
    let m = (i - 1) as nat;
    let base = n as int + 2;
    assert(wn[0] == one_name());
    assert(wn[n as int + 1] == "secret"@);
    assert(wn[1 + m as int] == set_element_name(m));
    assert(set_element_names(n)[m as int] == set_element_name(m));
    let r0 = n as int;
    let ca = member_chunk_a(r0, "secret"@, set_element_names(n), m);
    let cb = member_chunk_b(r0, "secret"@, m);
    let cc = member_chunk_c(r0, "secret"@, m);
    if m == 0 {
        assert(mw[0] == diff_name("secret"@, 0));
        assert(wn[base] == diff_name("secret"@, 0));
        assert(member_rows_a(r0, "secret"@, set_element_names(n), 0) =~= Seq::<(int, Seq<char>, int)>::empty());
        assert(member_rows_b(r0, "secret"@, 0) =~= Seq::<(int, Seq<char>, int)>::empty());
        assert(member_rows_c(r0, "secret"@, 0) =~= Seq::<(int, Seq<char>, int)>::empty());
        assert(member_rows_a(r0, "secret"@, set_element_names(n), 1) =~= ca);
        assert(member_rows_b(r0, "secret"@, 1) =~= cb);
        assert(member_rows_c(r0, "secret"@, 1) =~= cc);
        assert(wn.contains(one_name()));
        assert(wn.contains("secret"@));
        assert(wn.contains(set_element_name(0)));
        assert(wn.contains(diff_name("secret"@, 0)));
    } else {
        lemma_member_row_names(secret, vals, m);
        assert(mw[2 * m - 1] == diff_name("secret"@, m));
        assert(mw[2 * m as int] == prod_name("secret"@, m));
        assert(wn[base + 2 * m - 1] == diff_name("secret"@, m));
        assert(wn[base + 2 * m as int] == prod_name("secret"@, m));
        assert(wn.contains(diff_name("secret"@, m)));
        assert(wn.contains(prod_name("secret"@, m)));
        assert(wn.contains(one_name()));
        assert(wn.contains("secret"@));
        assert(wn.contains(set_element_name(m)));
        let pa = member_rows_a(r0, "secret"@, set_element_names(n), m);
        let pb = member_rows_b(r0, "secret"@, m);
        let pc = member_rows_c(r0, "secret"@, m);
        assert forall|k: int| 0 <= k < (pa + ca).len() implies wn.contains((#[trigger] (pa + ca)[k]).1) by {
            if k < pa.len() {
                assert((pa + ca)[k] == pa[k]);
            }
        }
        assert forall|k: int| 0 <= k < (pb + cb).len() implies wn.contains((#[trigger] (pb + cb)[k]).1) by {
            if k < pb.len() {
                assert((pb + cb)[k] == pb[k]);
            }
        }
        assert forall|k: int| 0 <= k < (pc + cc).len() implies wn.contains((#[trigger] (pc + cc)[k]).1) by {
            if k < pc.len() {
                assert((pc + cc)[k] == pc[k]);
            }
        }
    }
}


/// The values the membership session's witness gives its names.
proof fn lemma_member_values(secret: int, vals: Seq<int>)
    requires
        vals.len() >= 1,
    ensures
        value_of(member_session_witness(secret, vals), one_name()) == 1,
        value_of(member_session_witness(secret, vals), "secret"@) == secret,
        forall|m: int| 0 <= m < vals.len() ==> value_of(member_session_witness(secret, vals), #[trigger] set_element_name(m as nat)) == vals[m],
        forall|m: int| 0 <= m < vals.len() ==> value_of(member_session_witness(secret, vals), #[trigger] diff_name("secret"@, m as nat))
            == fmod(secret - vals[m]),
        forall|m: int| 0 <= m < vals.len() ==> value_of(member_session_witness(secret, vals), #[trigger] running_name("secret"@, m as nat))
            == member_product(secret, vals, m as nat),
{
    let n = vals.len();
    let w = member_session_witness(secret, vals);
    lemma_member_session_distinct(secret, vals);
    lemma_member_witness_shape("secret"@, secret, vals, n);
    let mw = member_witness("secret"@, secret, vals, n);
    let base = n as int + 2;
    lemma_value_at(w, 0);
    lemma_value_at(w, n as int + 1);
    assert forall|m: int| 0 <= m < n implies value_of(w, #[trigger] set_element_name(m as nat)) == vals[m] by {
        lemma_value_at(w, 1 + m);
    }
    assert forall|m: int| 0 <= m < n implies value_of(w, #[trigger] diff_name("secret"@, m as nat)) == fmod(secret - vals[m]) by {
        if m == 0 {
            assert(w[base] == mw[0]);
            lemma_value_at(w, base);
        } else {
            assert(w[base + 2 * m - 1] == mw[2 * m - 1]);
            lemma_value_at(w, base + 2 * m - 1);
        }
    }
    assert forall|m: int| 0 <= m < n implies value_of(w, #[trigger] running_name("secret"@, m as nat)) == member_product(secret, vals, m as nat) by {
        if m == 0 {
            assert(w[base] == mw[0]);
            lemma_value_at(w, base);
        } else {
            assert(w[base + 2 * m] == mw[2 * m]);
            lemma_value_at(w, base + 2 * m);
        }
    }
}

/// A membership session whose secret equals an element of a non-empty set
/// (both as field values) has a witness that satisfies every row of its
/// instance: the one assigning each variable of the table `vs` its value.
pub proof fn lemma_member_witness_satisfies(secret: int, vals: Seq<int>, j: nat, vs: Seq<Seq<char>>, wv: Seq<int>)
    requires
        j < vals.len(),
        fmod(secret) == fmod(vals[j as int]),
        vs.no_duplicates(),
        extends(vs, seq![one_name()] + set_element_names(vals.len())),
        forall|nm: Seq<char>| witness_names(member_session_witness(secret, vals)).contains(nm) ==> vs.contains(nm),
        wv.len() == vs.len(),
        forall|i: int| 0 <= i < vs.len() ==> wv[i] == value_of(member_session_witness(secret, vals), #[trigger] vs[i]),
    ensures
        satisfied(member_instance_a(vals, vs), member_instance_b(vals.len(), vs), member_instance_c(vals.len(), vs),
            (3 * vals.len() + 1) as int, wv),
{
    let n = vals.len();
    let msw = member_session_witness(secret, vals);
    let val = |nm: Seq<char>| value_of(msw, nm);
    let l = crate::field::group_order() as int;
    vstd::arithmetic::power2::lemma_pow2_pos(252);
    lemma_member_values(secret, vals);
    lemma_member_row_names(secret, vals, n);
    lemma_member_product_vanishes(secret, vals, (n - 1) as nat, j);
    lemma_minus_one();
    let pre = seq![one_name()] + set_element_names(n);
    assert(vs.subrange(0, pre.len() as int) == pre);
    assert(pre[0] == one_name());
    assert(vs.subrange(0, pre.len() as int)[0] == vs[0]);
    assert(vs[0] == one_name());
    assert(wv[0] == 1);
    let ea = member_rows_a(n as int, "secret"@, set_element_names(n), n);
    let eb = member_rows_b(n as int, "secret"@, n);
    let ec = member_rows_c(n as int, "secret"@, n);
    let fa = (3 * n - 1, one_name(), 0int);
    let fb = (3 * n - 1, one_name(), 1int);
    let fc = (3 * n - 1, running_name("secret"@, (n - 1) as nat), 1int);
    assert(msw[0].0 == one_name());
    assert(witness_names(msw)[0] == one_name());
    assert(witness_names(msw).contains(one_name()));
    assert(witness_names(msw).contains(running_name("secret"@, (n - 1) as nat)));
    assert forall|k: int| 0 <= k < ea.push(fa).len() implies vs.contains((#[trigger] ea.push(fa)[k]).1) by {
        if k < ea.len() {
            assert(ea.push(fa)[k] == ea[k]);
        }
    }
    assert forall|k: int| 0 <= k < eb.push(fb).len() implies vs.contains((#[trigger] eb.push(fb)[k]).1) by {
        if k < eb.len() {
            assert(eb.push(fb)[k] == eb[k]);
        }
    }
    assert forall|k: int| 0 <= k < ec.push(fc).len() implies vs.contains((#[trigger] ec.push(fc)[k]).1) by {
        if k < ec.len() {
            assert(ec.push(fc)[k] == ec[k]);
        }
    }
    assert forall|i: int| 0 <= i < vs.len() implies wv[i] == val(#[trigger] vs[i]) by {}
    reveal(satisfied);
    let sa = Seq::new(n, |k: int| (k, 0int, vals[k]));
    let sb = Seq::new(n, |k: int| (k, 0int, 1int));
    let sc = Seq::new(n, |k: int| (k, k + 1, 1int));
    let qa = seq![(3 * n as int, vs.len() as int, 1int)];
    let qc = seq![(3 * n as int, 0int, 1int)];
    assert forall|r: int| 0 <= r < 3 * n + 1 implies row_holds(member_instance_a(vals, vs), member_instance_b(n, vs), member_instance_c(n, vs), r, wv) by {
        crate::semantics::lemma_row_dot_diagonal(sa, r, wv);
        crate::semantics::lemma_row_dot_diagonal(sb, r, wv);
        crate::semantics::lemma_row_dot_diagonal(sc, r, wv);
        crate::semantics::lemma_placed_dot(ea.push(fa), vs, wv, val, r);
        crate::semantics::lemma_placed_dot(eb.push(fb), vs, wv, val, r);
        crate::semantics::lemma_placed_dot(ec.push(fc), vs, wv, val, r);
        assert(ea.push(fa) =~= ea + seq![fa]);
        assert(eb.push(fb) =~= eb + seq![fb]);
        assert(ec.push(fc) =~= ec + seq![fc]);
        lemma_named_dot_concat(ea, seq![fa], r, val);
        lemma_named_dot_concat(eb, seq![fb], r, val);
        lemma_named_dot_concat(ec, seq![fc], r, val);
        lemma_named_small(fa, fa, fa, r, val);
        lemma_named_small(fb, fb, fb, r, val);
        lemma_named_small(fc, fc, fc, r, val);
        lemma_member_named_dots(n as int, "secret"@, set_element_names(n), n, r, val);
        crate::semantics::lemma_row_dot_concat(sa, placed(ea.push(fa), vs), r, wv);
        crate::semantics::lemma_row_dot_concat(sa + placed(ea.push(fa), vs), qa, r, wv);
        crate::semantics::lemma_row_dot_concat(sb, placed(eb.push(fb), vs), r, wv);
        crate::semantics::lemma_row_dot_concat(sb + placed(eb.push(fb), vs), qa, r, wv);
        crate::semantics::lemma_row_dot_concat(sc, placed(ec.push(fc), vs), r, wv);
        crate::semantics::lemma_row_dot_concat(sc + placed(ec.push(fc), vs), qc, r, wv);
        if r == 3 * n {
            crate::semantics::lemma_row_dot_single(qa, 0, r, wv);
            crate::semantics::lemma_row_dot_single(qc, 0, r, wv);
        } else {
            crate::semantics::lemma_row_dot_absent(qa, r, wv);
            crate::semantics::lemma_row_dot_absent(qc, r, wv);
        }
        assert(z_at(wv, vs.len() as int) == 1);
        assert(z_at(wv, 0) == 1);
        assert(val(one_name()) == 1);
        let dota = row_dot(member_instance_a(vals, vs), r, wv);
        let dotb = row_dot(member_instance_b(n, vs), r, wv);
        let dotc = row_dot(member_instance_c(n, vs), r, wv);
        if r < n {
            assert(vs.subrange(0, pre.len() as int)[r + 1] == vs[r + 1]);
            assert(vs[r + 1] == pre[r + 1]);
            assert(pre[r + 1] == set_element_name(r as nat));
            assert(z_at(wv, r + 1) == vals[r]);
            assert(dota == vals[r] * 1);
            assert(dotb == 1int * 1);
            assert(dotc == 1int * vals[r]);
            assert(vals[r] * 1 * (1int * 1) == 1int * vals[r]) by (nonlinear_arith);
        } else if r < 3 * n - 1 {
            let d = r - n;
            if is_sub_row(d, n) {
                let m = (d + 1) / 2;
                assert(set_element_names(n)[m] == set_element_name(m as nat));
                let sv = secret;
                let vm = vals[m];
                assert(dota == 1 * sv + minus_one() * vm);
                assert(dotb == 1 * 1int);
                assert(dotc == 1 * fmod(sv - vm));
                assert((1 * sv + minus_one() * vm) * (1 * 1int) == l * vm + (sv - vm)) by (nonlinear_arith)
                    requires minus_one() == l - 1;
                vstd::arithmetic::div_mod::lemma_mod_multiples_vanish(vm, sv - vm, l);
                vstd::arithmetic::div_mod::lemma_small_mod(fmod(sv - vm), l as nat);
                assert(1 * fmod(sv - vm) == fmod(sv - vm));
            } else {
                let m = d / 2;
                assert(is_prod_row(d, n));
                assert(m >= 1);
                assert(running_name("secret"@, m as nat) == prod_name("secret"@, m as nat));
                let prev_prod = member_product(secret, vals, (m - 1) as nat);
                let dm = fmod(secret - vals[m]) as int;
                let next_prod = member_product(secret, vals, m as nat);
                assert(next_prod == fmod(prev_prod * dm));
                assert(dota == 1 * prev_prod);
                assert(dotb == 1 * dm);
                assert(dotc == 1 * next_prod);
                assert((1 * prev_prod) * (1 * dm) == prev_prod * dm) by (nonlinear_arith);
                vstd::arithmetic::div_mod::lemma_small_mod(next_prod as nat, l as nat);
                assert(1 * next_prod == next_prod);
            }
        } else if r == 3 * n - 1 {
            assert(!is_sub_row(r - n, n) && !is_prod_row(r - n, n));
            assert(dota == 0 * 1int);
            assert(dotb == 1 * 1int);
            assert(dotc == 1 * member_product(secret, vals, (n - 1) as nat));
            assert((0 * 1int) * (1 * 1int) == 0) by (nonlinear_arith);
            assert(1 * member_product(secret, vals, (n - 1) as nat) == 0);
        } else {
            assert(r == 3 * n);
            assert(dota == 1 * 1int);
            assert(dotb == 1 * 1int);
            assert(dotc == 1 * 1int);
        }
    }
}


/// The last gadget row of a satisfied membership session pins the final running
/// product to 0.
proof fn lemma_member_final_row(secret: int, vals: Seq<int>, vs: Seq<Seq<char>>, wv: Seq<int>)
    requires
        vals.len() >= 1,
        vs.no_duplicates(),
        extends(vs, seq![one_name()] + set_element_names(vals.len())),
        forall|nm: Seq<char>| witness_names(member_session_witness(secret, vals)).contains(nm) ==> vs.contains(nm),
        wv.len() == vs.len(),
        forall|i: int| 0 <= i < vs.len() ==> wv[i] == value_of(member_session_witness(secret, vals), #[trigger] vs[i]),
        satisfied(member_instance_a(vals, vs), member_instance_b(vals.len(), vs), member_instance_c(vals.len(), vs),
            (3 * vals.len() + 1) as int, wv),
    ensures
        member_product(secret, vals, (vals.len() - 1) as nat) == 0,
{
    reveal(satisfied);
    let n = vals.len();
    let msw = member_session_witness(secret, vals);
    let val = |nm: Seq<char>| value_of(msw, nm);
    let r = 3 * n - 1;
    lemma_member_values(secret, vals);
    lemma_member_row_names(secret, vals, n);
    let pre = seq![one_name()] + set_element_names(n);
    assert(vs.subrange(0, pre.len() as int) == pre);
    assert(pre[0] == one_name());
    assert(vs.subrange(0, pre.len() as int)[0] == vs[0]);
    let ea = member_rows_a(n as int, "secret"@, set_element_names(n), n);
    let eb = member_rows_b(n as int, "secret"@, n);
    let ec = member_rows_c(n as int, "secret"@, n);
    let fa = (3 * n - 1, one_name(), 0int);
    let fb = (3 * n - 1, one_name(), 1int);
    let fc = (3 * n - 1, running_name("secret"@, (n - 1) as nat), 1int);
    assert(msw[0].0 == one_name());
    assert(witness_names(msw)[0] == one_name());
    assert(witness_names(msw).contains(one_name()));
    assert forall|k: int| 0 <= k < ea.push(fa).len() implies vs.contains((#[trigger] ea.push(fa)[k]).1) by {
        if k < ea.len() {
            assert(ea.push(fa)[k] == ea[k]);
        }
    }
    assert forall|k: int| 0 <= k < eb.push(fb).len() implies vs.contains((#[trigger] eb.push(fb)[k]).1) by {
        if k < eb.len() {
            assert(eb.push(fb)[k] == eb[k]);
        }
    }
    assert forall|k: int| 0 <= k < ec.push(fc).len() implies vs.contains((#[trigger] ec.push(fc)[k]).1) by {
        if k < ec.len() {
            assert(ec.push(fc)[k] == ec[k]);
        }
    }
    assert forall|i: int| 0 <= i < vs.len() implies wv[i] == val(#[trigger] vs[i]) by {}
    let sa = Seq::new(n, |k: int| (k, 0int, vals[k]));
    let sb = Seq::new(n, |k: int| (k, 0int, 1int));
    let sc = Seq::new(n, |k: int| (k, k + 1, 1int));
    let qa = seq![(3 * n as int, vs.len() as int, 1int)];
    let qc = seq![(3 * n as int, 0int, 1int)];
    assert(row_holds(member_instance_a(vals, vs), member_instance_b(n, vs), member_instance_c(n, vs), r, wv));
    crate::semantics::lemma_row_dot_diagonal(sa, r, wv);
    crate::semantics::lemma_row_dot_diagonal(sb, r, wv);
    crate::semantics::lemma_row_dot_diagonal(sc, r, wv);
    crate::semantics::lemma_placed_dot(ea.push(fa), vs, wv, val, r);
    crate::semantics::lemma_placed_dot(eb.push(fb), vs, wv, val, r);
    crate::semantics::lemma_placed_dot(ec.push(fc), vs, wv, val, r);
    assert(ea.push(fa) =~= ea + seq![fa]);
    assert(eb.push(fb) =~= eb + seq![fb]);
    assert(ec.push(fc) =~= ec + seq![fc]);
    lemma_named_dot_concat(ea, seq![fa], r, val);
    lemma_named_dot_concat(eb, seq![fb], r, val);
    lemma_named_dot_concat(ec, seq![fc], r, val);
    lemma_named_small(fa, fa, fa, r, val);
    lemma_named_small(fb, fb, fb, r, val);
    lemma_named_small(fc, fc, fc, r, val);
    lemma_member_named_dots(n as int, "secret"@, set_element_names(n), n, r, val);
    crate::semantics::lemma_row_dot_concat(sa, placed(ea.push(fa), vs), r, wv);
    crate::semantics::lemma_row_dot_concat(sa + placed(ea.push(fa), vs), qa, r, wv);
    crate::semantics::lemma_row_dot_concat(sb, placed(eb.push(fb), vs), r, wv);
    crate::semantics::lemma_row_dot_concat(sb + placed(eb.push(fb), vs), qa, r, wv);
    crate::semantics::lemma_row_dot_concat(sc, placed(ec.push(fc), vs), r, wv);
    crate::semantics::lemma_row_dot_concat(sc + placed(ec.push(fc), vs), qc, r, wv);
    crate::semantics::lemma_row_dot_absent(qa, r, wv);
    crate::semantics::lemma_row_dot_absent(qc, r, wv);
    assert(!is_sub_row(r - n, n) && !is_prod_row(r - n, n));
    let p = member_product(secret, vals, (n - 1) as nat);
    assert(val(one_name()) == 1);
    assert((0 * val(one_name())) * (1 * val(one_name())) == 0) by (nonlinear_arith);
    assert(1 * p == p) by (nonlinear_arith);
    vstd::arithmetic::power2::lemma_pow2_pos(252);
    vstd::arithmetic::div_mod::lemma_small_mod(0, crate::field::group_order());
    if n > 1 {
        vstd::arithmetic::div_mod::lemma_mod_bound(member_product(secret, vals, (n - 2) as nat) * fmod(secret - vals[n - 1]),
            crate::field::group_order() as int);
    } else {
        vstd::arithmetic::div_mod::lemma_mod_bound(secret - vals[0], crate::field::group_order() as int);
    }
    vstd::arithmetic::div_mod::lemma_small_mod(p as nat, crate::field::group_order());
}

} // verus!
