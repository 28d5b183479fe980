//! The variable table and the constraint rows, as free functions over the
//! builder's parts.  Each row `r` of the three sparse matrices states
//! `(A_r . z) * (B_r . z) == (C_r . z)` over the field, where `z` is the witness
//! followed by the constant 1.
use vstd::prelude::*;
use vstd::arithmetic::power2::pow2;
use crate::field::{FieldElement, bytes_value, group_order, fmod};
use crate::bit_helpers::get_pow_2;

verus! {

/// A sparse matrix entry: row, column and the canonical encoding of its value.
pub type Entry = (usize, usize, [u8; 32]);

/// The names held by a variable table; a name's index is its position.
pub open spec fn names(v: Seq<String>) -> Seq<Seq<char>> {
    v.map_values(|s: String| s@)
}

/// The table after a lookup of `name`: unchanged if `name` is there, else with
/// `name` appended.
pub open spec fn interned(ns: Seq<Seq<char>>, name: Seq<char>) -> Seq<Seq<char>> {
    if ns.contains(name) {
        ns
    } else {
        ns.push(name)
    }
}

/// The index of `name` in a table that holds it.
pub open spec fn col(ns: Seq<Seq<char>>, name: Seq<char>) -> int {
    ns.index_of(name)
}

/// A matrix as (row, column, value) triples.
pub open spec fn mat(m: Seq<Entry>) -> Seq<(int, int, int)> {
    m.map_values(|e: Entry| (e.0 as int, e.1 as int, bytes_value(e.2@) as int))
}

/// Every value of the matrix is canonical.
pub open spec fn canonical(m: Seq<Entry>) -> bool {
    forall|k: int| 0 <= k < m.len() ==> bytes_value(#[trigger] m[k].2@) < group_order()
}

/// Every entry lies in a row below `rows` and a column below `cols`.
pub open spec fn in_bounds(m: Seq<Entry>, rows: int, cols: int) -> bool {
    forall|k: int| 0 <= k < m.len() ==> (#[trigger] m[k]).0 < rows && m[k].1 < cols
}

/// The field element that stands for the integer `-1`.
pub open spec fn minus_one() -> int {
    group_order() - 1
}

/// The decimal digits of `n`.
pub open spec fn decimal(n: nat) -> Seq<char>
    decreases n,
{
    if n < 10 {
        seq![digit_char(n)]
    } else {
        decimal(n / 10).push(digit_char(n % 10))
    }
}

pub open spec fn digit_char(d: nat) -> char {
    if d == 0 { '0' } else if d == 1 { '1' } else if d == 2 { '2' } else if d == 3 { '3' }
    else if d == 4 { '4' } else if d == 5 { '5' } else if d == 6 { '6' } else if d == 7 { '7' }
    else if d == 8 { '8' } else { '9' }
}

/// The name of bit `i` of the decomposition of `x`: `x` followed by `_bit` and `i`.
pub open spec fn bit_name(x: Seq<char>, i: nat) -> Seq<char> {
    x + "_bit"@ + decimal(i)
}

/// The name of the constant-one variable.
pub open spec fn one_name() -> Seq<char> {
    "one"@
}

/// `-1` in the field is the group order less one.
pub proof fn lemma_minus_one()
    ensures
        fmod(-1) == minus_one(),
        0 < minus_one() < group_order(),
{
    vstd::arithmetic::power2::lemma_pow2_pos(252);
    vstd::arithmetic::div_mod::lemma_fundamental_div_mod_converse(
        -1,
        group_order() as int,
        -1,
        minus_one(),
    );
}

pub proof fn lemma_interned(ns: Seq<Seq<char>>, name: Seq<char>)
    requires
        ns.no_duplicates(),
    ensures
        interned(ns, name).no_duplicates(),
        interned(ns, name).contains(name),
        ns.len() <= interned(ns, name).len() <= ns.len() + 1,
        forall|i: int| 0 <= i < ns.len() ==> interned(ns, name)[i] == ns[i],
        interned(ns, name).len() == ns.len() + 1 ==> interned(ns, name)[ns.len() as int] == name,
{
    if !ns.contains(name) {
        assert(ns.push(name)[ns.len() as int] == name);
    }
}

pub proof fn lemma_col(ns: Seq<Seq<char>>, name: Seq<char>, i: int)
    requires
        ns.no_duplicates(),
        0 <= i < ns.len(),
        ns[i] == name,
    ensures
        col(ns, name) == i,
{
    assert(ns.contains(name));
}

fn digit_str(d: usize) -> (r: &'static str)
    requires
        d < 10,
    ensures
        r@ == seq![digit_char(d as nat)],
{
    proof {
        reveal_strlit("0");
        reveal_strlit("1");
        reveal_strlit("2");
        reveal_strlit("3");
        reveal_strlit("4");
        reveal_strlit("5");
        reveal_strlit("6");
        reveal_strlit("7");
        reveal_strlit("8");
        reveal_strlit("9");
    }
    if d == 0 { "0" } else if d == 1 { "1" } else if d == 2 { "2" } else if d == 3 { "3" }
    else if d == 4 { "4" } else if d == 5 { "5" } else if d == 6 { "6" } else if d == 7 { "7" }
    else if d == 8 { "8" } else { "9" }
}

/// The decimal digits of `n`.
pub fn decimal_string(n: usize) -> (r: String)
    ensures
        r@ == decimal(n as nat),
    decreases n,
{
    if n < 10 {
        digit_str(n).to_owned()
    } else {
        let mut s = decimal_string(n / 10);
        s.append(digit_str(n % 10));
        s
    }
}

/// The name of bit `i` of the decomposition of `x`.
pub fn bit_var_name(x: &str, i: usize) -> (r: String)
    ensures
        r@ == bit_name(x@, i as nat),
{
    proof {
        reveal_strlit("_bit");
    }
    let mut s = x.to_owned();
    s.append("_bit");
    let d = decimal_string(i);
    s.append(d.as_str());
    s
}

/// Returns the position of `var` in the table, appending it first if it is not there.
pub fn get_var_index(var: String, vars: &mut Vec<String>) -> (r: usize)
    requires
        names(old(vars)@).no_duplicates(),
    ensures
        names(final(vars)@) == interned(names(old(vars)@), var@),
        names(final(vars)@).no_duplicates(),
        r < final(vars).len(),
        r == col(names(final(vars)@), var@),
{
    let mut i: usize = 0;
    while i < vars.len()
        invariant
            names(vars@).no_duplicates(),
            vars@ == old(vars)@,
            0 <= i <= vars.len(),
            forall|j: int| 0 <= j < i ==> vars@[j]@ != var@,
        decreases vars.len() - i,
    {
        if vars[i] == var {
            proof {
                assert(names(vars@)[i as int] == var@);
                lemma_col(names(vars@), var@, i as int);
            }
            return i;
        }
        i = i + 1;
    }
    proof {
        assert(!names(vars@).contains(var@));
    }
    let ghost ns = names(vars@);
    vars.push(var);
    proof {
        assert(names(vars@) =~= ns.push(var@));
        lemma_interned(ns, var@);
        lemma_col(names(vars@), var@, ns.len() as int);
    }
    (vars.len() - 1) as usize
}


pub proof fn lemma_col_interned(ns: Seq<Seq<char>>, name: Seq<char>, other: Seq<char>)
    requires
        ns.no_duplicates(),
        ns.contains(name),
    ensures
        col(interned(ns, other), name) == col(ns, name),
        0 <= col(ns, name) < ns.len(),
        ns[col(ns, name)] == name,
{
    lemma_interned(ns, other);
    lemma_col(interned(ns, other), name, col(ns, name));
}

fn push_entry(m: &mut Vec<Entry>, row: usize, c: usize, v: &FieldElement)
    requires
        v.wf(),
        canonical(old(m)@),
    ensures
        canonical(final(m)@),
        mat(final(m)@) == mat(old(m)@).push((row as int, c as int, v.val())),
        final(m)@ == old(m)@.push((row, c, v.spec_bytes())),
{
    m.push((row, c, v.to_bytes()));
    proof {
        assert(mat(m@) =~= mat(old(m)@).push((row as int, c as int, v.val())));
    }
}

/// Adds the row `x * y == z` for variables `x`, `y` and `z`.
pub fn add_mult_constraint(
    x: String,
    y: String,
    z: String,
    constraint_id: &mut usize,
    num_non_zero: &mut usize,
    variables: &mut Vec<String>,
    A: &mut Vec<Entry>,
    B: &mut Vec<Entry>,
    C: &mut Vec<Entry>,
)
    requires
        names(old(variables)@).no_duplicates(),
        canonical(old(A)@),
        canonical(old(B)@),
        canonical(old(C)@),
        in_bounds(old(A)@, *old(constraint_id) as int, old(variables).len() as int),
        in_bounds(old(B)@, *old(constraint_id) as int, old(variables).len() as int),
        in_bounds(old(C)@, *old(constraint_id) as int, old(variables).len() as int),
        *old(constraint_id) < usize::MAX,
        *old(num_non_zero) <= usize::MAX - 3,
    ensures
        names(final(variables)@) == interned(interned(interned(names(old(variables)@), x@), y@), z@),
        names(final(variables)@).no_duplicates(),
        *final(constraint_id) == *old(constraint_id) + 1,
        *final(num_non_zero) == *old(num_non_zero) + 3,
        canonical(final(A)@),
        canonical(final(B)@),
        canonical(final(C)@),
        in_bounds(final(A)@, *final(constraint_id) as int, final(variables).len() as int),
        in_bounds(final(B)@, *final(constraint_id) as int, final(variables).len() as int),
        in_bounds(final(C)@, *final(constraint_id) as int, final(variables).len() as int),
        mat(final(A)@) == mat(old(A)@).push((*old(constraint_id) as int, col(names(final(variables)@), x@), 1)),
        mat(final(B)@) == mat(old(B)@).push((*old(constraint_id) as int, col(names(final(variables)@), y@), 1)),
        mat(final(C)@) == mat(old(C)@).push((*old(constraint_id) as int, col(names(final(variables)@), z@), 1)),
{
    let one = FieldElement::one();
    let ghost n0 = names(variables@);
    let ghost xs = x@;
    let ghost ys = y@;
    let ghost zs = z@;
    let xi = get_var_index(x, variables);
    let ghost n1 = names(variables@);
    let yi = get_var_index(y, variables);
    let ghost n2 = names(variables@);
    let zi = get_var_index(z, variables);
    proof {
        lemma_interned(n0, xs);
        lemma_interned(n1, ys);
        lemma_col_interned(n1, xs, ys);
        lemma_interned(n2, zs);
        lemma_col_interned(n2, xs, zs);
        lemma_col_interned(n2, ys, zs);
    }
    push_entry(A, *constraint_id, xi, &one);
    push_entry(B, *constraint_id, yi, &one);
    push_entry(C, *constraint_id, zi, &one);
    *num_non_zero = *num_non_zero + 3;
    *constraint_id = *constraint_id + 1;
}


/// Adds the row `x * y == z` for variables `x`, `z` and a constant `y`.
pub fn add_mult_scalar_constraint(
    x: String,
    y: FieldElement,
    z: String,
    constraint_id: &mut usize,
    num_non_zero: &mut usize,
    variables: &mut Vec<String>,
    A: &mut Vec<Entry>,
    B: &mut Vec<Entry>,
    C: &mut Vec<Entry>,
)
    requires
        names(old(variables)@).no_duplicates(),
        canonical(old(A)@),
        canonical(old(B)@),
        canonical(old(C)@),
        in_bounds(old(A)@, *old(constraint_id) as int, old(variables).len() as int),
        in_bounds(old(B)@, *old(constraint_id) as int, old(variables).len() as int),
        in_bounds(old(C)@, *old(constraint_id) as int, old(variables).len() as int),
        *old(constraint_id) < usize::MAX,
        *old(num_non_zero) <= usize::MAX - 3,
        y.wf(),
    ensures
        names(final(variables)@) == interned(interned(interned(names(old(variables)@), x@), one_name()), z@),
        names(final(variables)@).no_duplicates(),
        *final(constraint_id) == *old(constraint_id) + 1,
        *final(num_non_zero) == *old(num_non_zero) + 3,
        canonical(final(A)@),
        canonical(final(B)@),
        canonical(final(C)@),
        in_bounds(final(A)@, *final(constraint_id) as int, final(variables).len() as int),
        in_bounds(final(B)@, *final(constraint_id) as int, final(variables).len() as int),
        in_bounds(final(C)@, *final(constraint_id) as int, final(variables).len() as int),
        mat(final(A)@) == mat(old(A)@).push((*old(constraint_id) as int, col(names(final(variables)@), x@), 1)),
        mat(final(B)@) == mat(old(B)@).push((*old(constraint_id) as int, col(names(final(variables)@), one_name()), y.val())),
        mat(final(C)@) == mat(old(C)@).push((*old(constraint_id) as int, col(names(final(variables)@), z@), 1)),
{
    let one = FieldElement::one();
    let ghost n0 = names(variables@);
    let ghost x_s = x@;
    let ghost o_s = one_name();
    let ghost z_s = z@;
    let x_i = get_var_index(x, variables);
    let ghost n1 = names(variables@);
    let o_i = get_var_index("one".to_owned(), variables);
    let ghost n2 = names(variables@);
    let z_i = get_var_index(z, variables);
    let ghost n3 = names(variables@);
    proof {
        reveal_strlit("one");
        lemma_interned(n0, x_s);
        lemma_interned(n1, o_s);
        lemma_col_interned(n1, x_s, o_s);
        lemma_interned(n2, z_s);
        lemma_col_interned(n2, x_s, z_s);
        lemma_col_interned(n2, o_s, z_s);
    }
    push_entry(A, *constraint_id, x_i, &one);
    push_entry(B, *constraint_id, o_i, &y);
    push_entry(C, *constraint_id, z_i, &one);
    *num_non_zero = *num_non_zero + 3;
    *constraint_id = *constraint_id + 1;
}

/// Adds the row `x + y == z` for variables `x`, `y` and `z`.
pub fn add_addition_constraint(
    x: String,
    y: String,
    z: String,
    constraint_id: &mut usize,
    num_non_zero: &mut usize,
    variables: &mut Vec<String>,
    A: &mut Vec<Entry>,
    B: &mut Vec<Entry>,
    C: &mut Vec<Entry>,
)
    requires
        names(old(variables)@).no_duplicates(),
        canonical(old(A)@),
        canonical(old(B)@),
        canonical(old(C)@),
        in_bounds(old(A)@, *old(constraint_id) as int, old(variables).len() as int),
        in_bounds(old(B)@, *old(constraint_id) as int, old(variables).len() as int),
        in_bounds(old(C)@, *old(constraint_id) as int, old(variables).len() as int),
        *old(constraint_id) < usize::MAX,
        *old(num_non_zero) <= usize::MAX - 4,
    ensures
        names(final(variables)@) == interned(interned(interned(interned(names(old(variables)@), x@), y@), one_name()), z@),
        names(final(variables)@).no_duplicates(),
        *final(constraint_id) == *old(constraint_id) + 1,
        *final(num_non_zero) == *old(num_non_zero) + 4,
        canonical(final(A)@),
        canonical(final(B)@),
        canonical(final(C)@),
        in_bounds(final(A)@, *final(constraint_id) as int, final(variables).len() as int),
        in_bounds(final(B)@, *final(constraint_id) as int, final(variables).len() as int),
        in_bounds(final(C)@, *final(constraint_id) as int, final(variables).len() as int),
        mat(final(A)@) == mat(old(A)@).push((*old(constraint_id) as int, col(names(final(variables)@), x@), 1)).push((*old(constraint_id) as int, col(names(final(variables)@), y@), 1)),
        mat(final(B)@) == mat(old(B)@).push((*old(constraint_id) as int, col(names(final(variables)@), one_name()), 1)),
        mat(final(C)@) == mat(old(C)@).push((*old(constraint_id) as int, col(names(final(variables)@), z@), 1)),
{
    let one = FieldElement::one();
    let ghost n0 = names(variables@);
    let ghost x_s = x@;
    let ghost y_s = y@;
    let ghost o_s = one_name();
    let ghost z_s = z@;
    let x_i = get_var_index(x, variables);
    let ghost n1 = names(variables@);
    let y_i = get_var_index(y, variables);
    let ghost n2 = names(variables@);
    let o_i = get_var_index("one".to_owned(), variables);
    let ghost n3 = names(variables@);
    let z_i = get_var_index(z, variables);
    let ghost n4 = names(variables@);
    proof {
        reveal_strlit("one");
        lemma_interned(n0, x_s);
        lemma_interned(n1, y_s);
        lemma_col_interned(n1, x_s, y_s);
        lemma_interned(n2, o_s);
        lemma_col_interned(n2, x_s, o_s);
        lemma_col_interned(n2, y_s, o_s);
        lemma_interned(n3, z_s);
        lemma_col_interned(n3, x_s, z_s);
        lemma_col_interned(n3, y_s, z_s);
        lemma_col_interned(n3, o_s, z_s);
    }
    push_entry(A, *constraint_id, x_i, &one);
    push_entry(A, *constraint_id, y_i, &one);
    push_entry(B, *constraint_id, o_i, &one);
    push_entry(C, *constraint_id, z_i, &one);
    *num_non_zero = *num_non_zero + 4;
    *constraint_id = *constraint_id + 1;
}

/// Adds the row `x - y == z` for variables `x`, `y` and `z`.
pub fn add_subtraction_constraint(
    x: String,
    y: String,
    z: String,
    constraint_id: &mut usize,
    num_non_zero: &mut usize,
    variables: &mut Vec<String>,
    A: &mut Vec<Entry>,
    B: &mut Vec<Entry>,
    C: &mut Vec<Entry>,
)
    requires
        names(old(variables)@).no_duplicates(),
        canonical(old(A)@),
        canonical(old(B)@),
        canonical(old(C)@),
        in_bounds(old(A)@, *old(constraint_id) as int, old(variables).len() as int),
        in_bounds(old(B)@, *old(constraint_id) as int, old(variables).len() as int),
        in_bounds(old(C)@, *old(constraint_id) as int, old(variables).len() as int),
        *old(constraint_id) < usize::MAX,
        *old(num_non_zero) <= usize::MAX - 4,
    ensures
        names(final(variables)@) == interned(interned(interned(interned(names(old(variables)@), x@), y@), one_name()), z@),
        names(final(variables)@).no_duplicates(),
        *final(constraint_id) == *old(constraint_id) + 1,
        *final(num_non_zero) == *old(num_non_zero) + 4,
        canonical(final(A)@),
        canonical(final(B)@),
        canonical(final(C)@),
        in_bounds(final(A)@, *final(constraint_id) as int, final(variables).len() as int),
        in_bounds(final(B)@, *final(constraint_id) as int, final(variables).len() as int),
        in_bounds(final(C)@, *final(constraint_id) as int, final(variables).len() as int),
        mat(final(A)@) == mat(old(A)@).push((*old(constraint_id) as int, col(names(final(variables)@), x@), 1)).push((*old(constraint_id) as int, col(names(final(variables)@), y@), minus_one())),
        mat(final(B)@) == mat(old(B)@).push((*old(constraint_id) as int, col(names(final(variables)@), one_name()), 1)),
        mat(final(C)@) == mat(old(C)@).push((*old(constraint_id) as int, col(names(final(variables)@), z@), 1)),
{
    let one = FieldElement::one();
    let minus = one.neg();
    proof {
        lemma_minus_one();
    }
    let ghost n0 = names(variables@);
    let ghost x_s = x@;
    let ghost y_s = y@;
    let ghost o_s = one_name();
    let ghost z_s = z@;
    let x_i = get_var_index(x, variables);
    let ghost n1 = names(variables@);
    let y_i = get_var_index(y, variables);
    let ghost n2 = names(variables@);
    let o_i = get_var_index("one".to_owned(), variables);
    let ghost n3 = names(variables@);
    let z_i = get_var_index(z, variables);
    let ghost n4 = names(variables@);
    proof {
        reveal_strlit("one");
        lemma_interned(n0, x_s);
        lemma_interned(n1, y_s);
        lemma_col_interned(n1, x_s, y_s);
        lemma_interned(n2, o_s);
        lemma_col_interned(n2, x_s, o_s);
        lemma_col_interned(n2, y_s, o_s);
        lemma_interned(n3, z_s);
        lemma_col_interned(n3, x_s, z_s);
        lemma_col_interned(n3, y_s, z_s);
        lemma_col_interned(n3, o_s, z_s);
    }
    push_entry(A, *constraint_id, x_i, &one);
    push_entry(A, *constraint_id, y_i, &minus);
    push_entry(B, *constraint_id, o_i, &one);
    push_entry(C, *constraint_id, z_i, &one);
    *num_non_zero = *num_non_zero + 4;
    *constraint_id = *constraint_id + 1;
}

/// Adds the row `x * (x - 1) == 0`, which holds only for `x` in {0, 1}.
pub fn add_is_bit_constraint(
    x: String,
    constraint_id: &mut usize,
    num_non_zero: &mut usize,
    variables: &mut Vec<String>,
    A: &mut Vec<Entry>,
    B: &mut Vec<Entry>,
    C: &mut Vec<Entry>,
)
    requires
        names(old(variables)@).no_duplicates(),
        canonical(old(A)@),
        canonical(old(B)@),
        canonical(old(C)@),
        in_bounds(old(A)@, *old(constraint_id) as int, old(variables).len() as int),
        in_bounds(old(B)@, *old(constraint_id) as int, old(variables).len() as int),
        in_bounds(old(C)@, *old(constraint_id) as int, old(variables).len() as int),
        *old(constraint_id) < usize::MAX,
        *old(num_non_zero) <= usize::MAX - 3,
    ensures
        names(final(variables)@) == interned(interned(names(old(variables)@), x@), one_name()),
        names(final(variables)@).no_duplicates(),
        *final(constraint_id) == *old(constraint_id) + 1,
        *final(num_non_zero) == *old(num_non_zero) + 3,
        canonical(final(A)@),
        canonical(final(B)@),
        canonical(final(C)@),
        in_bounds(final(A)@, *final(constraint_id) as int, final(variables).len() as int),
        in_bounds(final(B)@, *final(constraint_id) as int, final(variables).len() as int),
        in_bounds(final(C)@, *final(constraint_id) as int, final(variables).len() as int),
        mat(final(A)@) == mat(old(A)@).push((*old(constraint_id) as int, col(names(final(variables)@), x@), 1)),
        mat(final(B)@) == mat(old(B)@).push((*old(constraint_id) as int, col(names(final(variables)@), x@), 1)).push((*old(constraint_id) as int, col(names(final(variables)@), one_name()), minus_one())),
        final(C)@ == old(C)@,
{
    let one = FieldElement::one();
    let minus = one.neg();
    proof {
        lemma_minus_one();
    }
    let ghost n0 = names(variables@);
    let ghost x_s = x@;
    let ghost o_s = one_name();
    let x_i = get_var_index(x, variables);
    let ghost n1 = names(variables@);
    let o_i = get_var_index("one".to_owned(), variables);
    let ghost n2 = names(variables@);
    proof {
        reveal_strlit("one");
        lemma_interned(n0, x_s);
        lemma_interned(n1, o_s);
        lemma_col_interned(n1, x_s, o_s);
    }
    push_entry(A, *constraint_id, x_i, &one);
    push_entry(B, *constraint_id, x_i, &one);
    push_entry(B, *constraint_id, o_i, &minus);
    *num_non_zero = *num_non_zero + 3;
    *constraint_id = *constraint_id + 1;
}

/// Adds the row `y * 1 == x` for a variable `x` and a constant `y`.
pub fn add_equality_scalar_constraint(
    x: String,
    y: FieldElement,
    constraint_id: &mut usize,
    num_non_zero: &mut usize,
    variables: &mut Vec<String>,
    A: &mut Vec<Entry>,
    B: &mut Vec<Entry>,
    C: &mut Vec<Entry>,
)
    requires
        names(old(variables)@).no_duplicates(),
        canonical(old(A)@),
        canonical(old(B)@),
        canonical(old(C)@),
        in_bounds(old(A)@, *old(constraint_id) as int, old(variables).len() as int),
        in_bounds(old(B)@, *old(constraint_id) as int, old(variables).len() as int),
        in_bounds(old(C)@, *old(constraint_id) as int, old(variables).len() as int),
        *old(constraint_id) < usize::MAX,
        *old(num_non_zero) <= usize::MAX - 3,
        y.wf(),
    ensures
        names(final(variables)@) == interned(interned(names(old(variables)@), one_name()), x@),
        names(final(variables)@).no_duplicates(),
        *final(constraint_id) == *old(constraint_id) + 1,
        *final(num_non_zero) == *old(num_non_zero) + 3,
        canonical(final(A)@),
        canonical(final(B)@),
        canonical(final(C)@),
        in_bounds(final(A)@, *final(constraint_id) as int, final(variables).len() as int),
        in_bounds(final(B)@, *final(constraint_id) as int, final(variables).len() as int),
        in_bounds(final(C)@, *final(constraint_id) as int, final(variables).len() as int),
        mat(final(A)@) == mat(old(A)@).push((*old(constraint_id) as int, col(names(final(variables)@), one_name()), y.val())),
        mat(final(B)@) == mat(old(B)@).push((*old(constraint_id) as int, col(names(final(variables)@), one_name()), 1)),
        mat(final(C)@) == mat(old(C)@).push((*old(constraint_id) as int, col(names(final(variables)@), x@), 1)),
{
    let one = FieldElement::one();
    let ghost n0 = names(variables@);
    let ghost o_s = one_name();
    let ghost x_s = x@;
    let o_i = get_var_index("one".to_owned(), variables);
    let ghost n1 = names(variables@);
    let x_i = get_var_index(x, variables);
    let ghost n2 = names(variables@);
    proof {
        reveal_strlit("one");
        lemma_interned(n0, o_s);
        lemma_interned(n1, x_s);
        lemma_col_interned(n1, o_s, x_s);
    }
    push_entry(A, *constraint_id, o_i, &y);
    push_entry(B, *constraint_id, o_i, &one);
    push_entry(C, *constraint_id, x_i, &one);
    *num_non_zero = *num_non_zero + 3;
    *constraint_id = *constraint_id + 1;
}

/// Adds the row `x * 1 == y` for variables `x` and `y`.
pub fn add_equality_constraint(
    x: String,
    y: String,
    constraint_id: &mut usize,
    num_non_zero: &mut usize,
    variables: &mut Vec<String>,
    A: &mut Vec<Entry>,
    B: &mut Vec<Entry>,
    C: &mut Vec<Entry>,
)
    requires
        names(old(variables)@).no_duplicates(),
        canonical(old(A)@),
        canonical(old(B)@),
        canonical(old(C)@),
        in_bounds(old(A)@, *old(constraint_id) as int, old(variables).len() as int),
        in_bounds(old(B)@, *old(constraint_id) as int, old(variables).len() as int),
        in_bounds(old(C)@, *old(constraint_id) as int, old(variables).len() as int),
        *old(constraint_id) < usize::MAX,
        *old(num_non_zero) <= usize::MAX - 3,
    ensures
        names(final(variables)@) == interned(interned(interned(names(old(variables)@), x@), one_name()), y@),
        names(final(variables)@).no_duplicates(),
        *final(constraint_id) == *old(constraint_id) + 1,
        *final(num_non_zero) == *old(num_non_zero) + 3,
        canonical(final(A)@),
        canonical(final(B)@),
        canonical(final(C)@),
        in_bounds(final(A)@, *final(constraint_id) as int, final(variables).len() as int),
        in_bounds(final(B)@, *final(constraint_id) as int, final(variables).len() as int),
        in_bounds(final(C)@, *final(constraint_id) as int, final(variables).len() as int),
        mat(final(A)@) == mat(old(A)@).push((*old(constraint_id) as int, col(names(final(variables)@), x@), 1)),
        mat(final(B)@) == mat(old(B)@).push((*old(constraint_id) as int, col(names(final(variables)@), one_name()), 1)),
        mat(final(C)@) == mat(old(C)@).push((*old(constraint_id) as int, col(names(final(variables)@), y@), 1)),
{
    let one = FieldElement::one();
    let ghost n0 = names(variables@);
    let ghost x_s = x@;
    let ghost o_s = one_name();
    let ghost y_s = y@;
    let x_i = get_var_index(x, variables);
    let ghost n1 = names(variables@);
    let o_i = get_var_index("one".to_owned(), variables);
    let ghost n2 = names(variables@);
    let y_i = get_var_index(y, variables);
    let ghost n3 = names(variables@);
    proof {
        reveal_strlit("one");
        lemma_interned(n0, x_s);
        lemma_interned(n1, o_s);
        lemma_col_interned(n1, x_s, o_s);
        lemma_interned(n2, y_s);
        lemma_col_interned(n2, x_s, y_s);
        lemma_col_interned(n2, o_s, y_s);
    }
    push_entry(A, *constraint_id, x_i, &one);
    push_entry(B, *constraint_id, o_i, &one);
    push_entry(C, *constraint_id, y_i, &one);
    *num_non_zero = *num_non_zero + 3;
    *constraint_id = *constraint_id + 1;
}


/// The table after looking up the names of bits `0 .. n` of `x`, in order.
pub open spec fn interned_bits(ns: Seq<Seq<char>>, x: Seq<char>, n: nat) -> Seq<Seq<char>>
    decreases n,
{
    if n == 0 {
        ns
    } else {
        interned(interned_bits(ns, x, (n - 1) as nat), bit_name(x, (n - 1) as nat))
    }
}

/// The weight of bit `i` among `n` two's-complement bits: `2^i`, and `-2^(n-1)`
/// for the sign bit.
pub open spec fn decomp_coef(n: nat, i: nat) -> int {
    if i + 1 == n {
        fmod(-(pow2(i) as int)) as int
    } else {
        pow2(i) as int
    }
}

/// The `A` entries of the decomposition row: each bit of `x` with its weight.
pub open spec fn decomp_row_a(row: int, ns: Seq<Seq<char>>, x: Seq<char>, n: nat) -> Seq<(int, int, int)> {
    Seq::new(n, |i: int| (row, col(ns, bit_name(x, i as nat)), decomp_coef(n, i as nat)))
}

/// The `A` entries of the bit rows `row0 .. row0 + n`: bit `i` of `x` in row `row0 + i`.
pub open spec fn bit_rows_a(row0: int, ns: Seq<Seq<char>>, x: Seq<char>, n: nat) -> Seq<(int, int, int)> {
    Seq::new(n, |i: int| (row0 + i, col(ns, bit_name(x, i as nat)), 1))
}

/// The `B` entries of the bit rows: bit `i` of `x` and `-1` in row `row0 + i`.
pub open spec fn bit_rows_b(row0: int, ns: Seq<Seq<char>>, x: Seq<char>, n: nat) -> Seq<(int, int, int)> {
    Seq::new(
        2 * n,
        |k: int|
            if k % 2 == 0 {
                (row0 + k / 2, col(ns, bit_name(x, (k / 2) as nat)), 1)
            } else {
                (row0 + k / 2, col(ns, one_name()), minus_one())
            },
    )
}

pub proof fn lemma_interned_bits(ns: Seq<Seq<char>>, x: Seq<char>, n: nat)
    requires
        ns.no_duplicates(),
    ensures
        interned_bits(ns, x, n).no_duplicates(),
        ns.len() <= interned_bits(ns, x, n).len() <= ns.len() + n,
        forall|i: int| 0 <= i < ns.len() ==> interned_bits(ns, x, n)[i] == ns[i],
        forall|j: nat| j < n ==> interned_bits(ns, x, n).contains(#[trigger] bit_name(x, j)),
        forall|nm: Seq<char>| ns.contains(nm) ==> col(interned_bits(ns, x, n), nm) == col(ns, nm),
    decreases n,
{
    if n > 0 {
        let m = (n - 1) as nat;
        lemma_interned_bits(ns, x, m);
        let prev = interned_bits(ns, x, m);
        lemma_interned(prev, bit_name(x, m));
        assert forall|j: nat| j < n implies interned_bits(ns, x, n).contains(#[trigger] bit_name(x, j)) by {
            if j < m {
                let k = choose|k: int| 0 <= k < prev.len() && prev[k] == bit_name(x, j);
                assert(interned_bits(ns, x, n)[k] == bit_name(x, j));
            }
        }
        assert forall|nm: Seq<char>| ns.contains(nm) implies col(interned_bits(ns, x, n), nm) == col(ns, nm) by {
            let k = choose|k: int| 0 <= k < ns.len() && ns[k] == nm;
            lemma_col(ns, nm, k);
            assert(prev[k] == nm);
            lemma_col(prev, nm, k);
            assert(interned_bits(ns, x, n)[k] == nm);
            lemma_col(interned_bits(ns, x, n), nm, k);
        }
    }
}

/// The weight of bit `i` of `n`, as a field element.
fn decomp_weight(n: usize, i: usize) -> (r: FieldElement)
    requires
        i < n <= 253,
    ensures
        r.wf(),
        r.val() == decomp_coef(n as nat, i as nat),
{
    let p = get_pow_2(i);
    if i == n - 1 {
        p.neg()
    } else {
        p
    }
}

/// Adds the row `sum_{i < n-1} 2^i x_bit_i - 2^(n-1) x_bit_(n-1) == x`.
pub(crate) fn push_decomposition_row(
    x: &str,
    n: usize,
    constraint_id: &mut usize,
    num_non_zero: &mut usize,
    variables: &mut Vec<String>,
    A: &mut Vec<Entry>,
    B: &mut Vec<Entry>,
    C: &mut Vec<Entry>,
)
    requires
        n <= 253,
        names(old(variables)@).no_duplicates(),
        canonical(old(A)@),
        canonical(old(B)@),
        canonical(old(C)@),
        in_bounds(old(A)@, *old(constraint_id) as int, old(variables).len() as int),
        in_bounds(old(B)@, *old(constraint_id) as int, old(variables).len() as int),
        in_bounds(old(C)@, *old(constraint_id) as int, old(variables).len() as int),
        *old(constraint_id) < usize::MAX,
        *old(num_non_zero) <= usize::MAX - 255,
    ensures
        names(final(variables)@) == interned(interned(interned_bits(names(old(variables)@), x@, n as nat), one_name()), x@),
        names(final(variables)@).no_duplicates(),
        *final(constraint_id) == *old(constraint_id) + 1,
        *final(num_non_zero) == *old(num_non_zero) + n + 2,
        canonical(final(A)@),
        canonical(final(B)@),
        canonical(final(C)@),
        in_bounds(final(A)@, *final(constraint_id) as int, final(variables).len() as int),
        in_bounds(final(B)@, *final(constraint_id) as int, final(variables).len() as int),
        in_bounds(final(C)@, *final(constraint_id) as int, final(variables).len() as int),
        mat(final(A)@) == mat(old(A)@) + decomp_row_a(*old(constraint_id) as int, names(final(variables)@), x@, n as nat),
        mat(final(B)@) == mat(old(B)@).push((*old(constraint_id) as int, col(names(final(variables)@), one_name()), 1)),
        mat(final(C)@) == mat(old(C)@).push((*old(constraint_id) as int, col(names(final(variables)@), x@), 1)),
{
    let one = FieldElement::one();
    let row = *constraint_id;
    let ghost n0 = names(variables@);
    let ghost a0 = mat(A@);
    let mut i: usize = 0;
    while i < n
        invariant
            i <= n <= 253,
            n0 == names(old(variables)@),
            names(variables@) == interned_bits(n0, x@, i as nat),
            names(variables@).no_duplicates(),
            canonical(A@),
            mat(A@) == a0 + decomp_row_a(row as int, names(variables@), x@, n as nat).subrange(0, i as int),
            in_bounds(A@, row as int + 1, variables.len() as int),
            variables.len() >= old(variables).len(),
            row == *old(constraint_id),
            forall|j: nat| j < i ==> names(variables@).contains(#[trigger] bit_name(x@, j)),
        decreases n - i,
    {
        let ghost ns = names(variables@);
        let name = bit_var_name(x, i);
        let bi = get_var_index(name, variables);
        let w = decomp_weight(n, i);
        push_entry(A, row, bi, &w);
        proof {
            lemma_interned(ns, bit_name(x@, i as nat));
            assert forall|j: nat| j < i implies col(names(variables@), #[trigger] bit_name(x@, j)) == col(ns, bit_name(x@, j)) by {
                lemma_col_interned(ns, bit_name(x@, j), bit_name(x@, i as nat));
            }
            assert forall|j: nat| j <= i implies names(variables@).contains(#[trigger] bit_name(x@, j)) by {
                if j < i {
                    let k = choose|k: int| 0 <= k < ns.len() && ns[k] == bit_name(x@, j);
                    assert(names(variables@)[k] == bit_name(x@, j));
                }
            }
            assert(mat(A@) =~= a0 + decomp_row_a(row as int, names(variables@), x@, n as nat).subrange(0, i + 1));
        }
        i = i + 1;
    }
    proof {
        assert(decomp_row_a(row as int, names(variables@), x@, n as nat).subrange(0, n as int)
            =~= decomp_row_a(row as int, names(variables@), x@, n as nat));
    }
    let ghost nb = names(variables@);
    let ghost ab = mat(A@);
    let oi = get_var_index("one".to_owned(), variables);
    let ghost no = names(variables@);
    let xi = get_var_index(x.to_owned(), variables);
    proof {
        reveal_strlit("one");
        lemma_interned(nb, one_name());
        lemma_interned(no, x@);
        lemma_col_interned(no, one_name(), x@);
        assert forall|j: nat| j < n implies col(names(variables@), #[trigger] bit_name(x@, j)) == col(nb, bit_name(x@, j)) by {
            lemma_col_interned(nb, bit_name(x@, j), one_name());
            lemma_col_interned(no, bit_name(x@, j), one_name());
            lemma_col_interned(no, bit_name(x@, j), x@);
        }
        assert(decomp_row_a(row as int, nb, x@, n as nat) =~= decomp_row_a(row as int, names(variables@), x@, n as nat));
    }
    push_entry(B, row, oi, &one);
    push_entry(C, row, xi, &one);
    *num_non_zero = *num_non_zero + n + 2;
    *constraint_id = *constraint_id + 1;
}


/// Adds the rows `x_bit_i * (x_bit_i - 1) == 0` for `i < n`, one after another.
pub(crate) fn push_bit_rows(
    x: &str,
    n: usize,
    constraint_id: &mut usize,
    num_non_zero: &mut usize,
    variables: &mut Vec<String>,
    A: &mut Vec<Entry>,
    B: &mut Vec<Entry>,
    C: &mut Vec<Entry>,
)
    requires
        n <= 253,
        names(old(variables)@).no_duplicates(),
        names(old(variables)@).contains(one_name()),
        canonical(old(A)@),
        canonical(old(B)@),
        canonical(old(C)@),
        in_bounds(old(A)@, *old(constraint_id) as int, old(variables).len() as int),
        in_bounds(old(B)@, *old(constraint_id) as int, old(variables).len() as int),
        in_bounds(old(C)@, *old(constraint_id) as int, old(variables).len() as int),
        *old(constraint_id) <= usize::MAX - 256,
        *old(num_non_zero) <= usize::MAX - 3 * 256,
    ensures
        names(final(variables)@) == interned_bits(names(old(variables)@), x@, n as nat),
        names(final(variables)@).no_duplicates(),
        *final(constraint_id) == *old(constraint_id) + n,
        *final(num_non_zero) == *old(num_non_zero) + 3 * n,
        canonical(final(A)@),
        canonical(final(B)@),
        canonical(final(C)@),
        in_bounds(final(A)@, *final(constraint_id) as int, final(variables).len() as int),
        in_bounds(final(B)@, *final(constraint_id) as int, final(variables).len() as int),
        in_bounds(final(C)@, *final(constraint_id) as int, final(variables).len() as int),
        mat(final(A)@) == mat(old(A)@) + bit_rows_a(*old(constraint_id) as int, names(final(variables)@), x@, n as nat),
        mat(final(B)@) == mat(old(B)@) + bit_rows_b(*old(constraint_id) as int, names(final(variables)@), x@, n as nat),
        final(C)@ == old(C)@,
{
    let ghost row0 = *constraint_id as int;
    let ghost n0 = names(variables@);
    let ghost a0 = mat(A@);
    let ghost b0 = mat(B@);
    let ghost nnz0 = *num_non_zero as int;
    let mut i: usize = 0;
    while i < n
        invariant
            i <= n <= 253,
            n0 == names(old(variables)@),
            n0.contains(one_name()),
            n0.no_duplicates(),
            names(variables@) == interned_bits(n0, x@, i as nat),
            names(variables@).no_duplicates(),
            canonical(A@),
            canonical(B@),
            canonical(C@),
            C@ == old(C)@,
            *constraint_id == row0 + i,
            row0 <= usize::MAX - 256,
            *num_non_zero == nnz0 + 3 * i,
            nnz0 <= usize::MAX - 3 * 256,
            mat(A@) == a0 + bit_rows_a(row0, names(variables@), x@, n as nat).subrange(0, i as int),
            mat(B@) == b0 + bit_rows_b(row0, names(variables@), x@, n as nat).subrange(0, 2 * i),
            in_bounds(A@, *constraint_id as int, variables.len() as int),
            in_bounds(B@, *constraint_id as int, variables.len() as int),
            in_bounds(C@, *constraint_id as int, variables.len() as int),
            forall|j: nat| j < i ==> names(variables@).contains(#[trigger] bit_name(x@, j)),
        decreases n - i,
    {
        let ghost ns = names(variables@);
        let name = bit_var_name(x, i);
        proof {
            lemma_interned_bits(n0, x@, i as nat);
            reveal_strlit("one");
        }
        add_is_bit_constraint(name, constraint_id, num_non_zero, variables, A, B, C);
        proof {
            let ni = interned(ns, bit_name(x@, i as nat));
            lemma_interned(ns, bit_name(x@, i as nat));
            let k = choose|k: int| 0 <= k < n0.len() && n0[k] == one_name();
            assert(ns[k] == one_name());
            assert(ni[k] == one_name());
            assert(ni.contains(one_name()));
            assert(names(variables@) == ni);
            assert forall|j: nat| j < i implies col(names(variables@), #[trigger] bit_name(x@, j)) == col(ns, bit_name(x@, j)) by {
                lemma_col_interned(ns, bit_name(x@, j), bit_name(x@, i as nat));
            }
            lemma_col_interned(ns, one_name(), bit_name(x@, i as nat));
            assert forall|j: nat| j <= i implies names(variables@).contains(#[trigger] bit_name(x@, j)) by {
                if j < i {
                    let q = choose|q: int| 0 <= q < ns.len() && ns[q] == bit_name(x@, j);
                    assert(names(variables@)[q] == bit_name(x@, j));
                }
            }
            assert(mat(A@) =~= a0 + bit_rows_a(row0, names(variables@), x@, n as nat).subrange(0, i + 1));
            assert(mat(B@) =~= b0 + bit_rows_b(row0, names(variables@), x@, n as nat).subrange(0, 2 * (i + 1)));
        }
        i = i + 1;
    }
    proof {
        assert(bit_rows_a(row0, names(variables@), x@, n as nat).subrange(0, n as int)
            =~= bit_rows_a(row0, names(variables@), x@, n as nat));
        assert(bit_rows_b(row0, names(variables@), x@, n as nat).subrange(0, 2 * n)
            =~= bit_rows_b(row0, names(variables@), x@, n as nat));
    }
}

/// Creates the variables `x_bit0 .. x_bit(n-1)`, adds the row tying them to `x`
/// as an `n`-bit two's-complement number, then one row per bit forcing it into
/// {0, 1}.
pub fn add_twos_complement_decomposition_constraint(
    x: String,
    N: usize,
    constraint_id: &mut usize,
    num_non_zero: &mut usize,
    variables: &mut Vec<String>,
    A: &mut Vec<Entry>,
    B: &mut Vec<Entry>,
    C: &mut Vec<Entry>,
)
    requires
        N <= 253,
        names(old(variables)@).no_duplicates(),
        canonical(old(A)@),
        canonical(old(B)@),
        canonical(old(C)@),
        in_bounds(old(A)@, *old(constraint_id) as int, old(variables).len() as int),
        in_bounds(old(B)@, *old(constraint_id) as int, old(variables).len() as int),
        in_bounds(old(C)@, *old(constraint_id) as int, old(variables).len() as int),
        *old(constraint_id) <= usize::MAX - 512,
        *old(num_non_zero) <= usize::MAX - 4 * 512,
    ensures
        names(final(variables)@) == interned(interned(interned_bits(names(old(variables)@), x@, N as nat), one_name()), x@),
        names(final(variables)@).no_duplicates(),
        *final(constraint_id) == *old(constraint_id) + 1 + N,
        *final(num_non_zero) == *old(num_non_zero) + 4 * N + 2,
        canonical(final(A)@),
        canonical(final(B)@),
        canonical(final(C)@),
        in_bounds(final(A)@, *final(constraint_id) as int, final(variables).len() as int),
        in_bounds(final(B)@, *final(constraint_id) as int, final(variables).len() as int),
        in_bounds(final(C)@, *final(constraint_id) as int, final(variables).len() as int),
        mat(final(A)@) == mat(old(A)@) + decomp_row_a(*old(constraint_id) as int, names(final(variables)@), x@, N as nat)
            + bit_rows_a(*old(constraint_id) + 1, names(final(variables)@), x@, N as nat),
        mat(final(B)@) == mat(old(B)@).push((*old(constraint_id) as int, col(names(final(variables)@), one_name()), 1))
            + bit_rows_b(*old(constraint_id) + 1, names(final(variables)@), x@, N as nat),
        mat(final(C)@) == mat(old(C)@).push((*old(constraint_id) as int, col(names(final(variables)@), x@), 1)),
{
    push_decomposition_row(x.as_str(), N, constraint_id, num_non_zero, variables, A, B, C);
    let ghost ns = names(variables@);
    proof {
        reveal_strlit("one");
        let nb = interned_bits(names(old(variables)@), x@, N as nat);
        lemma_interned_bits(names(old(variables)@), x@, N as nat);
        lemma_interned(nb, one_name());
        lemma_interned(interned(nb, one_name()), x@);
        assert(ns.contains(one_name()));
    }
    push_bit_rows(x.as_str(), N, constraint_id, num_non_zero, variables, A, B, C);
    proof {
        assert forall|j: nat| j < N implies ns.contains(#[trigger] bit_name(x@, j)) by {
            let nb = interned_bits(names(old(variables)@), x@, N as nat);
            let q = choose|q: int| 0 <= q < nb.len() && nb[q] == bit_name(x@, j);
            lemma_interned(nb, one_name());
            lemma_interned(interned(nb, one_name()), x@);
            assert(ns[q] == bit_name(x@, j));
        }
        lemma_interned_bits_present(ns, x@, N as nat);
    }
}

/// Looking up names that are all present leaves the table as it is.
pub proof fn lemma_interned_bits_present(ns: Seq<Seq<char>>, x: Seq<char>, n: nat)
    requires
        forall|j: nat| j < n ==> ns.contains(#[trigger] bit_name(x, j)),
    ensures
        interned_bits(ns, x, n) == ns,
    decreases n,
{
    if n > 0 {
        lemma_interned_bits_present(ns, x, (n - 1) as nat);
        assert(ns.contains(bit_name(x, (n - 1) as nat)));
    }
}


pub proof fn lemma_decimal_len(n: nat)
    ensures
        decimal(n).len() >= 1,
        n < 10 <==> decimal(n).len() == 1,
    decreases n,
{
    if n >= 10 {
        lemma_decimal_len(n / 10);
    }
}

/// Different numbers have different decimal digits.
pub proof fn lemma_decimal_injective(i: nat, j: nat)
    requires
        decimal(i) == decimal(j),
    ensures
        i == j,
    decreases i,
{
    lemma_decimal_len(i);
    lemma_decimal_len(j);
    if i >= 10 && j >= 10 {
        let di = decimal(i);
        assert(di.drop_last() == decimal(i / 10));
        assert(decimal(j).drop_last() == decimal(j / 10));
        assert(di.last() == digit_char(i % 10));
        assert(decimal(j).last() == digit_char(j % 10));
        lemma_decimal_injective(i / 10, j / 10);
    } else if i < 10 && j < 10 {
        assert(decimal(i)[0] == digit_char(i));
        assert(decimal(j)[0] == digit_char(j));
    }
}

/// Different bits of one variable have different names.
pub proof fn lemma_bit_name_injective(x: Seq<char>, i: nat, j: nat)
    requires
        bit_name(x, i) == bit_name(x, j),
    ensures
        i == j,
{
    let p = x + "_bit"@;
    assert(bit_name(x, i).subrange(p.len() as int, bit_name(x, i).len() as int) =~= decimal(i));
    assert(bit_name(x, j).subrange(p.len() as int, bit_name(x, j).len() as int) =~= decimal(j));
    lemma_decimal_injective(i, j);
}


/// Looking up fresh bit names appends them in order.
pub proof fn lemma_interned_bits_fresh(ns: Seq<Seq<char>>, x: Seq<char>, n: nat)
    requires
        forall|j: nat| j < n ==> !ns.contains(#[trigger] bit_name(x, j)),
    ensures
        interned_bits(ns, x, n) == ns + Seq::new(n, |i: int| bit_name(x, i as nat)),
    decreases n,
{
    if n > 0 {
        let m = (n - 1) as nat;
        lemma_interned_bits_fresh(ns, x, m);
        let prev = ns + Seq::new(m, |i: int| bit_name(x, i as nat));
        if prev.contains(bit_name(x, m)) {
            let q = choose|q: int| 0 <= q < prev.len() && prev[q] == bit_name(x, m);
            if q >= ns.len() {
                lemma_bit_name_injective(x, (q - ns.len()) as nat, m);
            }
        }
        assert(prev.push(bit_name(x, m)) =~= ns + Seq::new(n, |i: int| bit_name(x, i as nat)));
    }
}

/// A bit name is longer than the name it extends.
pub proof fn lemma_bit_name_len(x: Seq<char>, i: nat)
    ensures
        bit_name(x, i).len() >= x.len() + 5,
{
    reveal_strlit("_bit");
    lemma_decimal_len(i);
}


/// Entries that name their variable, placed in the columns of a table.
pub open spec fn placed(es: Seq<(int, Seq<char>, int)>, ns: Seq<Seq<char>>) -> Seq<(int, int, int)> {
    es.map_values(|e: (int, Seq<char>, int)| (e.0, col(ns, e.1), e.2))
}

/// `ns2` keeps every name of `ns1` at its index.
pub open spec fn extends(ns2: Seq<Seq<char>>, ns1: Seq<Seq<char>>) -> bool {
    ns1.len() <= ns2.len() && ns2.subrange(0, ns1.len() as int) == ns1
}

/// Entries over names of a table keep their columns in any extension of it.
pub proof fn lemma_placed_stable(es: Seq<(int, Seq<char>, int)>, ns1: Seq<Seq<char>>, ns2: Seq<Seq<char>>)
    requires
        ns1.no_duplicates(),
        ns2.no_duplicates(),
        extends(ns2, ns1),
        forall|k: int| 0 <= k < es.len() ==> ns1.contains((#[trigger] es[k]).1),
    ensures
        placed(es, ns1) == placed(es, ns2),
{
    assert forall|k: int| 0 <= k < es.len() implies #[trigger] placed(es, ns1)[k] == placed(es, ns2)[k] by {
        let nm = es[k].1;
        let q = choose|q: int| 0 <= q < ns1.len() && ns1[q] == nm;
        lemma_col(ns1, nm, q);
        assert(ns2.subrange(0, ns1.len() as int)[q] == nm);
        lemma_col(ns2, nm, q);
    }
    assert(placed(es, ns1) =~= placed(es, ns2));
}

pub proof fn lemma_interned_extends(ns: Seq<Seq<char>>, name: Seq<char>)
    requires
        ns.no_duplicates(),
    ensures
        extends(interned(ns, name), ns),
        interned(ns, name).no_duplicates(),
        interned(ns, name).contains(name),
{
    lemma_interned(ns, name);
    assert(interned(ns, name).subrange(0, ns.len() as int) =~= ns);
}


/// A name followed by different numbers gives different names.
pub proof fn lemma_numbered_injective(p: Seq<char>, i: nat, j: nat)
    requires
        p + decimal(i) == p + decimal(j),
    ensures
        i == j,
{
    assert((p + decimal(i)).subrange(p.len() as int, (p + decimal(i)).len() as int) =~= decimal(i));
    assert((p + decimal(j)).subrange(p.len() as int, (p + decimal(j)).len() as int) =~= decimal(j));
    lemma_decimal_injective(i, j);
}

/// `prefix` followed by the decimal digits of `i`.
pub fn numbered_name(prefix: &str, i: usize) -> (r: String)
    ensures
        r@ == prefix@ + decimal(i as nat),
{
    let mut s = prefix.to_owned();
    let d = decimal_string(i);
    s.append(d.as_str());
    s
}


/// Looking a name up is stable: a second lookup finds it at the same index and
/// leaves the table as it is, and lookups of other names never move it.
pub proof fn lemma_index_stable(ns: Seq<Seq<char>>, name: Seq<char>, other: Seq<char>)
    requires
        ns.no_duplicates(),
    ensures
        interned(interned(ns, name), name) == interned(ns, name),
        col(interned(interned(ns, name), other), name) == col(interned(ns, name), name),
{
    lemma_interned(ns, name);
    lemma_col_interned(interned(ns, name), name, other);
}

} // verus!
