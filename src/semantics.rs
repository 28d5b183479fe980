//! What it means for a witness to satisfy a constraint system: for every row
//! `r`, `(A_r . z) * (B_r . z) == (C_r . z)` in the field, where `z` is the
//! witness vector followed by the constant 1 (the backend's column `num_vars`).
use vstd::prelude::*;
use crate::field::fmod;
use crate::r1cs_helpers::{placed, col};

verus! {

/// Column `c` of `z`: the witness value at `c`, or the constant 1 past the witness.
pub open spec fn z_at(w: Seq<int>, c: int) -> int {
    if 0 <= c < w.len() {
        w[c]
    } else {
        1
    }
}

/// Row `r` of a sparse matrix applied to `z`.
pub open spec fn row_dot(m: Seq<(int, int, int)>, r: int, w: Seq<int>) -> int
    decreases m.len(),
{
    if m.len() == 0 {
        0
    } else {
        row_dot(m.drop_last(), r, w) + if m.last().0 == r {
            m.last().2 * z_at(w, m.last().1)
        } else {
            0
        }
    }
}

/// Row `r` holds on the witness `w`.
pub open spec fn row_holds(a: Seq<(int, int, int)>, b: Seq<(int, int, int)>, c: Seq<(int, int, int)>, r: int, w: Seq<int>) -> bool {
    fmod(row_dot(a, r, w) * row_dot(b, r, w)) == fmod(row_dot(c, r, w))
}

/// Every row below `rows` holds on the witness `w`.
#[verifier::opaque]
pub open spec fn satisfied(a: Seq<(int, int, int)>, b: Seq<(int, int, int)>, c: Seq<(int, int, int)>, rows: int, w: Seq<int>) -> bool {
    forall|r: int| 0 <= r < rows ==> row_holds(a, b, c, r, w)
}

/// The values of a witness, in order.
pub open spec fn witness_values(w: Seq<(Seq<char>, int)>) -> Seq<int> {
    w.map_values(|p: (Seq<char>, int)| p.1)
}

pub proof fn lemma_row_dot_concat(m1: Seq<(int, int, int)>, m2: Seq<(int, int, int)>, r: int, w: Seq<int>)
    ensures
        row_dot(m1 + m2, r, w) == row_dot(m1, r, w) + row_dot(m2, r, w),
    decreases m2.len(),
{
    if m2.len() == 0 {
        assert(m1 + m2 =~= m1);
    } else {
        lemma_row_dot_concat(m1, m2.drop_last(), r, w);
        assert((m1 + m2).drop_last() =~= m1 + m2.drop_last());
    }
}

/// Entries of other rows add nothing to row `r`.
pub proof fn lemma_row_dot_absent(m: Seq<(int, int, int)>, r: int, w: Seq<int>)
    requires
        forall|k: int| 0 <= k < m.len() ==> (#[trigger] m[k]).0 != r,
    ensures
        row_dot(m, r, w) == 0,
    decreases m.len(),
{
    if m.len() > 0 {
        lemma_row_dot_absent(m.drop_last(), r, w);
    }
}

/// A row with a single entry in `m`.
pub proof fn lemma_row_dot_single(m: Seq<(int, int, int)>, k: int, r: int, w: Seq<int>)
    requires
        0 <= k < m.len(),
        m[k].0 == r,
        forall|j: int| 0 <= j < m.len() && j != k ==> (#[trigger] m[j]).0 != r,
    ensures
        row_dot(m, r, w) == m[k].2 * z_at(w, m[k].1),
{
    let pre = m.subrange(0, k);
    let post = m.subrange(k + 1, m.len() as int);
    assert(m =~= pre + seq![m[k]] + post);
    lemma_row_dot_concat(pre + seq![m[k]], post, r, w);
    lemma_row_dot_concat(pre, seq![m[k]], r, w);
    assert forall|j: int| 0 <= j < pre.len() implies (#[trigger] pre[j]).0 != r by {
        assert(pre[j] == m[j]);
    }
    assert forall|j: int| 0 <= j < post.len() implies (#[trigger] post[j]).0 != r by {
        assert(post[j] == m[k + 1 + j]);
    }
    lemma_row_dot_absent(pre, r, w);
    lemma_row_dot_absent(post, r, w);
    assert(seq![m[k]].drop_last() =~= Seq::<(int, int, int)>::empty());
    assert(row_dot(Seq::<(int, int, int)>::empty(), r, w) == 0);
}


/// Row `r` of entries that name their variables, with each name valued by `val`.
pub open spec fn named_dot(es: Seq<(int, Seq<char>, int)>, r: int, val: spec_fn(Seq<char>) -> int) -> int
    decreases es.len(),
{
    if es.len() == 0 {
        0
    } else {
        named_dot(es.drop_last(), r, val) + if es.last().0 == r {
            es.last().2 * val(es.last().1)
        } else {
            0
        }
    }
}

pub proof fn lemma_named_dot_concat(x: Seq<(int, Seq<char>, int)>, y: Seq<(int, Seq<char>, int)>, r: int, val: spec_fn(Seq<char>) -> int)
    ensures
        named_dot(x + y, r, val) == named_dot(x, r, val) + named_dot(y, r, val),
    decreases y.len(),
{
    if y.len() == 0 {
        assert(x + y =~= x);
    } else {
        lemma_named_dot_concat(x, y.drop_last(), r, val);
        assert((x + y).drop_last() =~= x + y.drop_last());
    }
}

/// Placing named entries in a table and reading the witness vector at their
/// columns is reading each name's value.
pub proof fn lemma_placed_dot(es: Seq<(int, Seq<char>, int)>, vs: Seq<Seq<char>>, wv: Seq<int>, val: spec_fn(Seq<char>) -> int, r: int)
    requires
        vs.no_duplicates(),
        forall|k: int| 0 <= k < es.len() ==> vs.contains((#[trigger] es[k]).1),
        wv.len() == vs.len(),
        forall|i: int| 0 <= i < vs.len() ==> wv[i] == val(#[trigger] vs[i]),
    ensures
        row_dot(placed(es, vs), r, wv) == named_dot(es, r, val),
    decreases es.len(),
{
    if es.len() > 0 {
        let init = es.drop_last();
        assert forall|k: int| 0 <= k < init.len() implies vs.contains((#[trigger] init[k]).1) by {
            assert(init[k] == es[k]);
        }
        lemma_placed_dot(init, vs, wv, val, r);
        assert(placed(es, vs).drop_last() =~= placed(init, vs));
        let nm = es.last().1;
        assert(vs.contains(es[es.len() - 1].1));
        let c = col(vs, nm);
        assert(0 <= c < vs.len() && vs[c] == nm);
        assert(z_at(wv, c) == val(nm));
    }
}


/// A matrix whose entry `k` lies in row `k`.
pub proof fn lemma_row_dot_diagonal(m: Seq<(int, int, int)>, r: int, w: Seq<int>)
    requires
        forall|k: int| 0 <= k < m.len() ==> (#[trigger] m[k]).0 == k,
    ensures
        row_dot(m, r, w) == if 0 <= r < m.len() { m[r].2 * z_at(w, m[r].1) } else { 0 },
    decreases m.len(),
{
    if m.len() > 0 {
        let init = m.drop_last();
        assert forall|k: int| 0 <= k < init.len() implies (#[trigger] init[k]).0 == k by {
            assert(init[k] == m[k]);
        }
        lemma_row_dot_diagonal(init, r, w);
        if 0 <= r < init.len() {
            assert(init[r] == m[r]);
        }
    }
}


pub proof fn lemma_push_is_concat(s: Seq<(int, int, int)>, e: (int, int, int))
    ensures
        s.push(e) == s + seq![e],
{
    assert(s.push(e) =~= s + seq![e]);
}

} // verus!
