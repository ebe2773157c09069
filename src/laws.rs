//! Properties of the relations that the builder emits.
use vstd::prelude::*;
use vstd::arithmetic::power2::{pow2, lemma_pow2_adds, lemma_pow2_pos};
use crate::field::{lemma_reduce_small, modulus, reduce};
use crate::lc::{lc_value, Term};
use crate::builder::{
    aux_def_value, aux_witness, pack_be_value, pack_le_value, row_satisfied, AuxKind, AuxView, RowView,
};
use crate::lc::{terms_sum, terms_wf, var_value};

verus! {

/// A row that holds exactly where `x * (1 - x)` is zero (the row that `constrain_binary(x)`
/// adds) holds wherever `x` is 0 or 1.
pub proof fn lemma_binary_row_allows_bits(row: RowView, x: Seq<Term>, inp: Seq<u64>, aux: Seq<u64>)
    requires
        forall|i: Seq<u64>, a: Seq<u64>| row_satisfied(row, i, a)
            <==> reduce(lc_value(x, i, a) * (1 - lc_value(x, i, a))) == 0,
        lc_value(x, inp, aux) == 0 || lc_value(x, inp, aux) == 1,
    ensures
        row_satisfied(row, inp, aux),
{
    let v = lc_value(x, inp, aux);
    assert(v * (1 - v) == 0) by (nonlinear_arith)
        requires v == 0 || v == 1;
    lemma_reduce_small(0);
}

/// A row that holds exactly where `cond * (a - b)` is zero (the row that
/// `constrain_eq_conditional(cond, a, b)` adds) holds for any `a` and `b` where `cond`
/// is 0, and where `cond` is 1 holds exactly when `a == b`.
pub proof fn lemma_conditional_row(row: RowView, cond: Seq<Term>, a: Seq<Term>, b: Seq<Term>,
    inp: Seq<u64>, aux: Seq<u64>)
    requires
        forall|i: Seq<u64>, x: Seq<u64>| row_satisfied(row, i, x)
            <==> reduce(lc_value(cond, i, x) * (lc_value(a, i, x) - lc_value(b, i, x))) == 0,
    ensures
        lc_value(cond, inp, aux) == 0 ==> row_satisfied(row, inp, aux),
        lc_value(cond, inp, aux) == 1 ==>
            (row_satisfied(row, inp, aux) <==> lc_value(a, inp, aux) == lc_value(b, inp, aux)),
{
    let c = lc_value(cond, inp, aux);
    let va = lc_value(a, inp, aux);
    let vb = lc_value(b, inp, aux);
    crate::lc::lemma_value_range(a, inp, aux);
    crate::lc::lemma_value_range(b, inp, aux);
    lemma_reduce_small(0);
    if c == 0 {
        assert(c * (va - vb) == 0);
    }
    if c == 1 {
        assert(c * (va - vb) == va - vb);
        if va >= vb {
            lemma_reduce_small(va - vb);
        } else {
            vstd::arithmetic::div_mod::lemma_mod_multiples_vanish(1, va - vb, modulus());
            lemma_reduce_small(va - vb + modulus());
        }
    }
}

/// The `k` chunks of `w` bits of `v`, most significant first.
pub open spec fn be_chunks(v: nat, w: nat, k: nat) -> Seq<int>
    decreases k,
{
    if k == 0 {
        Seq::empty()
    } else {
        be_chunks(v / pow2(w), w, (k - 1) as nat).push((v % pow2(w)) as int)
    }
}

proof fn lemma_pack_be_chunks(v: nat, w: nat, k: nat)
    ensures
        pack_be_value(be_chunks(v, w, k), w) == v % pow2(w * k),
    decreases k,
{
    lemma_pow2_pos(w);
    if k == 0 {
        assert(w * k == 0) by (nonlinear_arith) requires k == 0;
        vstd::arithmetic::power2::lemma2_to64();
    } else {
        let km = (k - 1) as nat;
        lemma_pack_be_chunks(v / pow2(w), w, km);
        let s = be_chunks(v, w, k);
        assert(s.drop_last() == be_chunks(v / pow2(w), w, km));
        assert(w + w * km == w * k) by (nonlinear_arith) requires km == k - 1;
        lemma_pow2_adds(w, w * km);
        lemma_pow2_pos(w * km);
        vstd::arithmetic::div_mod::lemma_mod_breakdown(v as int, pow2(w) as int, pow2(w * km) as int);
        assert(pow2(w) * ((v / pow2(w)) % pow2(w * km)) == ((v / pow2(w)) % pow2(w * km)) * pow2(w))
            by (nonlinear_arith);
    }
}

proof fn lemma_pack_le_reverse(s: Seq<int>, w: nat)
    ensures
        pack_le_value(s.reverse(), w) == pack_be_value(s, w),
    decreases s.len(),
{
    if s.len() > 0 {
        lemma_pack_le_reverse(s.drop_last(), w);
        let r = s.reverse();
        assert(r.drop_first() =~= s.drop_last().reverse());
        assert(r[0] == s.last());
        assert(pow2(w) * pack_be_value(s.drop_last(), w) == pack_be_value(s.drop_last(), w) * pow2(w))
            by (nonlinear_arith);
    }
}

/// Packing the `k` chunks of `w` bits of a `w * k`-bit value gives the value back, big-endian
/// from the chunks most significant first, little-endian from them in reverse order; the
/// value must be a field element.
pub proof fn lemma_pack_round_trip(v: nat, w: nat, k: nat)
    requires
        v < pow2(w * k),
        v < modulus(),
    ensures
        reduce(pack_be_value(be_chunks(v, w, k), w)) == v,
        reduce(pack_le_value(be_chunks(v, w, k).reverse(), w)) == v,
{
    lemma_pack_be_chunks(v, w, k);
    vstd::arithmetic::div_mod::lemma_small_mod(v, pow2(w * k));
    lemma_pack_le_reverse(be_chunks(v, w, k), w);
    lemma_reduce_small(v as int);
}

proof fn lemma_sum_depends_on_prefix(t: Seq<Term>, ni: nat, k: nat, inp: Seq<u64>, p: Seq<u64>, q: Seq<u64>)
    requires
        terms_wf(t, ni, k),
        p.len() >= k,
        q.len() >= k,
        forall|i: int| 0 <= i < k ==> p[i] == q[i],
    ensures
        terms_sum(t, inp, p) == terms_sum(t, inp, q),
    decreases t.len(),
{
    if t.len() > 0 {
        let t0 = t.drop_last();
        assert(terms_wf(t0, ni, k)) by {
            assert forall|i: int| 0 <= i < t0.len() implies crate::lc::var_wf(#[trigger] t0[i].var, ni, k)
                && crate::field::is_element(t0[i].coeff) by {
                assert(t0[i] == t[i]);
            }
        }
        lemma_sum_depends_on_prefix(t0, ni, k, inp, p, q);
        assert(crate::lc::var_wf(t[t.len() - 1].var, ni, k));
        assert(var_value(t.last().var, inp, p) == var_value(t.last().var, inp, q));
    }
}

proof fn lemma_witness_prefix(defs: Seq<AuxView>, inp: Seq<u64>, j: int)
    requires
        0 <= j <= defs.len(),
    ensures
        aux_witness(defs.subrange(0, j), inp) == aux_witness(defs, inp).subrange(0, j),
        aux_witness(defs, inp).len() == defs.len(),
    decreases defs.len(),
{
    if defs.len() > 0 {
        lemma_witness_prefix(defs.drop_last(), inp, if j < defs.len() { j } else { defs.len() - 1 });
        if j == defs.len() {
            assert(defs.subrange(0, j) =~= defs);
            assert(aux_witness(defs, inp).subrange(0, j) =~= aux_witness(defs, inp));
        } else {
            assert(defs.drop_last().subrange(0, j) =~= defs.subrange(0, j));
            assert(aux_witness(defs, inp).subrange(0, j) =~= aux_witness(defs.drop_last(), inp).subrange(0, j));
        }
    } else {
        assert(defs.subrange(0, j) =~= defs);
        assert(aux_witness(defs, inp).subrange(0, j) =~= aux_witness(defs, inp));
    }
}

/// Each value of the auxiliary witness is its wire's definition evaluated on that same
/// witness: generating the witness and checking the rows agree on every wire.
pub proof fn lemma_aux_witness_value(defs: Seq<AuxView>, inp: Seq<u64>, ni: nat, k: int)
    requires
        0 <= k < defs.len(),
        forall|j: int| 0 <= j < defs.len() ==> {
            let d = #[trigger] defs[j];
            terms_wf(d.1, ni, j as nat) && terms_wf(d.2, ni, j as nat) && terms_wf(d.3, ni, j as nat)
        },
    ensures
        aux_witness(defs, inp)[k] as int == aux_def_value(defs[k], inp, aux_witness(defs, inp)),
{
    let w = aux_witness(defs, inp);
    let head = defs.subrange(0, k + 1);
    lemma_witness_prefix(defs, inp, k + 1);
    lemma_witness_prefix(defs, inp, k);
    assert(head.drop_last() =~= defs.subrange(0, k));
    assert(head.last() == defs[k]);
    let prev = aux_witness(defs.subrange(0, k), inp);
    assert(prev == w.subrange(0, k));
    assert(w[k] == aux_witness(head, inp)[k]);
    let d = defs[k];
    assert(terms_wf(d.1, ni, k as nat) && terms_wf(d.2, ni, k as nat) && terms_wf(d.3, ni, k as nat));
    lemma_sum_depends_on_prefix(d.1, ni, k as nat, inp, prev, w);
    lemma_sum_depends_on_prefix(d.2, ni, k as nat, inp, prev, w);
    lemma_sum_depends_on_prefix(d.3, ni, k as nat, inp, prev, w);
    let v = aux_def_value(d, inp, prev);
    assert(0 <= v < modulus()) by {
        crate::lc::lemma_value_range(d.1, inp, prev);
        crate::field::lemma_reduce_range(lc_value(d.1, inp, prev) * lc_value(d.2, inp, prev));
        crate::field::lemma_reduce_range(lc_value(d.1, inp, prev)
            * (lc_value(d.2, inp, prev) - lc_value(d.3, inp, prev)) + lc_value(d.3, inp, prev));
    }
}

/// A row added by `allocate_if_else(cond, a, b)` for wire `k` holds wherever the wire
/// carries its definition's value.
pub proof fn lemma_select_row_complete(row: RowView, cond: Seq<Term>, a: Seq<Term>, b: Seq<Term>, k: int,
    inp: Seq<u64>, aux: Seq<u64>)
    requires
        forall|i: Seq<u64>, x: Seq<u64>| row_satisfied(row, i, x)
            <==> reduce(lc_value(cond, i, x) * (lc_value(a, i, x) - lc_value(b, i, x)))
                == reduce(x[k] - lc_value(b, i, x)),
        aux[k] as int == aux_def_value((AuxKind::Select, cond, a, b), inp, aux),
    ensures
        row_satisfied(row, inp, aux),
{
    let c = lc_value(cond, inp, aux);
    let va = lc_value(a, inp, aux);
    let vb = lc_value(b, inp, aux);
    crate::field::lemma_reduce_sub(c * (va - vb) + vb, vb);
    assert(c * (va - vb) + vb - vb == c * (va - vb));
}

/// A row added by `allocate_prod(a, b)` for wire `k` holds wherever the wire carries its
/// definition's value.
pub proof fn lemma_product_row_complete(row: RowView, a: Seq<Term>, b: Seq<Term>, z: Seq<Term>, k: int,
    inp: Seq<u64>, aux: Seq<u64>)
    requires
        forall|i: Seq<u64>, x: Seq<u64>| row_satisfied(row, i, x)
            <==> reduce(lc_value(a, i, x) * lc_value(b, i, x)) == reduce(x[k] as int),
        aux[k] as int == aux_def_value((AuxKind::Product, a, b, z), inp, aux),
    ensures
        row_satisfied(row, inp, aux),
{
    crate::field::lemma_reduce_twice(lc_value(a, inp, aux) * lc_value(b, inp, aux));
}

/// A row added by `allocate_pack_be` or `allocate_pack_le` for wire `k`, whose definition is
/// the packed linear combination, holds wherever the wire carries that value.
pub proof fn lemma_linear_row_complete(row: RowView, packed: Seq<Term>, y: Seq<Term>, z: Seq<Term>, k: int,
    inp: Seq<u64>, aux: Seq<u64>)
    requires
        forall|i: Seq<u64>, x: Seq<u64>| row_satisfied(row, i, x)
            <==> lc_value(packed, i, x) == reduce(x[k] as int),
        aux[k] as int == aux_def_value((AuxKind::Linear, packed, y, z), inp, aux),
    ensures
        row_satisfied(row, inp, aux),
{
    crate::lc::lemma_value_range(packed, inp, aux);
    lemma_reduce_small(lc_value(packed, inp, aux));
}

} // verus!
