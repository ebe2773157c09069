//! Linear combinations: affine functions of circuit wires.
use vstd::prelude::*;
use crate::field::{
    field_add, field_from_i64, field_mul, field_sub, is_element, lemma_reduce_add,
    lemma_reduce_mul, lemma_reduce_range, lemma_reduce_small, lemma_reduce_twice, reduce,
};

verus! {

/// A slot of the per-step witness.
#[derive(Clone, Copy, Debug, PartialEq, Eq, Structural)]
pub enum Variable {
    /// The input wire at this position of the input enumeration.
    Input(usize),
    /// The auxiliary wire allocated at this position.
    Auxiliary(usize),
    /// The constant one.
    Constant,
}

/// One weighted term of a linear combination; the coefficient is a field element.
#[derive(Clone, Copy, Debug, PartialEq, Eq, Structural)]
pub struct Term {
    pub var: Variable,
    pub coeff: u64,
}

/// A sum of weighted terms.
#[derive(Debug)]
pub struct LC {
    pub terms: Vec<Term>,
}

impl View for LC {
    type V = Seq<Term>;

    open spec fn view(&self) -> Seq<Term> {
        self.terms@
    }
}

/// The value of a variable, given the input and auxiliary values of one step.
pub open spec fn var_value(v: Variable, inp: Seq<u64>, aux: Seq<u64>) -> int {
    match v {
        Variable::Input(i) => inp[i as int] as int,
        Variable::Auxiliary(i) => aux[i as int] as int,
        Variable::Constant => 1,
    }
}

/// The variable exists among `ni` inputs and `na` auxiliary wires.
pub open spec fn var_wf(v: Variable, ni: nat, na: nat) -> bool {
    match v {
        Variable::Input(i) => i < ni,
        Variable::Auxiliary(i) => i < na,
        Variable::Constant => true,
    }
}

/// Every coefficient is a field element.
pub open spec fn coeffs_wf(t: Seq<Term>) -> bool {
    forall|i: int| 0 <= i < t.len() ==> is_element(#[trigger] t[i].coeff)
}

/// Every term names an existing variable and carries a field element.
pub open spec fn terms_wf(t: Seq<Term>, ni: nat, na: nat) -> bool {
    &&& coeffs_wf(t)
    &&& forall|i: int| 0 <= i < t.len() ==> var_wf(#[trigger] t[i].var, ni, na)
}

/// The integer sum of the terms, before reduction into the field.
pub open spec fn terms_sum(t: Seq<Term>, inp: Seq<u64>, aux: Seq<u64>) -> int
    decreases t.len(),
{
    if t.len() == 0 {
        0
    } else {
        terms_sum(t.drop_last(), inp, aux) + t.last().coeff * var_value(t.last().var, inp, aux)
    }
}

/// The field value of a linear combination on one step's witness.
pub open spec fn lc_value(t: Seq<Term>, inp: Seq<u64>, aux: Seq<u64>) -> int {
    reduce(terms_sum(t, inp, aux))
}

/// The sum over a concatenation is the sum of the sums.
pub proof fn lemma_sum_concat(a: Seq<Term>, b: Seq<Term>, inp: Seq<u64>, aux: Seq<u64>)
    ensures
        terms_sum(a + b, inp, aux) == terms_sum(a, inp, aux) + terms_sum(b, inp, aux),
    decreases b.len(),
{
    if b.len() > 0 {
        assert((a + b).drop_last() =~= a + b.drop_last());
        lemma_sum_concat(a, b.drop_last(), inp, aux);
    } else {
        assert(a + b =~= a);
    }
}

/// The terms of `t` with every coefficient multiplied by `k` in the field.
pub open spec fn scaled_terms(t: Seq<Term>, k: int) -> Seq<Term> {
    Seq::new(t.len(), |i: int| Term { var: t[i].var, coeff: reduce(k * t[i].coeff) as u64 })
}

/// Scaling every coefficient scales the value.
pub proof fn lemma_sum_scaled(n: Seq<Term>, t: Seq<Term>, k: int, inp: Seq<u64>, aux: Seq<u64>)
    requires
        n == scaled_terms(t, k),
    ensures
        reduce(terms_sum(n, inp, aux)) == reduce(k * terms_sum(t, inp, aux)),
    decreases t.len(),
{
    if t.len() > 0 {
        let n0 = n.drop_last();
        let t0 = t.drop_last();
        assert(n0 =~= scaled_terms(t0, k));
        lemma_sum_scaled(n0, t0, k, inp, aux);
        let c = t.last().coeff as int;
        let v = var_value(t.last().var, inp, aux);
        let s0 = terms_sum(t0, inp, aux);
        let m0 = terms_sum(n0, inp, aux);
        assert(n.last() == n[n.len() - 1]);
        assert(t.last() == t[t.len() - 1]);
        let nc = n.last().coeff as int;
        lemma_reduce_range(k * c);
        assert(nc == reduce(k * c));
        lemma_reduce_add(m0, nc * v);
        lemma_reduce_mul(k * c, v);
        lemma_reduce_add(k * s0, k * c * v);
        assert(k * (s0 + c * v) == k * s0 + k * c * v) by (nonlinear_arith);
        lemma_reduce_add(k * s0, reduce(k * c * v));
        lemma_reduce_add(reduce(k * s0), k * c * v);
    }
}

pub proof fn lemma_value_concat(a: Seq<Term>, b: Seq<Term>, inp: Seq<u64>, aux: Seq<u64>)
    ensures
        lc_value(a + b, inp, aux) == reduce(lc_value(a, inp, aux) + lc_value(b, inp, aux)),
{
    lemma_sum_concat(a, b, inp, aux);
    lemma_reduce_add(terms_sum(a, inp, aux), terms_sum(b, inp, aux));
}

pub proof fn lemma_value_range(t: Seq<Term>, inp: Seq<u64>, aux: Seq<u64>)
    ensures
        0 <= lc_value(t, inp, aux) < crate::field::modulus(),
{
    lemma_reduce_range(terms_sum(t, inp, aux));
}

impl LC {
    /// The linear combination that is the constant `c`, reduced into the field.
    pub fn constant(c: i64) -> (r: LC)
        ensures
            r@ == seq![Term { var: Variable::Constant, coeff: reduce(c as int) as u64 }],
            forall|inp: Seq<u64>, aux: Seq<u64>| lc_value(r@, inp, aux) == reduce(c as int),
            forall|ni: nat, na: nat| #[trigger] terms_wf(r@, ni, na),
    {
        let coeff = field_from_i64(c);
        let mut terms: Vec<Term> = Vec::new();
        terms.push(Term { var: Variable::Constant, coeff });
        let r = LC { terms };
        proof {
            assert forall|inp: Seq<u64>, aux: Seq<u64>| lc_value(r@, inp, aux) == reduce(c as int) by {
                assert(r@.drop_last() =~= Seq::<Term>::empty());
                assert(terms_sum(r@.drop_last(), inp, aux) == 0);
                assert(r@.last() == r@[0]);
                assert(terms_sum(r@, inp, aux) == 0 + r@[0].coeff * 1);
                lemma_reduce_range(c as int);
                lemma_reduce_twice(c as int);
            }
        }
        r
    }

    /// The linear combination `c * v`.
    pub fn term(v: Variable, c: i64) -> (r: LC)
        ensures
            r@ == seq![Term { var: v, coeff: reduce(c as int) as u64 }],
            forall|ni: nat, na: nat| var_wf(v, ni, na) ==> #[trigger] terms_wf(r@, ni, na),
            forall|inp: Seq<u64>, aux: Seq<u64>|
                lc_value(r@, inp, aux) == reduce(c * var_value(v, inp, aux)),
    {
        let coeff = field_from_i64(c);
        let mut terms: Vec<Term> = Vec::new();
        terms.push(Term { var: v, coeff });
        let r = LC { terms };
        proof {
            assert forall|inp: Seq<u64>, aux: Seq<u64>|
                lc_value(r@, inp, aux) == reduce(c * var_value(v, inp, aux)) by {
                assert(r@.drop_last() =~= Seq::<Term>::empty());
                assert(terms_sum(r@.drop_last(), inp, aux) == 0);
                assert(r@.last() == r@[0]);
                assert(terms_sum(r@, inp, aux) == 0 + r@[0].coeff * var_value(v, inp, aux));
                lemma_reduce_range(c as int);
                lemma_reduce_mul(c as int, var_value(v, inp, aux));
            }
        }
        r
    }

    /// The linear combination that is the single variable `v`.
    pub fn var(v: Variable) -> (r: LC)
        ensures
            r@ == seq![Term { var: v, coeff: 1 }],
            forall|ni: nat, na: nat| var_wf(v, ni, na) ==> #[trigger] terms_wf(r@, ni, na),
            forall|inp: Seq<u64>, aux: Seq<u64>|
                lc_value(r@, inp, aux) == reduce(var_value(v, inp, aux)),
    {
        let r = LC::term(v, 1);
        proof { lemma_reduce_small(1); }
        r
    }

    /// A copy of this linear combination.
    pub fn duplicate(&self) -> (r: LC)
        ensures
            r@ == self@,
            forall|ni: nat, na: nat| terms_wf(self@, ni, na) ==> #[trigger] terms_wf(r@, ni, na),
    {
        let mut terms: Vec<Term> = Vec::new();
        let mut i: usize = 0;
        while i < self.terms.len()
            invariant
                i <= self@.len(),
                terms@ == self@.subrange(0, i as int),
            decreases self@.len() - i,
        {
            terms.push(self.terms[i]);
            i += 1;
            assert(terms@ =~= self@.subrange(0, i as int));
        }
        assert(terms@ =~= self@);
        LC { terms }
    }

    /// The sum of two linear combinations; its terms are those of `self`, then those of `o`.
    pub fn plus(&self, o: &LC) -> (r: LC)
        ensures
            r@ == self@ + o@,
            forall|ni: nat, na: nat| terms_wf(self@, ni, na) && terms_wf(o@, ni, na) ==> #[trigger] terms_wf(r@, ni, na),
            forall|inp: Seq<u64>, aux: Seq<u64>|
                lc_value(r@, inp, aux) == reduce(lc_value(self@, inp, aux) + lc_value(o@, inp, aux)),
    {
        let mut terms: Vec<Term> = Vec::new();
        let mut i: usize = 0;
        while i < self.terms.len()
            invariant
                i <= self@.len(),
                terms@ == self@.subrange(0, i as int),
            decreases self@.len() - i,
        {
            terms.push(self.terms[i]);
            i += 1;
            assert(terms@ =~= self@.subrange(0, i as int));
        }
        assert(terms@ =~= self@);
        let mut j: usize = 0;
        while j < o.terms.len()
            invariant
                j <= o@.len(),
                terms@ == self@ + o@.subrange(0, j as int),
            decreases o@.len() - j,
        {
            terms.push(o.terms[j]);
            j += 1;
            assert(terms@ =~= self@ + o@.subrange(0, j as int));
        }
        assert(terms@ =~= self@ + o@);
        let r = LC { terms };
        proof {
            assert forall|inp: Seq<u64>, aux: Seq<u64>|
                lc_value(r@, inp, aux) == reduce(lc_value(self@, inp, aux) + lc_value(o@, inp, aux)) by {
                lemma_value_concat(self@, o@, inp, aux);
            }
        }
        r
    }

    /// This linear combination with every coefficient multiplied by the field element `kf`.
    pub fn scaled_by(&self, kf: u64) -> (r: LC)
        requires
            coeffs_wf(self@),
            is_element(kf),
        ensures
            r@ == scaled_terms(self@, kf as int),
            coeffs_wf(r@),
            forall|ni: nat, na: nat| terms_wf(self@, ni, na) ==> #[trigger] terms_wf(r@, ni, na),
            forall|inp: Seq<u64>, aux: Seq<u64>|
                lc_value(r@, inp, aux) == reduce(kf * lc_value(self@, inp, aux)),
    {
        let mut terms: Vec<Term> = Vec::new();
        let mut i: usize = 0;
        while i < self.terms.len()
            invariant
                i <= self@.len(),
                is_element(kf),
                coeffs_wf(self@),
                terms@ == scaled_terms(self@.subrange(0, i as int), kf as int),
            decreases self@.len() - i,
        {
            let t = self.terms[i];
            let c = field_mul(t.coeff, kf);
            proof {
                assert(t.coeff * kf == kf * t.coeff) by (nonlinear_arith);
            }
            terms.push(Term { var: t.var, coeff: c });
            i += 1;
            assert(terms@ =~= scaled_terms(self@.subrange(0, i as int), kf as int));
        }
        assert(self@.subrange(0, self@.len() as int) =~= self@);
        let r = LC { terms };
        proof {
            assert forall|inp: Seq<u64>, aux: Seq<u64>|
                lc_value(r@, inp, aux) == reduce(kf * lc_value(self@, inp, aux)) by {
                lemma_sum_scaled(r@, self@, kf as int, inp, aux);
                lemma_reduce_mul(kf as int, terms_sum(self@, inp, aux));
            }
            assert forall|j: int| 0 <= j < r@.len() implies is_element(#[trigger] r@[j].coeff) by {
                lemma_reduce_range(kf * self@[j].coeff);
            }
        }
        r
    }

    /// This linear combination with every coefficient multiplied by `k`.
    pub fn scaled(&self, k: i64) -> (r: LC)
        requires
            coeffs_wf(self@),
        ensures
            r@ == scaled_terms(self@, reduce(k as int)),
            coeffs_wf(r@),
            forall|ni: nat, na: nat| terms_wf(self@, ni, na) ==> #[trigger] terms_wf(r@, ni, na),
            forall|inp: Seq<u64>, aux: Seq<u64>|
                lc_value(r@, inp, aux) == reduce(k * lc_value(self@, inp, aux)),
    {
        let kf = field_from_i64(k);
        let r = self.scaled_by(kf);
        proof {
            assert forall|inp: Seq<u64>, aux: Seq<u64>|
                lc_value(r@, inp, aux) == reduce(k * lc_value(self@, inp, aux)) by {
                lemma_reduce_mul(k as int, lc_value(self@, inp, aux));
            }
        }
        r
    }

    /// The difference `self - o`.
    pub fn minus(&self, o: &LC) -> (r: LC)
        requires
            coeffs_wf(o@),
        ensures
            r@ == self@ + scaled_terms(o@, reduce(-1)),
            forall|ni: nat, na: nat| terms_wf(self@, ni, na) && terms_wf(o@, ni, na) ==> #[trigger] terms_wf(r@, ni, na),
            forall|inp: Seq<u64>, aux: Seq<u64>|
                lc_value(r@, inp, aux) == reduce(lc_value(self@, inp, aux) - lc_value(o@, inp, aux)),
    {
        let n = o.scaled(-1);
        let r = self.plus(&n);
        proof {
            assert forall|inp: Seq<u64>, aux: Seq<u64>|
                lc_value(r@, inp, aux) == reduce(lc_value(self@, inp, aux) - lc_value(o@, inp, aux)) by {
                let va = lc_value(self@, inp, aux);
                let vb = lc_value(o@, inp, aux);
                lemma_reduce_add(va, -1 * vb);
                assert(va + -1 * vb == va - vb);
            }
        }
        r
    }

    /// The value of this linear combination on one step's witness.
    pub fn evaluate(&self, inp: &Vec<u64>, aux: &Vec<u64>) -> (r: u64)
        requires
            terms_wf(self@, inp@.len(), aux@.len()),
            forall|i: int| 0 <= i < inp@.len() ==> is_element(#[trigger] inp@[i]),
            forall|i: int| 0 <= i < aux@.len() ==> is_element(#[trigger] aux@[i]),
        ensures
            is_element(r),
            r as int == lc_value(self@, inp@, aux@),
    {
        let mut acc: u64 = 0;
        let mut i: usize = 0;
        proof { lemma_reduce_small(0); }
        while i < self.terms.len()
            invariant
                i <= self@.len(),
                terms_wf(self@, inp@.len(), aux@.len()),
                forall|j: int| 0 <= j < inp@.len() ==> is_element(#[trigger] inp@[j]),
                forall|j: int| 0 <= j < aux@.len() ==> is_element(#[trigger] aux@[j]),
                is_element(acc),
                acc as int == lc_value(self@.subrange(0, i as int), inp@, aux@),
            decreases self@.len() - i,
        {
            let t = self.terms[i];
            assert(var_wf(self@[i as int].var, inp@.len(), aux@.len()));
            let v: u64 = match t.var {
                Variable::Input(j) => inp[j],
                Variable::Auxiliary(j) => aux[j],
                Variable::Constant => 1,
            };
            let prod = field_mul(t.coeff, v);
            let ghost prev = self@.subrange(0, i as int);
            acc = field_add(acc, prod);
            i += 1;
            proof {
                let cur = self@.subrange(0, i as int);
                assert(cur.drop_last() =~= prev);
                assert(cur.last() == t);
                lemma_reduce_add(terms_sum(prev, inp@, aux@), t.coeff * v);
                lemma_reduce_add(terms_sum(prev, inp@, aux@), prod as int);
            }
        }
        assert(self@.subrange(0, self@.len() as int) =~= self@);
        acc
    }
}

} // verus!
