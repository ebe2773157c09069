//! Accumulates R1CS rows and auxiliary-wire definitions from high-level relations.
use vstd::prelude::*;
use vstd::arithmetic::power2::{pow2, lemma_pow2_unfold};
use crate::field::{
    field_add, is_element, lemma_reduce_add, lemma_reduce_mul, lemma_reduce_range,
    lemma_reduce_small, lemma_reduce_sub, modulus, reduce,
};
use crate::lc::{lc_value, terms_wf, LC, Term, Variable};

verus! {

/// A row `a * b == c` as three sequences of terms.
pub type RowView = (Seq<Term>, Seq<Term>, Seq<Term>);

/// How an auxiliary wire's value is computed from earlier wires.
#[derive(Clone, Copy, Debug, PartialEq, Eq, Structural)]
pub enum AuxKind {
    /// The value of the first operand.
    Linear,
    /// The product of the first two operands.
    Product,
    /// With condition `x`: `x * (y - z) + z`.
    Select,
}

/// An auxiliary wire definition as its kind and three operands.
pub type AuxView = (AuxKind, Seq<Term>, Seq<Term>, Seq<Term>);

/// One R1CS row: `a * b == c` over the witness of a step.
#[derive(Debug)]
pub struct Constraint {
    pub a: LC,
    pub b: LC,
    pub c: LC,
}

impl View for Constraint {
    type V = RowView;

    open spec fn view(&self) -> RowView {
        (self.a@, self.b@, self.c@)
    }
}

/// The definition of an auxiliary wire.
#[derive(Debug)]
pub struct AuxComputation {
    pub kind: AuxKind,
    pub x: LC,
    pub y: LC,
    pub z: LC,
}

impl View for AuxComputation {
    type V = AuxView;

    open spec fn view(&self) -> AuxView {
        (self.kind, self.x@, self.y@, self.z@)
    }
}

/// The row holds on the witness of one step.
pub open spec fn row_satisfied(r: RowView, inp: Seq<u64>, aux: Seq<u64>) -> bool {
    reduce(lc_value(r.0, inp, aux) * lc_value(r.1, inp, aux)) == lc_value(r.2, inp, aux)
}

/// The row refers only to `ni` inputs and `na` auxiliary wires.
pub open spec fn row_wf(r: RowView, ni: nat, na: nat) -> bool {
    terms_wf(r.0, ni, na) && terms_wf(r.1, ni, na) && terms_wf(r.2, ni, na)
}

/// The value that a definition gives its auxiliary wire.
pub open spec fn aux_def_value(d: AuxView, inp: Seq<u64>, aux: Seq<u64>) -> int {
    let x = lc_value(d.1, inp, aux);
    let y = lc_value(d.2, inp, aux);
    let z = lc_value(d.3, inp, aux);
    match d.0 {
        AuxKind::Linear => x,
        AuxKind::Product => reduce(x * y),
        AuxKind::Select => reduce(x * (y - z) + z),
    }
}

/// The values of all auxiliary wires of one step, each computed from the inputs
/// and the wires defined before it.
pub open spec fn aux_witness(defs: Seq<AuxView>, inp: Seq<u64>) -> Seq<u64>
    decreases defs.len(),
{
    if defs.len() == 0 {
        Seq::empty()
    } else {
        let prev = aux_witness(defs.drop_last(), inp);
        prev.push(aux_def_value(defs.last(), inp, prev) as u64)
    }
}

/// Packs values big-endian with `w` bits per chunk: the first value is the most significant.
pub open spec fn pack_be_value(vals: Seq<int>, w: nat) -> int
    decreases vals.len(),
{
    if vals.len() == 0 {
        0
    } else {
        pack_be_value(vals.drop_last(), w) * pow2(w) + vals.last()
    }
}

/// Packs values little-endian with `w` bits per chunk: the first value is the least significant.
pub open spec fn pack_le_value(vals: Seq<int>, w: nat) -> int
    decreases vals.len(),
{
    if vals.len() == 0 {
        0
    } else {
        vals[0] + pow2(w) * pack_le_value(vals.drop_first(), w)
    }
}

/// The field values of a sequence of linear combinations.
pub open spec fn lc_values(lcs: Seq<LC>, inp: Seq<u64>, aux: Seq<u64>) -> Seq<int> {
    Seq::new(lcs.len(), |i: int| lc_value(lcs[i]@, inp, aux))
}

/// Every linear combination refers only to `ni` inputs and `na` auxiliary wires.
pub open spec fn lcs_wf(lcs: Seq<LC>, ni: nat, na: nat) -> bool {
    forall|i: int| 0 <= i < lcs.len() ==> terms_wf(#[trigger] lcs[i]@, ni, na)
}

/// The field element `2^w`.
fn pow2_element(w: usize) -> (r: u64)
    ensures
        is_element(r),
        r as int == reduce(pow2(w as nat) as int),
{
    let mut r: u64 = 1;
    let mut i: usize = 0;
    proof {
        lemma_reduce_small(1);
        vstd::arithmetic::power2::lemma2_to64();
    }
    while i < w
        invariant
            i <= w,
            is_element(r),
            r as int == reduce(pow2(i as nat) as int),
        decreases w - i,
    {
        let next = field_add(r, r);
        proof {
            lemma_pow2_unfold((i + 1) as nat);
            lemma_reduce_add(pow2(i as nat) as int, pow2(i as nat) as int);
        }
        r = next;
        i += 1;
    }
    r
}

/// The linear combination `sum_i chunks[i] * 2^(w * (n - 1 - i))`.
pub fn pack_be(chunks: &Vec<LC>, w: usize) -> (r: LC)
    requires
        forall|i: int| 0 <= i < chunks@.len() ==> crate::lc::coeffs_wf(#[trigger] chunks@[i]@),
    ensures
        crate::lc::coeffs_wf(r@),
        forall|ni: nat, na: nat| lcs_wf(chunks@, ni, na) ==> terms_wf(r@, ni, na),
        forall|inp: Seq<u64>, aux: Seq<u64>|
            lc_value(r@, inp, aux) == reduce(pack_be_value(lc_values(chunks@, inp, aux), w as nat)),
{
    let f = pow2_element(w);
    let mut acc = LC { terms: Vec::new() };
    let mut i: usize = 0;
    while i < chunks.len()
        invariant
            i <= chunks@.len(),
            is_element(f),
            f as int == reduce(pow2(w as nat) as int),
            forall|j: int| 0 <= j < chunks@.len() ==> crate::lc::coeffs_wf(#[trigger] chunks@[j]@),
            crate::lc::coeffs_wf(acc@),
            forall|ni: nat, na: nat| lcs_wf(chunks@, ni, na) ==> terms_wf(acc@, ni, na),
            forall|inp: Seq<u64>, aux: Seq<u64>|
                lc_value(acc@, inp, aux)
                    == reduce(pack_be_value(lc_values(chunks@.subrange(0, i as int), inp, aux), w as nat)),
        decreases chunks@.len() - i,
    {
        let shifted = acc.scaled_by(f);
        let next = shifted.plus(&chunks[i]);
        proof {
            assert forall|ni: nat, na: nat| lcs_wf(chunks@, ni, na) implies terms_wf(next@, ni, na) by {
                assert(terms_wf(chunks@[i as int]@, ni, na));
                assert forall|j: int| 0 <= j < next@.len() implies crate::lc::var_wf(#[trigger] next@[j].var, ni, na)
                    && is_element(next@[j].coeff) by {
                    if j < shifted@.len() {
                        assert(next@[j] == shifted@[j]);
                        assert(crate::lc::var_wf(acc@[j].var, ni, na));
                    } else {
                        assert(next@[j] == chunks@[i as int]@[j - shifted@.len()]);
                    }
                }
            }
            assert forall|inp: Seq<u64>, aux: Seq<u64>|
                lc_value(next@, inp, aux)
                    == reduce(pack_be_value(lc_values(chunks@.subrange(0, i + 1), inp, aux), w as nat)) by {
                let vals = lc_values(chunks@.subrange(0, i + 1), inp, aux);
                assert(vals.drop_last() =~= lc_values(chunks@.subrange(0, i as int), inp, aux));
                let p = pack_be_value(vals.drop_last(), w as nat);
                let c = lc_value(chunks@[i as int]@, inp, aux);
                assert(vals.last() == c);
                lemma_reduce_mul(pow2(w as nat) as int, p);
                assert(pow2(w as nat) * p == p * pow2(w as nat)) by (nonlinear_arith);
                lemma_reduce_add(pow2(w as nat) * p, c);
                lemma_reduce_small(c);
                crate::lc::lemma_value_range(chunks@[i as int]@, inp, aux);
            }
        }
        acc = next;
        i += 1;
    }
    assert(chunks@.subrange(0, chunks@.len() as int) =~= chunks@);
    acc
}

/// The linear combination `sum_i chunks[i] * 2^(w * i)`.
pub fn pack_le(chunks: &Vec<LC>, w: usize) -> (r: LC)
    requires
        forall|i: int| 0 <= i < chunks@.len() ==> crate::lc::coeffs_wf(#[trigger] chunks@[i]@),
    ensures
        crate::lc::coeffs_wf(r@),
        forall|ni: nat, na: nat| lcs_wf(chunks@, ni, na) ==> terms_wf(r@, ni, na),
        forall|inp: Seq<u64>, aux: Seq<u64>|
            lc_value(r@, inp, aux) == reduce(pack_le_value(lc_values(chunks@, inp, aux), w as nat)),
{
    let f = pow2_element(w);
    let mut acc = LC { terms: Vec::new() };
    let mut i: usize = chunks.len();
    let ghost n = chunks@.len() as int;
    while i > 0
        invariant
            i <= chunks@.len(),
            n == chunks@.len(),
            is_element(f),
            f as int == reduce(pow2(w as nat) as int),
            forall|j: int| 0 <= j < chunks@.len() ==> crate::lc::coeffs_wf(#[trigger] chunks@[j]@),
            crate::lc::coeffs_wf(acc@),
            forall|ni: nat, na: nat| lcs_wf(chunks@, ni, na) ==> terms_wf(acc@, ni, na),
            forall|inp: Seq<u64>, aux: Seq<u64>|
                lc_value(acc@, inp, aux)
                    == reduce(pack_le_value(lc_values(chunks@.subrange(i as int, n), inp, aux), w as nat)),
        decreases i,
    {
        let shifted = acc.scaled_by(f);
        let next = chunks[i - 1].plus(&shifted);
        proof {
            assert forall|ni: nat, na: nat| lcs_wf(chunks@, ni, na) implies terms_wf(next@, ni, na) by {
                let ch = chunks@[i - 1]@;
                assert(terms_wf(ch, ni, na));
                assert forall|j: int| 0 <= j < next@.len() implies crate::lc::var_wf(#[trigger] next@[j].var, ni, na)
                    && is_element(next@[j].coeff) by {
                    if j < ch.len() {
                        assert(next@[j] == ch[j]);
                    } else {
                        assert(next@[j] == shifted@[j - ch.len()]);
                        assert(crate::lc::var_wf(acc@[j - ch.len()].var, ni, na));
                    }
                }
            }
            assert forall|inp: Seq<u64>, aux: Seq<u64>|
                lc_value(next@, inp, aux)
                    == reduce(pack_le_value(lc_values(chunks@.subrange(i - 1, n), inp, aux), w as nat)) by {
                let vals = lc_values(chunks@.subrange(i - 1, n), inp, aux);
                assert(vals.drop_first() =~= lc_values(chunks@.subrange(i as int, n), inp, aux));
                let p = pack_le_value(vals.drop_first(), w as nat);
                let c = lc_value(chunks@[i - 1]@, inp, aux);
                assert(vals[0] == c);
                lemma_reduce_mul(pow2(w as nat) as int, p);
                lemma_reduce_add(c, pow2(w as nat) * p);
                lemma_reduce_small(c);
                crate::lc::lemma_value_range(chunks@[i - 1]@, inp, aux);
            }
        }
        acc = next;
        i -= 1;
    }
    assert(chunks@.subrange(0, n) =~= chunks@);
    acc
}

/// A value below the modulus that reduces to zero is zero.
proof fn lemma_reduce_diff_zero(x: int, y: int)
    requires
        0 <= x < modulus(),
        0 <= y < modulus(),
    ensures
        (reduce(x - y) == 0) <==> (x == y),
{
    if x >= y {
        lemma_reduce_small(x - y);
    } else {
        vstd::arithmetic::div_mod::lemma_mod_multiples_vanish(1, x - y, modulus());
        lemma_reduce_small(x - y + modulus());
    }
}

/// The rows and auxiliary-wire definitions of one step's circuit.
#[derive(Debug)]
pub struct R1CSBuilder {
    /// The number of input wires of a step.
    pub num_inputs: usize,
    pub constraints: Vec<Constraint>,
    pub aux: Vec<AuxComputation>,
}

impl R1CSBuilder {
    /// The rows as values.
    pub open spec fn rows(&self) -> Seq<RowView> {
        Seq::new(self.constraints@.len(), |i: int| self.constraints@[i]@)
    }

    /// The auxiliary definitions as values.
    pub open spec fn defs(&self) -> Seq<AuxView> {
        Seq::new(self.aux@.len(), |i: int| self.aux@[i]@)
    }

    /// The number of auxiliary wires allocated so far.
    pub open spec fn num_aux(&self) -> nat {
        self.aux@.len()
    }

    /// Every row refers to existing wires, and every auxiliary definition only to
    /// inputs and to auxiliary wires allocated before it.
    pub open spec fn wf(&self) -> bool {
        &&& forall|i: int| 0 <= i < self.rows().len()
            ==> row_wf(#[trigger] self.rows()[i], self.num_inputs as nat, self.num_aux())
        &&& forall|k: int| 0 <= k < self.defs().len() ==> {
            let d = #[trigger] self.defs()[k];
            terms_wf(d.1, self.num_inputs as nat, k as nat) && terms_wf(d.2, self.num_inputs as nat, k as nat)
                && terms_wf(d.3, self.num_inputs as nat, k as nat)
        }
    }

    /// An operand may refer to the inputs and to the auxiliary wires allocated so far.
    pub open spec fn operand_ok(&self, t: Seq<Term>) -> bool {
        terms_wf(t, self.num_inputs as nat, self.num_aux())
    }

    /// `self` keeps every row and wire of `old`, in order, over the same inputs.
    pub open spec fn extends(&self, old: &R1CSBuilder) -> bool {
        &&& self.num_inputs == old.num_inputs
        &&& old.rows().is_prefix_of(self.rows())
        &&& old.defs().is_prefix_of(self.defs())
    }

    /// `self` is `old` with one more row and the same wires.
    pub open spec fn one_row_added(&self, old: &R1CSBuilder) -> bool {
        &&& self.wf()
        &&& self.extends(old)
        &&& self.num_inputs == old.num_inputs
        &&& self.defs() == old.defs()
        &&& self.rows().len() == old.rows().len() + 1
        &&& self.rows().drop_last() == old.rows()
    }

    /// `self` is `old` with one more auxiliary wire, defined by `d`, and one more row.
    pub open spec fn one_wire_added(&self, old: &R1CSBuilder, d: AuxView) -> bool {
        &&& self.wf()
        &&& self.extends(old)
        &&& self.num_inputs == old.num_inputs
        &&& self.defs() == old.defs().push(d)
        &&& self.rows().len() == old.rows().len() + 1
        &&& self.rows().drop_last() == old.rows()
    }

    /// An empty circuit over `num_inputs` input wires.
    pub fn new(num_inputs: usize) -> (r: R1CSBuilder)
        ensures
            r.wf(),
            r.num_inputs == num_inputs,
            r.rows().len() == 0,
            r.defs().len() == 0,
    {
        R1CSBuilder { num_inputs, constraints: Vec::new(), aux: Vec::new() }
    }

    fn push_row(&mut self, a: LC, b: LC, c: LC)
        requires
            old(self).wf(),
            old(self).operand_ok(a@),
            old(self).operand_ok(b@),
            old(self).operand_ok(c@),
        ensures
            final(self).one_row_added(old(self)),
            final(self).rows().last() == (a@, b@, c@),
    {
        let ghost a_v = a@;
        let ghost b_v = b@;
        let ghost c_v = c@;
        self.constraints.push(Constraint { a, b, c });
        assert(self.rows().drop_last() =~= old(self).rows());
        assert(self.defs() =~= old(self).defs());
        assert(self.rows().last() == (a_v, b_v, c_v));
        assert(old(self).rows() =~= self.rows().subrange(0, old(self).rows().len() as int));
        assert forall|i: int| 0 <= i < self.rows().len()
            implies row_wf(#[trigger] self.rows()[i], self.num_inputs as nat, self.num_aux()) by {
            if i < old(self).rows().len() {
                assert(self.rows()[i] == old(self).rows()[i]);
            }
        }
        assert forall|k: int| 0 <= k < self.defs().len() implies {
            let d = #[trigger] self.defs()[k];
            terms_wf(d.1, self.num_inputs as nat, k as nat) && terms_wf(d.2, self.num_inputs as nat, k as nat)
                && terms_wf(d.3, self.num_inputs as nat, k as nat)
        } by {
            assert(self.defs()[k] == old(self).defs()[k]);
        }
    }

    fn push_aux(&mut self, kind: AuxKind, x: LC, y: LC, z: LC) -> (r: usize)
        requires
            old(self).wf(),
            old(self).operand_ok(x@),
            old(self).operand_ok(y@),
            old(self).operand_ok(z@),
        ensures
            r == old(self).num_aux(),
            final(self).num_aux() == old(self).num_aux() + 1,
            final(self).wf(),
            final(self).num_inputs == old(self).num_inputs,
            final(self).defs() == old(self).defs().push((kind, x@, y@, z@)),
            final(self).rows() == old(self).rows(),
            final(self).extends(old(self)),
    {
        let r = self.aux.len();
        let ghost d = (kind, x@, y@, z@);
        self.aux.push(AuxComputation { kind, x, y, z });
        assert(self.defs() =~= old(self).defs().push(d));
        assert(self.rows() =~= old(self).rows());
        assert(old(self).defs() =~= self.defs().subrange(0, old(self).defs().len() as int));
        proof {
            assert forall|i: int| 0 <= i < self.rows().len()
                implies row_wf(#[trigger] self.rows()[i], self.num_inputs as nat, self.num_aux()) by {
                assert(row_wf(old(self).rows()[i], self.num_inputs as nat, old(self).num_aux()));
                lemma_row_wf_grow(self.rows()[i], self.num_inputs as nat, old(self).num_aux(), self.num_aux());
            }
        }
        r
    }

    /// Enforces `a == b`.
    pub fn constrain_eq(&mut self, a: &LC, b: &LC)
        requires
            old(self).wf(),
            old(self).operand_ok(a@),
            old(self).operand_ok(b@),
        ensures
            final(self).one_row_added(old(self)),
            forall|inp: Seq<u64>, aux: Seq<u64>| row_satisfied(final(self).rows().last(), inp, aux)
                <==> lc_value(a@, inp, aux) == lc_value(b@, inp, aux),
    {
        let d = a.minus(b);
        let one = LC::constant(1);
        let zero = LC::constant(0);
        proof {
            lemma_concat_wf(a@, crate::lc::scaled_terms(b@, reduce(-1)), self.num_inputs as nat, self.num_aux());
            lemma_const_wf(1, self.num_inputs as nat, self.num_aux());
            lemma_const_wf(0, self.num_inputs as nat, self.num_aux());
        }
        let ghost dv = d@;
        let ghost onev = one@;
        let ghost zerov = zero@;
        self.push_row(d, one, zero);
        proof {
            assert forall|inp: Seq<u64>, aux: Seq<u64>| row_satisfied(self.rows().last(), inp, aux)
                <==> lc_value(a@, inp, aux) == lc_value(b@, inp, aux) by {
                let va = lc_value(a@, inp, aux);
                let vb = lc_value(b@, inp, aux);
                crate::lc::lemma_value_range(a@, inp, aux);
                crate::lc::lemma_value_range(b@, inp, aux);
                lemma_reduce_small(1);
                lemma_reduce_small(0);
                lemma_reduce_range(va - vb);
                lemma_reduce_small(reduce(va - vb));
                lemma_reduce_diff_zero(va, vb);
                assert(self.rows().last() == (dv, onev, zerov));
                assert(lc_value(dv, inp, aux) == reduce(va - vb));
                assert(lc_value(onev, inp, aux) == 1);
                assert(lc_value(zerov, inp, aux) == 0);
                assert(reduce(va - vb) * 1 == reduce(va - vb));
            }
        }
    }
}

/// Extending is transitive.
pub broadcast proof fn lemma_extends_trans(a: &R1CSBuilder, b: &R1CSBuilder, c: &R1CSBuilder)
    requires
        #[trigger] b.extends(a),
        #[trigger] c.extends(b),
    ensures
        c.extends(a),
{
    assert(a.rows() =~= c.rows().subrange(0, a.rows().len() as int)) by {
        assert(a.rows() =~= b.rows().subrange(0, a.rows().len() as int));
        assert(b.rows() =~= c.rows().subrange(0, b.rows().len() as int));
    }
    assert(a.defs() =~= c.defs().subrange(0, a.defs().len() as int)) by {
        assert(a.defs() =~= b.defs().subrange(0, a.defs().len() as int));
        assert(b.defs() =~= c.defs().subrange(0, b.defs().len() as int));
    }
}

/// Row `r` holds exactly where auxiliary wire `k` carries the value of its definition.
pub open spec fn wire_row(b: &R1CSBuilder, r: int, k: int) -> bool {
    &&& 0 <= r < b.rows().len()
    &&& 0 <= k < b.defs().len()
    &&& forall|inp: Seq<u64>, aux: Seq<u64>| #[trigger] row_satisfied(b.rows()[r], inp, aux)
        <==> reduce(aux[k] as int) == aux_def_value(b.defs()[k], inp, aux)
}

/// Extending a builder keeps the rows that define its wires.
pub broadcast proof fn lemma_wire_row_kept(a: &R1CSBuilder, b: &R1CSBuilder, r: int, k: int)
    requires
        #[trigger] wire_row(a, r, k),
        #[trigger] b.extends(a),
    ensures
        wire_row(b, r, k),
{
    assert(b.rows()[r] == a.rows()[r]) by {
        assert(a.rows() =~= b.rows().subrange(0, a.rows().len() as int));
    }
    assert(b.defs()[k] == a.defs()[k]) by {
        assert(a.defs() =~= b.defs().subrange(0, a.defs().len() as int));
    }
}

proof fn lemma_shift_equiv(x: int, y: int, b: int)
    ensures
        (reduce(x) == reduce(y - b)) <==> (reduce(y) == reduce(x + b)),
{
    lemma_reduce_add(x, b);
    lemma_reduce_add(y - b, b);
    lemma_reduce_sub(y, b);
    lemma_reduce_sub(x + b, b);
    assert(y - b + b == y);
    assert(x + b - b == x);
}

/// The linear combination that is the auxiliary wire `k`.
pub open spec fn aux_lc(k: nat) -> Seq<Term> {
    seq![Term { var: Variable::Auxiliary(k as usize), coeff: 1 }]
}

impl R1CSBuilder {
    /// Enforces `x * (1 - x) == 0`. The values 0 and 1 meet it; that no other value does
    /// rests on the modulus being prime, which is not proved here.
    pub fn constrain_binary(&mut self, x: &LC)
        requires
            old(self).wf(),
            old(self).operand_ok(x@),
        ensures
            final(self).one_row_added(old(self)),
            forall|inp: Seq<u64>, aux: Seq<u64>| row_satisfied(final(self).rows().last(), inp, aux)
                <==> reduce(lc_value(x@, inp, aux) * (1 - lc_value(x@, inp, aux))) == 0,
    {
        let one = LC::constant(1);
        let b = one.minus(x);
        let zero = LC::constant(0);
        let a = x.duplicate();
        proof {
            lemma_const_wf(1, self.num_inputs as nat, self.num_aux());
            lemma_const_wf(0, self.num_inputs as nat, self.num_aux());
            lemma_concat_wf(one@, crate::lc::scaled_terms(x@, reduce(-1)), self.num_inputs as nat, self.num_aux());
        }
        let ghost bv = b@;
        let ghost zerov = zero@;
        self.push_row(a, b, zero);
        proof {
            assert forall|inp: Seq<u64>, aux: Seq<u64>| row_satisfied(self.rows().last(), inp, aux)
                <==> reduce(lc_value(x@, inp, aux) * (1 - lc_value(x@, inp, aux))) == 0 by {
                let vx = lc_value(x@, inp, aux);
                lemma_reduce_small(1);
                lemma_reduce_small(0);
                assert(lc_value(bv, inp, aux) == reduce(1 - vx));
                assert(lc_value(zerov, inp, aux) == 0);
                lemma_reduce_mul(vx, 1 - vx);
            }
        }
    }

    /// Enforces `cond * (a - b) == 0`: where `cond` is 1 this is `a == b`, where it is 0
    /// nothing is enforced. The caller makes sure that `cond` is 0 or 1.
    pub fn constrain_eq_conditional(&mut self, cond: &LC, a: &LC, b: &LC)
        requires
            old(self).wf(),
            old(self).operand_ok(cond@),
            old(self).operand_ok(a@),
            old(self).operand_ok(b@),
        ensures
            final(self).one_row_added(old(self)),
            forall|inp: Seq<u64>, aux: Seq<u64>| row_satisfied(final(self).rows().last(), inp, aux)
                <==> reduce(lc_value(cond@, inp, aux) * (lc_value(a@, inp, aux) - lc_value(b@, inp, aux))) == 0,
    {
        let d = a.minus(b);
        let zero = LC::constant(0);
        let c = cond.duplicate();
        proof {
            lemma_const_wf(0, self.num_inputs as nat, self.num_aux());
            lemma_concat_wf(a@, crate::lc::scaled_terms(b@, reduce(-1)), self.num_inputs as nat, self.num_aux());
        }
        let ghost dv = d@;
        let ghost zerov = zero@;
        self.push_row(c, d, zero);
        proof {
            assert forall|inp: Seq<u64>, aux: Seq<u64>| row_satisfied(self.rows().last(), inp, aux)
                <==> reduce(lc_value(cond@, inp, aux) * (lc_value(a@, inp, aux) - lc_value(b@, inp, aux))) == 0 by {
                let vc = lc_value(cond@, inp, aux);
                let va = lc_value(a@, inp, aux);
                let vb = lc_value(b@, inp, aux);
                lemma_reduce_small(0);
                assert(lc_value(dv, inp, aux) == reduce(va - vb));
                assert(lc_value(zerov, inp, aux) == 0);
                lemma_reduce_mul(vc, va - vb);
            }
        }
    }

    /// Enforces that `target` is the big-endian packing of `bits` at `w` bits per chunk.
    pub fn constrain_pack_be(&mut self, bits: &Vec<LC>, target: &LC, w: usize)
        requires
            old(self).wf(),
            lcs_wf(bits@, old(self).num_inputs as nat, old(self).num_aux()),
            old(self).operand_ok(target@),
        ensures
            final(self).one_row_added(old(self)),
            forall|inp: Seq<u64>, aux: Seq<u64>| row_satisfied(final(self).rows().last(), inp, aux)
                <==> reduce(pack_be_value(lc_values(bits@, inp, aux), w as nat)) == lc_value(target@, inp, aux),
    {
        proof { lemma_lcs_coeffs(bits@, self.num_inputs as nat, self.num_aux()); }
        let packed = pack_be(bits, w);
        self.constrain_eq(&packed, target);
    }

    /// Allocates a wire `y` with `y == cond * a + (1 - cond) * b`, enforced by the row
    /// `cond * (a - b) == y - b`. The caller makes sure that `cond` is 0 or 1.
    pub fn allocate_if_else(&mut self, cond: &LC, a: &LC, b: &LC) -> (r: LC)
        requires
            old(self).wf(),
            old(self).operand_ok(cond@),
            old(self).operand_ok(a@),
            old(self).operand_ok(b@),
        ensures
            final(self).one_wire_added(old(self), (AuxKind::Select, cond@, a@, b@)),
            r@ == aux_lc(old(self).num_aux()),
            old(self).num_aux() <= usize::MAX,
            final(self).operand_ok(r@),
            forall|inp: Seq<u64>, aux: Seq<u64>| row_satisfied(final(self).rows().last(), inp, aux)
                <==> reduce(lc_value(cond@, inp, aux) * (lc_value(a@, inp, aux) - lc_value(b@, inp, aux)))
                    == reduce(aux[old(self).num_aux() as int] - lc_value(b@, inp, aux)),
            wire_row(final(self), old(self).rows().len() as int, old(self).num_aux() as int),
    {
        broadcast use lemma_extends_trans;
        let k = self.push_aux(AuxKind::Select, cond.duplicate(), a.duplicate(), b.duplicate());
        let y = LC::var(Variable::Auxiliary(k));
        proof {
            lemma_terms_wf_grow(cond@, self.num_inputs as nat, k as nat, self.num_aux());
            lemma_terms_wf_grow(a@, self.num_inputs as nat, k as nat, self.num_aux());
            lemma_terms_wf_grow(b@, self.num_inputs as nat, k as nat, self.num_aux());
            lemma_reduce_small(1);
            assert(y@[0].coeff == 1);
        }
        let d = a.minus(b);
        let e = y.minus(b);
        let c = cond.duplicate();
        proof {
            lemma_concat_wf(a@, crate::lc::scaled_terms(b@, reduce(-1)), self.num_inputs as nat, self.num_aux());
            lemma_concat_wf(y@, crate::lc::scaled_terms(b@, reduce(-1)), self.num_inputs as nat, self.num_aux());
        }
        let ghost dv = d@;
        let ghost ev = e@;
        self.push_row(c, d, e);
        proof {
            assert(self.rows().drop_last() == old(self).rows());
            assert forall|inp: Seq<u64>, aux: Seq<u64>| row_satisfied(self.rows().last(), inp, aux)
                <==> reduce(lc_value(cond@, inp, aux) * (lc_value(a@, inp, aux) - lc_value(b@, inp, aux)))
                    == reduce(aux[k as int] - lc_value(b@, inp, aux)) by {
                let vc = lc_value(cond@, inp, aux);
                let va = lc_value(a@, inp, aux);
                let vb = lc_value(b@, inp, aux);
                let vy = lc_value(y@, inp, aux);
                assert(lc_value(dv, inp, aux) == reduce(va - vb));
                assert(lc_value(ev, inp, aux) == reduce(vy - vb));
                assert(vy == reduce(aux[k as int] as int));
                lemma_reduce_sub(aux[k as int] as int, vb);
                lemma_reduce_mul(vc, va - vb);
            }
            assert(self.defs()[k as int] == (AuxKind::Select, cond@, a@, b@));
            assert(self.rows()[old(self).rows().len() as int] == self.rows().last());
            assert forall|inp: Seq<u64>, aux: Seq<u64>| #[trigger] row_satisfied(self.rows()[old(self).rows().len() as int], inp, aux)
                <==> reduce(aux[k as int] as int) == aux_def_value(self.defs()[k as int], inp, aux) by {
                let vc = lc_value(cond@, inp, aux);
                let va = lc_value(a@, inp, aux);
                let vb = lc_value(b@, inp, aux);
                lemma_shift_equiv(vc * (va - vb), aux[k as int] as int, vb);
            }
        }
        y
    }

    /// Allocates a wire `y` with `y == a * b`, enforced by the row `a * b == y`.
    pub fn allocate_prod(&mut self, a: &LC, b: &LC) -> (r: LC)
        requires
            old(self).wf(),
            old(self).operand_ok(a@),
            old(self).operand_ok(b@),
        ensures
            final(self).one_wire_added(old(self), (AuxKind::Product, a@, b@, Seq::<Term>::empty())),
            r@ == aux_lc(old(self).num_aux()),
            old(self).num_aux() <= usize::MAX,
            final(self).operand_ok(r@),
            forall|inp: Seq<u64>, aux: Seq<u64>| row_satisfied(final(self).rows().last(), inp, aux)
                <==> reduce(lc_value(a@, inp, aux) * lc_value(b@, inp, aux))
                    == reduce(aux[old(self).num_aux() as int] as int),
            wire_row(final(self), old(self).rows().len() as int, old(self).num_aux() as int),
    {
        broadcast use lemma_extends_trans;
        let k = self.push_aux(AuxKind::Product, a.duplicate(), b.duplicate(), LC { terms: Vec::new() });
        let y = LC::var(Variable::Auxiliary(k));
        proof {
            lemma_terms_wf_grow(a@, self.num_inputs as nat, k as nat, self.num_aux());
            lemma_terms_wf_grow(b@, self.num_inputs as nat, k as nat, self.num_aux());
            lemma_reduce_small(1);
            assert(y@[0].coeff == 1);
            assert(self.defs() == old(self).defs().push((AuxKind::Product, a@, b@, Seq::<Term>::empty())));
        }
        let ghost yv = y@;
        self.push_row(a.duplicate(), b.duplicate(), y.duplicate());
        proof {
            assert(self.rows().drop_last() == old(self).rows());
            assert forall|inp: Seq<u64>, aux: Seq<u64>| row_satisfied(self.rows().last(), inp, aux)
                <==> reduce(lc_value(a@, inp, aux) * lc_value(b@, inp, aux))
                    == reduce(aux[k as int] as int) by {
                assert(lc_value(yv, inp, aux) == reduce(aux[k as int] as int));
            }
            assert(self.defs()[k as int] == (AuxKind::Product, a@, b@, Seq::<Term>::empty()));
            assert(self.rows()[old(self).rows().len() as int] == self.rows().last());
        }
        y
    }

    fn allocate_linear(&mut self, packed: LC) -> (r: LC)
        requires
            old(self).wf(),
            old(self).operand_ok(packed@),
        ensures
            final(self).one_wire_added(old(self), (AuxKind::Linear, packed@, Seq::<Term>::empty(), Seq::<Term>::empty())),
            r@ == aux_lc(old(self).num_aux()),
            old(self).num_aux() <= usize::MAX,
            final(self).operand_ok(r@),
            forall|inp: Seq<u64>, aux: Seq<u64>| row_satisfied(final(self).rows().last(), inp, aux)
                <==> lc_value(packed@, inp, aux) == reduce(aux[old(self).num_aux() as int] as int),
            wire_row(final(self), old(self).rows().len() as int, old(self).num_aux() as int),
    {
        broadcast use lemma_extends_trans;
        let ghost pv = packed@;
        let k = self.push_aux(AuxKind::Linear, packed.duplicate(), LC { terms: Vec::new() }, LC { terms: Vec::new() });
        let y = LC::var(Variable::Auxiliary(k));
        proof {
            lemma_terms_wf_grow(packed@, self.num_inputs as nat, k as nat, self.num_aux());
            lemma_reduce_small(1);
            assert(y@[0].coeff == 1);
            assert(self.defs() == old(self).defs().push((AuxKind::Linear, pv, Seq::<Term>::empty(), Seq::<Term>::empty())));
        }
        self.constrain_eq(&packed, &y);
        proof {
            assert(self.rows().drop_last() == old(self).rows());
            assert(self.defs()[k as int] == (AuxKind::Linear, pv, Seq::<Term>::empty(), Seq::<Term>::empty()));
            assert(self.rows()[old(self).rows().len() as int] == self.rows().last());
        }
        y
    }

    /// Allocates a wire equal to the big-endian packing of `chunks` at `w` bits per chunk.
    pub fn allocate_pack_be(&mut self, chunks: &Vec<LC>, w: usize) -> (r: LC)
        requires
            old(self).wf(),
            lcs_wf(chunks@, old(self).num_inputs as nat, old(self).num_aux()),
        ensures
            final(self).wf(),
            final(self).extends(old(self)),
            final(self).num_inputs == old(self).num_inputs,
            final(self).defs().len() == old(self).defs().len() + 1,
            final(self).defs().drop_last() == old(self).defs(),
            final(self).defs().last().0 == AuxKind::Linear,
            forall|inp: Seq<u64>, aux: Seq<u64>| lc_value(final(self).defs().last().1, inp, aux)
                == reduce(pack_be_value(lc_values(chunks@, inp, aux), w as nat)),
            final(self).rows().len() == old(self).rows().len() + 1,
            final(self).rows().drop_last() == old(self).rows(),
            r@ == aux_lc(old(self).num_aux()),
            old(self).num_aux() <= usize::MAX,
            final(self).operand_ok(r@),
            forall|inp: Seq<u64>, aux: Seq<u64>| row_satisfied(final(self).rows().last(), inp, aux)
                <==> reduce(pack_be_value(lc_values(chunks@, inp, aux), w as nat))
                    == reduce(aux[old(self).num_aux() as int] as int),
            wire_row(final(self), old(self).rows().len() as int, old(self).num_aux() as int),
    {
        proof { lemma_lcs_coeffs(chunks@, self.num_inputs as nat, self.num_aux()); }
        let packed = pack_be(chunks, w);
        let ghost pv = packed@;
        let r = self.allocate_linear(packed);
        proof {
            assert(self.defs().drop_last() =~= old(self).defs());
            assert forall|inp: Seq<u64>, aux: Seq<u64>| row_satisfied(self.rows().last(), inp, aux)
                <==> reduce(pack_be_value(lc_values(chunks@, inp, aux), w as nat))
                    == reduce(aux[old(self).num_aux() as int] as int) by {
                assert(lc_value(pv, inp, aux) == reduce(pack_be_value(lc_values(chunks@, inp, aux), w as nat)));
            }
        }
        r
    }

    /// Allocates a wire equal to the little-endian packing of `chunks` at `w` bits per chunk.
    pub fn allocate_pack_le(&mut self, chunks: &Vec<LC>, w: usize) -> (r: LC)
        requires
            old(self).wf(),
            lcs_wf(chunks@, old(self).num_inputs as nat, old(self).num_aux()),
        ensures
            final(self).wf(),
            final(self).extends(old(self)),
            final(self).num_inputs == old(self).num_inputs,
            final(self).defs().len() == old(self).defs().len() + 1,
            final(self).defs().drop_last() == old(self).defs(),
            final(self).defs().last().0 == AuxKind::Linear,
            forall|inp: Seq<u64>, aux: Seq<u64>| lc_value(final(self).defs().last().1, inp, aux)
                == reduce(pack_le_value(lc_values(chunks@, inp, aux), w as nat)),
            final(self).rows().len() == old(self).rows().len() + 1,
            final(self).rows().drop_last() == old(self).rows(),
            r@ == aux_lc(old(self).num_aux()),
            old(self).num_aux() <= usize::MAX,
            final(self).operand_ok(r@),
            forall|inp: Seq<u64>, aux: Seq<u64>| row_satisfied(final(self).rows().last(), inp, aux)
                <==> reduce(pack_le_value(lc_values(chunks@, inp, aux), w as nat))
                    == reduce(aux[old(self).num_aux() as int] as int),
            wire_row(final(self), old(self).rows().len() as int, old(self).num_aux() as int),
    {
        proof { lemma_lcs_coeffs(chunks@, self.num_inputs as nat, self.num_aux()); }
        let packed = pack_le(chunks, w);
        let ghost pv = packed@;
        let r = self.allocate_linear(packed);
        proof {
            assert(self.defs().drop_last() =~= old(self).defs());
            assert forall|inp: Seq<u64>, aux: Seq<u64>| row_satisfied(self.rows().last(), inp, aux)
                <==> reduce(pack_le_value(lc_values(chunks@, inp, aux), w as nat))
                    == reduce(aux[old(self).num_aux() as int] as int) by {
                assert(lc_value(pv, inp, aux) == reduce(pack_le_value(lc_values(chunks@, inp, aux), w as nat)));
            }
        }
        r
    }
}

proof fn lemma_lcs_coeffs(lcs: Seq<LC>, ni: nat, na: nat)
    requires
        lcs_wf(lcs, ni, na),
    ensures
        forall|i: int| 0 <= i < lcs.len() ==> crate::lc::coeffs_wf(#[trigger] lcs[i]@),
{
    assert forall|i: int| 0 <= i < lcs.len() implies crate::lc::coeffs_wf(#[trigger] lcs[i]@) by {
        assert(terms_wf(lcs[i]@, ni, na));
    }
}

proof fn lemma_row_wf_grow(r: RowView, ni: nat, na: nat, nb: nat)
    requires
        row_wf(r, ni, na),
        na <= nb,
    ensures
        row_wf(r, ni, nb),
{
    lemma_terms_wf_grow(r.0, ni, na, nb);
    lemma_terms_wf_grow(r.1, ni, na, nb);
    lemma_terms_wf_grow(r.2, ni, na, nb);
}

pub proof fn lemma_terms_wf_grow(t: Seq<Term>, ni: nat, na: nat, nb: nat)
    requires
        terms_wf(t, ni, na),
        na <= nb,
    ensures
        terms_wf(t, ni, nb),
{
    assert forall|i: int| 0 <= i < t.len() implies crate::lc::var_wf(#[trigger] t[i].var, ni, nb) by {
        assert(crate::lc::var_wf(t[i].var, ni, na));
    }
}

proof fn lemma_concat_wf(a: Seq<Term>, b: Seq<Term>, ni: nat, na: nat)
    requires
        terms_wf(a, ni, na),
        crate::lc::coeffs_wf(b),
        forall|i: int| 0 <= i < b.len() ==> crate::lc::var_wf(#[trigger] b[i].var, ni, na),
    ensures
        terms_wf(a + b, ni, na),
{
    assert forall|i: int| 0 <= i < (a + b).len() implies crate::lc::var_wf(#[trigger] (a + b)[i].var, ni, na)
        && is_element((a + b)[i].coeff) by {
        if i >= a.len() {
            assert((a + b)[i] == b[i - a.len()]);
        }
    }
}

proof fn lemma_const_wf(c: int, ni: nat, na: nat)
    ensures
        terms_wf(seq![Term { var: Variable::Constant, coeff: reduce(c) as u64 }], ni, na),
{
    lemma_reduce_range(c);
}

} // verus!
