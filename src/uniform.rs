//! Replicates one step's circuit across the steps of an execution and checks a witness.
use vstd::prelude::*;
use crate::field::{field_mul, field_sub, field_add, is_element, lemma_reduce_range, modulus, reduce};
use crate::lc::{lc_value, LC};
use crate::builder::{aux_def_value, aux_witness, row_satisfied, AuxKind, AuxView, R1CSBuilder};

verus! {

/// Values laid out by wire, then by step: the values of step `s` in one column.
pub open spec fn column(m: Seq<Vec<u64>>, s: int) -> Seq<u64> {
    Seq::new(m.len(), |w: int| m[w]@[s])
}

/// `m` has `rows` rows of `cols` field elements each.
pub open spec fn is_matrix(m: Seq<Vec<u64>>, rows: nat, cols: nat) -> bool {
    &&& m.len() == rows
    &&& forall|i: int| 0 <= i < rows ==> (#[trigger] m[i])@.len() == cols
    &&& forall|i: int, j: int| 0 <= i < rows && 0 <= j < cols ==> is_element(#[trigger] m[i]@[j])
}

/// The first row, with the step, whose equation `a * b == c` fails.
#[derive(Clone, Copy, Debug, PartialEq, Eq, Structural)]
pub struct UnsatisfiedRow {
    pub constraint: usize,
    pub step: usize,
}

/// One step's circuit, replicated over `num_steps` steps.
#[derive(Debug)]
pub struct CombinedUniformBuilder {
    pub uniform: R1CSBuilder,
    pub num_steps: usize,
}

proof fn lemma_aux_witness_elements(defs: Seq<AuxView>, inp: Seq<u64>)
    ensures
        aux_witness(defs, inp).len() == defs.len(),
        forall|k: int| 0 <= k < defs.len() ==> is_element(#[trigger] aux_witness(defs, inp)[k]),
    decreases defs.len(),
{
    if defs.len() > 0 {
        lemma_aux_witness_elements(defs.drop_last(), inp);
        let prev = aux_witness(defs.drop_last(), inp);
        let d = defs.last();
        lemma_def_value_range(d, inp, prev);
    }
}

proof fn lemma_def_value_range(d: AuxView, inp: Seq<u64>, aux: Seq<u64>)
    ensures
        0 <= aux_def_value(d, inp, aux) < modulus(),
{
    let x = lc_value(d.1, inp, aux);
    let y = lc_value(d.2, inp, aux);
    let z = lc_value(d.3, inp, aux);
    crate::lc::lemma_value_range(d.1, inp, aux);
    lemma_reduce_range(x * y);
    lemma_reduce_range(x * (y - z) + z);
}

impl CombinedUniformBuilder {
    /// Replicates `uniform` over `num_steps` steps.
    pub fn construct(uniform: R1CSBuilder, num_steps: usize) -> (r: CombinedUniformBuilder)
        requires
            uniform.wf(),
        ensures
            r.uniform == uniform,
            r.num_steps == num_steps,
    {
        CombinedUniformBuilder { uniform, num_steps }
    }

    /// The auxiliary values of one step, in the order in which the wires were allocated.
    pub fn step_aux(&self, inp: &Vec<u64>) -> (r: Vec<u64>)
        requires
            self.uniform.wf(),
            inp@.len() == self.uniform.num_inputs,
            forall|i: int| 0 <= i < inp@.len() ==> is_element(#[trigger] inp@[i]),
        ensures
            r@ == aux_witness(self.uniform.defs(), inp@),
    {
        let ghost defs = self.uniform.defs();
        let mut r: Vec<u64> = Vec::new();
        let mut k: usize = 0;
        while k < self.uniform.aux.len()
            invariant
                self.uniform.wf(),
                defs == self.uniform.defs(),
                k <= defs.len(),
                inp@.len() == self.uniform.num_inputs,
                forall|i: int| 0 <= i < inp@.len() ==> is_element(#[trigger] inp@[i]),
                r@ == aux_witness(defs.subrange(0, k as int), inp@),
            decreases defs.len() - k,
        {
            proof {
                lemma_aux_witness_elements(defs.subrange(0, k as int), inp@);
            }
            let d = &self.uniform.aux[k];
            assert(defs[k as int] == d@);
            let x = d.x.evaluate(inp, &r);
            let y = d.y.evaluate(inp, &r);
            let z = d.z.evaluate(inp, &r);
            let v: u64 = match d.kind {
                AuxKind::Linear => x,
                AuxKind::Product => field_mul(x, y),
                AuxKind::Select => {
                    let diff = field_sub(y, z);
                    let p = field_mul(x, diff);
                    proof {
                        crate::field::lemma_reduce_mul(x as int, y - z);
                        crate::field::lemma_reduce_add(x * (y - z), z as int);
                        crate::field::lemma_reduce_small(z as int);
                    }
                    field_add(p, z)
                },
            };
            let ghost prev = r@;
            r.push(v);
            k += 1;
            proof {
                let t = defs.subrange(0, k as int);
                assert(t.drop_last() =~= defs.subrange(0, k - 1));
                assert(t.last() == d@);
                assert(v as int == aux_def_value(d@, inp@, prev));
            }
        }
        assert(defs.subrange(0, defs.len() as int) =~= defs);
        r
    }

    /// The inputs of step `s`, one per input wire.
    fn column_of(m: &Vec<Vec<u64>>, s: usize, ghost_cols: Ghost<nat>) -> (r: Vec<u64>)
        requires
            is_matrix(m@, m@.len(), ghost_cols@),
            s < ghost_cols@,
        ensures
            r@ == column(m@, s as int),
            forall|i: int| 0 <= i < r@.len() ==> is_element(#[trigger] r@[i]),
    {
        let mut r: Vec<u64> = Vec::new();
        let mut w: usize = 0;
        while w < m.len()
            invariant
                is_matrix(m@, m@.len(), ghost_cols@),
                s < ghost_cols@,
                w <= m@.len(),
                r@ == column(m@, s as int).subrange(0, w as int),
                forall|i: int| 0 <= i < r@.len() ==> is_element(#[trigger] r@[i]),
            decreases m@.len() - w,
        {
            assert(m@[w as int]@.len() == ghost_cols@);
            r.push(m[w][s]);
            w += 1;
            assert(r@ =~= column(m@, s as int).subrange(0, w as int));
        }
        assert(r@ =~= column(m@, s as int));
        r
    }

    /// The auxiliary witness of every step, laid out by auxiliary wire, then by step.
    pub fn compute_aux(&self, inputs: &Vec<Vec<u64>>) -> (r: Vec<Vec<u64>>)
        requires
            self.uniform.wf(),
            is_matrix(inputs@, self.uniform.num_inputs as nat, self.num_steps as nat),
        ensures
            is_matrix(r@, self.uniform.num_aux(), self.num_steps as nat),
            forall|s: int| 0 <= s < self.num_steps ==>
                column(r@, s) == aux_witness(self.uniform.defs(), #[trigger] column(inputs@, s)),
    {
        let ghost defs = self.uniform.defs();
        let mut per_step: Vec<Vec<u64>> = Vec::new();
        let mut s: usize = 0;
        while s < self.num_steps
            invariant
                self.uniform.wf(),
                defs == self.uniform.defs(),
                is_matrix(inputs@, self.uniform.num_inputs as nat, self.num_steps as nat),
                s <= self.num_steps,
                per_step@.len() == s,
                forall|t: int| 0 <= t < s ==>
                    (#[trigger] per_step@[t])@ == aux_witness(defs, column(inputs@, t)),
            decreases self.num_steps - s,
        {
            let inp = Self::column_of(inputs, s, Ghost(self.num_steps as nat));
            let a = self.step_aux(&inp);
            per_step.push(a);
            s += 1;
        }
        let mut r: Vec<Vec<u64>> = Vec::new();
        let mut k: usize = 0;
        while k < self.uniform.aux.len()
            invariant
                defs == self.uniform.defs(),
                k <= defs.len(),
                per_step@.len() == self.num_steps,
                forall|t: int| 0 <= t < self.num_steps ==>
                    (#[trigger] per_step@[t])@ == aux_witness(defs, column(inputs@, t)),
                r@.len() == k,
                forall|i: int| 0 <= i < k ==> (#[trigger] r@[i])@.len() == self.num_steps,
                forall|i: int, t: int| 0 <= i < k && 0 <= t < self.num_steps ==>
                    #[trigger] r@[i]@[t] == aux_witness(defs, column(inputs@, t))[i],
            decreases defs.len() - k,
        {
            let mut row: Vec<u64> = Vec::new();
            let mut t: usize = 0;
            while t < self.num_steps
                invariant
                    k < defs.len(),
                    per_step@.len() == self.num_steps,
                    forall|t: int| 0 <= t < self.num_steps ==>
                        (#[trigger] per_step@[t])@ == aux_witness(defs, column(inputs@, t)),
                    t <= self.num_steps,
                    row@.len() == t,
                    forall|u: int| 0 <= u < t ==> #[trigger] row@[u] == aux_witness(defs, column(inputs@, u))[k as int],
                decreases self.num_steps - t,
            {
                proof { lemma_aux_witness_elements(defs, column(inputs@, t as int)); }
                row.push(per_step[t][k]);
                t += 1;
            }
            r.push(row);
            k += 1;
        }
        proof {
            assert forall|i: int, t: int| 0 <= i < defs.len() && 0 <= t < self.num_steps
                implies is_element(#[trigger] r@[i]@[t]) by {
                lemma_aux_witness_elements(defs, column(inputs@, t));
            }
            assert forall|t: int| 0 <= t < self.num_steps implies
                column(r@, t) == aux_witness(defs, #[trigger] column(inputs@, t)) by {
                lemma_aux_witness_elements(defs, column(inputs@, t));
                assert(column(r@, t) =~= aux_witness(defs, column(inputs@, t)));
            }
        }
        r
    }
}

/// The value of each row's `a`, `b` or `c` side on each step, laid out by row, then by step.
pub open spec fn side_values_ok(m: Seq<Vec<u64>>, b: &CombinedUniformBuilder, side: int,
    inputs: Seq<Vec<u64>>, aux: Seq<Vec<u64>>) -> bool {
    &&& m.len() == b.uniform.rows().len()
    &&& forall|i: int| 0 <= i < m.len() ==> (#[trigger] m[i])@.len() == b.num_steps
    &&& forall|i: int, s: int| 0 <= i < m.len() && 0 <= s < b.num_steps ==>
        #[trigger] m[i]@[s] as int == lc_value(side_of(b.uniform.rows()[i], side), column(inputs, s), column(aux, s))
}

/// Side 0, 1 or 2 of a row.
pub open spec fn side_of(r: crate::builder::RowView, side: int) -> Seq<crate::lc::Term> {
    if side == 0 { r.0 } else if side == 1 { r.1 } else { r.2 }
}

/// Every row holds on every step.
pub open spec fn all_satisfied(b: &CombinedUniformBuilder, inputs: Seq<Vec<u64>>, aux: Seq<Vec<u64>>) -> bool {
    forall|i: int, s: int| 0 <= i < b.uniform.rows().len() && 0 <= s < b.num_steps ==>
        row_satisfied(#[trigger] b.uniform.rows()[i], column(inputs, s), #[trigger] column(aux, s))
}

impl CombinedUniformBuilder {
    /// The products `Az`, `Bz` and `Cz` of the replicated matrices with the full witness,
    /// each laid out by row of the step circuit, then by step.
    pub fn compute_spartan(&self, inputs: &Vec<Vec<u64>>, aux: &Vec<Vec<u64>>)
        -> (r: (Vec<Vec<u64>>, Vec<Vec<u64>>, Vec<Vec<u64>>))
        requires
            self.uniform.wf(),
            is_matrix(inputs@, self.uniform.num_inputs as nat, self.num_steps as nat),
            is_matrix(aux@, self.uniform.num_aux(), self.num_steps as nat),
        ensures
            side_values_ok(r.0@, self, 0, inputs@, aux@),
            side_values_ok(r.1@, self, 1, inputs@, aux@),
            side_values_ok(r.2@, self, 2, inputs@, aux@),
    {
        let mut cols_in: Vec<Vec<u64>> = Vec::new();
        let mut cols_aux: Vec<Vec<u64>> = Vec::new();
        let mut s: usize = 0;
        while s < self.num_steps
            invariant
                is_matrix(inputs@, self.uniform.num_inputs as nat, self.num_steps as nat),
                is_matrix(aux@, self.uniform.num_aux(), self.num_steps as nat),
                s <= self.num_steps,
                cols_in@.len() == s,
                cols_aux@.len() == s,
                forall|t: int| 0 <= t < s ==> (#[trigger] cols_in@[t])@ == column(inputs@, t),
                forall|t: int| 0 <= t < s ==> (#[trigger] cols_aux@[t])@ == column(aux@, t),
            decreases self.num_steps - s,
        {
            cols_in.push(Self::column_of(inputs, s, Ghost(self.num_steps as nat)));
            cols_aux.push(Self::column_of(aux, s, Ghost(self.num_steps as nat)));
            s += 1;
        }
        let ghost rows = self.uniform.rows();
        let mut az: Vec<Vec<u64>> = Vec::new();
        let mut bz: Vec<Vec<u64>> = Vec::new();
        let mut cz: Vec<Vec<u64>> = Vec::new();
        let mut i: usize = 0;
        while i < self.uniform.constraints.len()
            invariant
                self.uniform.wf(),
                rows == self.uniform.rows(),
                is_matrix(inputs@, self.uniform.num_inputs as nat, self.num_steps as nat),
                is_matrix(aux@, self.uniform.num_aux(), self.num_steps as nat),
                cols_in@.len() == self.num_steps,
                cols_aux@.len() == self.num_steps,
                forall|t: int| 0 <= t < self.num_steps ==> (#[trigger] cols_in@[t])@ == column(inputs@, t),
                forall|t: int| 0 <= t < self.num_steps ==> (#[trigger] cols_aux@[t])@ == column(aux@, t),
                i <= rows.len(),
                az@.len() == i,
                bz@.len() == i,
                cz@.len() == i,
                forall|j: int| 0 <= j < i ==> (#[trigger] az@[j])@.len() == self.num_steps,
                forall|j: int| 0 <= j < i ==> (#[trigger] bz@[j])@.len() == self.num_steps,
                forall|j: int| 0 <= j < i ==> (#[trigger] cz@[j])@.len() == self.num_steps,
                forall|j: int, t: int| 0 <= j < i && 0 <= t < self.num_steps ==>
                    #[trigger] az@[j]@[t] as int == lc_value(rows[j].0, column(inputs@, t), column(aux@, t)),
                forall|j: int, t: int| 0 <= j < i && 0 <= t < self.num_steps ==>
                    #[trigger] bz@[j]@[t] as int == lc_value(rows[j].1, column(inputs@, t), column(aux@, t)),
                forall|j: int, t: int| 0 <= j < i && 0 <= t < self.num_steps ==>
                    #[trigger] cz@[j]@[t] as int == lc_value(rows[j].2, column(inputs@, t), column(aux@, t)),
            decreases rows.len() - i,
        {
            let row = &self.uniform.constraints[i];
            assert(rows[i as int] == row@);
            assert(crate::builder::row_wf(rows[i as int], self.uniform.num_inputs as nat, self.uniform.num_aux()));
            let mut ra: Vec<u64> = Vec::new();
            let mut rb: Vec<u64> = Vec::new();
            let mut rc: Vec<u64> = Vec::new();
            let mut t: usize = 0;
            while t < self.num_steps
                invariant
                    crate::builder::row_wf(row@, self.uniform.num_inputs as nat, self.uniform.num_aux()),
                    is_matrix(inputs@, self.uniform.num_inputs as nat, self.num_steps as nat),
                    is_matrix(aux@, self.uniform.num_aux(), self.num_steps as nat),
                    cols_in@.len() == self.num_steps,
                    cols_aux@.len() == self.num_steps,
                    forall|t: int| 0 <= t < self.num_steps ==> (#[trigger] cols_in@[t])@ == column(inputs@, t),
                    forall|t: int| 0 <= t < self.num_steps ==> (#[trigger] cols_aux@[t])@ == column(aux@, t),
                    t <= self.num_steps,
                    ra@.len() == t,
                    rb@.len() == t,
                    rc@.len() == t,
                    forall|u: int| 0 <= u < t ==>
                        #[trigger] ra@[u] as int == lc_value(row@.0, column(inputs@, u), column(aux@, u)),
                    forall|u: int| 0 <= u < t ==>
                        #[trigger] rb@[u] as int == lc_value(row@.1, column(inputs@, u), column(aux@, u)),
                    forall|u: int| 0 <= u < t ==>
                        #[trigger] rc@[u] as int == lc_value(row@.2, column(inputs@, u), column(aux@, u)),
                decreases self.num_steps - t,
            {
                let ci = &cols_in[t];
                let ca = &cols_aux[t];
                assert forall|w: int| 0 <= w < ci@.len() implies is_element(#[trigger] ci@[w]) by {
                    assert(ci@[w] == inputs@[w]@[t as int]);
                }
                assert forall|w: int| 0 <= w < ca@.len() implies is_element(#[trigger] ca@[w]) by {
                    assert(ca@[w] == aux@[w]@[t as int]);
                }
                ra.push(row.a.evaluate(ci, ca));
                rb.push(row.b.evaluate(ci, ca));
                rc.push(row.c.evaluate(ci, ca));
                t += 1;
            }
            az.push(ra);
            bz.push(rb);
            cz.push(rc);
            i += 1;
        }
        (az, bz, cz)
    }

    /// Checks `Az * Bz == Cz` row by row; the error names the first row, in order of
    /// rows and then of steps, that fails.
    pub fn check_valid(&self, az: &Vec<Vec<u64>>, bz: &Vec<Vec<u64>>, cz: &Vec<Vec<u64>>)
        -> (r: Result<(), UnsatisfiedRow>)
        requires
            is_matrix(az@, az@.len(), self.num_steps as nat),
            is_matrix(bz@, az@.len(), self.num_steps as nat),
            is_matrix(cz@, az@.len(), self.num_steps as nat),
        ensures
            r is Ok <==> forall|i: int, s: int| 0 <= i < az@.len() && 0 <= s < self.num_steps ==>
                reduce(#[trigger] az@[i]@[s] * bz@[i]@[s]) == cz@[i]@[s],
            r matches Err(e) ==> e.constraint < az@.len() && e.step < self.num_steps
                && reduce(az@[e.constraint as int]@[e.step as int] * bz@[e.constraint as int]@[e.step as int])
                    != cz@[e.constraint as int]@[e.step as int],
    {
        let mut i: usize = 0;
        while i < az.len()
            invariant
                is_matrix(az@, az@.len(), self.num_steps as nat),
                is_matrix(bz@, az@.len(), self.num_steps as nat),
                is_matrix(cz@, az@.len(), self.num_steps as nat),
                i <= az@.len(),
                forall|j: int, s: int| 0 <= j < i && 0 <= s < self.num_steps ==>
                    reduce(#[trigger] az@[j]@[s] * bz@[j]@[s]) == cz@[j]@[s],
            decreases az@.len() - i,
        {
            let mut t: usize = 0;
            while t < self.num_steps
                invariant
                    is_matrix(az@, az@.len(), self.num_steps as nat),
                    is_matrix(bz@, az@.len(), self.num_steps as nat),
                    is_matrix(cz@, az@.len(), self.num_steps as nat),
                    i < az@.len(),
                    t <= self.num_steps,
                    forall|j: int, s: int| 0 <= j < i && 0 <= s < self.num_steps ==>
                        reduce(#[trigger] az@[j]@[s] * bz@[j]@[s]) == cz@[j]@[s],
                    forall|s: int| 0 <= s < t ==>
                        reduce(#[trigger] az@[i as int]@[s] * bz@[i as int]@[s]) == cz@[i as int]@[s],
                decreases self.num_steps - t,
            {
                assert(az@[i as int]@.len() == self.num_steps);
                assert(bz@[i as int]@.len() == self.num_steps);
                assert(cz@[i as int]@.len() == self.num_steps);
                let p = field_mul(az[i][t], bz[i][t]);
                if p != cz[i][t] {
                    return Err(UnsatisfiedRow { constraint: i, step: t });
                }
                t += 1;
            }
            i += 1;
        }
        Ok(())
    }
}

/// `Az * Bz == Cz` holds on every row and step exactly when every row of the step
/// circuit holds on the witness of every step.
pub proof fn lemma_products_check_rows(b: &CombinedUniformBuilder, inputs: Seq<Vec<u64>>,
    aux: Seq<Vec<u64>>, az: Seq<Vec<u64>>, bz: Seq<Vec<u64>>, cz: Seq<Vec<u64>>)
    requires
        side_values_ok(az, b, 0, inputs, aux),
        side_values_ok(bz, b, 1, inputs, aux),
        side_values_ok(cz, b, 2, inputs, aux),
    ensures
        (forall|i: int, s: int| 0 <= i < az.len() && 0 <= s < b.num_steps ==>
            reduce(#[trigger] az[i]@[s] * bz[i]@[s]) == cz[i]@[s]) <==> all_satisfied(b, inputs, aux),
{
    let rows = b.uniform.rows();
    if forall|i: int, s: int| 0 <= i < az.len() && 0 <= s < b.num_steps ==>
            reduce(#[trigger] az[i]@[s] * bz[i]@[s]) == cz[i]@[s] {
        assert forall|i: int, s: int| 0 <= i < rows.len() && 0 <= s < b.num_steps implies
            row_satisfied(#[trigger] rows[i], column(inputs, s), #[trigger] column(aux, s)) by {
            assert(reduce(az[i]@[s] * bz[i]@[s]) == cz[i]@[s]);
        }
    }
    if all_satisfied(b, inputs, aux) {
        assert forall|i: int, s: int| 0 <= i < az.len() && 0 <= s < b.num_steps implies
            reduce(#[trigger] az[i]@[s] * bz[i]@[s]) == cz[i]@[s] by {
            assert(row_satisfied(rows[i], column(inputs, s), column(aux, s)));
            assert(az[i]@[s] as int == lc_value(side_of(rows[i], 0), column(inputs, s), column(aux, s)));
            assert(bz[i]@[s] as int == lc_value(side_of(rows[i], 1), column(inputs, s), column(aux, s)));
            assert(cz[i]@[s] as int == lc_value(side_of(rows[i], 2), column(inputs, s), column(aux, s)));
        }
    }
}

} // verus!
