//! The input wires of a CPU step and the relations that define a valid step.
use vstd::prelude::*;
use crate::builder::{aux_def_value, lcs_wf, row_satisfied, wire_row, R1CSBuilder};
use crate::lc::{terms_wf, Term, Variable, LC};

verus! {

/// The input wires of one step. A wire's index is its position here: the order is
/// part of the circuit's layout.
#[allow(non_camel_case_types)]
#[derive(Clone, Copy, Debug, PartialEq, Eq, Structural)]
pub enum JoltInputs {
    /// The program counter of the step.
    PcIn,
    /// The virtual address of the fetched instruction.
    Bytecode_A,
    Bytecode_ELFAddress,
    Bytecode_Opcode,
    Bytecode_RS1,
    Bytecode_RS2,
    Bytecode_RD,
    Bytecode_Imm,
    RAM_A,
    RAM_Read_RS1,
    RAM_Read_RS2,
    /// Read of the destination register; no relation uses it.
    RAM_Read_RD,
    RAM_Read_Byte0,
    RAM_Read_Byte1,
    RAM_Read_Byte2,
    RAM_Read_Byte3,
    RAM_Write_RD,
    RAM_Write_Byte0,
    RAM_Write_Byte1,
    RAM_Write_Byte2,
    RAM_Write_Byte3,
    ChunksX_0,
    ChunksX_1,
    ChunksX_2,
    ChunksX_3,
    ChunksY_0,
    ChunksY_1,
    ChunksY_2,
    ChunksY_3,
    ChunksQ_0,
    ChunksQ_1,
    ChunksQ_2,
    ChunksQ_3,
    /// The output of the instruction lookup.
    LookupOutput,
    /// Selects the program counter as the first operand.
    OpFlags0,
    OpFlags_IsImm,
    OpFlags_IsLoad,
    OpFlags_IsStore,
    OpFlags_IsJmp,
    OpFlags_IsBranch,
    OpFlags_LookupOutToRd,
    OpFlags_SignImm,
    OpFlags_IsConcat,
    OpFlags_IsVirtualSequence,
    OpFlags_IsVirtual,
    /// Instruction flags, one per instruction of the set.
    IF_Add,
    IF_Sub,
    IF_And,
    IF_Or,
    IF_Xor,
    IF_Lb,
    IF_Lh,
    IF_Sb,
    IF_Sh,
    IF_Sw,
    IF_Beq,
    IF_Bge,
    IF_Bgeu,
    IF_Bne,
    IF_Slt,
    IF_Sltu,
    IF_Sll,
    IF_Sra,
    IF_Srl,
    IF_Movsign,
    IF_Mul,
    IF_MulU,
    IF_MulHu,
}

/// The number of input wires of a step.
pub const JOLT_INPUT_COUNT: usize = 68;

/// The address of the first instruction.
pub const PC_START_ADDRESS: i64 = 0x80000000;
/// The offset of the program counter from the address of its instruction.
pub const PC_NOOP_SHIFT: i64 = 4;
/// The bit width of a lookup query chunk.
const LOG_M: usize = 16;
/// The bit width of an operand chunk.
const OPERAND_SIZE: usize = 8;
/// The number of lookup chunks of an operand.
const C: usize = 4;

impl JoltInputs {
    /// The number of input wires of a step.
    pub const COUNT: usize = 68;

    /// The wire's position in the enumeration.
    pub open spec fn spec_index(self) -> nat {
        match self {
            JoltInputs::PcIn => 0,
            JoltInputs::Bytecode_A => 1,
            JoltInputs::Bytecode_ELFAddress => 2,
            JoltInputs::Bytecode_Opcode => 3,
            JoltInputs::Bytecode_RS1 => 4,
            JoltInputs::Bytecode_RS2 => 5,
            JoltInputs::Bytecode_RD => 6,
            JoltInputs::Bytecode_Imm => 7,
            JoltInputs::RAM_A => 8,
            JoltInputs::RAM_Read_RS1 => 9,
            JoltInputs::RAM_Read_RS2 => 10,
            JoltInputs::RAM_Read_RD => 11,
            JoltInputs::RAM_Read_Byte0 => 12,
            JoltInputs::RAM_Read_Byte1 => 13,
            JoltInputs::RAM_Read_Byte2 => 14,
            JoltInputs::RAM_Read_Byte3 => 15,
            JoltInputs::RAM_Write_RD => 16,
            JoltInputs::RAM_Write_Byte0 => 17,
            JoltInputs::RAM_Write_Byte1 => 18,
            JoltInputs::RAM_Write_Byte2 => 19,
            JoltInputs::RAM_Write_Byte3 => 20,
            JoltInputs::ChunksX_0 => 21,
            JoltInputs::ChunksX_1 => 22,
            JoltInputs::ChunksX_2 => 23,
            JoltInputs::ChunksX_3 => 24,
            JoltInputs::ChunksY_0 => 25,
            JoltInputs::ChunksY_1 => 26,
            JoltInputs::ChunksY_2 => 27,
            JoltInputs::ChunksY_3 => 28,
            JoltInputs::ChunksQ_0 => 29,
            JoltInputs::ChunksQ_1 => 30,
            JoltInputs::ChunksQ_2 => 31,
            JoltInputs::ChunksQ_3 => 32,
            JoltInputs::LookupOutput => 33,
            JoltInputs::OpFlags0 => 34,
            JoltInputs::OpFlags_IsImm => 35,
            JoltInputs::OpFlags_IsLoad => 36,
            JoltInputs::OpFlags_IsStore => 37,
            JoltInputs::OpFlags_IsJmp => 38,
            JoltInputs::OpFlags_IsBranch => 39,
            JoltInputs::OpFlags_LookupOutToRd => 40,
            JoltInputs::OpFlags_SignImm => 41,
            JoltInputs::OpFlags_IsConcat => 42,
            JoltInputs::OpFlags_IsVirtualSequence => 43,
            JoltInputs::OpFlags_IsVirtual => 44,
            JoltInputs::IF_Add => 45,
            JoltInputs::IF_Sub => 46,
            JoltInputs::IF_And => 47,
            JoltInputs::IF_Or => 48,
            JoltInputs::IF_Xor => 49,
            JoltInputs::IF_Lb => 50,
            JoltInputs::IF_Lh => 51,
            JoltInputs::IF_Sb => 52,
            JoltInputs::IF_Sh => 53,
            JoltInputs::IF_Sw => 54,
            JoltInputs::IF_Beq => 55,
            JoltInputs::IF_Bge => 56,
            JoltInputs::IF_Bgeu => 57,
            JoltInputs::IF_Bne => 58,
            JoltInputs::IF_Slt => 59,
            JoltInputs::IF_Sltu => 60,
            JoltInputs::IF_Sll => 61,
            JoltInputs::IF_Sra => 62,
            JoltInputs::IF_Srl => 63,
            JoltInputs::IF_Movsign => 64,
            JoltInputs::IF_Mul => 65,
            JoltInputs::IF_MulU => 66,
            JoltInputs::IF_MulHu => 67,
        }
    }

    /// The wire's position in the enumeration.
    pub fn index(self) -> (r: usize)
        ensures
            r == self.spec_index(),
            r < JOLT_INPUT_COUNT,
    {
        match self {
            JoltInputs::PcIn => 0,
            JoltInputs::Bytecode_A => 1,
            JoltInputs::Bytecode_ELFAddress => 2,
            JoltInputs::Bytecode_Opcode => 3,
            JoltInputs::Bytecode_RS1 => 4,
            JoltInputs::Bytecode_RS2 => 5,
            JoltInputs::Bytecode_RD => 6,
            JoltInputs::Bytecode_Imm => 7,
            JoltInputs::RAM_A => 8,
            JoltInputs::RAM_Read_RS1 => 9,
            JoltInputs::RAM_Read_RS2 => 10,
            JoltInputs::RAM_Read_RD => 11,
            JoltInputs::RAM_Read_Byte0 => 12,
            JoltInputs::RAM_Read_Byte1 => 13,
            JoltInputs::RAM_Read_Byte2 => 14,
            JoltInputs::RAM_Read_Byte3 => 15,
            JoltInputs::RAM_Write_RD => 16,
            JoltInputs::RAM_Write_Byte0 => 17,
            JoltInputs::RAM_Write_Byte1 => 18,
            JoltInputs::RAM_Write_Byte2 => 19,
            JoltInputs::RAM_Write_Byte3 => 20,
            JoltInputs::ChunksX_0 => 21,
            JoltInputs::ChunksX_1 => 22,
            JoltInputs::ChunksX_2 => 23,
            JoltInputs::ChunksX_3 => 24,
            JoltInputs::ChunksY_0 => 25,
            JoltInputs::ChunksY_1 => 26,
            JoltInputs::ChunksY_2 => 27,
            JoltInputs::ChunksY_3 => 28,
            JoltInputs::ChunksQ_0 => 29,
            JoltInputs::ChunksQ_1 => 30,
            JoltInputs::ChunksQ_2 => 31,
            JoltInputs::ChunksQ_3 => 32,
            JoltInputs::LookupOutput => 33,
            JoltInputs::OpFlags0 => 34,
            JoltInputs::OpFlags_IsImm => 35,
            JoltInputs::OpFlags_IsLoad => 36,
            JoltInputs::OpFlags_IsStore => 37,
            JoltInputs::OpFlags_IsJmp => 38,
            JoltInputs::OpFlags_IsBranch => 39,
            JoltInputs::OpFlags_LookupOutToRd => 40,
            JoltInputs::OpFlags_SignImm => 41,
            JoltInputs::OpFlags_IsConcat => 42,
            JoltInputs::OpFlags_IsVirtualSequence => 43,
            JoltInputs::OpFlags_IsVirtual => 44,
            JoltInputs::IF_Add => 45,
            JoltInputs::IF_Sub => 46,
            JoltInputs::IF_And => 47,
            JoltInputs::IF_Or => 48,
            JoltInputs::IF_Xor => 49,
            JoltInputs::IF_Lb => 50,
            JoltInputs::IF_Lh => 51,
            JoltInputs::IF_Sb => 52,
            JoltInputs::IF_Sh => 53,
            JoltInputs::IF_Sw => 54,
            JoltInputs::IF_Beq => 55,
            JoltInputs::IF_Bge => 56,
            JoltInputs::IF_Bgeu => 57,
            JoltInputs::IF_Bne => 58,
            JoltInputs::IF_Slt => 59,
            JoltInputs::IF_Sltu => 60,
            JoltInputs::IF_Sll => 61,
            JoltInputs::IF_Sra => 62,
            JoltInputs::IF_Srl => 63,
            JoltInputs::IF_Movsign => 64,
            JoltInputs::IF_Mul => 65,
            JoltInputs::IF_MulU => 66,
            JoltInputs::IF_MulHu => 67,
        }
    }

    /// The linear combination that is this wire.
    pub fn lc(self) -> (r: LC)
        ensures
            r@ == seq![Term { var: Variable::Input(self.spec_index() as usize), coeff: 1 }],
            forall|na: nat| #[trigger] terms_wf(r@, JOLT_INPUT_COUNT as nat, na),
    {
        let r = LC::var(Variable::Input(self.index()));
        proof { assert(crate::lc::var_wf(Variable::Input(self.spec_index() as usize), JOLT_INPUT_COUNT as nat, 0)); }
        r
    }

    /// The linear combination `c` times this wire.
    pub fn times(self, c: i64) -> (r: LC)
        ensures
            r@ == seq![Term { var: Variable::Input(self.spec_index() as usize), coeff: crate::field::reduce(c as int) as u64 }],
            forall|na: nat| #[trigger] terms_wf(r@, JOLT_INPUT_COUNT as nat, na),
            forall|inp: Seq<u64>, aux: Seq<u64>| #[trigger] crate::lc::lc_value(r@, inp, aux)
                == crate::field::reduce(c * inp[self.spec_index() as int]),
    {
        LC::term(Variable::Input(self.index()), c)
    }
}

proof fn lemma_input_value(t: Seq<Term>, w: nat, inp: Seq<u64>, aux: Seq<u64>)
    requires
        t == seq![Term { var: Variable::Input(w as usize), coeff: 1 }],
        w < JOLT_INPUT_COUNT,
    ensures
        crate::lc::lc_value(t, inp, aux) == crate::field::reduce(inp[w as int] as int),
{
    assert(t.drop_last() =~= Seq::<Term>::empty());
    assert(crate::lc::terms_sum(t.drop_last(), inp, aux) == 0);
    assert(t.last() == t[0]);
}

/// The linear combinations of the input wires at positions `first` up to `last`, both included.
pub fn input_range(first: JoltInputs, last: JoltInputs) -> (r: Vec<LC>)
    requires
        first.spec_index() <= last.spec_index(),
    ensures
        r@.len() == last.spec_index() - first.spec_index() + 1,
        forall|j: int| 0 <= j < r@.len() ==> (#[trigger] r@[j])@
            == seq![Term { var: Variable::Input((first.spec_index() + j) as usize), coeff: 1 }],
        forall|na: nat| #[trigger] lcs_wf(r@, JOLT_INPUT_COUNT as nat, na),
{
    let lo = first.index();
    let hi = last.index();
    let mut r: Vec<LC> = Vec::new();
    let mut i: usize = lo;
    while i <= hi
        invariant
            lo == first.spec_index(),
            hi == last.spec_index(),
            hi < JOLT_INPUT_COUNT,
            lo <= i <= hi + 1,
            r@.len() == i - lo,
            forall|j: int| 0 <= j < r@.len() ==> (#[trigger] r@[j])@
                == seq![Term { var: Variable::Input((lo + j) as usize), coeff: 1 }],
        decreases hi + 1 - i,
    {
        r.push(LC::var(Variable::Input(i)));
        i += 1;
    }
    proof {
        assert forall|na: nat| #[trigger] lcs_wf(r@, JOLT_INPUT_COUNT as nat, na) by {
            assert forall|j: int| 0 <= j < r@.len() implies terms_wf(#[trigger] r@[j]@, JOLT_INPUT_COUNT as nat, na) by {
                assert(crate::lc::var_wf(r@[j]@[0].var, JOLT_INPUT_COUNT as nat, na));
                crate::field::lemma_reduce_small(1);
            }
        }
    }
    r
}

/// The field value of input wire `w` on one step's inputs.
pub open spec fn wire(inp: Seq<u64>, w: JoltInputs) -> int {
    crate::field::reduce(inp[w.spec_index() as int] as int)
}

/// The field value of the input wire at position `w`.
pub open spec fn input_at(inp: Seq<u64>, w: int) -> int {
    crate::field::reduce(inp[w] as int)
}

/// The field value of the `j`-th flag wire, counted from `OpFlags0`.
pub open spec fn flag(inp: Seq<u64>, j: int) -> int {
    crate::field::reduce(inp[34 + j] as int)
}

/// The field value of auxiliary wire `k`.
pub open spec fn aux_wire(aux: Seq<u64>, k: int) -> int {
    crate::field::reduce(aux[k] as int)
}

/// `cs` grew from `old` by `rows` rows and `wires` auxiliary wires, and stays well formed
/// over the step's input wires.
pub open spec fn grew(cs: &R1CSBuilder, old: &R1CSBuilder, rows: nat, wires: nat) -> bool {
    &&& cs.wf()
    &&& cs.num_inputs == JOLT_INPUT_COUNT
    &&& cs.rows().len() == old.rows().len() + rows
    &&& cs.defs().len() == old.defs().len() + wires
    &&& cs.extends(old)
}

proof fn lemma_grow_aux(t: Seq<Term>, k: nat, cs: &R1CSBuilder)
    requires
        t == crate::builder::aux_lc(k),
        k < cs.num_aux(),
    ensures
        cs.operand_ok(t),
{
    crate::field::lemma_reduce_small(1);
    assert(crate::lc::var_wf(t[0].var, cs.num_inputs as nat, cs.num_aux()));
}

/// Every flag wire is 0 or 1.
fn constrain_flags(cs: &mut R1CSBuilder, flags: &Vec<LC>)
    requires
        old(cs).wf(),
        old(cs).num_inputs == JOLT_INPUT_COUNT,
        flags@.len() == 34,
        forall|j: int| 0 <= j < 34 ==> (#[trigger] flags@[j])@
            == seq![Term { var: Variable::Input((34 + j) as usize), coeff: 1 }],
        forall|na: nat| #[trigger] lcs_wf(flags@, JOLT_INPUT_COUNT as nat, na),
    ensures
        grew(final(cs), old(cs), 34, 0),
        forall|j: int, inp: Seq<u64>, aux: Seq<u64>| 0 <= j < 34 ==>
            (#[trigger] row_satisfied(final(cs).rows()[old(cs).rows().len() + j], inp, aux)
                <==> crate::field::reduce(flag(inp, j) * (1 - flag(inp, j))) == 0),
{
    broadcast use crate::builder::lemma_extends_trans;
    let ghost ni = JOLT_INPUT_COUNT as nat;
    let mut i: usize = 0;
    while i < flags.len()
        invariant
            0 <= i <= flags@.len(),
            flags@.len() == 34,
            forall|na: nat| #[trigger] lcs_wf(flags@, ni, na),
            ni == JOLT_INPUT_COUNT as nat,
            forall|j: int| 0 <= j < 34 ==> (#[trigger] flags@[j])@
                == seq![Term { var: Variable::Input((34 + j) as usize), coeff: 1 }],
            grew(cs, old(cs), i as nat, 0),
            forall|j: int, inp: Seq<u64>, aux: Seq<u64>| 0 <= j < i ==>
                (#[trigger] row_satisfied(cs.rows()[old(cs).rows().len() + j], inp, aux)
                    <==> crate::field::reduce(flag(inp, j) * (1 - flag(inp, j))) == 0),
        decreases flags@.len() - i,
    {
        assert(lcs_wf(flags@, ni, cs.num_aux()));
        assert(terms_wf(flags@[i as int]@, ni, cs.num_aux()));
        let ghost prev = *cs;
        cs.constrain_binary(&flags[i]);
        proof {
            let n = old(cs).rows().len();
            assert forall|j: int, inp: Seq<u64>, aux: Seq<u64>| 0 <= j < i + 1 implies
                (#[trigger] row_satisfied(cs.rows()[n + j], inp, aux)
                    <==> crate::field::reduce(flag(inp, j) * (1 - flag(inp, j))) == 0) by {
                if j < i {
                    assert(cs.rows()[n + j] == prev.rows()[n + j]);
                } else {
                    assert(cs.rows()[n + j] == cs.rows().last());
                    lemma_input_value(flags@[j]@, (34 + j) as nat, inp, aux);
                }
            }
        }
        i += 1;
    }
}

/// The fetched program counter is the bytecode address, and the opcode packs the flags.
fn constrain_fetch(cs: &mut R1CSBuilder, flags: &Vec<LC>)
    requires
        old(cs).wf(),
        old(cs).num_inputs == JOLT_INPUT_COUNT,
        forall|na: nat| #[trigger] lcs_wf(flags@, JOLT_INPUT_COUNT as nat, na),
    ensures
        grew(final(cs), old(cs), 2, 0),
        forall|inp: Seq<u64>, aux: Seq<u64>|
            #[trigger] row_satisfied(final(cs).rows()[old(cs).rows().len() as int], inp, aux)
                <==> wire(inp, JoltInputs::PcIn) == wire(inp, JoltInputs::Bytecode_A),
        forall|inp: Seq<u64>, aux: Seq<u64>|
            #[trigger] row_satisfied(final(cs).rows()[old(cs).rows().len() + 1int], inp, aux)
                <==> crate::field::reduce(crate::builder::pack_be_value(crate::builder::lc_values(flags@, inp, aux), 1))
                    == wire(inp, JoltInputs::Bytecode_Opcode),
{
    broadcast use crate::builder::lemma_extends_trans;
    assert(lcs_wf(flags@, JOLT_INPUT_COUNT as nat, cs.num_aux()));
    cs.constrain_eq(&JoltInputs::PcIn.lc(), &JoltInputs::Bytecode_A.lc());
    let ghost mid = *cs;
    proof {
        assert(mid.rows()[old(cs).rows().len() as int] == mid.rows().last());
        assert forall|inp: Seq<u64>, aux: Seq<u64>|
            row_satisfied(mid.rows()[old(cs).rows().len() as int], inp, aux)
                <==> wire(inp, JoltInputs::PcIn) == wire(inp, JoltInputs::Bytecode_A) by {
            lemma_input_value(seq![Term { var: Variable::Input(0), coeff: 1 }], 0, inp, aux);
            lemma_input_value(seq![Term { var: Variable::Input(1), coeff: 1 }], 1, inp, aux);
        }
    }
    cs.constrain_pack_be(flags, &JoltInputs::Bytecode_Opcode.lc(), 1);
    proof {
        let n = old(cs).rows().len() as int;
        assert(cs.rows()[n] == mid.rows()[n]);
        assert forall|inp: Seq<u64>, aux: Seq<u64>|
            row_satisfied(cs.rows()[n + 1], inp, aux)
                <==> crate::field::reduce(crate::builder::pack_be_value(crate::builder::lc_values(flags@, inp, aux), 1))
                    == wire(inp, JoltInputs::Bytecode_Opcode) by {
            assert(cs.rows()[n + 1] == cs.rows().last());
            lemma_input_value(seq![Term { var: Variable::Input(3), coeff: 1 }], 3, inp, aux);
        }
    }
}

/// The field values of `len` consecutive input wires from position `base`.
pub open spec fn inputs_seq(inp: Seq<u64>, base: int, len: nat) -> Seq<int> {
    Seq::new(len, |j: int| input_at(inp, base + j))
}

/// The immediate read as a signed word: where `OpFlags_SignImm` is set the immediate
/// itself, elsewhere the immediate less `2^32 - 2`.
pub open spec fn signed_imm(inp: Seq<u64>) -> int {
    let c = wire(inp, JoltInputs::OpFlags_SignImm);
    let imm = wire(inp, JoltInputs::Bytecode_Imm);
    let neg = crate::field::reduce(imm - (0xffffffff - 1));
    crate::field::reduce(c * (imm - neg) + neg)
}

/// The sum of the three shift flags (`IF_Sll`, `IF_Srl`, `IF_Sra`).
pub open spec fn shift_flag(inp: Seq<u64>) -> int {
    crate::field::reduce(input_at(inp, 61) + input_at(inp, 63) + input_at(inp, 62))
}

/// The chunk of the second operand routed into query chunk `i`: the top chunk
/// `ChunksY_3` for a shift, `ChunksY_i` otherwise.
pub open spec fn routed_chunk(inp: Seq<u64>, i: int) -> int {
    let top = input_at(inp, 28);
    let own = input_at(inp, 25 + i);
    crate::field::reduce(shift_flag(inp) * (top - own) + own)
}

/// The value that the step circuit defines for its `k`-th auxiliary wire, where its first
/// auxiliary wire is wire `m` of `aux`.
pub open spec fn jolt_aux_value(k: int, inp: Seq<u64>, aux: Seq<u64>, m: int) -> int {
    if k == 0 {
        first_operand(inp)
    } else if k == 1 {
        signed_imm(inp)
    } else if k == 2 {
        second_operand(inp, aux, m)
    } else if k == 3 {
        // The bytes written, little-endian.
        crate::field::reduce(crate::builder::pack_le_value(inputs_seq(inp, 17, 4), 8))
    } else if k == 4 {
        // The lookup query, big-endian at 16 bits per chunk.
        crate::field::reduce(crate::builder::pack_be_value(inputs_seq(inp, 29, 4), 16))
    } else if k == 5 {
        crate::field::reduce(crate::builder::pack_be_value(inputs_seq(inp, 21, 4), 8))
    } else if k == 6 {
        crate::field::reduce(crate::builder::pack_be_value(inputs_seq(inp, 25, 4), 8))
    } else if k < 11 {
        routed_chunk(inp, k - 7)
    } else if k == 11 {
        crate::field::reduce(wire(inp, JoltInputs::Bytecode_RD) * wire(inp, JoltInputs::OpFlags_LookupOutToRd))
    } else {
        crate::field::reduce(wire(inp, JoltInputs::Bytecode_RD) * wire(inp, JoltInputs::OpFlags_IsJmp))
    }
}

/// The row, counted from the first row of the step circuit, that defines its `k`-th
/// auxiliary wire.
pub open spec fn alloc_row(k: int) -> int {
    if k == 0 { 36 } else if k == 1 { 37 } else if k == 2 { 38 } else if k == 3 { 43 }
    else if k == 4 { 45 } else if k == 5 { 50 } else if k == 6 { 51 }
    else if k < 11 { 54 + 2 * (k - 7) } else if k == 11 { 62 } else { 64 }
}

/// Auxiliary wire `k` of `b` is defined as the step circuit's wire `j`.
pub open spec fn def_matches(b: &R1CSBuilder, k: int, j: int) -> bool {
    &&& 0 <= k < b.defs().len()
    &&& forall|inp: Seq<u64>, aux: Seq<u64>| #[trigger] aux_def_value(b.defs()[k], inp, aux) == jolt_aux_value(j, inp, aux, k - j)
}

/// Extending a builder keeps its wire definitions.
pub broadcast proof fn lemma_def_matches_kept(a: &R1CSBuilder, b: &R1CSBuilder, k: int, j: int)
    requires
        #[trigger] def_matches(a, k, j),
        #[trigger] b.extends(a),
    ensures
        def_matches(b, k, j),
{
    assert(b.defs()[k] == a.defs()[k]) by {
        assert(a.defs() =~= b.defs().subrange(0, a.defs().len() as int));
    }
}

proof fn lemma_range_values(lcs: Seq<LC>, base: int, len: nat, inp: Seq<u64>, aux: Seq<u64>)
    requires
        lcs.len() == len,
        0 <= base,
        base + len <= JOLT_INPUT_COUNT,
        forall|j: int| 0 <= j < len ==> (#[trigger] lcs[j])@
            == seq![Term { var: Variable::Input((base + j) as usize), coeff: 1 }],
    ensures
        crate::builder::lc_values(lcs, inp, aux) == inputs_seq(inp, base, len),
{
    assert forall|j: int| 0 <= j < len implies
        crate::builder::lc_values(lcs, inp, aux)[j] == inputs_seq(inp, base, len)[j] by {
        lemma_input_value(lcs[j]@, (base + j) as nat, inp, aux);
    }
    assert(crate::builder::lc_values(lcs, inp, aux) =~= inputs_seq(inp, base, len));
}

/// The first ALU operand: where `OpFlags0` is set, the program counter shifted and offset
/// to its address; elsewhere the first register read.
pub open spec fn first_operand(inp: Seq<u64>) -> int {
    let c = wire(inp, JoltInputs::OpFlags0);
    let r = wire(inp, JoltInputs::RAM_Read_RS1);
    crate::field::reduce(c * (4 * inp[0] + (PC_START_ADDRESS - PC_NOOP_SHIFT) - r) + r)
}

/// The second ALU operand: where `OpFlags_IsImm` is set, the sign-adjusted immediate (the
/// circuit's wire `m + 1`, which its row ties to `signed_imm`); elsewhere the second
/// register read.
pub open spec fn second_operand(inp: Seq<u64>, aux: Seq<u64>, m: int) -> int {
    let c = wire(inp, JoltInputs::OpFlags_IsImm);
    let r = wire(inp, JoltInputs::RAM_Read_RS2);
    crate::field::reduce(c * (aux_wire(aux, m + 1) - r) + r)
}

/// Selects the first ALU operand, the sign-adjusted immediate and the second operand (wires
/// 0, 1 and 2); returns the two operands.
fn allocate_operands(cs: &mut R1CSBuilder) -> (r: (LC, LC))
    requires
        old(cs).wf(),
        old(cs).num_inputs == JOLT_INPUT_COUNT,
    ensures
        grew(final(cs), old(cs), 3, 3),
        r.0@ == crate::builder::aux_lc(old(cs).num_aux()),
        r.1@ == crate::builder::aux_lc(old(cs).num_aux() + 2),
        old(cs).num_aux() + 2 <= usize::MAX,
        forall|k: int| 0 <= k < 3 ==> #[trigger] wire_row(final(cs), old(cs).rows().len() + k, old(cs).num_aux() + k),
        forall|k: int| 0 <= k < 3 ==> #[trigger] def_matches(final(cs), old(cs).num_aux() + k, k),
{
    broadcast use crate::builder::lemma_extends_trans;
    broadcast use crate::builder::lemma_wire_row_kept, lemma_def_matches_kept;
    let ghost m = old(cs).num_aux() as int;
    let ghost n = old(cs).rows().len() as int;
    let real_pc = JoltInputs::PcIn.times(4).plus(&LC::constant(PC_START_ADDRESS - PC_NOOP_SHIFT));
    let x = cs.allocate_if_else(&JoltInputs::OpFlags0.lc(), &real_pc, &JoltInputs::RAM_Read_RS1.lc());
    let ghost s_x = *cs;
    proof {
        assert forall|inp: Seq<u64>, aux: Seq<u64>|
            #[trigger] aux_def_value(s_x.defs()[m], inp, aux) == jolt_aux_value(0, inp, aux, 0) by {
            let c = wire(inp, JoltInputs::OpFlags0);
            let r = wire(inp, JoltInputs::RAM_Read_RS1);
            let p = 4 * inp[0] + (PC_START_ADDRESS - PC_NOOP_SHIFT);
            lemma_input_value(seq![Term { var: Variable::Input(34), coeff: 1 }], 34, inp, aux);
            lemma_input_value(seq![Term { var: Variable::Input(9), coeff: 1 }], 9, inp, aux);
            crate::field::lemma_reduce_add(4 * inp[0], PC_START_ADDRESS - PC_NOOP_SHIFT);
            crate::field::lemma_reduce_twice(4 * inp[0]);
            assert(crate::lc::lc_value(real_pc@, inp, aux) == crate::field::reduce(p));
            crate::field::lemma_reduce_sub(p, r);
            crate::field::lemma_reduce_mul(c, p - r);
            crate::field::lemma_reduce_mul(c, crate::field::reduce(p) - r);
            crate::field::lemma_reduce_add(c * (p - r), r);
            crate::field::lemma_reduce_add(c * (crate::field::reduce(p) - r), r);
        }
        assert(def_matches(&s_x, m, 0));
        assert(wire_row(&s_x, n, m));
    }
    // The immediate read as a negative two's-complement word.
    let signed_output = JoltInputs::Bytecode_Imm.lc().minus(&LC::constant(0xffffffffi64 - 1i64));
    let imm_signed = cs.allocate_if_else(
        &JoltInputs::OpFlags_SignImm.lc(),
        &JoltInputs::Bytecode_Imm.lc(),
        &signed_output,
    );
    let ghost s_i = *cs;
    proof {
        assert forall|inp: Seq<u64>, aux: Seq<u64>|
            #[trigger] aux_def_value(s_i.defs()[m + 1], inp, aux) == jolt_aux_value(1, inp, aux, 0) by {
            lemma_input_value(seq![Term { var: Variable::Input(41), coeff: 1 }], 41, inp, aux);
            lemma_input_value(seq![Term { var: Variable::Input(7), coeff: 1 }], 7, inp, aux);
            crate::field::lemma_reduce_small(0xffffffff - 1);
            assert(crate::lc::lc_value(signed_output@, inp, aux)
                == crate::field::reduce(wire(inp, JoltInputs::Bytecode_Imm) - (0xffffffff - 1)));
        }
        assert(def_matches(&s_i, m + 1, 1));
        assert(wire_row(&s_i, n + 1, m + 1));
        lemma_grow_aux(imm_signed@, (m + 1) as nat, cs);
    }
    let y = cs.allocate_if_else(&JoltInputs::OpFlags_IsImm.lc(), &imm_signed, &JoltInputs::RAM_Read_RS2.lc());
    let ghost s_y = *cs;
    proof {
        assert forall|inp: Seq<u64>, aux: Seq<u64>|
            #[trigger] aux_def_value(s_y.defs()[m + 2], inp, aux) == jolt_aux_value(2, inp, aux, m) by {
            lemma_input_value(seq![Term { var: Variable::Input(35), coeff: 1 }], 35, inp, aux);
            lemma_input_value(seq![Term { var: Variable::Input(10), coeff: 1 }], 10, inp, aux);
            lemma_aux_value(imm_signed@, (m + 1) as nat, inp, aux);
        }
        assert(def_matches(&s_y, m + 2, 2));
        assert(wire_row(&s_y, n + 2, m + 2));
        assert forall|k: int| 0 <= k < 3 implies #[trigger] wire_row(cs, n + k, m + k) by {
            if k == 0 { assert(wire_row(cs, n, m)); } else if k == 1 { assert(wire_row(cs, n + 1, m + 1)); }
        }
        assert forall|k: int| 0 <= k < 3 implies #[trigger] def_matches(cs, m + k, k) by {
            if k == 0 { assert(def_matches(cs, m, 0)); } else if k == 1 { assert(def_matches(cs, m + 1, 1)); }
        }
    }
    (x, y)
}

/// A load keeps the four bytes of the word; a store's packed bytes are the lookup
/// output. Returns the packed bytes.
fn constrain_memory(cs: &mut R1CSBuilder) -> (r: LC)
    requires
        old(cs).wf(),
        old(cs).num_inputs == JOLT_INPUT_COUNT,
    ensures
        grew(final(cs), old(cs), 6, 1),
        r@ == crate::builder::aux_lc(old(cs).num_aux()),
        old(cs).num_aux() <= usize::MAX,
        wire_row(final(cs), old(cs).rows().len() + 4int, old(cs).num_aux() as int),
        def_matches(final(cs), old(cs).num_aux() as int, 3),
        forall|inp: Seq<u64>, aux: Seq<u64>|
            #[trigger] row_satisfied(final(cs).rows()[old(cs).rows().len() + 5int], inp, aux)
                <==> crate::field::reduce(wire(inp, JoltInputs::OpFlags_IsStore)
                    * (aux_wire(aux, old(cs).num_aux() as int) - wire(inp, JoltInputs::LookupOutput))) == 0,
        forall|j: int, inp: Seq<u64>, aux: Seq<u64>| 0 <= j < 4 ==>
            (#[trigger] row_satisfied(final(cs).rows()[old(cs).rows().len() + j], inp, aux)
                <==> crate::field::reduce(wire(inp, JoltInputs::OpFlags_IsLoad)
                    * (input_at(inp, 12 + j) - input_at(inp, 17 + j))) == 0),
{
    broadcast use crate::builder::lemma_wire_row_kept, lemma_def_matches_kept;
    broadcast use crate::builder::lemma_extends_trans;
    let read_bytes = input_range(JoltInputs::RAM_Read_Byte0, JoltInputs::RAM_Read_Byte3);
    let write_bytes = input_range(JoltInputs::RAM_Write_Byte0, JoltInputs::RAM_Write_Byte3);
    let is_load = JoltInputs::OpFlags_IsLoad.lc();
    let mut i: usize = 0;
    while i < 4
        invariant
            0 <= i <= 4,
            read_bytes@.len() == 4,
            write_bytes@.len() == 4,
            forall|j: int| 0 <= j < 4 ==> (#[trigger] read_bytes@[j])@
                == seq![Term { var: Variable::Input((12 + j) as usize), coeff: 1 }],
            forall|j: int| 0 <= j < 4 ==> (#[trigger] write_bytes@[j])@
                == seq![Term { var: Variable::Input((17 + j) as usize), coeff: 1 }],
            forall|na: nat| #[trigger] lcs_wf(read_bytes@, JOLT_INPUT_COUNT as nat, na),
            forall|na: nat| #[trigger] lcs_wf(write_bytes@, JOLT_INPUT_COUNT as nat, na),
            is_load@ == seq![Term { var: Variable::Input(36), coeff: 1 }],
            forall|na: nat| #[trigger] terms_wf(is_load@, JOLT_INPUT_COUNT as nat, na),
            grew(cs, old(cs), i as nat, 0),
            forall|j: int, inp: Seq<u64>, aux: Seq<u64>| 0 <= j < i ==>
                (#[trigger] row_satisfied(cs.rows()[old(cs).rows().len() + j], inp, aux)
                    <==> crate::field::reduce(wire(inp, JoltInputs::OpFlags_IsLoad)
                        * (input_at(inp, 12 + j) - input_at(inp, 17 + j))) == 0),
        decreases 4 - i,
    {
        assert(lcs_wf(read_bytes@, JOLT_INPUT_COUNT as nat, cs.num_aux()));
        assert(lcs_wf(write_bytes@, JOLT_INPUT_COUNT as nat, cs.num_aux()));
        assert(terms_wf(read_bytes@[i as int]@, JOLT_INPUT_COUNT as nat, cs.num_aux()));
        assert(terms_wf(write_bytes@[i as int]@, JOLT_INPUT_COUNT as nat, cs.num_aux()));
        let ghost prev = *cs;
        cs.constrain_eq_conditional(&is_load, &read_bytes[i], &write_bytes[i]);
        proof {
            let n = old(cs).rows().len();
            assert forall|j: int, inp: Seq<u64>, aux: Seq<u64>| 0 <= j < i + 1 implies
                (#[trigger] row_satisfied(cs.rows()[n + j], inp, aux)
                    <==> crate::field::reduce(wire(inp, JoltInputs::OpFlags_IsLoad)
                        * (input_at(inp, 12 + j) - input_at(inp, 17 + j))) == 0) by {
                if j < i {
                    assert(cs.rows()[n + j] == prev.rows()[n + j]);
                } else {
                    assert(cs.rows()[n + j] == cs.rows().last());
                    lemma_input_value(is_load@, 36, inp, aux);
                    lemma_input_value(read_bytes@[j]@, (12 + j) as nat, inp, aux);
                    lemma_input_value(write_bytes@[j]@, (17 + j) as nat, inp, aux);
                }
            }
        }
        i += 1;
    }
    let ghost s_lanes = *cs;
    let ram_writes = input_range(JoltInputs::RAM_Write_Byte0, JoltInputs::RAM_Write_Byte3);
    let packed_load_store = cs.allocate_pack_le(&ram_writes, 8);
    proof {
        let m = old(cs).num_aux() as int;
        assert forall|inp: Seq<u64>, aux: Seq<u64>|
            #[trigger] aux_def_value(cs.defs()[m], inp, aux) == jolt_aux_value(3, inp, aux, 0) by {
            lemma_range_values(ram_writes@, 17, 4, inp, aux);
        }
        assert(def_matches(cs, m, 3));
    }
    cs.constrain_eq_conditional(
        &JoltInputs::OpFlags_IsStore.lc(),
        &packed_load_store,
        &JoltInputs::LookupOutput.lc(),
    );
    proof {
        let n = old(cs).rows().len();
        assert(cs.rows()[n + 5int] == cs.rows().last());
        assert forall|inp: Seq<u64>, aux: Seq<u64>|
            row_satisfied(cs.rows()[n + 5int], inp, aux)
                <==> crate::field::reduce(wire(inp, JoltInputs::OpFlags_IsStore)
                    * (aux_wire(aux, old(cs).num_aux() as int) - wire(inp, JoltInputs::LookupOutput))) == 0 by {
            lemma_input_value(seq![Term { var: Variable::Input(37), coeff: 1 }], 37, inp, aux);
            lemma_input_value(seq![Term { var: Variable::Input(33), coeff: 1 }], 33, inp, aux);
            lemma_aux_value(packed_load_store@, old(cs).num_aux(), inp, aux);
        }
        assert(s_lanes.rows().is_prefix_of(cs.rows()));
        assert forall|j: int, inp: Seq<u64>, aux: Seq<u64>| 0 <= j < 4 implies
            (#[trigger] row_satisfied(cs.rows()[n + j], inp, aux)
                <==> crate::field::reduce(wire(inp, JoltInputs::OpFlags_IsLoad)
                    * (input_at(inp, 12 + j) - input_at(inp, 17 + j))) == 0) by {
            assert(cs.rows()[n + j] == s_lanes.rows()[n + j]);
        }
    }
    packed_load_store
}

/// The packed lookup query is `x + y` for an add, `x - y` modulo 2^32 for a subtract,
/// the loaded word for a load and the second register for a store.
#[verifier::rlimit(60)]
fn constrain_query(cs: &mut R1CSBuilder, x: &LC, y: &LC, packed_load_store: &LC)
    requires
        old(cs).wf(),
        old(cs).num_inputs == JOLT_INPUT_COUNT,
        old(cs).operand_ok(x@),
        old(cs).operand_ok(y@),
        old(cs).operand_ok(packed_load_store@),
    ensures
        grew(final(cs), old(cs), 5, 1),
        wire_row(final(cs), old(cs).rows().len() as int, old(cs).num_aux() as int),
        def_matches(final(cs), old(cs).num_aux() as int, 4),
        forall|inp: Seq<u64>, aux: Seq<u64>|
            #[trigger] row_satisfied(final(cs).rows()[old(cs).rows().len() + 1int], inp, aux)
                <==> crate::field::reduce(wire(inp, JoltInputs::IF_Add)
                    * (aux_wire(aux, old(cs).num_aux() as int) - crate::lc::lc_value(x@, inp, aux)
                        - crate::lc::lc_value(y@, inp, aux))) == 0,
        forall|inp: Seq<u64>, aux: Seq<u64>|
            #[trigger] row_satisfied(final(cs).rows()[old(cs).rows().len() + 2int], inp, aux)
                <==> crate::field::reduce(wire(inp, JoltInputs::IF_Sub)
                    * (aux_wire(aux, old(cs).num_aux() as int) - crate::lc::lc_value(x@, inp, aux)
                        + crate::lc::lc_value(y@, inp, aux) - 0x1_0000_0000)) == 0,
        forall|inp: Seq<u64>, aux: Seq<u64>|
            #[trigger] row_satisfied(final(cs).rows()[old(cs).rows().len() + 3int], inp, aux)
                <==> crate::field::reduce(wire(inp, JoltInputs::OpFlags_IsLoad)
                    * (aux_wire(aux, old(cs).num_aux() as int) - crate::lc::lc_value(packed_load_store@, inp, aux))) == 0,
        forall|inp: Seq<u64>, aux: Seq<u64>|
            #[trigger] row_satisfied(final(cs).rows()[old(cs).rows().len() + 4int], inp, aux)
                <==> crate::field::reduce(wire(inp, JoltInputs::OpFlags_IsStore)
                    * (aux_wire(aux, old(cs).num_aux() as int) - wire(inp, JoltInputs::RAM_Read_RS2))) == 0,
{
    broadcast use crate::builder::lemma_wire_row_kept, lemma_def_matches_kept;
    broadcast use crate::builder::lemma_extends_trans;
    let ghost ni = JOLT_INPUT_COUNT as nat;
    let chunks_q = input_range(JoltInputs::ChunksQ_0, JoltInputs::ChunksQ_3);
    let packed_query = cs.allocate_pack_be(&chunks_q, LOG_M);
    proof {
        let m = old(cs).num_aux() as int;
        assert forall|inp: Seq<u64>, aux: Seq<u64>|
            #[trigger] aux_def_value(cs.defs()[m], inp, aux) == jolt_aux_value(4, inp, aux, 0) by {
            lemma_range_values(chunks_q@, 29, 4, inp, aux);
        }
        assert(def_matches(cs, m, 4));
        crate::builder::lemma_terms_wf_grow(x@, ni, old(cs).num_aux(), cs.num_aux());
        crate::builder::lemma_terms_wf_grow(y@, ni, old(cs).num_aux(), cs.num_aux());
        crate::builder::lemma_terms_wf_grow(packed_load_store@, ni, old(cs).num_aux(), cs.num_aux());
    }
    let sum = x.plus(y);
    cs.constrain_eq_conditional(&JoltInputs::IF_Add.lc(), &packed_query, &sum);
    let ghost after_add = *cs;
    proof {
        assert forall|inp: Seq<u64>, aux: Seq<u64>|
            row_satisfied(after_add.rows().last(), inp, aux)
                <==> crate::field::reduce(wire(inp, JoltInputs::IF_Add)
                    * (aux_wire(aux, old(cs).num_aux() as int) - crate::lc::lc_value(x@, inp, aux)
                        - crate::lc::lc_value(y@, inp, aux))) == 0 by {
            let c = wire(inp, JoltInputs::IF_Add);
            let q = aux_wire(aux, old(cs).num_aux() as int);
            let vx = crate::lc::lc_value(x@, inp, aux);
            let vy = crate::lc::lc_value(y@, inp, aux);
            lemma_input_value(seq![Term { var: Variable::Input(45), coeff: 1 }], 45, inp, aux);
            lemma_aux_value(packed_query@, old(cs).num_aux(), inp, aux);
            crate::field::lemma_reduce_sub(q, vx + vy);
            crate::field::lemma_reduce_mul(c, q - (vx + vy));
            crate::field::lemma_reduce_mul(c, q - crate::field::reduce(vx + vy));
            assert(q - (vx + vy) == q - vx - vy);
        }
    }
    // Subtraction wraps modulo 2^32: the difference is offset by 2^32.
    let diff = x.minus(y);
    let offset = LC::constant(0xffffffffi64 + 1);
    let wrapped = diff.plus(&offset);
    cs.constrain_eq_conditional(&JoltInputs::IF_Sub.lc(), &packed_query, &wrapped);
    let ghost after_sub = *cs;
    proof {
        assert forall|inp: Seq<u64>, aux: Seq<u64>|
            row_satisfied(after_sub.rows().last(), inp, aux)
                <==> crate::field::reduce(wire(inp, JoltInputs::IF_Sub)
                    * (aux_wire(aux, old(cs).num_aux() as int) - crate::lc::lc_value(x@, inp, aux)
                        + crate::lc::lc_value(y@, inp, aux) - 0x1_0000_0000)) == 0 by {
            let c = wire(inp, JoltInputs::IF_Sub);
            let q = aux_wire(aux, old(cs).num_aux() as int);
            let vx = crate::lc::lc_value(x@, inp, aux);
            let vy = crate::lc::lc_value(y@, inp, aux);
            lemma_input_value(seq![Term { var: Variable::Input(46), coeff: 1 }], 46, inp, aux);
            lemma_aux_value(packed_query@, old(cs).num_aux(), inp, aux);
            crate::field::lemma_reduce_add(vx - vy, 0x1_0000_0000);
            assert(crate::lc::lc_value(wrapped@, inp, aux) == crate::field::reduce(vx - vy + 0x1_0000_0000));
            crate::field::lemma_reduce_sub(q, vx - vy + 0x1_0000_0000);
            crate::field::lemma_reduce_mul(c, q - (vx - vy + 0x1_0000_0000));
            crate::field::lemma_reduce_mul(c, q - crate::field::reduce(vx - vy + 0x1_0000_0000));
            assert(q - (vx - vy + 0x1_0000_0000) == q - vx + vy - 0x1_0000_0000);
        }
    }
    cs.constrain_eq_conditional(&JoltInputs::OpFlags_IsLoad.lc(), &packed_query, packed_load_store);
    let ghost after_load = *cs;
    cs.constrain_eq_conditional(
        &JoltInputs::OpFlags_IsStore.lc(),
        &packed_query,
        &JoltInputs::RAM_Read_RS2.lc(),
    );
    proof {
        let n = old(cs).rows().len() as int;
        let q = old(cs).num_aux();
        assert(after_load.rows()[n + 3] == after_load.rows().last());
        assert(cs.rows()[n + 3] == after_load.rows()[n + 3]);
        assert(cs.rows()[n + 4] == cs.rows().last());
        assert forall|inp: Seq<u64>, aux: Seq<u64>|
            row_satisfied(cs.rows()[n + 3], inp, aux)
                <==> crate::field::reduce(wire(inp, JoltInputs::OpFlags_IsLoad)
                    * (aux_wire(aux, q as int) - crate::lc::lc_value(packed_load_store@, inp, aux))) == 0 by {
            lemma_input_value(seq![Term { var: Variable::Input(36), coeff: 1 }], 36, inp, aux);
            lemma_aux_value(packed_query@, q, inp, aux);
        }
        assert forall|inp: Seq<u64>, aux: Seq<u64>|
            row_satisfied(cs.rows()[n + 4], inp, aux)
                <==> crate::field::reduce(wire(inp, JoltInputs::OpFlags_IsStore)
                    * (aux_wire(aux, q as int) - wire(inp, JoltInputs::RAM_Read_RS2))) == 0 by {
            lemma_input_value(seq![Term { var: Variable::Input(37), coeff: 1 }], 37, inp, aux);
            lemma_input_value(seq![Term { var: Variable::Input(10), coeff: 1 }], 10, inp, aux);
            lemma_aux_value(packed_query@, q, inp, aux);
        }
    }
    proof {
        let n = old(cs).rows().len() as int;
        assert(after_add.rows().is_prefix_of(cs.rows()));
        assert(after_sub.rows().is_prefix_of(cs.rows()));
        assert(cs.rows()[n + 1] == after_add.rows()[n + 1]);
        assert(cs.rows()[n + 2] == after_sub.rows()[n + 2]);
        assert(after_sub.rows()[n + 2] == after_sub.rows().last());
    }
}

/// Query chunk `i` joins chunk `i` of the first operand with the routed chunk of the
/// second: `ChunksY_3` for a shift, `ChunksY_i` otherwise.
#[verifier::rlimit(100)]
fn route_chunk(cs: &mut R1CSBuilder, i: usize, is_shift: &LC, chunk_x: &LC, chunk_top: &LC, chunk_y: &LC,
    chunk_q: &LC)
    requires
        old(cs).wf(),
        old(cs).num_inputs == JOLT_INPUT_COUNT,
        i < 4,
        is_shift@ == is_shift_terms(),
        chunk_x@ == seq![Term { var: Variable::Input((21 + i) as usize), coeff: 1 }],
        chunk_top@ == seq![Term { var: Variable::Input(28), coeff: 1 }],
        chunk_y@ == seq![Term { var: Variable::Input((25 + i) as usize), coeff: 1 }],
        chunk_q@ == seq![Term { var: Variable::Input((29 + i) as usize), coeff: 1 }],
        forall|na: nat| #[trigger] terms_wf(is_shift@, JOLT_INPUT_COUNT as nat, na),
        old(cs).operand_ok(chunk_x@),
        old(cs).operand_ok(chunk_top@),
        old(cs).operand_ok(chunk_y@),
        old(cs).operand_ok(chunk_q@),
    ensures
        grew(final(cs), old(cs), 2, 1),
        wire_row(final(cs), old(cs).rows().len() as int, old(cs).num_aux() as int),
        def_matches(final(cs), old(cs).num_aux() as int, 7 + i),
        forall|inp: Seq<u64>, aux: Seq<u64>|
            #[trigger] row_satisfied(final(cs).rows()[old(cs).rows().len() + 1int], inp, aux)
                <==> crate::field::reduce(wire(inp, JoltInputs::OpFlags_IsConcat)
                    * (input_at(inp, 29 + i) - 256 * input_at(inp, 21 + i) - aux_wire(aux, old(cs).num_aux() as int))) == 0,
{
    let ghost ni = JOLT_INPUT_COUNT as nat;
    let ghost n = old(cs).rows().len() as int;
    let ghost m = old(cs).num_aux() as int;
    let relevant_chunk_y = cs.allocate_if_else(is_shift, chunk_top, chunk_y);
    proof {
        assert forall|inp: Seq<u64>, aux: Seq<u64>|
            #[trigger] aux_def_value(cs.defs()[m], inp, aux) == jolt_aux_value(7 + i, inp, aux, 0) by {
            let ta = seq![Term { var: Variable::Input(61), coeff: 1 }];
            let tb = seq![Term { var: Variable::Input(63), coeff: 1 }];
            let tc = seq![Term { var: Variable::Input(62), coeff: 1 }];
            lemma_input_value(ta, 61, inp, aux);
            lemma_input_value(tb, 63, inp, aux);
            lemma_input_value(tc, 62, inp, aux);
            lemma_input_value(chunk_top@, 28, inp, aux);
            lemma_input_value(chunk_y@, (25 + i) as nat, inp, aux);
            crate::lc::lemma_value_concat(ta, tb, inp, aux);
            crate::lc::lemma_value_concat(ta + tb, tc, inp, aux);
            crate::field::lemma_reduce_add(input_at(inp, 61) + input_at(inp, 63), input_at(inp, 62));
        }
        assert(def_matches(cs, m, 7 + i));
        assert(wire_row(cs, n, m));
        crate::builder::lemma_terms_wf_grow(chunk_x@, ni, m as nat, cs.num_aux());
        crate::builder::lemma_terms_wf_grow(chunk_q@, ni, m as nat, cs.num_aux());
    }
    let ghost mid = *cs;
    let query = chunk_x.scaled(256).plus(&relevant_chunk_y);
    cs.constrain_eq_conditional(&JoltInputs::OpFlags_IsConcat.lc(), chunk_q, &query);
    proof {
        crate::builder::lemma_extends_trans(old(cs), &mid, cs);
        crate::builder::lemma_wire_row_kept(&mid, cs, n, m);
        lemma_def_matches_kept(&mid, cs, m, 7 + i);
        assert(cs.rows()[n + 1] == cs.rows().last());
        assert forall|inp: Seq<u64>, aux: Seq<u64>|
            #[trigger] row_satisfied(cs.rows()[n + 1], inp, aux)
                <==> crate::field::reduce(wire(inp, JoltInputs::OpFlags_IsConcat)
                    * (input_at(inp, 29 + i) - 256 * input_at(inp, 21 + i) - aux_wire(aux, m))) == 0 by {
            let c = wire(inp, JoltInputs::OpFlags_IsConcat);
            let q = input_at(inp, 29 + i);
            let xv = input_at(inp, 21 + i);
            let sel = aux_wire(aux, m);
            lemma_input_value(seq![Term { var: Variable::Input(42), coeff: 1 }], 42, inp, aux);
            lemma_input_value(chunk_q@, (29 + i) as nat, inp, aux);
            lemma_input_value(chunk_x@, (21 + i) as nat, inp, aux);
            lemma_aux_value(relevant_chunk_y@, m as nat, inp, aux);
            crate::field::lemma_reduce_mul(256, xv);
            crate::field::lemma_reduce_add(256 * xv, sel);
            crate::field::lemma_reduce_sub(q, 256 * xv + sel);
            crate::field::lemma_reduce_mul(c, q - (256 * xv + sel));
            crate::field::lemma_reduce_mul(c, q - crate::field::reduce(256 * xv + sel));
            assert(q - (256 * xv + sel) == q - 256 * xv - sel);
        }
    }
}

/// The terms of the sum of the three shift flags.
pub open spec fn is_shift_terms() -> Seq<Term> {
    seq![Term { var: Variable::Input(61), coeff: 1 }] + seq![Term { var: Variable::Input(63), coeff: 1 }]
        + seq![Term { var: Variable::Input(62), coeff: 1 }]
}

/// Where the operands are concatenated, the chunked operands are the operands, and each
/// query chunk joins a chunk of `x` with a chunk of `y` (the top one for a shift).
fn constrain_concat(cs: &mut R1CSBuilder, x: &LC, y: &LC)
    requires
        old(cs).wf(),
        old(cs).num_inputs == JOLT_INPUT_COUNT,
        old(cs).operand_ok(x@),
        old(cs).operand_ok(y@),
    ensures
        grew(final(cs), old(cs), 12, 6),
        wire_row(final(cs), old(cs).rows().len() as int, old(cs).num_aux() as int),
        wire_row(final(cs), old(cs).rows().len() + 1int, old(cs).num_aux() + 1int),
        def_matches(final(cs), old(cs).num_aux() as int, 5),
        def_matches(final(cs), old(cs).num_aux() + 1int, 6),
        forall|i: int| 0 <= i < 4 ==> #[trigger] wire_row(final(cs), old(cs).rows().len() + 4 + 2 * i, old(cs).num_aux() + 2int + i),
        forall|i: int| 0 <= i < 4 ==> #[trigger] def_matches(final(cs), old(cs).num_aux() + 2int + i, 7 + i),
        forall|i: int, inp: Seq<u64>, aux: Seq<u64>| 0 <= i < 4 ==>
            (#[trigger] row_satisfied(final(cs).rows()[old(cs).rows().len() + 5 + 2 * i], inp, aux)
                <==> crate::field::reduce(wire(inp, JoltInputs::OpFlags_IsConcat)
                    * (input_at(inp, 29 + i) - 256 * input_at(inp, 21 + i) - aux_wire(aux, old(cs).num_aux() + 2int + i))) == 0),
        forall|inp: Seq<u64>, aux: Seq<u64>|
            #[trigger] row_satisfied(final(cs).rows()[old(cs).rows().len() + 2int], inp, aux)
                <==> crate::field::reduce(wire(inp, JoltInputs::OpFlags_IsConcat)
                    * (aux_wire(aux, old(cs).num_aux() as int) - crate::lc::lc_value(x@, inp, aux))) == 0,
        forall|inp: Seq<u64>, aux: Seq<u64>|
            #[trigger] row_satisfied(final(cs).rows()[old(cs).rows().len() + 3int], inp, aux)
                <==> crate::field::reduce(wire(inp, JoltInputs::OpFlags_IsConcat)
                    * (aux_wire(aux, old(cs).num_aux() + 1int) - crate::lc::lc_value(y@, inp, aux))) == 0,
{
    broadcast use crate::builder::lemma_wire_row_kept, lemma_def_matches_kept;
    broadcast use crate::builder::lemma_extends_trans;
    let ghost ni = JOLT_INPUT_COUNT as nat;
    let chunks_x0 = input_range(JoltInputs::ChunksX_0, JoltInputs::ChunksX_3);
    let chunked_x = cs.allocate_pack_be(&chunks_x0, OPERAND_SIZE);
    proof {
        assert forall|inp: Seq<u64>, aux: Seq<u64>|
            #[trigger] aux_def_value(cs.defs()[old(cs).num_aux() as int], inp, aux) == jolt_aux_value(5, inp, aux, 0) by {
            lemma_range_values(chunks_x0@, 21, 4, inp, aux);
        }
        assert(def_matches(cs, old(cs).num_aux() as int, 5));
    }
    let chunks_y0 = input_range(JoltInputs::ChunksY_0, JoltInputs::ChunksY_3);
    let chunked_y = cs.allocate_pack_be(&chunks_y0, OPERAND_SIZE);
    proof {
        assert forall|inp: Seq<u64>, aux: Seq<u64>|
            #[trigger] aux_def_value(cs.defs()[old(cs).num_aux() + 1int], inp, aux) == jolt_aux_value(6, inp, aux, 0) by {
            lemma_range_values(chunks_y0@, 25, 4, inp, aux);
        }
        assert(def_matches(cs, old(cs).num_aux() + 1int, 6));
    }
    proof {
        crate::builder::lemma_terms_wf_grow(x@, ni, old(cs).num_aux(), cs.num_aux());
        crate::builder::lemma_terms_wf_grow(y@, ni, old(cs).num_aux(), cs.num_aux());
        lemma_grow_aux(chunked_x@, old(cs).num_aux(), cs);
    }
    cs.constrain_eq_conditional(&JoltInputs::OpFlags_IsConcat.lc(), &chunked_x, x);
    let ghost s_cx = *cs;
    cs.constrain_eq_conditional(&JoltInputs::OpFlags_IsConcat.lc(), &chunked_y, y);
    let ghost s_cy = *cs;
    proof {
        let m = old(cs).num_aux();
        assert forall|inp: Seq<u64>, aux: Seq<u64>|
            row_satisfied(s_cx.rows().last(), inp, aux)
                <==> crate::field::reduce(wire(inp, JoltInputs::OpFlags_IsConcat)
                    * (aux_wire(aux, m as int) - crate::lc::lc_value(x@, inp, aux))) == 0 by {
            lemma_input_value(seq![Term { var: Variable::Input(42), coeff: 1 }], 42, inp, aux);
            lemma_aux_value(chunked_x@, m, inp, aux);
        }
        assert forall|inp: Seq<u64>, aux: Seq<u64>|
            row_satisfied(s_cy.rows().last(), inp, aux)
                <==> crate::field::reduce(wire(inp, JoltInputs::OpFlags_IsConcat)
                    * (aux_wire(aux, m + 1int) - crate::lc::lc_value(y@, inp, aux))) == 0 by {
            lemma_input_value(seq![Term { var: Variable::Input(42), coeff: 1 }], 42, inp, aux);
            lemma_aux_value(chunked_y@, (m + 1) as nat, inp, aux);
        }
    }

    // A shift routes the top chunk of the second operand into every query chunk.
    let is_shift = JoltInputs::IF_Sll.lc().plus(&JoltInputs::IF_Srl.lc()).plus(&JoltInputs::IF_Sra.lc());
    let chunks_x = input_range(JoltInputs::ChunksX_0, JoltInputs::ChunksX_3);
    let chunks_y = input_range(JoltInputs::ChunksY_0, JoltInputs::ChunksY_3);
    let chunks_query = input_range(JoltInputs::ChunksQ_0, JoltInputs::ChunksQ_3);
    proof {
        assert(lcs_wf(chunks_y@, ni, cs.num_aux()));
        assert(lcs_wf(chunks_x@, ni, cs.num_aux()));
        assert(lcs_wf(chunks_query@, ni, cs.num_aux()));
        assert(terms_wf(chunks_y@[3]@, ni, cs.num_aux()));
        assert(terms_wf(chunks_y@[0]@, ni, cs.num_aux()));
        assert(terms_wf(chunks_x@[0]@, ni, cs.num_aux()));
        assert(terms_wf(chunks_query@[0]@, ni, cs.num_aux()));
    }
    let ghost r0 = *cs;
    route_chunk(cs, 0, &is_shift, &chunks_x[0], &chunks_y[C - 1], &chunks_y[0], &chunks_query[0]);
    let ghost t0 = *cs;
    proof {
        assert(lcs_wf(chunks_y@, ni, cs.num_aux()));
        assert(lcs_wf(chunks_x@, ni, cs.num_aux()));
        assert(lcs_wf(chunks_query@, ni, cs.num_aux()));
        assert(terms_wf(chunks_y@[3]@, ni, cs.num_aux()));
        assert(terms_wf(chunks_y@[1]@, ni, cs.num_aux()));
        assert(terms_wf(chunks_x@[1]@, ni, cs.num_aux()));
        assert(terms_wf(chunks_query@[1]@, ni, cs.num_aux()));
    }
    let ghost r1 = *cs;
    route_chunk(cs, 1, &is_shift, &chunks_x[1], &chunks_y[C - 1], &chunks_y[1], &chunks_query[1]);
    let ghost t1 = *cs;
    proof {
        assert(lcs_wf(chunks_y@, ni, cs.num_aux()));
        assert(lcs_wf(chunks_x@, ni, cs.num_aux()));
        assert(lcs_wf(chunks_query@, ni, cs.num_aux()));
        assert(terms_wf(chunks_y@[3]@, ni, cs.num_aux()));
        assert(terms_wf(chunks_y@[2]@, ni, cs.num_aux()));
        assert(terms_wf(chunks_x@[2]@, ni, cs.num_aux()));
        assert(terms_wf(chunks_query@[2]@, ni, cs.num_aux()));
    }
    let ghost r2 = *cs;
    route_chunk(cs, 2, &is_shift, &chunks_x[2], &chunks_y[C - 1], &chunks_y[2], &chunks_query[2]);
    let ghost t2 = *cs;
    proof {
        assert(lcs_wf(chunks_y@, ni, cs.num_aux()));
        assert(lcs_wf(chunks_x@, ni, cs.num_aux()));
        assert(lcs_wf(chunks_query@, ni, cs.num_aux()));
        assert(terms_wf(chunks_y@[3]@, ni, cs.num_aux()));
        assert(terms_wf(chunks_y@[3]@, ni, cs.num_aux()));
        assert(terms_wf(chunks_x@[3]@, ni, cs.num_aux()));
        assert(terms_wf(chunks_query@[3]@, ni, cs.num_aux()));
    }
    let ghost r3 = *cs;
    route_chunk(cs, 3, &is_shift, &chunks_x[3], &chunks_y[C - 1], &chunks_y[3], &chunks_query[3]);
    let ghost t3 = *cs;
    proof {
        let n = old(cs).rows().len() as int;
        let m = old(cs).num_aux() as int;
        assert(r0.rows().len() == n + 4 && r0.num_aux() == m + 2);
        assert(r1.rows().len() == n + 6 && r1.num_aux() == m + 3);
        assert(r2.rows().len() == n + 8 && r2.num_aux() == m + 4);
        assert(r3.rows().len() == n + 10 && r3.num_aux() == m + 5);
        assert(wire_row(cs, n + 4, m + 2));
        assert(wire_row(cs, n + 6, m + 3));
        assert(wire_row(cs, n + 8, m + 4));
        assert(wire_row(cs, n + 10, m + 5));
        assert(def_matches(cs, m + 2, 7));
        assert(def_matches(cs, m + 3, 8));
        assert(def_matches(cs, m + 4, 9));
        assert(def_matches(cs, m + 5, 10));
        assert forall|i: int| 0 <= i < 4 implies #[trigger] wire_row(cs, n + 4 + 2 * i, m + 2 + i) by {
            if i == 0 {} else if i == 1 {} else if i == 2 {} else {}
        }
        assert forall|i: int| 0 <= i < 4 implies #[trigger] def_matches(cs, m + 2 + i, 7 + i) by {
            if i == 0 {} else if i == 1 {} else if i == 2 {} else {}
        }
        assert(t0.rows().is_prefix_of(cs.rows()));
        assert(t1.rows().is_prefix_of(cs.rows()));
        assert(t2.rows().is_prefix_of(cs.rows()));
        assert forall|i: int, inp: Seq<u64>, aux: Seq<u64>| 0 <= i < 4 implies
            (#[trigger] row_satisfied(cs.rows()[n + 5 + 2 * i], inp, aux)
                <==> crate::field::reduce(wire(inp, JoltInputs::OpFlags_IsConcat)
                    * (input_at(inp, 29 + i) - 256 * input_at(inp, 21 + i) - aux_wire(aux, m + 2 + i))) == 0) by {
            if i == 0 {
                assert(cs.rows()[n + 5] == t0.rows()[r0.rows().len() + 1int]);
            } else if i == 1 {
                assert(cs.rows()[n + 7] == t1.rows()[r1.rows().len() + 1int]);
            } else if i == 2 {
                assert(cs.rows()[n + 9] == t2.rows()[r2.rows().len() + 1int]);
            } else {
                assert(cs.rows()[n + 11] == t3.rows()[r3.rows().len() + 1int]);
            }
        }
    }
    proof {
        let n = old(cs).rows().len() as int;
        assert(s_cx.rows().is_prefix_of(cs.rows()));
        assert(s_cy.rows().is_prefix_of(cs.rows()));
        assert(cs.rows()[n + 2] == s_cx.rows()[n + 2]);
        assert(s_cx.rows()[n + 2] == s_cx.rows().last());
        assert(cs.rows()[n + 3] == s_cy.rows()[n + 3]);
        assert(s_cy.rows()[n + 3] == s_cy.rows().last());
    }
}

/// A nonzero destination register takes the lookup output, or, on a jump, the program
/// counter offset to its address. The incremented program counter and the other
/// program-counter update rules are not part of this circuit yet.
fn constrain_rd(cs: &mut R1CSBuilder)
    requires
        old(cs).wf(),
        old(cs).num_inputs == JOLT_INPUT_COUNT,
    ensures
        grew(final(cs), old(cs), 4, 2),
        wire_row(final(cs), old(cs).rows().len() as int, old(cs).num_aux() as int),
        wire_row(final(cs), old(cs).rows().len() + 2int, old(cs).num_aux() + 1int),
        def_matches(final(cs), old(cs).num_aux() as int, 11),
        def_matches(final(cs), old(cs).num_aux() + 1int, 12),
        forall|inp: Seq<u64>, aux: Seq<u64>|
            #[trigger] row_satisfied(final(cs).rows()[old(cs).rows().len() as int], inp, aux)
                <==> crate::field::reduce(wire(inp, JoltInputs::Bytecode_RD) * wire(inp, JoltInputs::OpFlags_LookupOutToRd))
                    == aux_wire(aux, old(cs).num_aux() as int),
        forall|inp: Seq<u64>, aux: Seq<u64>|
            #[trigger] row_satisfied(final(cs).rows()[old(cs).rows().len() + 1int], inp, aux)
                <==> crate::field::reduce(aux_wire(aux, old(cs).num_aux() as int)
                    * (wire(inp, JoltInputs::RAM_Write_RD) - wire(inp, JoltInputs::LookupOutput))) == 0,
        forall|inp: Seq<u64>, aux: Seq<u64>|
            #[trigger] row_satisfied(final(cs).rows()[old(cs).rows().len() + 2int], inp, aux)
                <==> crate::field::reduce(wire(inp, JoltInputs::Bytecode_RD) * wire(inp, JoltInputs::OpFlags_IsJmp))
                    == aux_wire(aux, old(cs).num_aux() + 1int),
        forall|inp: Seq<u64>, aux: Seq<u64>|
            #[trigger] row_satisfied(final(cs).rows()[old(cs).rows().len() + 3int], inp, aux)
                <==> crate::field::reduce(aux_wire(aux, old(cs).num_aux() + 1int)
                    * (inp[0] + (PC_START_ADDRESS - PC_NOOP_SHIFT) - wire(inp, JoltInputs::RAM_Write_RD))) == 0,
{
    broadcast use crate::builder::lemma_extends_trans, crate::builder::lemma_wire_row_kept, lemma_def_matches_kept;
    let rd_nonzero_and_lookup_to_rd =
        cs.allocate_prod(&JoltInputs::Bytecode_RD.lc(), &JoltInputs::OpFlags_LookupOutToRd.lc());
    let ghost s1 = *cs;
    proof {
        let m = old(cs).num_aux() as int;
        assert forall|inp: Seq<u64>, aux: Seq<u64>|
            #[trigger] aux_def_value(s1.defs()[m], inp, aux) == jolt_aux_value(11, inp, aux, 0) by {
            lemma_input_value(seq![Term { var: Variable::Input(6), coeff: 1 }], 6, inp, aux);
            lemma_input_value(seq![Term { var: Variable::Input(40), coeff: 1 }], 40, inp, aux);
        }
        assert(def_matches(&s1, m, 11));
        assert(wire_row(&s1, old(cs).rows().len() as int, m));
    }
    cs.constrain_eq_conditional(
        &rd_nonzero_and_lookup_to_rd,
        &JoltInputs::RAM_Write_RD.lc(),
        &JoltInputs::LookupOutput.lc(),
    );
    let ghost s2 = *cs;
    let rd_nonzero_and_jmp = cs.allocate_prod(&JoltInputs::Bytecode_RD.lc(), &JoltInputs::OpFlags_IsJmp.lc());
    let ghost s3 = *cs;
    proof {
        let m = old(cs).num_aux() as int + 1;
        assert forall|inp: Seq<u64>, aux: Seq<u64>|
            #[trigger] aux_def_value(s3.defs()[m], inp, aux) == jolt_aux_value(12, inp, aux, 0) by {
            lemma_input_value(seq![Term { var: Variable::Input(6), coeff: 1 }], 6, inp, aux);
            lemma_input_value(seq![Term { var: Variable::Input(38), coeff: 1 }], 38, inp, aux);
        }
        assert(def_matches(&s3, m, 12));
        assert(wire_row(&s3, old(cs).rows().len() + 2int, m));
    }
    let lhs = JoltInputs::PcIn.lc().plus(&LC::constant(PC_START_ADDRESS - PC_NOOP_SHIFT));
    cs.constrain_eq_conditional(&rd_nonzero_and_jmp, &lhs, &JoltInputs::RAM_Write_RD.lc());
    proof {
        let m2 = (old(cs).num_aux() + 1int) as nat;
        assert(s3.rows()[old(cs).rows().len() + 2int] == s3.rows().last());
        assert(cs.rows()[old(cs).rows().len() + 2int] == s3.rows()[old(cs).rows().len() + 2int]);
        assert(cs.rows()[old(cs).rows().len() + 3int] == cs.rows().last());
        assert forall|inp: Seq<u64>, aux: Seq<u64>|
            row_satisfied(cs.rows()[old(cs).rows().len() + 2int], inp, aux)
                <==> crate::field::reduce(wire(inp, JoltInputs::Bytecode_RD) * wire(inp, JoltInputs::OpFlags_IsJmp))
                    == aux_wire(aux, m2 as int) by {
            lemma_input_value(seq![Term { var: Variable::Input(6), coeff: 1 }], 6, inp, aux);
            lemma_input_value(seq![Term { var: Variable::Input(38), coeff: 1 }], 38, inp, aux);
        }
        assert forall|inp: Seq<u64>, aux: Seq<u64>|
            row_satisfied(cs.rows()[old(cs).rows().len() + 3int], inp, aux)
                <==> crate::field::reduce(aux_wire(aux, m2 as int)
                    * (inp[0] + (PC_START_ADDRESS - PC_NOOP_SHIFT) - wire(inp, JoltInputs::RAM_Write_RD))) == 0 by {
            let c = aux_wire(aux, m2 as int);
            let p = inp[0] + (PC_START_ADDRESS - PC_NOOP_SHIFT);
            let w = wire(inp, JoltInputs::RAM_Write_RD);
            lemma_input_value(seq![Term { var: Variable::Input(0), coeff: 1 }], 0, inp, aux);
            lemma_input_value(seq![Term { var: Variable::Input(16), coeff: 1 }], 16, inp, aux);
            lemma_aux_value(rd_nonzero_and_jmp@, m2, inp, aux);
            crate::field::lemma_reduce_add(inp[0] as int, PC_START_ADDRESS - PC_NOOP_SHIFT);
            crate::field::lemma_reduce_sub(p, w);
            crate::field::lemma_reduce_mul(c, p - w);
            crate::field::lemma_reduce_mul(c, crate::field::reduce(p) - w);
        }
    }
    proof {
        let n = old(cs).rows().len() as int;
        let m = old(cs).num_aux();
        assert(s1.rows().is_prefix_of(cs.rows()));
        assert(s2.rows().is_prefix_of(cs.rows()));
        assert(cs.rows()[n] == s1.rows()[n]);
        assert(cs.rows()[n + 1] == s2.rows()[n + 1]);
        assert(s1.rows()[n] == s1.rows().last());
        assert(s2.rows()[n + 1] == s2.rows().last());
        assert forall|inp: Seq<u64>, aux: Seq<u64>|
            row_satisfied(cs.rows()[n], inp, aux)
                <==> crate::field::reduce(wire(inp, JoltInputs::Bytecode_RD) * wire(inp, JoltInputs::OpFlags_LookupOutToRd))
                    == aux_wire(aux, m as int) by {
            lemma_input_value(seq![Term { var: Variable::Input(6), coeff: 1 }], 6, inp, aux);
            lemma_input_value(seq![Term { var: Variable::Input(40), coeff: 1 }], 40, inp, aux);
        }
        assert forall|inp: Seq<u64>, aux: Seq<u64>|
            row_satisfied(cs.rows()[n + 1], inp, aux)
                <==> crate::field::reduce(aux_wire(aux, m as int)
                    * (wire(inp, JoltInputs::RAM_Write_RD) - wire(inp, JoltInputs::LookupOutput))) == 0 by {
            lemma_input_value(seq![Term { var: Variable::Input(16), coeff: 1 }], 16, inp, aux);
            lemma_input_value(seq![Term { var: Variable::Input(33), coeff: 1 }], 33, inp, aux);
            lemma_aux_value(rd_nonzero_and_lookup_to_rd@, m, inp, aux);
        }
    }
}

proof fn lemma_aux_value(t: Seq<Term>, k: nat, inp: Seq<u64>, aux: Seq<u64>)
    requires
        t == crate::builder::aux_lc(k),
        k <= usize::MAX,
    ensures
        crate::lc::lc_value(t, inp, aux) == aux_wire(aux, k as int),
{
    assert(t.drop_last() =~= Seq::<Term>::empty());
    assert(crate::lc::terms_sum(t.drop_last(), inp, aux) == 0);
    assert(t.last() == t[0]);
}

/// The relations that define a valid CPU step.
#[derive(Clone, Copy, Debug)]
pub struct JoltConstraints();

impl JoltConstraints {
    /// Adds the rows and auxiliary wires of one CPU step to `cs`. Rows are numbered from
    /// the first one added, auxiliary wires likewise.
    pub fn build_constraints(&self, cs: &mut R1CSBuilder)
        requires
            old(cs).wf(),
            old(cs).num_inputs == JOLT_INPUT_COUNT,
        ensures
            grew(final(cs), old(cs), 66, 13),
            // Auxiliary wire k is defined as `jolt_aux_value(k)`, and row `alloc_row(k)`
            // holds exactly where the wire carries that value.
            forall|k: int| 0 <= k < 13 ==> #[trigger] def_matches(final(cs), old(cs).num_aux() + k, k),
            forall|k: int| 0 <= k < 13 ==>
                #[trigger] wire_row(final(cs), old(cs).rows().len() + alloc_row(k), old(cs).num_aux() + k),
            // Where the operands are concatenated, query chunk i is 2^8 times chunk i of the
            // first operand plus the routed chunk of the second (wire 7 + i).
            forall|i: int, inp: Seq<u64>, aux: Seq<u64>| 0 <= i < 4 ==>
                (#[trigger] row_satisfied(final(cs).rows()[old(cs).rows().len() + 55 + 2 * i], inp, aux)
                    <==> crate::field::reduce(wire(inp, JoltInputs::OpFlags_IsConcat)
                        * (input_at(inp, 29 + i) - 256 * input_at(inp, 21 + i) - aux_wire(aux, old(cs).num_aux() + 7 + i))) == 0),
            // A load keeps each of the four bytes of the word.
            forall|j: int, inp: Seq<u64>, aux: Seq<u64>| 0 <= j < 4 ==>
                (#[trigger] row_satisfied(final(cs).rows()[old(cs).rows().len() + 39 + j], inp, aux)
                    <==> crate::field::reduce(wire(inp, JoltInputs::OpFlags_IsLoad)
                        * (input_at(inp, 12 + j) - input_at(inp, 17 + j))) == 0),
            // Every flag is 0 or 1.
            forall|j: int, inp: Seq<u64>, aux: Seq<u64>| 0 <= j < 34 ==>
                (#[trigger] row_satisfied(final(cs).rows()[old(cs).rows().len() + j], inp, aux)
                    <==> crate::field::reduce(flag(inp, j) * (1 - flag(inp, j))) == 0),
            // The fetched program counter is the bytecode address.
            forall|inp: Seq<u64>, aux: Seq<u64>|
                #[trigger] row_satisfied(final(cs).rows()[old(cs).rows().len() + 34int], inp, aux)
                    <==> wire(inp, JoltInputs::PcIn) == wire(inp, JoltInputs::Bytecode_A),
            // The opcode is the big-endian packing of the flags, one bit each.
            forall|inp: Seq<u64>, aux: Seq<u64>|
                #[trigger] row_satisfied(final(cs).rows()[old(cs).rows().len() + 35int], inp, aux)
                    <==> crate::field::reduce(crate::builder::pack_be_value(
                        Seq::new(34, |j: int| flag(inp, j)), 1)) == wire(inp, JoltInputs::Bytecode_Opcode),
            // For a store, the packed bytes written (wire 3) are the lookup output.
            forall|inp: Seq<u64>, aux: Seq<u64>|
                #[trigger] row_satisfied(final(cs).rows()[old(cs).rows().len() + 44int], inp, aux)
                    <==> crate::field::reduce(wire(inp, JoltInputs::OpFlags_IsStore)
                        * (aux_wire(aux, old(cs).num_aux() + 3int) - wire(inp, JoltInputs::LookupOutput))) == 0,
            // For an add, the packed query (wire 4) is the sum of the operands (wires 0 and 2).
            forall|inp: Seq<u64>, aux: Seq<u64>|
                #[trigger] row_satisfied(final(cs).rows()[old(cs).rows().len() + 46int], inp, aux)
                    <==> crate::field::reduce(wire(inp, JoltInputs::IF_Add)
                        * (aux_wire(aux, old(cs).num_aux() + 4int) - aux_wire(aux, old(cs).num_aux() as int)
                            - aux_wire(aux, old(cs).num_aux() + 2int))) == 0,
            // For a subtract, the packed query is `x - y` offset by 2^32.
            forall|inp: Seq<u64>, aux: Seq<u64>|
                #[trigger] row_satisfied(final(cs).rows()[old(cs).rows().len() + 47int], inp, aux)
                    <==> crate::field::reduce(wire(inp, JoltInputs::IF_Sub)
                        * (aux_wire(aux, old(cs).num_aux() + 4int) - aux_wire(aux, old(cs).num_aux() as int)
                            + aux_wire(aux, old(cs).num_aux() + 2int) - 0x1_0000_0000)) == 0,
            // For a load, the packed query is the packed bytes; for a store, the second register.
            forall|inp: Seq<u64>, aux: Seq<u64>|
                #[trigger] row_satisfied(final(cs).rows()[old(cs).rows().len() + 48int], inp, aux)
                    <==> crate::field::reduce(wire(inp, JoltInputs::OpFlags_IsLoad)
                        * (aux_wire(aux, old(cs).num_aux() + 4int) - aux_wire(aux, old(cs).num_aux() + 3int))) == 0,
            forall|inp: Seq<u64>, aux: Seq<u64>|
                #[trigger] row_satisfied(final(cs).rows()[old(cs).rows().len() + 49int], inp, aux)
                    <==> crate::field::reduce(wire(inp, JoltInputs::OpFlags_IsStore)
                        * (aux_wire(aux, old(cs).num_aux() + 4int) - wire(inp, JoltInputs::RAM_Read_RS2))) == 0,
            // Where the operands are concatenated, the chunked operands (wires 5 and 6) are the
            // operands.
            forall|inp: Seq<u64>, aux: Seq<u64>|
                #[trigger] row_satisfied(final(cs).rows()[old(cs).rows().len() + 52int], inp, aux)
                    <==> crate::field::reduce(wire(inp, JoltInputs::OpFlags_IsConcat)
                        * (aux_wire(aux, old(cs).num_aux() + 5int) - aux_wire(aux, old(cs).num_aux() as int))) == 0,
            forall|inp: Seq<u64>, aux: Seq<u64>|
                #[trigger] row_satisfied(final(cs).rows()[old(cs).rows().len() + 53int], inp, aux)
                    <==> crate::field::reduce(wire(inp, JoltInputs::OpFlags_IsConcat)
                        * (aux_wire(aux, old(cs).num_aux() + 6int) - aux_wire(aux, old(cs).num_aux() + 2int))) == 0,
            // Wire 11 is the destination register times the lookup-to-register flag ...
            forall|inp: Seq<u64>, aux: Seq<u64>|
                #[trigger] row_satisfied(final(cs).rows()[old(cs).rows().len() + 62int], inp, aux)
                    <==> crate::field::reduce(wire(inp, JoltInputs::Bytecode_RD) * wire(inp, JoltInputs::OpFlags_LookupOutToRd))
                        == aux_wire(aux, old(cs).num_aux() + 11int),
            // ... and where it is 1, the written value is the lookup output.
            forall|inp: Seq<u64>, aux: Seq<u64>|
                #[trigger] row_satisfied(final(cs).rows()[old(cs).rows().len() + 63int], inp, aux)
                    <==> crate::field::reduce(aux_wire(aux, old(cs).num_aux() + 11int)
                        * (wire(inp, JoltInputs::RAM_Write_RD) - wire(inp, JoltInputs::LookupOutput))) == 0,
            // Wire 12 is the destination register times the jump flag, and where it is 1 the
            // written value is the program counter offset to its address.
            forall|inp: Seq<u64>, aux: Seq<u64>|
                #[trigger] row_satisfied(final(cs).rows()[old(cs).rows().len() + 64int], inp, aux)
                    <==> crate::field::reduce(wire(inp, JoltInputs::Bytecode_RD) * wire(inp, JoltInputs::OpFlags_IsJmp))
                        == aux_wire(aux, old(cs).num_aux() + 12int),
            forall|inp: Seq<u64>, aux: Seq<u64>|
                #[trigger] row_satisfied(final(cs).rows()[old(cs).rows().len() + 65int], inp, aux)
                    <==> crate::field::reduce(aux_wire(aux, old(cs).num_aux() + 12int)
                        * (inp[0] + (PC_START_ADDRESS - PC_NOOP_SHIFT) - wire(inp, JoltInputs::RAM_Write_RD))) == 0,
    {
        broadcast use crate::builder::lemma_extends_trans, crate::builder::lemma_wire_row_kept, lemma_def_matches_kept;
        let ghost n = old(cs).rows().len() as int;
        let ghost m = old(cs).num_aux() as int;
        let flags = input_range(JoltInputs::OpFlags0, JoltInputs::IF_MulHu);
        constrain_flags(cs, &flags);
        let ghost s_flags = *cs;
        constrain_fetch(cs, &flags);
        let ghost s_fetch = *cs;
        let (x, y) = allocate_operands(cs);
        let ghost s_ops = *cs;
        proof {
            lemma_grow_aux(x@, m as nat, cs);
            lemma_grow_aux(y@, (m + 2) as nat, cs);
        }
        let ghost s_before_mem = *cs;
        let packed_load_store = constrain_memory(cs);
        proof {
            crate::builder::lemma_terms_wf_grow(x@, JOLT_INPUT_COUNT as nat, (m + 3) as nat, cs.num_aux());
            crate::builder::lemma_terms_wf_grow(y@, JOLT_INPUT_COUNT as nat, (m + 3) as nat, cs.num_aux());
            lemma_grow_aux(packed_load_store@, (m + 3) as nat, cs);
        }
        let ghost s_mem = *cs;
        constrain_query(cs, &x, &y, &packed_load_store);
        let ghost s_query = *cs;
        proof {
            crate::builder::lemma_terms_wf_grow(x@, JOLT_INPUT_COUNT as nat, (m + 4) as nat, cs.num_aux());
            crate::builder::lemma_terms_wf_grow(y@, JOLT_INPUT_COUNT as nat, (m + 4) as nat, cs.num_aux());
        }
        constrain_concat(cs, &x, &y);
        let ghost s_concat = *cs;
        proof {
            assert forall|inp: Seq<u64>, aux: Seq<u64>|
                #[trigger] row_satisfied(s_concat.rows()[n + 52], inp, aux)
                    <==> crate::field::reduce(wire(inp, JoltInputs::OpFlags_IsConcat)
                        * (aux_wire(aux, m + 5) - aux_wire(aux, m))) == 0 by {
                lemma_aux_value(x@, m as nat, inp, aux);
                assert(s_query.rows().len() + 2 == n + 52);
                assert(s_query.num_aux() == m + 5);
                assert(row_satisfied(s_concat.rows()[s_query.rows().len() + 2int], inp, aux)
                    <==> crate::field::reduce(wire(inp, JoltInputs::OpFlags_IsConcat)
                        * (aux_wire(aux, s_query.num_aux() as int) - crate::lc::lc_value(x@, inp, aux))) == 0);
            }
            assert forall|inp: Seq<u64>, aux: Seq<u64>|
                #[trigger] row_satisfied(s_concat.rows()[n + 53], inp, aux)
                    <==> crate::field::reduce(wire(inp, JoltInputs::OpFlags_IsConcat)
                        * (aux_wire(aux, m + 6) - aux_wire(aux, m + 2))) == 0 by {
                lemma_aux_value(y@, (m + 2) as nat, inp, aux);
                assert(row_satisfied(s_concat.rows()[s_query.rows().len() + 3int], inp, aux)
                    <==> crate::field::reduce(wire(inp, JoltInputs::OpFlags_IsConcat)
                        * (aux_wire(aux, s_query.num_aux() + 1int) - crate::lc::lc_value(y@, inp, aux))) == 0);
            }
        }
        constrain_rd(cs);
        proof {
            assert(s_fetch.num_aux() == m && s_fetch.rows().len() == n + 36);
            assert(def_matches(&s_ops, s_fetch.num_aux() + 0int, 0));
            assert(def_matches(&s_ops, s_fetch.num_aux() + 1int, 1));
            assert(def_matches(&s_ops, s_fetch.num_aux() + 2int, 2));
            assert(wire_row(&s_ops, s_fetch.rows().len() + 0int, s_fetch.num_aux() + 0int));
            assert(wire_row(&s_ops, s_fetch.rows().len() + 1int, s_fetch.num_aux() + 1int));
            assert(wire_row(&s_ops, s_fetch.rows().len() + 2int, s_fetch.num_aux() + 2int));
            assert(def_matches(cs, m, 0));
            assert(def_matches(cs, m + 1, 1));
            assert(def_matches(cs, m + 2, 2));
            assert(def_matches(cs, m + 3, 3));
            assert(def_matches(cs, m + 4, 4));
            assert(def_matches(cs, m + 5, 5));
            assert(def_matches(cs, m + 6, 6));
            assert(def_matches(cs, m + 11, 11));
            assert(def_matches(cs, m + 12, 12));
            assert(wire_row(cs, n + 36, m));
            assert(wire_row(cs, n + 37, m + 1));
            assert(wire_row(cs, n + 38, m + 2));
            assert(wire_row(cs, n + 43, m + 3));
            assert(wire_row(cs, n + 45, m + 4));
            assert(wire_row(cs, n + 50, m + 5));
            assert(wire_row(cs, n + 51, m + 6));
            assert(wire_row(cs, n + 62, m + 11));
            assert(wire_row(cs, n + 64, m + 12));
            assert(s_query.rows().len() == n + 50);
            assert(s_query.num_aux() == m + 5);
            assert forall|i: int| 0 <= i < 4 implies #[trigger] def_matches(cs, m + 7 + i, 7 + i) by {
                assert(def_matches(&s_concat, s_query.num_aux() + 2 + i, 7 + i));
            }
            assert forall|i: int| 0 <= i < 4 implies #[trigger] wire_row(cs, n + 54 + 2 * i, m + 7 + i) by {
                assert(wire_row(&s_concat, s_query.rows().len() + 4 + 2 * i, s_query.num_aux() + 2 + i));
            }
            assert forall|k: int| 0 <= k < 13 implies #[trigger] def_matches(cs, m + k, k) by {
                if 7 <= k < 11 { assert(def_matches(cs, m + 7 + (k - 7), 7 + (k - 7))); }
            }
            assert forall|k: int| 0 <= k < 13 implies #[trigger] wire_row(cs, n + alloc_row(k), m + k) by {
                if 7 <= k < 11 { assert(wire_row(cs, n + 54 + 2 * (k - 7), m + 7 + (k - 7))); }
            }
            assert(s_concat.rows().is_prefix_of(cs.rows()));
            assert forall|i: int, inp: Seq<u64>, aux: Seq<u64>| 0 <= i < 4 implies
                (#[trigger] row_satisfied(cs.rows()[n + 55 + 2 * i], inp, aux)
                    <==> crate::field::reduce(wire(inp, JoltInputs::OpFlags_IsConcat)
                        * (input_at(inp, 29 + i) - 256 * input_at(inp, 21 + i) - aux_wire(aux, m + 7 + i))) == 0) by {
                assert(cs.rows()[n + 55 + 2 * i] == s_concat.rows()[s_query.rows().len() + 5 + 2 * i]);
                assert(row_satisfied(s_concat.rows()[s_query.rows().len() + 5 + 2 * i], inp, aux)
                    <==> crate::field::reduce(wire(inp, JoltInputs::OpFlags_IsConcat)
                        * (input_at(inp, 29 + i) - 256 * input_at(inp, 21 + i) - aux_wire(aux, s_query.num_aux() + 2 + i))) == 0);
            }
            assert(s_mem.rows().is_prefix_of(cs.rows()));
            assert(cs.rows()[n + 48] == s_query.rows()[s_mem.rows().len() + 3int]);
            assert(cs.rows()[n + 49] == s_query.rows()[s_mem.rows().len() + 4int]);
            assert forall|inp: Seq<u64>, aux: Seq<u64>|
                #[trigger] row_satisfied(cs.rows()[n + 48], inp, aux)
                    <==> crate::field::reduce(wire(inp, JoltInputs::OpFlags_IsLoad)
                        * (aux_wire(aux, m + 4) - aux_wire(aux, m + 3))) == 0 by {
                lemma_aux_value(packed_load_store@, (m + 3) as nat, inp, aux);
                assert(row_satisfied(s_query.rows()[s_mem.rows().len() + 3int], inp, aux)
                    <==> crate::field::reduce(wire(inp, JoltInputs::OpFlags_IsLoad)
                        * (aux_wire(aux, s_mem.num_aux() as int) - crate::lc::lc_value(packed_load_store@, inp, aux))) == 0);
            }
            assert forall|inp: Seq<u64>, aux: Seq<u64>|
                #[trigger] row_satisfied(cs.rows()[n + 49], inp, aux)
                    <==> crate::field::reduce(wire(inp, JoltInputs::OpFlags_IsStore)
                        * (aux_wire(aux, m + 4) - wire(inp, JoltInputs::RAM_Read_RS2))) == 0 by {
                assert(row_satisfied(s_query.rows()[s_mem.rows().len() + 4int], inp, aux)
                    <==> crate::field::reduce(wire(inp, JoltInputs::OpFlags_IsStore)
                        * (aux_wire(aux, s_mem.num_aux() as int) - wire(inp, JoltInputs::RAM_Read_RS2))) == 0);
            }
            assert forall|inp: Seq<u64>, aux: Seq<u64>|
                #[trigger] row_satisfied(cs.rows()[n + 47], inp, aux)
                    <==> crate::field::reduce(wire(inp, JoltInputs::IF_Sub)
                        * (aux_wire(aux, m + 4) - aux_wire(aux, m) + aux_wire(aux, m + 2) - 0x1_0000_0000)) == 0 by {
                lemma_aux_value(x@, m as nat, inp, aux);
                lemma_aux_value(y@, (m + 2) as nat, inp, aux);
                assert(s_mem.rows().len() + 2 == n + 47);
                assert(s_mem.num_aux() == m + 4);
                assert(row_satisfied(s_query.rows()[s_mem.rows().len() + 2int], inp, aux)
                    <==> crate::field::reduce(wire(inp, JoltInputs::IF_Sub)
                        * (aux_wire(aux, s_mem.num_aux() as int) - crate::lc::lc_value(x@, inp, aux)
                            + crate::lc::lc_value(y@, inp, aux) - 0x1_0000_0000)) == 0);
                assert(cs.rows()[n + 47] == s_query.rows()[n + 47]);
            }
            assert(s_before_mem.rows().len() == n + 39);
            assert(s_before_mem.num_aux() == m + 3);
            assert forall|inp: Seq<u64>, aux: Seq<u64>|
                #[trigger] row_satisfied(cs.rows()[n + 44], inp, aux)
                    <==> crate::field::reduce(wire(inp, JoltInputs::OpFlags_IsStore)
                        * (aux_wire(aux, m + 3) - wire(inp, JoltInputs::LookupOutput))) == 0 by {
                assert(cs.rows()[n + 44] == s_mem.rows()[s_before_mem.rows().len() + 5int]);
                assert(row_satisfied(s_mem.rows()[s_before_mem.rows().len() + 5int], inp, aux)
                    <==> crate::field::reduce(wire(inp, JoltInputs::OpFlags_IsStore)
                        * (aux_wire(aux, s_before_mem.num_aux() as int) - wire(inp, JoltInputs::LookupOutput))) == 0);
            }
            assert forall|j: int, inp: Seq<u64>, aux: Seq<u64>| 0 <= j < 4 implies
                (#[trigger] row_satisfied(cs.rows()[n + 39 + j], inp, aux)
                    <==> crate::field::reduce(wire(inp, JoltInputs::OpFlags_IsLoad)
                        * (input_at(inp, 12 + j) - input_at(inp, 17 + j))) == 0) by {
                assert(cs.rows()[n + 39 + j] == s_mem.rows()[s_before_mem.rows().len() + j]);
            }
            assert(s_ops.defs().is_prefix_of(cs.defs()));
            assert(cs.defs()[m] == s_ops.defs()[m]);
            assert(cs.defs()[m + 1] == s_ops.defs()[m + 1]);
            assert(s_concat.rows().is_prefix_of(cs.rows()));
            assert(cs.rows()[n + 52] == s_concat.rows()[n + 52]);
            assert(cs.rows()[n + 53] == s_concat.rows()[n + 53]);
            assert(s_concat.rows().len() + 1 == n + 63);
            assert forall|inp: Seq<u64>, aux: Seq<u64>|
                #[trigger] row_satisfied(cs.rows()[n + 64], inp, aux)
                    <==> crate::field::reduce(wire(inp, JoltInputs::Bytecode_RD) * wire(inp, JoltInputs::OpFlags_IsJmp))
                        == aux_wire(aux, m + 12) by {
                assert(row_satisfied(cs.rows()[s_concat.rows().len() + 2int], inp, aux)
                    <==> crate::field::reduce(wire(inp, JoltInputs::Bytecode_RD) * wire(inp, JoltInputs::OpFlags_IsJmp))
                        == aux_wire(aux, s_concat.num_aux() + 1int));
            }
            assert forall|inp: Seq<u64>, aux: Seq<u64>|
                #[trigger] row_satisfied(cs.rows()[n + 65], inp, aux)
                    <==> crate::field::reduce(aux_wire(aux, m + 12)
                        * (inp[0] + (PC_START_ADDRESS - PC_NOOP_SHIFT) - wire(inp, JoltInputs::RAM_Write_RD))) == 0 by {
                assert(row_satisfied(cs.rows()[s_concat.rows().len() + 3int], inp, aux)
                    <==> crate::field::reduce(aux_wire(aux, s_concat.num_aux() + 1int)
                        * (inp[0] + (PC_START_ADDRESS - PC_NOOP_SHIFT) - wire(inp, JoltInputs::RAM_Write_RD))) == 0);
            }
            assert(s_concat.num_aux() == m + 11);
            assert forall|inp: Seq<u64>, aux: Seq<u64>|
                #[trigger] row_satisfied(cs.rows()[n + 63], inp, aux)
                    <==> crate::field::reduce(aux_wire(aux, m + 11)
                        * (wire(inp, JoltInputs::RAM_Write_RD) - wire(inp, JoltInputs::LookupOutput))) == 0 by {
                assert(row_satisfied(cs.rows()[s_concat.rows().len() + 1int], inp, aux)
                    <==> crate::field::reduce(aux_wire(aux, s_concat.num_aux() as int)
                        * (wire(inp, JoltInputs::RAM_Write_RD) - wire(inp, JoltInputs::LookupOutput))) == 0);
            }
            assert(s_flags.rows().is_prefix_of(cs.rows()));
            assert(s_fetch.rows().is_prefix_of(cs.rows()));
            assert(s_query.rows().is_prefix_of(cs.rows()));
            assert forall|j: int, inp: Seq<u64>, aux: Seq<u64>| 0 <= j < 34 implies
                (#[trigger] row_satisfied(cs.rows()[n + j], inp, aux)
                    <==> crate::field::reduce(flag(inp, j) * (1 - flag(inp, j))) == 0) by {
                assert(cs.rows()[n + j] == s_flags.rows()[n + j]);
            }
            assert(cs.rows()[n + 34] == s_fetch.rows()[n + 34]);
            assert(cs.rows()[n + 35] == s_fetch.rows()[n + 35]);
            assert(s_flags.rows().len() + 1 == n + 35);
            assert forall|inp: Seq<u64>, aux: Seq<u64>|
                #[trigger] row_satisfied(cs.rows()[n + 35], inp, aux)
                    <==> crate::field::reduce(crate::builder::pack_be_value(
                        Seq::new(34, |j: int| flag(inp, j)), 1)) == wire(inp, JoltInputs::Bytecode_Opcode) by {
                assert(row_satisfied(s_fetch.rows()[s_flags.rows().len() + 1int], inp, aux)
                    <==> crate::field::reduce(crate::builder::pack_be_value(crate::builder::lc_values(flags@, inp, aux), 1))
                        == wire(inp, JoltInputs::Bytecode_Opcode));
                assert forall|j: int| 0 <= j < 34 implies
                    crate::builder::lc_values(flags@, inp, aux)[j] == flag(inp, j) by {
                    lemma_input_value(flags@[j]@, (34 + j) as nat, inp, aux);
                }
                assert(crate::builder::lc_values(flags@, inp, aux) =~= Seq::new(34, |j: int| flag(inp, j)));
            }
            assert(cs.rows()[n + 46] == s_query.rows()[n + 46]);
            assert forall|inp: Seq<u64>, aux: Seq<u64>|
                #[trigger] row_satisfied(cs.rows()[n + 46], inp, aux)
                    <==> crate::field::reduce(wire(inp, JoltInputs::IF_Add)
                        * (aux_wire(aux, m + 4) - aux_wire(aux, m) - aux_wire(aux, m + 2))) == 0 by {
                lemma_aux_value(x@, m as nat, inp, aux);
                lemma_aux_value(y@, (m + 2) as nat, inp, aux);
                assert(s_mem.rows().len() + 1 == n + 46);
                assert(s_mem.num_aux() == m + 4);
                assert(row_satisfied(s_query.rows()[s_mem.rows().len() + 1int], inp, aux)
                    <==> crate::field::reduce(wire(inp, JoltInputs::IF_Add)
                        * (aux_wire(aux, s_mem.num_aux() as int) - crate::lc::lc_value(x@, inp, aux)
                            - crate::lc::lc_value(y@, inp, aux))) == 0);
                assert(row_satisfied(s_query.rows()[n + 46], inp, aux)
                    <==> crate::field::reduce(wire(inp, JoltInputs::IF_Add)
                        * (aux_wire(aux, m + 4) - crate::lc::lc_value(x@, inp, aux)
                            - crate::lc::lc_value(y@, inp, aux))) == 0);
            }
        }
    }
}

} // verus!
