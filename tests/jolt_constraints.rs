use jolt_core::builder::R1CSBuilder;
use jolt_core::field::{field_from_u64, field_sub};
use jolt_core::jolt::{JoltConstraints, JoltInputs};
use jolt_core::uniform::CombinedUniformBuilder;

fn add_instruction_inputs(num_steps: usize) -> Vec<Vec<u64>> {
    let mut inputs = vec![vec![0u64; num_steps]; JoltInputs::COUNT];
    inputs[JoltInputs::PcIn as usize][0] = field_from_u64(10);
    inputs[JoltInputs::Bytecode_A as usize][0] = field_from_u64(10);
    inputs[JoltInputs::Bytecode_Opcode as usize][0] = field_from_u64(0);
    inputs[JoltInputs::Bytecode_RS1 as usize][0] = field_from_u64(2);
    inputs[JoltInputs::Bytecode_RS2 as usize][0] = field_from_u64(3);
    inputs[JoltInputs::Bytecode_RD as usize][0] = field_from_u64(4);
    inputs[JoltInputs::RAM_Read_RD as usize][0] = field_from_u64(0);
    inputs[JoltInputs::RAM_Read_RS1 as usize][0] = field_from_u64(100);
    inputs[JoltInputs::RAM_Read_RS2 as usize][0] = field_from_u64(200);
    inputs[JoltInputs::RAM_Write_RD as usize][0] = field_from_u64(300);
    inputs[JoltInputs::OpFlags0 as usize][0] = field_from_u64(0);
    inputs[JoltInputs::OpFlags_IsImm as usize][0] = field_from_u64(0);
    inputs
}

fn jolt_circuit(num_steps: usize) -> CombinedUniformBuilder {
    let mut uniform_builder = R1CSBuilder::new(JoltInputs::COUNT);
    let jolt_constraints = JoltConstraints();
    jolt_constraints.build_constraints(&mut uniform_builder);
    CombinedUniformBuilder::construct(uniform_builder, num_steps)
}

#[test]
fn single_instruction_jolt() {
    let mut uniform_builder = R1CSBuilder::new(JoltInputs::COUNT);

    let jolt_constraints = JoltConstraints();
    jolt_constraints.build_constraints(&mut uniform_builder);

    let num_steps = 1;
    let combined_builder = CombinedUniformBuilder::construct(uniform_builder, num_steps);
    let inputs = add_instruction_inputs(num_steps);

    let aux = combined_builder.compute_aux(&inputs);
    let (az, bz, cz) = combined_builder.compute_spartan(&inputs, &aux);

    assert_eq!(combined_builder.check_valid(&az, &bz, &cz), Ok(()));
}

#[test]
fn step_circuit_shape() {
    let mut b = R1CSBuilder::new(JoltInputs::COUNT);
    JoltConstraints().build_constraints(&mut b);
    assert_eq!(b.constraints.len(), 66);
    assert_eq!(b.aux.len(), 13);
}

#[test]
fn input_wire_order() {
    assert_eq!(JoltInputs::COUNT, 68);
    assert_eq!(JoltInputs::PcIn.index(), 0);
    assert_eq!(JoltInputs::LookupOutput.index(), 33);
    assert_eq!(JoltInputs::OpFlags0.index(), 34);
    assert_eq!(JoltInputs::IF_MulHu.index(), 67);
    assert_eq!(JoltInputs::IF_Add as usize, JoltInputs::IF_Add.index());
}

#[test]
fn load_flag_without_matching_bytes_fails() {
    let c = jolt_circuit(1);
    let mut inputs = add_instruction_inputs(1);
    inputs[JoltInputs::OpFlags_IsLoad as usize][0] = field_from_u64(1);
    inputs[JoltInputs::RAM_Read_Byte0 as usize][0] = field_from_u64(7);
    let aux = c.compute_aux(&inputs);
    let (az, bz, cz) = c.compute_spartan(&inputs, &aux);
    assert!(c.check_valid(&az, &bz, &cz).is_err());
}

#[test]
fn non_binary_flag_fails_on_its_row() {
    let c = jolt_circuit(1);
    let mut inputs = add_instruction_inputs(1);
    inputs[JoltInputs::OpFlags0 as usize][0] = field_from_u64(2);
    let aux = c.compute_aux(&inputs);
    let (az, bz, cz) = c.compute_spartan(&inputs, &aux);
    let err = c.check_valid(&az, &bz, &cz).unwrap_err();
    assert_eq!(err.constraint, 0);
    assert_eq!(err.step, 0);
}

#[test]
fn pc_mismatch_fails() {
    let c = jolt_circuit(1);
    let mut inputs = add_instruction_inputs(1);
    inputs[JoltInputs::Bytecode_A as usize][0] = field_from_u64(11);
    let aux = c.compute_aux(&inputs);
    let (az, bz, cz) = c.compute_spartan(&inputs, &aux);
    let err = c.check_valid(&az, &bz, &cz).unwrap_err();
    assert_eq!(err.constraint, 34);
}

#[test]
fn add_with_matching_query_is_satisfied_over_two_steps() {
    let c = jolt_circuit(2);
    let mut inputs = add_instruction_inputs(2);
    for w in 0..JoltInputs::COUNT {
        inputs[w][1] = inputs[w][0];
    }
    // Step two: an ADD whose packed query holds x + y = 300.
    inputs[JoltInputs::IF_Add as usize][1] = 1;
    inputs[JoltInputs::Bytecode_Opcode as usize][1] = 1 << 22;
    inputs[JoltInputs::ChunksQ_3 as usize][1] = 300;
    let aux = c.compute_aux(&inputs);
    assert_eq!(aux.len(), 13);
    assert_eq!(aux[0], vec![100, 100]);
    assert_eq!(aux[2], vec![200, 200]);
    let (az, bz, cz) = c.compute_spartan(&inputs, &aux);
    assert_eq!(c.check_valid(&az, &bz, &cz), Ok(()));

    inputs[JoltInputs::ChunksQ_3 as usize][1] = 301;
    let aux = c.compute_aux(&inputs);
    let (az, bz, cz) = c.compute_spartan(&inputs, &aux);
    let err = c.check_valid(&az, &bz, &cz).unwrap_err();
    assert_eq!(err.step, 1);
}

#[test]
fn pc_operand_and_subtract_query() {
    let c = jolt_circuit(1);
    let mut inputs = add_instruction_inputs(1);
    // First operand from the program counter: 4 * 10 + 0x80000000 - 4.
    inputs[JoltInputs::OpFlags0 as usize][0] = 1;
    let aux = c.compute_aux(&inputs);
    assert_eq!(aux[0], vec![40 + 0x8000_0000 - 4]);

    // A subtract of 200 from 100 wraps to 2^32 - 100 in the query.
    let mut inputs = add_instruction_inputs(1);
    inputs[JoltInputs::IF_Sub as usize][0] = 1;
    inputs[JoltInputs::Bytecode_Opcode as usize][0] = 1 << 21;
    let q = (1u64 << 32) - 100;
    inputs[JoltInputs::ChunksQ_2 as usize][0] = q >> 16;
    inputs[JoltInputs::ChunksQ_3 as usize][0] = q & 0xffff;
    let aux = c.compute_aux(&inputs);
    assert_eq!(aux[4], vec![q]);
    let (az, bz, cz) = c.compute_spartan(&inputs, &aux);
    assert_eq!(c.check_valid(&az, &bz, &cz), Ok(()));
}

#[test]
fn immediate_operand_is_sign_adjusted() {
    let c = jolt_circuit(1);
    let mut inputs = add_instruction_inputs(1);
    // ADD of an immediate 5, read as it stands (SignImm set): the query is 100 + 5.
    inputs[JoltInputs::OpFlags_IsImm as usize][0] = 1;
    inputs[JoltInputs::OpFlags_SignImm as usize][0] = 1;
    inputs[JoltInputs::IF_Add as usize][0] = 1;
    inputs[JoltInputs::Bytecode_Imm as usize][0] = 5;
    inputs[JoltInputs::Bytecode_Opcode as usize][0] = (1 << 32) + (1 << 26) + (1 << 22);
    inputs[JoltInputs::ChunksQ_3 as usize][0] = 105;
    let aux = c.compute_aux(&inputs);
    assert_eq!(aux[1], vec![5]);
    assert_eq!(aux[2], vec![5]);
    let (az, bz, cz) = c.compute_spartan(&inputs, &aux);
    assert_eq!(c.check_valid(&az, &bz, &cz), Ok(()));

    // Without SignImm the immediate is offset by 2^32 - 2, so the query 105 no longer fits.
    inputs[JoltInputs::OpFlags_SignImm as usize][0] = 0;
    inputs[JoltInputs::Bytecode_Opcode as usize][0] = (1 << 32) + (1 << 22);
    let aux = c.compute_aux(&inputs);
    let expected = field_sub(5, 0xffff_fffe);
    assert_eq!(aux[2], vec![expected]);
    let (az, bz, cz) = c.compute_spartan(&inputs, &aux);
    assert!(c.check_valid(&az, &bz, &cz).is_err());
}

#[test]
fn any_single_flag_without_opcode_fails() {
    let c = jolt_circuit(1);
    for f in JoltInputs::OpFlags0.index()..=JoltInputs::IF_MulHu.index() {
        let mut inputs = add_instruction_inputs(1);
        inputs[f][0] = 1;
        let aux = c.compute_aux(&inputs);
        let (az, bz, cz) = c.compute_spartan(&inputs, &aux);
        assert!(c.check_valid(&az, &bz, &cz).is_err(), "flag {}", f);
    }
}
