use bycl_sim::decode::{
    funct3, funct7, rd, read_imm_b, read_imm_i, read_imm_j, read_imm_s, read_imm_u, rs1, rs2,
};
use bycl_sim::op::Op;

#[test]
fn imm_i_sign_extends() {
    // addi x1, x0, -1
    assert_eq!(read_imm_i(0xFFF0_0093), 0xFFFF_FFFF);
    // addi x1, x0, 2047
    assert_eq!(read_imm_i(0x7FF0_0093), 0x7FF);
}

#[test]
fn imm_s_joins_fields() {
    // sw x2, 8(x1)
    assert_eq!(read_imm_s(0x0020_A423), 8);
    // sw x2, -4(x1)
    assert_eq!(read_imm_s(0xFE20_AE23), 0xFFFF_FFFC);
}

#[test]
fn imm_b_scrambled_offset() {
    // beq x0, x0, -4
    assert_eq!(read_imm_b(0xFE00_0EE3), 0xFFFF_FFFC);
    // beq x1, x2, 16
    assert_eq!(read_imm_b(0x0020_8863), 16);
}

#[test]
fn imm_u_and_j() {
    // lui x5, 0x12345
    assert_eq!(read_imm_u(0x1234_52B7), 0x1234_5000);
    // jal x1, 8
    assert_eq!(read_imm_j(0x0080_00EF), 8);
    // jal x0, -8
    assert_eq!(read_imm_j(0xFF9F_F06F), 0xFFFF_FFF8);
    // jal x0, 0
    assert_eq!(read_imm_j(0x0000_006F), 0);
}

#[test]
fn register_and_function_fields() {
    // sub x3, x1, x2
    let ins = 0x4020_81B3;
    assert_eq!(rd(ins), 3);
    assert_eq!(rs1(ins), 1);
    assert_eq!(rs2(ins), 2);
    assert_eq!(funct3(ins), 0);
    assert_eq!(funct7(ins), 0b0100000);
    // lw x4, 0x40(x0)
    assert_eq!(funct3(0x0400_2203), 0b010);
}

#[test]
fn opcode_classes() {
    assert_eq!(Op::from_opcode(0b0110111), Op::Lui);
    assert_eq!(Op::from_opcode(0b0010111), Op::Auipc);
    assert_eq!(Op::from_opcode(0b1101111), Op::Jal);
    assert_eq!(Op::from_opcode(0b1100111), Op::Jalr);
    assert_eq!(Op::from_opcode(0b1100011), Op::Branch);
    assert_eq!(Op::from_opcode(0b0000011), Op::Load);
    assert_eq!(Op::from_opcode(0b0100011), Op::Store);
    assert_eq!(Op::from_opcode(0b0010011), Op::OpImm);
    assert_eq!(Op::from_opcode(0b0110011), Op::Op);
    assert_eq!(Op::from_opcode(0b0001111), Op::MiscMem);
    assert_eq!(Op::try_from_opcode(0b1110011), None);
    assert_eq!(Op::try_from_opcode(0), None);
    assert_eq!(Op::try_from_opcode(0b0110011), Some(Op::Op));
}
