use vstd::prelude::*;

verus! {

/// `mask` where the instruction's sign bit (bit 31) is set, else zero.
pub open spec fn sign_fill(inst: u32, mask: u32) -> u32 {
    if inst >> 31 == 1 {
        mask
    } else {
        0
    }
}

/// I-type immediate: `inst[31:20]`, sign-extended.
pub open spec fn imm_i(inst: u32) -> u32 {
    sign_fill(inst, 0xFFFF_F000) | (inst >> 20)
}

/// S-type immediate: `inst[31:25] ++ inst[11:7]`, sign-extended.
pub open spec fn imm_s(inst: u32) -> u32 {
    sign_fill(inst, 0xFFFF_F000) | ((inst >> 25) << 5) | ((inst >> 7) & 0x1F)
}

/// B-type immediate: `inst[31] ++ inst[7] ++ inst[30:25] ++ inst[11:8] ++ 0`,
/// sign-extended.
pub open spec fn imm_b(inst: u32) -> u32 {
    sign_fill(inst, 0xFFFF_F000) | (((inst >> 7) & 1) << 11) | (((inst >> 25) & 0x3F) << 5) | (((
    inst >> 8) & 0xF) << 1)
}

/// U-type immediate: `inst[31:12] ++ 0{12}`.
pub open spec fn imm_u(inst: u32) -> u32 {
    inst & 0xFFFF_F000
}

/// J-type immediate: `inst[31] ++ inst[19:12] ++ inst[20] ++ inst[30:21] ++ 0`,
/// sign-extended.
pub open spec fn imm_j(inst: u32) -> u32 {
    sign_fill(inst, 0xFFF0_0000) | (inst & 0x000F_F000) | (((inst >> 20) & 1) << 11) | (((inst
        >> 21) & 0x3FF) << 1)
}

/// `inst[14:12]`.
pub open spec fn funct3_of(inst: u32) -> u32 {
    (inst >> 12) & 0x7
}

/// `inst[19:15]`.
pub open spec fn rs1_of(inst: u32) -> u32 {
    (inst >> 15) & 0x1F
}

/// `inst[24:20]`.
pub open spec fn rs2_of(inst: u32) -> u32 {
    (inst >> 20) & 0x1F
}

/// `inst[11:7]`.
pub open spec fn rd_of(inst: u32) -> u32 {
    (inst >> 7) & 0x1F
}

/// `inst[31:25]`.
pub open spec fn funct7_of(inst: u32) -> u32 {
    inst >> 25
}

/// `inst[6:0]`.
pub open spec fn opcode_of(inst: u32) -> u32 {
    inst & 0x7F
}

/// The word operations by which the immediates are read out compute them.
proof fn lemma_imm_computations(inst: u32)
    ensures
        ((inst as i32) >> 20) as u32 == imm_i(inst),
        (imm_i(inst) & !0b11111u32) | ((inst >> 7) & 0b11111u32) == imm_s(inst),
        (((inst >> 7) & 0b11111u32 & !1u32) | ((inst << 4u32) & (1u32 << 11u32)) | (imm_i(inst)
            & !0b11111u32 & !(1u32 << 11u32))) == imm_b(inst),
        inst & !0xFFFu32 == imm_u(inst),
        ((imm_i(inst) & 0xFFF007FEu32) | (inst & 0x000FF000u32) | ((inst & (1u32 << 20u32))
            >> 9u32)) == imm_j(inst),
{
    assert(((inst as i32) >> 20) as u32 == imm_i(inst) && (imm_i(inst) & !0b11111u32) | ((inst
        >> 7) & 0b11111u32) == imm_s(inst) && (((inst >> 7) & 0b11111u32 & !1u32) | ((inst
        << 4u32) & (1u32 << 11u32)) | (imm_i(inst) & !0b11111u32 & !(1u32 << 11u32))) == imm_b(
        inst) && inst & !0xFFFu32 == imm_u(inst) && ((imm_i(inst) & 0xFFF007FEu32) | (inst
        & 0x000FF000u32) | ((inst & (1u32 << 20u32)) >> 9u32)) == imm_j(inst)) by (bit_vector);
}

pub fn read_imm_i(inst: u32) -> (imm: u32)
    ensures
        imm == imm_i(inst),
{
    proof {
        lemma_imm_computations(inst);
    }
    ((inst as i32) >> 20) as u32
}

pub fn read_imm_s(inst: u32) -> (imm: u32)
    ensures
        imm == imm_s(inst),
{
    let i = read_imm_i(inst);
    proof {
        lemma_imm_computations(inst);
    }
    (i & !0b11111u32) | ((inst >> 7) & 0b11111u32)
}

pub fn read_imm_b(inst: u32) -> (imm: u32)
    ensures
        imm == imm_b(inst),
{
    let low = (inst >> 7) & 0b11111u32 & !1u32;
    let mid = (inst << 4u32) & (1u32 << 11u32);
    let high = read_imm_i(inst) & !0b11111u32 & !(1u32 << 11u32);
    proof {
        lemma_imm_computations(inst);
    }
    low | mid | high
}

pub fn read_imm_u(inst: u32) -> (imm: u32)
    ensures
        imm == imm_u(inst),
{
    proof {
        lemma_imm_computations(inst);
    }
    inst & !0xFFFu32
}

pub fn read_imm_j(inst: u32) -> (imm: u32)
    ensures
        imm == imm_j(inst),
{
    let a = read_imm_i(inst) & 0xFFF007FEu32;
    let b = inst & 0x000FF000u32;
    let c = (inst & (1u32 << 20u32)) >> 9u32;
    proof {
        lemma_imm_computations(inst);
    }
    a | b | c
}

/// Every register-file and function field fits its width.
pub proof fn lemma_field_bounds(inst: u32)
    ensures
        funct3_of(inst) < 8,
        rs1_of(inst) < 32,
        rs2_of(inst) < 32,
        rd_of(inst) < 32,
        funct7_of(inst) < 128,
{
    assert((inst >> 12) & 0x7u32 < 8 && (inst >> 15) & 0x1Fu32 < 32 && (inst >> 20) & 0x1Fu32 < 32
        && (inst >> 7) & 0x1Fu32 < 32 && inst >> 25 < 128) by (bit_vector);
}

pub fn funct3(inst: u32) -> (f: u32)
    ensures
        f == funct3_of(inst),
        f < 8,
{
    proof {
        lemma_field_bounds(inst);
    }
    (inst >> 12) & 0b111
}

pub fn rs1(inst: u32) -> (r: u32)
    ensures
        r == rs1_of(inst),
        r < 32,
{
    proof {
        lemma_field_bounds(inst);
    }
    (inst >> 15) & 0b11111
}

pub fn rs2(inst: u32) -> (r: u32)
    ensures
        r == rs2_of(inst),
        r < 32,
{
    proof {
        lemma_field_bounds(inst);
    }
    (inst >> 20) & 0b11111
}

pub fn rd(inst: u32) -> (r: u32)
    ensures
        r == rd_of(inst),
        r < 32,
{
    proof {
        lemma_field_bounds(inst);
    }
    (inst >> 7) & 0b11111
}

pub fn funct7(inst: u32) -> (f: u32)
    ensures
        f == funct7_of(inst),
        f < 128,
{
    proof {
        lemma_field_bounds(inst);
    }
    inst >> 25
}

/// Every immediate has the value of its sign bit (`inst[31]`) in bit 31.
pub proof fn lemma_immediates_keep_sign(inst: u32)
    ensures
        imm_i(inst) >> 31 == inst >> 31,
        imm_s(inst) >> 31 == inst >> 31,
        imm_b(inst) >> 31 == inst >> 31,
        imm_u(inst) >> 31 == inst >> 31,
        imm_j(inst) >> 31 == inst >> 31,
{
    assert(imm_i(inst) >> 31 == inst >> 31 && imm_s(inst) >> 31 == inst >> 31 && imm_b(inst) >> 31
        == inst >> 31 && imm_u(inst) >> 31 == inst >> 31 && imm_j(inst) >> 31 == inst >> 31)
        by (bit_vector);
}

/// Branch and jump offsets are even; U-type immediates have their low twelve
/// bits clear.
pub proof fn lemma_immediate_alignment(inst: u32)
    ensures
        imm_b(inst) & 1 == 0,
        imm_j(inst) & 1 == 0,
        imm_u(inst) & 0xFFF == 0,
{
    assert(imm_b(inst) & 1 == 0 && imm_j(inst) & 1 == 0 && imm_u(inst) & 0xFFF == 0)
        by (bit_vector);
}

} // verus!
