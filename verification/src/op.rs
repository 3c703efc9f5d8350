use vstd::prelude::*;

verus! {

/// The major opcode classes of RV32I that the core executes.
#[derive(Debug, Clone, Copy, PartialEq, Eq, Structural)]
pub enum Op {
    OpImm,
    Lui,
    Auipc,
    Op,
    Jal,
    Jalr,
    Branch,
    Load,
    Store,
    MiscMem,
}

/// The opcode class named by a 7-bit opcode, where there is one.
pub open spec fn op_class(opcode: u32) -> Option<Op> {
    if opcode == 0b0110111 {
        Some(Op::Lui)
    } else if opcode == 0b0010111 {
        Some(Op::Auipc)
    } else if opcode == 0b1101111 {
        Some(Op::Jal)
    } else if opcode == 0b1100111 {
        Some(Op::Jalr)
    } else if opcode == 0b1100011 {
        Some(Op::Branch)
    } else if opcode == 0b0000011 {
        Some(Op::Load)
    } else if opcode == 0b0100011 {
        Some(Op::Store)
    } else if opcode == 0b0010011 {
        Some(Op::OpImm)
    } else if opcode == 0b0110011 {
        Some(Op::Op)
    } else if opcode == 0b0001111 {
        Some(Op::MiscMem)
    } else {
        None
    }
}

impl Op {
    /// Decodes a 7-bit opcode; an opcode outside RV32I's base classes is not
    /// accepted.
    pub fn from_opcode(opcode: u32) -> (op: Op)
        requires
            op_class(opcode) is Some,
        ensures
            op_class(opcode) == Some(op),
    {
        match opcode {
            0b0110111 => Op::Lui,
            0b0010111 => Op::Auipc,
            0b1101111 => Op::Jal,
            0b1100111 => Op::Jalr,
            0b1100011 => Op::Branch,
            0b0000011 => Op::Load,
            0b0100011 => Op::Store,
            0b0010011 => Op::OpImm,
            0b0110011 => Op::Op,
            _ => Op::MiscMem,
        }
    }

    /// Decodes a 7-bit opcode, or gives `None` where `from_opcode` refuses it.
    pub fn try_from_opcode(opcode: u32) -> (op: Option<Op>)
        ensures
            op == op_class(opcode),
    {
        match opcode {
            0b0110111 | 0b0010111 | 0b1101111 | 0b1100111 | 0b1100011 | 0b0000011 | 0b0100011
            | 0b0010011 | 0b0110011 | 0b0001111 => Some(Op::from_opcode(opcode)),
            _ => None,
        }
    }
}

} // verus!
