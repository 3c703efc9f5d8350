use vstd::prelude::*;
use crate::decode::{
    funct3_of, funct7_of, imm_b, imm_i, imm_j, imm_s, imm_u, opcode_of, rd_of, rs1_of, rs2_of,
};
use crate::io::MmioModel;
use crate::mem::{le_word, put_word, MemModel};
use crate::op::{op_class, Op};

verus! {

/// The architectural state of the core: memory with its caches, the ports,
/// the cycle count, the program counter and the register file (slot 0 of
/// which may hold a value, but `x0` reads as zero).
#[verifier::ext_equal]
pub struct CoreModel {
    pub mem: MemModel,
    pub mmio: MmioModel,
    pub cycles: nat,
    pub pc: u32,
    pub regs: Seq<u32>,
}

/// `a + b` modulo 2^32.
pub open spec fn add32(a: u32, b: u32) -> u32 {
    ((a as int + b as int) % 0x1_0000_0000) as u32
}

/// `a - b` modulo 2^32.
pub open spec fn sub32(a: u32, b: u32) -> u32 {
    ((a as int - b as int) % 0x1_0000_0000) as u32
}

/// `a` shifted right arithmetically (as a signed word) by `shamt < 32`.
pub open spec fn sra32(a: u32, shamt: u32) -> u32 {
    ((a as i32) >> shamt) as u32
}

pub open spec fn bool_word(b: bool) -> u32 {
    if b {
        1
    } else {
        0
    }
}

/// The result of a register-register ALU instruction.
pub open spec fn alu_reg(f3: u32, f7: u32, a: u32, b: u32) -> u32 {
    let shamt = b & 0x1F;
    if f3 == 0 {
        if f7 == 0 {
            add32(a, b)
        } else {
            sub32(a, b)
        }
    } else if f3 == 1 {
        a << shamt
    } else if f3 == 2 {
        bool_word((a as i32) < (b as i32))
    } else if f3 == 3 {
        bool_word(a < b)
    } else if f3 == 4 {
        a ^ b
    } else if f3 == 5 {
        if f7 == 0 {
            a >> shamt
        } else {
            sra32(a, shamt)
        }
    } else if f3 == 6 {
        a | b
    } else {
        a & b
    }
}

/// The result of a register-immediate ALU instruction; shifts take their
/// amount from the `rs2` field.
pub open spec fn alu_imm(f3: u32, f7: u32, shamt: u32, a: u32, imm: u32) -> u32 {
    if f3 == 0 {
        add32(a, imm)
    } else if f3 == 1 {
        a << shamt
    } else if f3 == 2 {
        bool_word((a as i32) < (imm as i32))
    } else if f3 == 3 {
        bool_word(a < imm)
    } else if f3 == 4 {
        a ^ imm
    } else if f3 == 5 {
        if f7 == 0 {
            a >> shamt
        } else {
            sra32(a, shamt)
        }
    } else if f3 == 6 {
        a | imm
    } else {
        a & imm
    }
}

/// Whether a branch with condition `f3` is taken; `None` for the two
/// condition codes that RV32I leaves undefined.
pub open spec fn branch_taken(f3: u32, a: u32, b: u32) -> Option<bool> {
    if f3 == 0 {
        Some(a == b)
    } else if f3 == 1 {
        Some(a != b)
    } else if f3 == 4 {
        Some((a as i32) < (b as i32))
    } else if f3 == 5 {
        Some((a as i32) >= (b as i32))
    } else if f3 == 6 {
        Some(a < b)
    } else if f3 == 7 {
        Some(a >= b)
    } else {
        None
    }
}

/// `base + offset`, both read as signed words, where the sum fits in a
/// signed word.
pub open spec fn offset_target(base: u32, offset: u32) -> Option<u32> {
    let s = (base as i32) as int + (offset as i32) as int;
    if i32::MIN <= s <= i32::MAX {
        Some((s as i32) as u32)
    } else {
        None
    }
}

/// `a + b` where it fits in a word.
pub open spec fn checked_add32(a: u32, b: u32) -> Option<u32> {
    if a as int + b as int <= u32::MAX {
        Some((a + b) as u32)
    } else {
        None
    }
}

/// A byte sign-extended to a word.
pub open spec fn sext8(b: u8) -> u32 {
    if b >= 0x80 {
        (b as u32) | 0xFFFF_FF00
    } else {
        b as u32
    }
}

/// Addresses with the top bit set select a port.
pub open spec fn is_port(addr: u32) -> bool {
    addr & 0x8000_0000 != 0
}

/// The word-aligned memory address that an access goes to.
pub open spec fn word_addr(addr: u32) -> u32 {
    addr & 0x7FFF_FFFC
}

/// The port that an address selects (one of sixteen).
pub open spec fn port_index(addr: u32) -> usize {
    ((addr >> 2u32) & 0xF) as usize
}

/// Why the core cannot take a step: each variant is the panic with which the
/// core would stop, or the overflow it would meet.
#[derive(Debug, Clone, Copy, PartialEq, Eq, Structural)]
pub enum Fault {
    /// The instruction cache's index or tag computation would overflow.
    InstructionCacheUnusable,
    /// The instruction word at this `pc` is not wholly in memory.
    FetchOutOfBounds(u32),
    /// This opcode is not one of RV32I's base classes.
    InvalidOpcode(u32),
    /// A branch uses this undefined condition code.
    InvalidBranchCondition(u32),
    /// A load uses this undefined width code.
    InvalidLoadWidth(u32),
    /// A store uses this undefined width code.
    InvalidStoreWidth(u32),
    /// A half-word load is not 2-aligned.
    MisalignedHalfWordLoad,
    /// A word load is not 4-aligned.
    MisalignedWordLoad,
    /// The data word at this address is not wholly in memory.
    OutOfBounds(u32),
    /// No port has this index.
    NoSuchPort(usize),
    /// The data cache's index or tag computation would overflow.
    DataCacheUnusable,
    /// An address or link computation overflows.
    AddressOverflow,
    /// The cycle count or the transaction counter would overflow.
    CounterOverflow,
}

impl CoreModel {
    pub open spec fn wf(self) -> bool {
        &&& self.mem.wf()
        &&& self.mmio.wf()
        &&& self.regs.len() == 32
        &&& self.cycles <= usize::MAX
    }

    /// Register `id`; `x0` reads as zero.
    pub open spec fn reg(self, id: u32) -> u32 {
        if id == 0 {
            0
        } else {
            self.regs[id as int]
        }
    }

    pub open spec fn set_reg(self, id: u32, v: u32) -> CoreModel {
        CoreModel { regs: self.regs.update(id as int, v), ..self }
    }

    /// Counts `n` more cycles, where the count still fits in a `usize`.
    pub open spec fn tick(self, n: nat) -> Result<CoreModel, Fault> {
        if self.cycles + n <= usize::MAX {
            Ok(CoreModel { cycles: self.cycles + n, ..self })
        } else {
            Err(Fault::CounterOverflow)
        }
    }

    pub open spec fn with_pc(self, pc: u32) -> CoreModel {
        CoreModel { pc, ..self }
    }

    /// Moves to the next instruction, where `pc + 4` fits in a word.
    pub open spec fn advance(self) -> Result<CoreModel, Fault> {
        match checked_add32(self.pc, 4) {
            Some(next) => Ok(self.with_pc(next)),
            None => Err(Fault::AddressOverflow),
        }
    }

    /// A data-cache access for the word address `a`: the bounds check (made
    /// against the length truncated to 32 bits), the access and its cycles.
    pub open spec fn data_access(self, a: u32) -> Result<CoreModel, Fault> {
        if !(a < (self.mem.data.len() as u32)) {
            Err(Fault::OutOfBounds(a))
        } else if !self.mem.dcache.can_access() {
            Err(Fault::DataCacheUnusable)
        } else {
            let (dc, hit) = self.mem.dcache.access(a);
            CoreModel { mem: MemModel { dcache: dc, ..self.mem }, ..self }.tick(
                self.mem.dcache_cost(hit),
            )
        }
    }

    /// A word read at `addr`: from a port (one cycle), or from memory through
    /// the data cache.
    pub open spec fn load_word(self, addr: u32) -> Result<(CoreModel, u32), Fault> {
        if is_port(addr) {
            match self.tick(1) {
                Ok(m) => {
                    let idx = port_index(addr);
                    if idx < m.mmio.port_data.len() {
                        Ok((m, m.mmio.port_data[idx as int]))
                    } else {
                        Err(Fault::NoSuchPort(idx))
                    }
                },
                Err(e) => Err(e),
            }
        } else {
            let a = word_addr(addr);
            match self.data_access(a) {
                Ok(m) => if a + 3 < m.mem.data.len() {
                    Ok((m, le_word(m.mem.data, a as int)))
                } else {
                    Err(Fault::OutOfBounds(a))
                },
                Err(e) => Err(e),
            }
        }
    }

    /// A word written at `addr`: to a port (one cycle), or to memory through
    /// the data cache.
    pub open spec fn store_word(self, addr: u32, val: u32) -> Result<CoreModel, Fault> {
        if is_port(addr) {
            match self.tick(1) {
                Ok(m) => {
                    let idx = port_index(addr);
                    if !(idx < m.mmio.port_data.len()) {
                        Err(Fault::NoSuchPort(idx))
                    } else if !m.mmio.can_store(idx) {
                        Err(Fault::CounterOverflow)
                    } else {
                        Ok(CoreModel { mmio: m.mmio.store(idx, val), ..m })
                    }
                },
                Err(e) => Err(e),
            }
        } else {
            let a = word_addr(addr);
            match self.data_access(a) {
                Ok(m) => if a + 3 < m.mem.data.len() {
                    Ok(
                        CoreModel {
                            mem: MemModel { data: put_word(m.mem.data, a as int, val), ..m.mem },
                            ..m
                        },
                    )
                } else {
                    Err(Fault::OutOfBounds(a))
                },
                Err(e) => Err(e),
            }
        }
    }

    /// Fetch: the instruction word at `pc` through the instruction cache, and
    /// its opcode class.
    pub open spec fn fetch(self) -> Result<(CoreModel, u32, Op), Fault> {
        if !self.mem.icache.can_access() {
            Err(Fault::InstructionCacheUnusable)
        } else {
            let (ic, hit) = self.mem.icache.access(self.pc);
            let m0 = CoreModel { mem: MemModel { icache: ic, ..self.mem }, ..self };
            let ticked = if hit {
                Ok(m0)
            } else {
                m0.tick(self.mem.l1i_miss_cycles)
            };
            match ticked {
                Ok(m) => if !(self.pc + 3 < self.mem.data.len()) {
                    Err(Fault::FetchOutOfBounds(self.pc))
                } else {
                    let ins = le_word(self.mem.data, self.pc as int);
                    match op_class(opcode_of(ins)) {
                        Some(op) => Ok((m, ins, op)),
                        None => Err(Fault::InvalidOpcode(opcode_of(ins))),
                    }
                },
                Err(e) => Err(e),
            }
        }
    }

    pub open spec fn exec_op(self, ins: u32) -> Result<CoreModel, Fault> {
        match self.tick(1) {
            Ok(m) => {
                let v = alu_reg(funct3_of(ins), funct7_of(ins), m.reg(rs1_of(ins)), m.reg(rs2_of(ins)));
                m.set_reg(rd_of(ins), v).advance()
            },
            Err(e) => Err(e),
        }
    }

    pub open spec fn exec_op_imm(self, ins: u32) -> Result<CoreModel, Fault> {
        match self.tick(1) {
            Ok(m) => {
                let v = alu_imm(
                    funct3_of(ins),
                    funct7_of(ins),
                    rs2_of(ins),
                    m.reg(rs1_of(ins)),
                    imm_i(ins),
                );
                m.set_reg(rd_of(ins), v).advance()
            },
            Err(e) => Err(e),
        }
    }

    pub open spec fn exec_lui(self, ins: u32) -> Result<CoreModel, Fault> {
        match self.tick(1) {
            Ok(m) => m.set_reg(rd_of(ins), imm_u(ins)).advance(),
            Err(e) => Err(e),
        }
    }

    pub open spec fn exec_auipc(self, ins: u32) -> Result<CoreModel, Fault> {
        match self.tick(1) {
            Ok(m) => match checked_add32(imm_u(ins), self.pc) {
                Some(v) => m.set_reg(rd_of(ins), v).advance(),
                None => Err(Fault::AddressOverflow),
            },
            Err(e) => Err(e),
        }
    }

    pub open spec fn exec_branch(self, ins: u32) -> Result<CoreModel, Fault> {
        match branch_taken(funct3_of(ins), self.reg(rs1_of(ins)), self.reg(rs2_of(ins))) {
            Some(true) => match offset_target(self.pc, imm_b(ins)) {
                Some(t) => Ok(self.with_pc(t)),
                None => Err(Fault::AddressOverflow),
            },
            Some(false) => self.advance(),
            None => Err(Fault::InvalidBranchCondition(funct3_of(ins))),
        }
    }

    /// A jump-and-link; `false` where it jumps to itself, which halts the core
    /// with the link written and `pc` unchanged.
    pub open spec fn exec_jal(self, ins: u32) -> Result<(CoreModel, bool), Fault> {
        match self.tick(1) {
            Ok(m) => match checked_add32(self.pc, 4) {
                Some(link) => match offset_target(self.pc, imm_j(ins)) {
                    Some(dest) => {
                        let m2 = m.set_reg(rd_of(ins), link);
                        if self.pc == dest {
                            Ok((m2, false))
                        } else {
                            Ok((m2.with_pc(dest), true))
                        }
                    },
                    None => Err(Fault::AddressOverflow),
                },
                None => Err(Fault::AddressOverflow),
            },
            Err(e) => Err(e),
        }
    }

    pub open spec fn exec_jalr(self, ins: u32) -> Result<CoreModel, Fault> {
        match self.tick(1) {
            Ok(m) => match offset_target(self.reg(rs1_of(ins)), imm_i(ins)) {
                Some(dest) => match checked_add32(self.pc, 4) {
                    Some(link) => Ok(m.set_reg(rd_of(ins), link).with_pc(dest)),
                    None => Err(Fault::AddressOverflow),
                },
                None => Err(Fault::AddressOverflow),
            },
            Err(e) => Err(e),
        }
    }

    /// A load of a byte, a half-word or a word from the word that holds it.
    /// A byte is sign-extended where bit 2 of `funct3` is set (the encoding
    /// that RV32I calls LBU) and zero-extended otherwise; a half-word is
    /// always zero-extended. Half-words must be 2-aligned and words 4-aligned.
    pub open spec fn exec_load(self, ins: u32) -> Result<CoreModel, Fault> {
        let f3 = funct3_of(ins);
        let signed = f3 & 4 != 0;
        let size = f3 & 3;
        match offset_target(self.reg(rs1_of(ins)), imm_i(ins)) {
            Some(addr) => {
                let sub = addr & 3;
                match self.load_word(addr) {
                    Ok((m, word)) => {
                        if size == 0 {
                            let data = ((word >> (sub * 8) as u32) & 0xFF) as u8;
                            let res = if signed {
                                sext8(data)
                            } else {
                                data as u32
                            };
                            match m.tick(1) {
                                Ok(m2) => m2.set_reg(rd_of(ins), res).advance(),
                                Err(e) => Err(e),
                            }
                        } else if size == 1 {
                            match m.tick(1) {
                                Ok(m2) => if sub & 1 == 0 {
                                    let res = (word >> (sub * 8) as u32) & 0xFFFF;
                                    m2.set_reg(rd_of(ins), res).advance()
                                } else {
                                    Err(Fault::MisalignedHalfWordLoad)
                                },
                                Err(e) => Err(e),
                            }
                        } else if size == 2 {
                            if sub == 0 {
                                m.set_reg(rd_of(ins), word).advance()
                            } else {
                                Err(Fault::MisalignedWordLoad)
                            }
                        } else {
                            Err(Fault::InvalidLoadWidth(size))
                        }
                    },
                    Err(e) => Err(e),
                }
            },
            None => Err(Fault::AddressOverflow),
        }
    }

    /// A store of a byte or half-word (merged into the word that holds it,
    /// read first) or of a word. The stored register is shifted into place
    /// unmasked, so its high bits overwrite the bytes above the target.
    pub open spec fn exec_store(self, ins: u32) -> Result<CoreModel, Fault> {
        let size = funct3_of(ins) & 3;
        let src = self.reg(rs2_of(ins));
        match offset_target(self.reg(rs1_of(ins)), imm_s(ins)) {
            Some(addr) => {
                let shift = ((addr & 3) * 8) as u32;
                if size == 2 {
                    match self.store_word(addr, src) {
                        Ok(m) => m.advance(),
                        Err(e) => Err(e),
                    }
                } else {
                    match self.load_word(addr) {
                        Ok((m, orig)) => if size == 0 || size == 1 {
                            let mask: u32 = if size == 0 {
                                0xFF
                            } else {
                                0xFFFF
                            };
                            let val = (orig & !(mask << shift)) | (src << shift);
                            match m.store_word(addr, val) {
                                Ok(m2) => m2.advance(),
                                Err(e) => Err(e),
                            }
                        } else {
                            Err(Fault::InvalidStoreWidth(size))
                        },
                        Err(e) => Err(e),
                    }
                }
            },
            None => Err(Fault::AddressOverflow),
        }
    }

    pub open spec fn exec_misc_mem(self) -> Result<CoreModel, Fault> {
        match self.tick(1) {
            Ok(m) => m.advance(),
            Err(e) => Err(e),
        }
    }

    /// Executing a fetched instruction: the state afterwards and whether the
    /// core goes on, or the fault that stops it.
    pub open spec fn execute(self, ins: u32, op: Op) -> Result<(CoreModel, bool), Fault> {
        if op == Op::Jal {
            self.exec_jal(ins)
        } else {
            let r = match op {
                Op::Op => self.exec_op(ins),
                Op::OpImm => self.exec_op_imm(ins),
                Op::Lui => self.exec_lui(ins),
                Op::Auipc => self.exec_auipc(ins),
                Op::Branch => self.exec_branch(ins),
                Op::Jalr => self.exec_jalr(ins),
                Op::Load => self.exec_load(ins),
                Op::Store => self.exec_store(ins),
                _ => self.exec_misc_mem(),
            };
            match r {
                Ok(m) => Ok((m, true)),
                Err(e) => Err(e),
            }
        }
    }

    /// One step: fetch, then execute.
    pub open spec fn step(self) -> Result<(CoreModel, bool), Fault> {
        match self.fetch() {
            Ok((m, ins, op)) => m.execute(ins, op),
            Err(e) => Err(e),
        }
    }

    pub open spec fn can_step(self) -> bool {
        self.step() is Ok
    }
}

// ----------------------------------------------------------------------------
// Laws of a step
// ----------------------------------------------------------------------------

impl CoreModel {
    /// `x0` reads as zero in every state, whatever was written to its slot.
    pub proof fn lemma_x0_reads_zero(self, v: u32)
        ensures
            self.reg(0) == 0,
            self.set_reg(0, v).reg(0) == 0,
    {
    }

    /// Executing an instruction never takes cycles back.
    pub proof fn lemma_execute_adds_cycles(self, ins: u32, op: Op)
        requires
            self.execute(ins, op) is Ok,
        ensures
            (self.execute(ins, op)->Ok_0).0.cycles >= self.cycles,
    {
    }

    /// A step never takes cycles back.
    pub proof fn lemma_step_adds_cycles(self)
        requires
            self.step() is Ok,
        ensures
            (self.step()->Ok_0).0.cycles >= self.cycles,
    {
        let (m, ins, op) = self.fetch()->Ok_0;
        assert(m.cycles >= self.cycles);
        m.lemma_execute_adds_cycles(ins, op);
    }

    /// Every instruction but a branch or a jump goes on to `pc + 4`.
    pub proof fn lemma_sequential_pc(self, ins: u32, op: Op)
        requires
            self.execute(ins, op) is Ok,
            op != Op::Branch,
            op != Op::Jal,
            op != Op::Jalr,
        ensures
            (self.execute(ins, op)->Ok_0).0.pc == self.pc + 4,
            (self.execute(ins, op)->Ok_0).1,
    {
    }

    /// The core halts only on a jump-and-link to itself.
    pub proof fn lemma_halts_only_on_self_jump(self, ins: u32, op: Op)
        requires
            self.execute(ins, op) is Ok,
            !(self.execute(ins, op)->Ok_0).1,
        ensures
            op == Op::Jal,
            offset_target(self.pc, imm_j(ins)) == Some(self.pc),
            (self.execute(ins, op)->Ok_0).0.pc == self.pc,
    {
    }

    /// A word load from memory gives back what a word store to the same
    /// address wrote, and hits the data cache.
    pub proof fn lemma_load_after_store(self, addr: u32, val: u32)
        requires
            self.wf(),
            !is_port(addr),
            self.store_word(addr, val) is Ok,
            (self.store_word(addr, val)->Ok_0).cycles + self.mem.l1d_hit_cycles <= usize::MAX,
        ensures
            (self.store_word(addr, val)->Ok_0).load_word(addr) is Ok,
            ((self.store_word(addr, val)->Ok_0).load_word(addr)->Ok_0).1 == val,
            ((self.store_word(addr, val)->Ok_0).load_word(addr)->Ok_0).0.cycles == (
            self.store_word(addr, val)->Ok_0).cycles + self.mem.l1d_hit_cycles,
    {
        let a = word_addr(addr);
        self.mem.dcache.lemma_access(a);
        self.mem.dcache.lemma_access_then_hit(a);
        self.mem.lemma_load_after_store(a, val);
    }

    /// Fetch and execution together are a step.
    pub proof fn lemma_step_is_fetch_then_execute(self)
        requires
            self.fetch() is Ok,
        ensures
            self.step() == (self.fetch()->Ok_0).0.execute(
                (self.fetch()->Ok_0).1,
                (self.fetch()->Ok_0).2,
            ),
    {
    }
}

} // verus!
