use vstd::prelude::*;
use crate::decode::{
    funct3, funct7, opcode_of, rd, read_imm_b, read_imm_i, read_imm_j, read_imm_s, read_imm_u, rs1,
    rs2,
};
use crate::io::{deliver, Mmio, MmioModel, TransactionId};
use crate::mem::{le_word, Mem, MemConfig, MemModel};
use crate::op::{op_class, Op};
use crate::semantics::{
    alu_imm, alu_reg, branch_taken, checked_add32, is_port, offset_target, port_index, sext8,
    word_addr, CoreModel, Fault,
};

verus! {

/// A running count of simulated clock cycles.
pub struct Cycles {
    count: usize,
}

impl View for Cycles {
    type V = nat;

    closed spec fn view(&self) -> nat {
        self.count as nat
    }
}

impl Cycles {
    /// A counter at zero.
    pub fn new() -> (c: Cycles)
        ensures
            c@ == 0,
    {
        Cycles { count: 0 }
    }

    /// The count always fits in a `usize`.
    pub proof fn lemma_fits(&self)
        ensures
            self@ <= usize::MAX,
    {
    }

    /// Adds `num` cycles; the sum must fit in a `usize`.
    pub fn add(&mut self, num: usize)
        requires
            old(self)@ + num <= usize::MAX,
        ensures
            final(self)@ == old(self)@ + num,
    {
        self.count = self.count + num;
    }

    pub fn get(&self) -> (n: usize)
        ensures
            n == self@,
    {
        self.count
    }
}

impl Default for Cycles {
    fn default() -> (c: Cycles)
        ensures
            c@ == 0,
    {
        Cycles::new()
    }
}

/// Settings of the core (it has none yet).
pub struct CoreConfig {}

/// The value of a register-register ALU instruction.
pub fn alu_reg_value(f3: u32, f7: u32, a: u32, b: u32) -> (v: u32)
    requires
        f3 < 8,
    ensures
        v == alu_reg(f3, f7, a, b),
{
    let shamt = b & 0b11111;
    assert(shamt < 32) by (bit_vector)
        requires
            shamt == b & 0b11111u32,
    ;
    match f3 {
        0b000 => {
            if f7 == 0 {
                a.wrapping_add(b)
            } else {
                a.wrapping_sub(b)
            }
        },
        0b001 => a << shamt,
        0b010 => {
            if (a as i32) < (b as i32) {
                1
            } else {
                0
            }
        },
        0b011 => {
            if a < b {
                1
            } else {
                0
            }
        },
        0b100 => a ^ b,
        0b101 => {
            if f7 == 0 {
                a >> shamt
            } else {
                ((a as i32) >> shamt) as u32
            }
        },
        0b110 => a | b,
        _ => a & b,
    }
}

/// The value of a register-immediate ALU instruction.
pub fn alu_imm_value(f3: u32, f7: u32, shamt: u32, a: u32, imm: u32) -> (v: u32)
    requires
        f3 < 8,
        shamt < 32,
    ensures
        v == alu_imm(f3, f7, shamt, a, imm),
{
    match f3 {
        0b000 => a.wrapping_add(imm),
        0b001 => a << shamt,
        0b010 => {
            if (a as i32) < (imm as i32) {
                1
            } else {
                0
            }
        },
        0b011 => {
            if a < imm {
                1
            } else {
                0
            }
        },
        0b100 => a ^ imm,
        0b101 => {
            if f7 == 0 {
                a >> shamt
            } else {
                ((a as i32) >> shamt) as u32
            }
        },
        0b110 => a | imm,
        _ => a & imm,
    }
}

/// Whether a branch is taken; the condition must be one that RV32I defines.
pub fn branch_condition(f3: u32, a: u32, b: u32) -> (taken: bool)
    requires
        branch_taken(f3, a, b) is Some,
    ensures
        branch_taken(f3, a, b) == Some(taken),
{
    match f3 {
        0b000 => a == b,
        0b001 => a != b,
        0b100 => (a as i32) < (b as i32),
        0b101 => (a as i32) >= (b as i32),
        0b110 => a < b,
        _ => a >= b,
    }
}

/// `base + offset` as signed words; the sum must fit in a signed word.
fn offset_add(base: u32, offset: u32) -> (t: u32)
    requires
        offset_target(base, offset) is Some,
    ensures
        offset_target(base, offset) == Some(t),
{
    (base as i32 + offset as i32) as u32
}

/// A simulated core: memory with split L1 caches, memory-mapped ports, a cycle
/// counter, the program counter and the registers.
pub struct Core {
    mem: Mem,
    mmio: Mmio,
    cycles: Cycles,
    pc: u32,
    regs: [u32; 32],
    #[allow(dead_code)]
    config: CoreConfig,
}

impl View for Core {
    type V = CoreModel;

    closed spec fn view(&self) -> CoreModel {
        CoreModel {
            mem: self.mem@,
            mmio: self.mmio@,
            cycles: self.cycles@,
            pc: self.pc,
            regs: self.regs@,
        }
    }
}

impl Core {
    pub open spec fn wf(&self) -> bool {
        self@.wf()
    }

    /// A core at `pc == 0` with zeroed registers and no cycles counted, over
    /// memory that holds the firmware from address 0.
    pub fn new(fw_data: &[u8], mem_config: MemConfig, core_config: CoreConfig, mmio: Mmio) -> (c:
        Core)
        requires
            fw_data@.len() <= mem_config.mem_size,
            mem_config.geometry_ok(),
            mmio@.wf(),
        ensures
            c@ == (CoreModel {
                mem: MemModel::initial(fw_data@, mem_config),
                mmio: mmio@,
                cycles: 0,
                pc: 0,
                regs: Seq::new(32, |i: int| 0u32),
            }),
            c.wf(),
    {
        let c = Core {
            mem: Mem::new(fw_data, mem_config),
            cycles: Cycles::new(),
            pc: 0,
            regs: [0u32; 32],
            mmio,
            config: core_config,
        };
        assert(c@.regs =~= Seq::new(32, |i: int| 0u32));
        c
    }

    /// Register `id`; `x0` reads as zero.
    pub fn reg(&self, id: u32) -> (v: u32)
        requires
            id < 32,
        ensures
            v == self@.reg(id),
    {
        match id {
            0 => 0,
            _ => self.regs[id as usize],
        }
    }

    fn set_reg(&mut self, id: u32, v: u32)
        requires
            id < 32,
        ensures
            final(self)@ == old(self)@.set_reg(id, v),
    {
        self.regs[id as usize] = v;
        assert(self@.regs =~= old(self)@.set_reg(id, v).regs);
    }

    fn advance(&mut self)
        requires
            old(self)@.advance() is Ok,
        ensures
            old(self)@.advance() == Ok::<CoreModel, Fault>(final(self)@),
    {
        self.pc = self.pc + 4;
    }

    /// Reads the word at `addr` from a port or from memory.
    pub fn load_word(&mut self, addr: u32) -> (v: u32)
        requires
            old(self).wf(),
            old(self)@.load_word(addr) is Ok,
        ensures
            old(self)@.load_word(addr) == Ok::<(CoreModel, u32), Fault>((final(self)@, v)),
            final(self).wf(),
    {
        let is_port = addr & 0x8000_0000 != 0;
        let a = addr & 0x7FFF_FFFC;
        if is_port {
            self.cycles.add(1);
            proof {
                lemma_port_index(addr);
            }
            self.mmio.load(((a as usize) >> 2usize) & 0xF)
        } else {
            self.mem.load(&mut self.cycles, a)
        }
    }

    /// Writes `val` to a port or to memory at `addr`.
    pub fn store_word(&mut self, addr: u32, val: u32)
        requires
            old(self).wf(),
            old(self)@.store_word(addr, val) is Ok,
        ensures
            old(self)@.store_word(addr, val) == Ok::<CoreModel, Fault>(final(self)@),
            final(self).wf(),
    {
        let is_port = addr & 0x8000_0000 != 0;
        let a = addr & 0x7FFF_FFFC;
        if is_port {
            self.cycles.add(1);
            proof {
                lemma_port_index(addr);
            }
            self.mmio.store(((a as usize) >> 2usize) & 0xF, val)
        } else {
            self.mem.store(&mut self.cycles, a, val);
        }
    }
}

impl Core {
    fn exec_op(&mut self, ins: u32)
        requires
            old(self).wf(),
            old(self)@.exec_op(ins) is Ok,
        ensures
            old(self)@.exec_op(ins) == Ok::<CoreModel, Fault>(final(self)@),
            final(self).wf(),
    {
        self.cycles.add(1);
        let rs1_val = self.reg(rs1(ins));
        let rs2_val = self.reg(rs2(ins));
        let v = alu_reg_value(funct3(ins), funct7(ins), rs1_val, rs2_val);
        self.set_reg(rd(ins), v);
        self.advance();
    }

    fn exec_op_imm(&mut self, ins: u32)
        requires
            old(self).wf(),
            old(self)@.exec_op_imm(ins) is Ok,
        ensures
            old(self)@.exec_op_imm(ins) == Ok::<CoreModel, Fault>(final(self)@),
            final(self).wf(),
    {
        self.cycles.add(1);
        let rs1_val = self.reg(rs1(ins));
        let imm = read_imm_i(ins);
        let v = alu_imm_value(funct3(ins), funct7(ins), rs2(ins), rs1_val, imm);
        self.set_reg(rd(ins), v);
        self.advance();
    }

    fn exec_lui(&mut self, ins: u32)
        requires
            old(self).wf(),
            old(self)@.exec_lui(ins) is Ok,
        ensures
            old(self)@.exec_lui(ins) == Ok::<CoreModel, Fault>(final(self)@),
            final(self).wf(),
    {
        self.cycles.add(1);
        self.set_reg(rd(ins), read_imm_u(ins));
        self.advance();
    }

    fn exec_auipc(&mut self, ins: u32)
        requires
            old(self).wf(),
            old(self)@.exec_auipc(ins) is Ok,
        ensures
            old(self)@.exec_auipc(ins) == Ok::<CoreModel, Fault>(final(self)@),
            final(self).wf(),
    {
        self.cycles.add(1);
        let v = read_imm_u(ins) + self.pc;
        self.set_reg(rd(ins), v);
        self.advance();
    }

    fn exec_branch(&mut self, ins: u32)
        requires
            old(self).wf(),
            old(self)@.exec_branch(ins) is Ok,
        ensures
            old(self)@.exec_branch(ins) == Ok::<CoreModel, Fault>(final(self)@),
            final(self).wf(),
    {
        let src1 = self.reg(rs1(ins));
        let src2 = self.reg(rs2(ins));
        let should_branch = branch_condition(funct3(ins), src1, src2);
        if should_branch {
            self.pc = offset_add(self.pc, read_imm_b(ins));
        } else {
            self.advance();
        }
    }

    fn exec_jal(&mut self, ins: u32) -> (go_on: bool)
        requires
            old(self).wf(),
            old(self)@.exec_jal(ins) is Ok,
        ensures
            old(self)@.exec_jal(ins) == Ok::<(CoreModel, bool), Fault>((final(self)@, go_on)),
            final(self).wf(),
    {
        self.cycles.add(1);
        self.set_reg(rd(ins), self.pc + 4);
        let dest = offset_add(self.pc, read_imm_j(ins));
        if self.pc == dest {
            return false;
        }
        self.pc = dest;
        true
    }

    fn exec_jalr(&mut self, ins: u32)
        requires
            old(self).wf(),
            old(self)@.exec_jalr(ins) is Ok,
        ensures
            old(self)@.exec_jalr(ins) == Ok::<CoreModel, Fault>(final(self)@),
            final(self).wf(),
    {
        self.cycles.add(1);
        let dest = offset_add(self.reg(rs1(ins)), read_imm_i(ins));
        self.set_reg(rd(ins), self.pc + 4);
        self.pc = dest;
    }

    fn exec_load(&mut self, ins: u32)
        requires
            old(self).wf(),
            old(self)@.exec_load(ins) is Ok,
        ensures
            old(self)@.exec_load(ins) == Ok::<CoreModel, Fault>(final(self)@),
            final(self).wf(),
    {
        let addr = offset_add(self.reg(rs1(ins)), read_imm_i(ins));
        let f3 = funct3(ins);
        let signed = f3 & 0b100 != 0;
        let size = f3 & 0b11;
        let sub_addr = addr & 0x00000003;
        proof {
            assert(sub_addr & 3u32 == sub_addr && sub_addr < 4) by (bit_vector)
                requires
                    sub_addr == addr & 3u32,
            ;
        }
        let word = self.load_word(addr);
        let res = match size {
            0b00 => {
                self.cycles.add(1);
                let shift = sub_addr * 8;
                let data = ((word >> shift) & 0xFF) as u8;
                proof {
                    assert(data as i8 as u32 == sext8(data)) by (bit_vector);
                }
                if signed {
                    data as i8 as u32
                } else {
                    data as u32
                }
            },
            0b01 => {
                self.cycles.add(1);
                let shift = sub_addr * 8;
                (word >> shift) & 0xFFFF
            },
            _ => word,
        };
        self.set_reg(rd(ins), res);
        self.advance();
    }

    fn exec_store(&mut self, ins: u32)
        requires
            old(self).wf(),
            old(self)@.exec_store(ins) is Ok,
        ensures
            old(self)@.exec_store(ins) == Ok::<CoreModel, Fault>(final(self)@),
            final(self).wf(),
    {
        let addr = offset_add(self.reg(rs1(ins)), read_imm_s(ins));
        let size = funct3(ins) & 0b11;
        let src = self.reg(rs2(ins));
        let sub_addr = addr & 0x00000003;
        proof {
            assert(sub_addr < 4) by (bit_vector)
                requires
                    sub_addr == addr & 3u32,
            ;
        }
        let orig = if size != 0b10 {
            self.load_word(addr)
        } else {
            0
        };
        match size {
            0b00 => {
                let shift = sub_addr * 8;
                let orig = orig & !(0xFFu32 << shift);
                let val = orig | (src << shift);
                self.store_word(addr, val);
            },
            0b01 => {
                let shift = sub_addr * 8;
                let orig = orig & !(0xFFFFu32 << shift);
                let val = orig | (src << shift);
                self.store_word(addr, val);
            },
            _ => self.store_word(addr, src),
        }
        self.advance();
    }

    fn exec_misc_mem(&mut self)
        requires
            old(self).wf(),
            old(self)@.exec_misc_mem() is Ok,
        ensures
            old(self)@.exec_misc_mem() == Ok::<CoreModel, Fault>(final(self)@),
            final(self).wf(),
    {
        self.cycles.add(1);
        self.advance();
    }
}

impl Core {
    /// Fetches the instruction at `pc` through the instruction cache and
    /// decodes its opcode class.
    pub fn fetch(&mut self) -> (r: (u32, Op))
        requires
            old(self).wf(),
            old(self)@.fetch() is Ok,
        ensures
            old(self)@.fetch() == Ok::<(CoreModel, u32, Op), Fault>((final(self)@, r.0, r.1)),
            final(self).wf(),
    {
        let ins = self.mem.load_ins(&mut self.cycles, self.pc);
        proof {
            assert(ins & 0b1111111u32 == opcode_of(ins));
        }
        let op = Op::from_opcode(ins & 0b1111111);
        (ins, op)
    }

    /// Executes a fetched instruction; `false` where the core halts (a jump
    /// to itself).
    pub fn execute(&mut self, ins: u32, op: Op) -> (go_on: bool)
        requires
            old(self).wf(),
            old(self)@.execute(ins, op) is Ok,
        ensures
            old(self)@.execute(ins, op) == Ok::<(CoreModel, bool), Fault>((final(self)@, go_on)),
            final(self).wf(),
    {
        match op {
            Op::Op => self.exec_op(ins),
            Op::OpImm => self.exec_op_imm(ins),
            Op::Lui => self.exec_lui(ins),
            Op::Auipc => self.exec_auipc(ins),
            Op::Branch => self.exec_branch(ins),
            Op::Jal => {
                return self.exec_jal(ins);
            },
            Op::Jalr => self.exec_jalr(ins),
            Op::Load => self.exec_load(ins),
            Op::Store => self.exec_store(ins),
            Op::MiscMem => self.exec_misc_mem(),
        }
        true
    }

    /// Fetches and executes one instruction; `false` where the core halts.
    /// Port values that devices sent are taken in beforehand through
    /// `update_ports`, and values sent to devices are handed over afterwards
    /// through `take_sent`.
    pub fn execute_one(&mut self) -> (go_on: bool)
        requires
            old(self).wf(),
            old(self)@.can_step(),
        ensures
            old(self)@.step() == Ok::<(CoreModel, bool), Fault>((final(self)@, go_on)),
            final(self).wf(),
    {
        let (ins, op) = self.fetch();
        self.execute(ins, op)
    }

    pub fn cycle_count(&self) -> (n: usize)
        ensures
            n == self@.cycles,
    {
        self.cycles.get()
    }

    pub fn pc(&self) -> (pc: u32)
        ensures
            pc == self@.pc,
    {
        self.pc
    }

    /// Takes in the (port, value) packets that devices sent, in order.
    pub fn update_ports(&mut self, incoming: &Vec<(usize, u32)>)
        requires
            old(self).wf(),
            forall|k: int|
                0 <= k < incoming@.len() ==> (#[trigger] incoming@[k]).0 < old(
                    self,
                )@.mmio.port_data.len() && old(self)@.mmio.attached[incoming@[k].0 as int],
        ensures
            final(self)@ == (CoreModel {
                mmio: MmioModel {
                    port_data: deliver(old(self)@.mmio.port_data, incoming@),
                    ..old(self)@.mmio
                },
                ..old(self)@
            }),
            final(self).wf(),
    {
        self.mmio.update_ports(incoming);
    }

    /// Hands over the values sent to devices since the last call, oldest
    /// first, as (port, value, transaction id).
    pub fn take_sent(&mut self) -> (sent: Vec<(usize, u32, TransactionId)>)
        requires
            old(self).wf(),
        ensures
            sent@.map_values(|p: (usize, u32, TransactionId)| (p.0, p.1, p.2.0)) == old(
                self,
            )@.mmio.outbox,
            final(self)@ == (CoreModel {
                mmio: MmioModel { outbox: Seq::empty(), ..old(self)@.mmio },
                ..old(self)@
            }),
            final(self).wf(),
    {
        self.mmio.take_sent()
    }
}


/// `offset_target`, decided.
fn offset_checked(base: u32, offset: u32) -> (t: Option<u32>)
    ensures
        t == offset_target(base, offset),
{
    let s: i64 = base as i32 as i64 + offset as i32 as i64;
    if s < -0x8000_0000i64 || s > 0x7FFF_FFFFi64 {
        None
    } else {
        Some(s as i32 as u32)
    }
}

/// `checked_add32`, decided.
fn add_checked(a: u32, b: u32) -> (r: Option<u32>)
    ensures
        r == checked_add32(a, b),
{
    a.checked_add(b)
}

/// `cycles + n`, or the overflow of a `usize` counter.
fn tick_checked(cycles: u128, n: u128) -> (r: Result<u128, Fault>)
    requires
        cycles <= usize::MAX,
        n <= 2 * usize::MAX,
    ensures
        r == if cycles + n <= usize::MAX {
            Ok::<u128, Fault>((cycles + n) as u128)
        } else {
            Err(Fault::CounterOverflow)
        },
{
    if cycles + n > usize::MAX as u128 {
        Err(Fault::CounterOverflow)
    } else {
        Ok(cycles + n)
    }
}

/// `m1` differs from `m` at most in its instruction cache and cycle count.
pub open spec fn same_but_fetch(m1: CoreModel, m: CoreModel) -> bool {
    m1 == (CoreModel { mem: MemModel { icache: m1.mem.icache, ..m.mem }, cycles: m1.cycles, ..m })
}

/// `m` agrees with `c` on memory and ports, and its data cache is `c`'s, or,
/// where `after_access` (the address was just accessed), `c`'s after an
/// access to `a`.
pub open spec fn data_side_agrees(m: CoreModel, c: CoreModel, a: u32, after_access: bool) -> bool {
    &&& m.mem.data == c.mem.data
    &&& m.mem.l1d_hit_cycles == c.mem.l1d_hit_cycles
    &&& m.mem.l1d_miss_cycles == c.mem.l1d_miss_cycles
    &&& m.mmio == c.mmio
    &&& m.cycles <= usize::MAX
    &&& if after_access {
        c.mem.dcache.can_access() && m.mem.dcache == c.mem.dcache.access(a).0
    } else {
        m.mem.dcache == c.mem.dcache
    }
}

impl Core {
    /// The data-cache access for word address `a` on `m`: its cycle count
    /// afterwards, or its fault.
    fn check_data_access(&self, a: u32, cyc: u128, after_access: bool, Ghost(m): Ghost<CoreModel>) -> (r:
        Result<u128, Fault>)
        requires
            self.wf(),
            data_side_agrees(m, self@, a, after_access),
            m.cycles == cyc,
        ensures
            match m.data_access(a) {
                Ok(m2) => r == Ok::<u128, Fault>(m2.cycles as u128),
                Err(e) => r == Err::<u128, Fault>(e),
            },
    {
        let n = self.mem.len();
        if !(a < #[verifier::truncate] (n as u32)) {
            return Err(Fault::OutOfBounds(a));
        }
        let (dc_ok, _) = self.mem.caches_usable();
        proof {
            if after_access {
                self@.mem.dcache.lemma_access(a);
                self@.mem.dcache.lemma_access_then_hit(a);
            }
        }
        if !dc_ok {
            return Err(Fault::DataCacheUnusable);
        }
        let (hit_cycles, miss_cycles, _) = self.mem.latencies();
        let hit = after_access || self.mem.probe_data(a);
        let cost: usize = if hit {
            hit_cycles
        } else {
            miss_cycles
        };
        tick_checked(cyc, cost as u128)
    }

    /// A word read at `addr` on `m`: its cycle count afterwards, or its fault.
    fn check_load_word(&self, addr: u32, cyc: u128, Ghost(m): Ghost<CoreModel>) -> (r: Result<
        u128,
        Fault,
    >)
        requires
            self.wf(),
            data_side_agrees(m, self@, 0, false),
            m.cycles == cyc,
        ensures
            match m.load_word(addr) {
                Ok((m2, _)) => r == Ok::<u128, Fault>(m2.cycles as u128),
                Err(e) => r == Err::<u128, Fault>(e),
            },
    {
        let is_port = addr & 0x8000_0000 != 0;
        let a = addr & 0x7FFF_FFFC;
        if is_port {
            let c = tick_checked(cyc, 1)?;
            proof {
                lemma_port_index(addr);
            }
            let idx = ((a as usize) >> 2usize) & 0xF;
            if idx < self.mmio.num_ports() {
                Ok(c)
            } else {
                Err(Fault::NoSuchPort(idx))
            }
        } else {
            let c = self.check_data_access(a, cyc, false, Ghost(m))?;
            let n = self.mem.len();
            if (a as usize) < n && n - (a as usize) > 3 {
                Ok(c)
            } else {
                Err(Fault::OutOfBounds(a))
            }
        }
    }

    /// A word written at `addr` on `m` (whatever the value): its cycle count
    /// afterwards, or its fault. `after_access` where `m` has just read the
    /// same address.
    fn check_store_word(&self, addr: u32, cyc: u128, after_access: bool, Ghost(m): Ghost<CoreModel>) -> (r:
        Result<u128, Fault>)
        requires
            self.wf(),
            data_side_agrees(m, self@, word_addr(addr), after_access && !is_port(addr)),
            m.cycles == cyc,
        ensures
            forall|val: u32|
                match #[trigger] m.store_word(addr, val) {
                    Ok(m2) => r == Ok::<u128, Fault>(m2.cycles as u128),
                    Err(e) => r == Err::<u128, Fault>(e),
                },
    {
        let is_port = addr & 0x8000_0000 != 0;
        let a = addr & 0x7FFF_FFFC;
        if is_port {
            let c = tick_checked(cyc, 1)?;
            proof {
                lemma_port_index(addr);
                self.mmio.lemma_tid_fits();
            }
            let idx = ((a as usize) >> 2usize) & 0xF;
            if idx >= self.mmio.num_ports() {
                return Err(Fault::NoSuchPort(idx));
            }
            if self.mmio.is_attached(idx) && self.mmio.next_tid().0 == usize::MAX {
                return Err(Fault::CounterOverflow);
            }
            Ok(c)
        } else {
            let c = self.check_data_access(a, cyc, after_access, Ghost(m))?;
            let n = self.mem.len();
            if (a as usize) < n && n - (a as usize) > 3 {
                Ok(c)
            } else {
                Err(Fault::OutOfBounds(a))
            }
        }
    }

    /// Executing the fetched instruction on `m1` (whose cycle count is
    /// `cyc`): `None`, or the fault that stops it.
    fn check_execute(&self, ins: u32, op: Op, cyc: u128, Ghost(m1): Ghost<CoreModel>) -> (r: Option<
        Fault,
    >)
        requires
            self.wf(),
            same_but_fetch(m1, self@),
            m1.cycles == cyc,
            cyc <= usize::MAX,
        ensures
            match m1.execute(ins, op) {
                Ok(_) => r is None,
                Err(e) => r == Some(e),
            },
    {
        proof {
            assert(m1.pc == self@.pc);
            assert(m1.regs == self@.regs);
            assert(m1.mmio == self@.mmio);
            assert(m1.mem.data == self@.mem.data);
            assert(m1.mem.dcache == self@.mem.dcache);
            assert(data_side_agrees(m1, self@, 0, false));
        }
        let next = add_checked(self.pc, 4);
        match op {
            Op::Op | Op::OpImm | Op::Lui | Op::MiscMem => {
                if let Err(e) = tick_checked(cyc, 1) {
                    return Some(e);
                }
                if next.is_none() {
                    return Some(Fault::AddressOverflow);
                }
                None
            },
            Op::Auipc => {
                if let Err(e) = tick_checked(cyc, 1) {
                    return Some(e);
                }
                if add_checked(read_imm_u(ins), self.pc).is_none() || next.is_none() {
                    return Some(Fault::AddressOverflow);
                }
                None
            },
            Op::Branch => {
                let f3 = funct3(ins);
                if f3 == 2 || f3 == 3 {
                    return Some(Fault::InvalidBranchCondition(f3));
                }
                let taken = branch_condition(f3, self.reg(rs1(ins)), self.reg(rs2(ins)));
                if taken {
                    if offset_checked(self.pc, read_imm_b(ins)).is_none() {
                        return Some(Fault::AddressOverflow);
                    }
                } else if next.is_none() {
                    return Some(Fault::AddressOverflow);
                }
                None
            },
            Op::Jal => {
                if let Err(e) = tick_checked(cyc, 1) {
                    return Some(e);
                }
                if next.is_none() || offset_checked(self.pc, read_imm_j(ins)).is_none() {
                    return Some(Fault::AddressOverflow);
                }
                None
            },
            Op::Jalr => {
                if let Err(e) = tick_checked(cyc, 1) {
                    return Some(e);
                }
                if offset_checked(self.reg(rs1(ins)), read_imm_i(ins)).is_none() || next.is_none() {
                    return Some(Fault::AddressOverflow);
                }
                None
            },
            Op::Load => {
                let addr = match offset_checked(self.reg(rs1(ins)), read_imm_i(ins)) {
                    Some(a) => a,
                    None => {
                        return Some(Fault::AddressOverflow);
                    },
                };
                let f3 = funct3(ins);
                let size = f3 & 0b11;
                assert(size < 4) by (bit_vector)
                    requires
                        size == f3 & 3u32,
                ;
                let sub_addr = addr & 3;
                let c = match self.check_load_word(addr, cyc, Ghost(m1)) {
                    Ok(c) => c,
                    Err(e) => {
                        return Some(e);
                    },
                };
                if size == 0 || size == 1 {
                    if let Err(e) = tick_checked(c, 1) {
                        return Some(e);
                    }
                }
                if size == 1 && sub_addr & 1 != 0 {
                    return Some(Fault::MisalignedHalfWordLoad);
                }
                if size == 2 && sub_addr != 0 {
                    return Some(Fault::MisalignedWordLoad);
                }
                if size == 3 {
                    return Some(Fault::InvalidLoadWidth(size));
                }
                if next.is_none() {
                    return Some(Fault::AddressOverflow);
                }
                None
            },
            Op::Store => {
                let addr = match offset_checked(self.reg(rs1(ins)), read_imm_s(ins)) {
                    Some(a) => a,
                    None => {
                        return Some(Fault::AddressOverflow);
                    },
                };
                let f3 = funct3(ins);
                let size = f3 & 0b11;
                assert(size < 4) by (bit_vector)
                    requires
                        size == f3 & 3u32,
                ;
                if size == 2 {
                    if let Err(e) = self.check_store_word(addr, cyc, false, Ghost(m1)) {
                        return Some(e);
                    }
                } else {
                    let c = match self.check_load_word(addr, cyc, Ghost(m1)) {
                        Ok(c) => c,
                        Err(e) => {
                            return Some(e);
                        },
                    };
                    if size == 3 {
                        return Some(Fault::InvalidStoreWidth(size));
                    }
                    let ghost m2 = (m1.load_word(addr)->Ok_0).0;
                    proof {
                        if !is_port(addr) {
                            let a = word_addr(addr);
                            assert(m1.data_access(a) is Ok);
                            assert(data_side_agrees(m2, self@, a, true));
                        } else {
                            assert(data_side_agrees(m2, self@, word_addr(addr), false));
                        }
                    }
                    if let Err(e) = self.check_store_word(addr, c, true, Ghost(m2)) {
                        return Some(e);
                    }
                }
                if next.is_none() {
                    return Some(Fault::AddressOverflow);
                }
                None
            },
        }
    }

    /// Whether the core can fetch its next instruction, and if not, why.
    pub fn fetch_fault(&self) -> (f: Option<Fault>)
        requires
            self.wf(),
        ensures
            match self@.fetch() {
                Ok(_) => f is None,
                Err(e) => f == Some(e),
            },
    {
        let (_, ic_ok) = self.mem.caches_usable();
        if !ic_ok {
            return Some(Fault::InstructionCacheUnusable);
        }
        let (_, _, miss_cycles) = self.mem.latencies();
        let cost: usize = if self.mem.probe_ins(self.pc) {
            0
        } else {
            miss_cycles
        };
        if let Err(e) = tick_checked(self.cycles.get() as u128, cost as u128) {
            return Some(e);
        }
        let n = self.mem.len();
        if !(n > 3 && (self.pc as usize) < n - 3) {
            return Some(Fault::FetchOutOfBounds(self.pc));
        }
        let ins = self.mem.peek_word(self.pc);
        proof {
            assert(ins & 0b1111111u32 == opcode_of(ins));
        }
        match Op::try_from_opcode(ins & 0b1111111) {
            Some(_) => None,
            None => Some(Fault::InvalidOpcode(ins & 0b1111111)),
        }
    }

    /// Whether the core can take its next step, and if not, the fault that
    /// would stop it: `None` exactly when `execute_one` may be called.
    pub fn step_fault(&self) -> (f: Option<Fault>)
        requires
            self.wf(),
        ensures
            match self@.step() {
                Ok(_) => f is None,
                Err(e) => f == Some(e),
            },
    {
        if let Some(e) = self.fetch_fault() {
            return Some(e);
        }
        let ins = self.mem.peek_word(self.pc);
        let op = Op::from_opcode(ins & 0b1111111);
        let (_, _, miss_cycles) = self.mem.latencies();
        let cost: usize = if self.mem.probe_ins(self.pc) {
            0
        } else {
            miss_cycles
        };
        proof {
            assert(ins & 0b1111111u32 == opcode_of(ins));
            self@.mem.icache.lemma_access(self.pc);
        }
        let cyc: u128 = self.cycles.get() as u128 + cost as u128;
        let ghost m1 = (self@.fetch()->Ok_0).0;
        assert(same_but_fetch(m1, self@));
        self.check_execute(ins, op, cyc, Ghost(m1))
    }
}

/// The port index that the core computes from an address is `port_index`.
proof fn lemma_port_index(addr: u32)
    ensures
        ((((addr & 0x7FFF_FFFCu32) as usize) >> 2usize) & 0xFusize) == port_index(addr),
        port_index(addr) < 16,
{
    assert(((((addr & 0x7FFF_FFFCu32) as usize) >> 2usize) & 0xFusize) == ((addr >> 2u32) & 0xFu32)
        as usize && ((addr >> 2u32) & 0xFu32) < 16) by (bit_vector);
}

} // verus!
