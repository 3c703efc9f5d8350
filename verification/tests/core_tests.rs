use bycl_sim::exec::{Core, CoreConfig};
use bycl_sim::semantics::Fault;
use bycl_sim::io::{Mmio, TransactionId};
use bycl_sim::mem::MemConfig;
use bycl_sim::op::Op;

fn config(mem_size: usize) -> MemConfig {
    MemConfig {
        mem_size,
        l1_size: 64,
        l1_line_size: 16,
        l1_associativity: 2,
        l1d_hit_cycles: 1,
        l1d_miss_cycles: 10,
        l1i_miss_cycles: 5,
    }
}

fn program(words: &[u32]) -> Vec<u8> {
    let mut bytes = Vec::new();
    for w in words {
        bytes.extend_from_slice(&w.to_le_bytes());
    }
    bytes
}

fn run(core: &mut Core, max_steps: usize) -> usize {
    for step in 0..max_steps {
        assert_eq!(core.step_fault(), None);
        if !core.execute_one() {
            return step + 1;
        }
    }
    panic!("did not halt");
}

#[test]
fn arithmetic_store_and_load() {
    let fw = program(&[
        0x0050_0093, // addi x1, x0, 5
        0x0070_0113, // addi x2, x0, 7
        0x0020_81B3, // add x3, x1, x2
        0x0430_2023, // sw x3, 0x40(x0)
        0x0400_2203, // lw x4, 0x40(x0)
        0x0000_006F, // jal x0, 0
    ]);
    let mut core = Core::new(&fw, config(256), CoreConfig {}, Mmio::new(16));
    assert_eq!(core.cycle_count(), 0);
    assert_eq!(run(&mut core, 100), 6);
    assert_eq!(core.reg(0), 0);
    assert_eq!(core.reg(3), 12);
    assert_eq!(core.reg(4), 12);
    assert_eq!(core.pc(), 20);
    // Fetch misses on two lines (5 each), four one-cycle instructions and the
    // jump, a store miss (10) and a load hit (1).
    assert_eq!(core.cycle_count(), 25);
}

#[test]
fn byte_store_spills_upper_bits_and_funct3_bit_2_sign_extends() {
    let fw = program(&[
        0xFFF0_0093, // addi x1, x0, -1
        0x0410_00A3, // sb x1, 0x41(x0)
        0x0410_0103, // lb x2, 0x41(x0)
        0x0410_4183, // lbu x3, 0x41(x0)
        0x0400_2203, // lw x4, 0x40(x0)
        0x0000_006F, // jal x0, 0
    ]);
    let mut core = Core::new(&fw, config(256), CoreConfig {}, Mmio::new(16));
    run(&mut core, 100);
    // The byte load sign-extends where funct3 has bit 2 set (the encoding
    // that RV32I names LBU) and zero-extends otherwise.
    assert_eq!(core.reg(2), 0xFF);
    assert_eq!(core.reg(3), 0xFFFF_FFFF);
    assert_eq!(core.reg(4), 0xFFFF_FF00);
}

#[test]
fn branch_loop_counts_down() {
    let fw = program(&[
        0x0030_0093, // addi x1, x0, 3
        0xFFF0_8093, // addi x1, x1, -1
        0xFE00_9EE3, // bne x1, x0, -4
        0x0000_006F, // jal x0, 0
    ]);
    let mut core = Core::new(&fw, config(64), CoreConfig {}, Mmio::new(16));
    assert_eq!(run(&mut core, 100), 8);
    assert_eq!(core.reg(1), 0);
}

#[test]
fn ports_send_and_receive() {
    let fw = program(&[
        0x8000_00B7, // lui x1, 0x80000
        0x02A0_0113, // addi x2, x0, 42
        0x0020_A023, // sw x2, 0(x1)
        0x0040_A183, // lw x3, 4(x1)
        0x0000_006F, // jal x0, 0
    ]);
    let mut mmio = Mmio::new(16);
    mmio.attach_port(0);
    mmio.attach_port(1);
    let mut core = Core::new(&fw, config(64), CoreConfig {}, mmio);
    core.update_ports(&vec![(1, 99)]);
    run(&mut core, 100);
    assert_eq!(core.reg(3), 99);
    assert_eq!(core.take_sent(), vec![(0, 42, TransactionId(0))]);
}

#[test]
fn jal_links_and_jalr_returns() {
    let fw = program(&[
        0x0080_00EF, // jal x1, 8
        0x0000_006F, // jal x0, 0
        0x0050_0113, // addi x2, x0, 5
        0x0000_8067, // jalr x0, 0(x1)
    ]);
    let mut core = Core::new(&fw, config(64), CoreConfig {}, Mmio::new(16));
    assert_eq!(run(&mut core, 100), 4);
    assert_eq!(core.reg(1), 4);
    assert_eq!(core.reg(2), 5);
    assert_eq!(core.pc(), 4);
}

#[test]
fn fetch_then_execute_is_a_step() {
    let fw = program(&[0x1234_52B7, 0x0000_0297, 0x0000_006F]); // lui x5; auipc x5, 0
    let mut core = Core::new(&fw, config(64), CoreConfig {}, Mmio::new(16));
    let (ins, op) = core.fetch();
    assert_eq!(ins, 0x1234_52B7);
    assert_eq!(op, Op::Lui);
    assert!(core.execute(ins, op));
    assert_eq!(core.reg(5), 0x1234_5000);
    assert!(core.execute_one());
    assert_eq!(core.reg(5), 4);
}

#[test]
fn faults_are_reported() {
    // All-zero memory: opcode 0 is not an RV32I class.
    let core = Core::new(&[], config(64), CoreConfig {}, Mmio::new(16));
    assert_eq!(core.step_fault(), Some(Fault::InvalidOpcode(0)));
    // Memory too small for one instruction word.
    let core = Core::new(&[], config(2), CoreConfig {}, Mmio::new(16));
    assert_eq!(core.step_fault(), Some(Fault::FetchOutOfBounds(0)));
    // A load beyond memory.
    let fw = program(&[0x1000_2203]); // lw x4, 0x100(x0)
    let core = Core::new(&fw, config(64), CoreConfig {}, Mmio::new(16));
    assert_eq!(core.step_fault(), Some(Fault::OutOfBounds(0x100)));
    // A misaligned word load.
    let fw = program(&[0x0020_2203]); // lw x4, 2(x0)
    let core = Core::new(&fw, config(64), CoreConfig {}, Mmio::new(16));
    assert_eq!(core.step_fault(), Some(Fault::MisalignedWordLoad));
    // A misaligned half-word load.
    let fw = program(&[0x0010_1203]); // lh x4, 1(x0)
    let core = Core::new(&fw, config(64), CoreConfig {}, Mmio::new(16));
    assert_eq!(core.step_fault(), Some(Fault::MisalignedHalfWordLoad));
    // Undefined load and store widths.
    let fw = program(&[0x0000_3203]); // load with funct3 = 3
    let core = Core::new(&fw, config(64), CoreConfig {}, Mmio::new(16));
    assert_eq!(core.step_fault(), Some(Fault::InvalidLoadWidth(3)));
    let fw = program(&[0x0000_3023]); // store with funct3 = 3
    let core = Core::new(&fw, config(64), CoreConfig {}, Mmio::new(16));
    assert_eq!(core.step_fault(), Some(Fault::InvalidStoreWidth(3)));
    // A cache of one set cannot index.
    let mut c = config(64);
    c.l1_size = 32;
    let core = Core::new(&[], c, CoreConfig {}, Mmio::new(16));
    assert_eq!(core.step_fault(), Some(Fault::InstructionCacheUnusable));
    // A jump below the bottom of the signed address range.
    let fw = program(&[0x8000_00B7, 0xFFF0_8067]); // lui x1, 0x80000; jalr x0, -1(x1)
    let mut core = Core::new(&fw, config(64), CoreConfig {}, Mmio::new(16));
    assert!(core.execute_one());
    assert_eq!(core.step_fault(), Some(Fault::AddressOverflow));
    // An undefined branch condition.
    let fw = program(&[0x0000_2063]); // branch with funct3 = 2
    let core = Core::new(&fw, config(64), CoreConfig {}, Mmio::new(16));
    assert_eq!(core.step_fault(), Some(Fault::InvalidBranchCondition(2)));
    // A port beyond the ones that exist.
    let fw = program(&[0x8000_00B7, 0x0000_A183]); // lui x1, 0x80000; lw x3, 0(x1)
    let mut core = Core::new(&fw, config(64), CoreConfig {}, Mmio::new(0));
    assert!(core.execute_one());
    assert_eq!(core.step_fault(), Some(Fault::NoSuchPort(0)));
}

#[test]
fn x0_ignores_writes_and_steps_advance() {
    let fw = program(&[
        0x0050_0013, // addi x0, x0, 5
        0x0000_0093, // addi x1, x0, 0
        0x0000_006F, // jal x0, 0
    ]);
    let mut core = Core::new(&fw, config(64), CoreConfig {}, Mmio::new(16));
    let mut last_cycles = core.cycle_count();
    assert!(core.execute_one());
    assert_eq!(core.reg(0), 0);
    assert_eq!(core.pc(), 4);
    assert!(core.cycle_count() >= last_cycles);
    last_cycles = core.cycle_count();
    assert!(core.execute_one());
    assert_eq!(core.reg(1), 0);
    assert_eq!(core.pc(), 8);
    assert!(core.cycle_count() >= last_cycles);
    assert!(!core.execute_one());
    assert_eq!(core.pc(), 8);
}

#[test]
fn counter_overflow_is_told_apart_from_fetch_faults() {
    let fw = program(&[0x0050_0093]); // addi x1, x0, 5
    let mut c = config(64);
    c.l1i_miss_cycles = usize::MAX;
    let core = Core::new(&fw, c, CoreConfig {}, Mmio::new(16));
    // The fetch miss fills the counter; the instruction's own cycle overflows it.
    assert_eq!(core.fetch_fault(), None);
    assert_eq!(core.step_fault(), Some(Fault::CounterOverflow));
    let core = Core::new(&[], config(64), CoreConfig {}, Mmio::new(16));
    assert_eq!(core.fetch_fault(), Some(Fault::InvalidOpcode(0)));
}
