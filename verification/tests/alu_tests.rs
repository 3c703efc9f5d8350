use bycl_sim::exec::{alu_imm_value, alu_reg_value, branch_condition, Cycles};

#[test]
fn register_alu() {
    assert_eq!(alu_reg_value(0, 0, 5, 3), 8);
    assert_eq!(alu_reg_value(0, 0, 0xFFFF_FFFF, 2), 1);
    assert_eq!(alu_reg_value(0, 0x20, 3, 5), 0xFFFF_FFFE);
    assert_eq!(alu_reg_value(1, 0, 1, 33), 2);
    assert_eq!(alu_reg_value(2, 0, 0xFFFF_FFFF, 0), 1);
    assert_eq!(alu_reg_value(3, 0, 0xFFFF_FFFF, 0), 0);
    assert_eq!(alu_reg_value(4, 0, 0b1100, 0b1010), 0b0110);
    assert_eq!(alu_reg_value(5, 0, 0x8000_0000, 4), 0x0800_0000);
    assert_eq!(alu_reg_value(5, 0x20, 0x8000_0000, 4), 0xF800_0000);
    assert_eq!(alu_reg_value(6, 0, 0b1100, 0b1010), 0b1110);
    assert_eq!(alu_reg_value(7, 0, 0b1100, 0b1010), 0b1000);
}

#[test]
fn immediate_alu() {
    assert_eq!(alu_imm_value(0, 0, 0, 10, 0xFFFF_FFFF), 9);
    assert_eq!(alu_imm_value(1, 0, 3, 1, 3), 8);
    assert_eq!(alu_imm_value(2, 0, 0, 5, 0xFFFF_FFFF), 0);
    assert_eq!(alu_imm_value(3, 0, 0, 5, 0xFFFF_FFFF), 1);
    assert_eq!(alu_imm_value(5, 0x20, 8, 0xFF00_0000, 0x408), 0xFFFF_0000);
    assert_eq!(alu_imm_value(5, 0, 8, 0xFF00_0000, 8), 0x00FF_0000);
}

#[test]
fn branch_conditions() {
    assert!(branch_condition(0, 3, 3));
    assert!(branch_condition(1, 3, 4));
    assert!(branch_condition(4, 0xFFFF_FFFF, 0));
    assert!(!branch_condition(6, 0xFFFF_FFFF, 0));
    assert!(branch_condition(5, 0, 0xFFFF_FFFF));
    assert!(branch_condition(7, 0xFFFF_FFFF, 0));
}

#[test]
fn cycles_add_up() {
    let mut c = Cycles::new();
    assert_eq!(c.get(), 0);
    c.add(3);
    c.add(4);
    assert_eq!(c.get(), 7);
    let d: Cycles = Default::default();
    assert_eq!(d.get(), 0);
}
