use bycl_sim::schematic::{l1i_placements, Placement};

#[test]
fn one_word_makes_thirty_two_blocks() {
    let ps = l1i_placements(&[0b0000_0001, 0, 0, 0b1000_0000, 0xAA]);
    assert_eq!(ps.len(), 32);
    assert_eq!(ps[0], Placement { x: 62, y: 0, z: 56, powered: true });
    assert_eq!(ps[1], Placement { x: 62, y: 2, z: 56, powered: false });
    assert_eq!(ps[8], Placement { x: 62, y: 19, z: 56, powered: false });
    assert_eq!(ps[31], Placement { x: 62, y: 3 * 19 + 14, z: 56, powered: true });
}

#[test]
fn words_run_along_lines() {
    let data = vec![0xFFu8; 33 * 4];
    let ps = l1i_placements(&data);
    assert_eq!(ps.len(), 33 * 32);
    assert_eq!(ps[32].x, 60);
    assert_eq!(ps[31 * 32].x, 0);
    assert_eq!(ps[32 * 32], Placement { x: 62, y: 0, z: 48, powered: true });
}

#[test]
fn full_cache_fits() {
    let data = vec![0u8; 1024];
    let ps = l1i_placements(&data);
    assert_eq!(ps.len(), 256 * 32);
    assert_eq!(ps[255 * 32], Placement { x: 0, y: 0, z: 0, powered: false });
}
