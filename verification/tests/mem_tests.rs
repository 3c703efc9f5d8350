use bycl_sim::exec::Cycles;
use bycl_sim::mem::{Cache, CacheResult, CacheSet, Lru, Mem, MemConfig};

fn config() -> MemConfig {
    MemConfig {
        mem_size: 256,
        l1_size: 64,
        l1_line_size: 16,
        l1_associativity: 2,
        l1d_hit_cycles: 1,
        l1d_miss_cycles: 10,
        l1i_miss_cycles: 5,
    }
}

#[test]
fn lru_moves_to_back() {
    let mut l = Lru::new(3);
    assert_eq!(l.lru(), 0);
    l.access(0);
    assert_eq!(l.lru(), 1);
    l.access(2);
    l.access(1);
    assert_eq!(l.lru(), 0);
}

#[test]
fn set_replaces_least_recently_used() {
    let c = config();
    let mut s = CacheSet::new(&c);
    assert_eq!(s.access(7), CacheResult::Miss);
    assert_eq!(s.access(7), CacheResult::Hit);
    // The miss filled way 0 but left it least recently used; the hit above
    // moved it to the back, so way 1 is replaced next.
    assert_eq!(s.access(8), CacheResult::Miss);
    assert_eq!(s.access(7), CacheResult::Hit);
    assert_eq!(s.access(8), CacheResult::Hit);
    // Way 0 (tag 7) is least recently used now.
    assert_eq!(s.access(9), CacheResult::Miss);
    assert_eq!(s.access(8), CacheResult::Hit);
    assert_eq!(s.access(7), CacheResult::Miss);
}

#[test]
fn cache_hits_after_access() {
    let c = config();
    let mut cache = Cache::new(&c);
    assert!(!cache.probe(0x40));
    assert_eq!(cache.access(0x40), CacheResult::Miss);
    assert!(cache.probe(0x40));
    assert_eq!(cache.access(0x4C), CacheResult::Hit);
    // Same set (bit 4 clear), other tag.
    assert_eq!(cache.access(0x80), CacheResult::Miss);
    // Other set.
    assert_eq!(cache.access(0x50), CacheResult::Miss);
    assert_eq!(cache.access(0x40), CacheResult::Hit);
}

#[test]
fn geometry_check() {
    assert!(config().check_geometry());
    let mut c = config();
    c.l1_size = 48;
    assert!(!c.check_geometry());
    let mut c = config();
    c.l1_associativity = 0;
    assert!(!c.check_geometry());
    let mut c = config();
    c.l1_line_size = usize::MAX;
    assert!(!c.check_geometry());
}

#[test]
fn memory_holds_firmware_then_zeros() {
    let mut mem = Mem::new(&[1, 2, 3, 4, 5], config());
    assert_eq!(mem.len(), 256);
    assert_eq!(mem.peek_word(0), 0x0403_0201);
    assert_eq!(mem.peek_word(4), 0x0000_0005);
    let mut cycles = Cycles::new();
    assert_eq!(mem.load_ins(&mut cycles, 0), 0x0403_0201);
    assert_eq!(cycles.get(), 5);
    assert_eq!(mem.load_ins(&mut cycles, 4), 5);
    assert_eq!(cycles.get(), 5);
}

#[test]
fn load_reads_back_store() {
    let mut mem = Mem::new(&[], config());
    let mut cycles = Cycles::new();
    mem.store(&mut cycles, 0x20, 0xDEAD_BEEF);
    assert_eq!(cycles.get(), 10);
    assert_eq!(mem.load(&mut cycles, 0x20), 0xDEAD_BEEF);
    assert_eq!(cycles.get(), 11);
    assert_eq!(mem.peek_word(0x1C), 0);
    assert_eq!(mem.peek_word(0x24), 0);
    assert_eq!(mem.peek_word(0x21), 0x00DE_ADBE);
    assert!(mem.probe_data(0x20));
    assert!(!mem.probe_ins(0x20));
    assert_eq!(mem.latencies(), (1, 10, 5));
    assert_eq!(mem.caches_usable(), (true, true));
}

#[test]
fn one_set_cache_is_not_usable() {
    let mut c = config();
    c.l1_size = 32;
    let mem = Mem::new(&[], c);
    assert_eq!(mem.caches_usable(), (false, false));
}
