//! What the core's operations mean, stated over their inputs and results
//! rather than by the functions that compute them.

use vstd::prelude::*;
use vstd::arithmetic::power2::{pow2, lemma_pow2_pos};
use vstd::bits::{lemma_u32_shr_is_div, lemma_u64_pow2_no_overflow, lemma_u64_shl_is_mul};
use crate::decode::{funct3_of, funct7_of, opcode_of, imm_b, imm_i, imm_j, imm_s, imm_u, rd_of, rs1_of, rs2_of};
use crate::mem::{le_word, put_word};
use crate::mem::{first_index, log2, touch, CacheModel, MemConfig, SetModel};
use crate::op::Op;
use crate::semantics::{alu_imm, alu_reg, offset_target, word_addr, CoreModel, Fault};

verus! {

// ----------------------------------------------------------------------------
// ALU
// ----------------------------------------------------------------------------

/// `sltu` and `sltiu` give 1 exactly when the first operand is below the
/// second as an unsigned word, and 0 otherwise.
pub proof fn law_set_less_than_unsigned(f7: u32, shamt: u32, a: u32, b: u32)
    ensures
        alu_reg(3, f7, a, b) == 1 <==> a < b,
        alu_reg(3, f7, a, b) == 0 <==> !(a < b),
        alu_imm(3, f7, shamt, a, b) == 1 <==> a < b,
        alu_imm(3, f7, shamt, a, b) == 0 <==> !(a < b),
        alu_reg(3, f7, a, a) == 0,
{
}

/// `slt` and `slti` give 1 exactly when the first operand is below the second
/// as a signed (two's complement) word, and 0 otherwise.
pub proof fn law_set_less_than_signed(f7: u32, shamt: u32, a: u32, b: u32)
    ensures
        alu_reg(2, f7, a, b) == 1 <==> (a as i32) < (b as i32),
        alu_reg(2, f7, a, b) == 0 <==> !((a as i32) < (b as i32)),
        alu_imm(2, f7, shamt, a, b) == 1 <==> (a as i32) < (b as i32),
        alu_imm(2, f7, shamt, a, b) == 0 <==> !((a as i32) < (b as i32)),
        alu_reg(2, f7, a, a) == 0,
{
}

/// Addition and subtraction (register and immediate forms) are modulo 2^32,
/// and undo each other.
pub proof fn law_add_sub(f7: u32, shamt: u32, a: u32, b: u32)
    requires
        f7 != 0,
    ensures
        alu_reg(0, 0, a, b) as int == (a as int + b as int) % 0x1_0000_0000,
        alu_reg(0, f7, a, b) as int == (a as int - b as int) % 0x1_0000_0000,
        alu_imm(0, f7, shamt, a, b) as int == (a as int + b as int) % 0x1_0000_0000,
        alu_reg(0, f7, alu_reg(0, 0, a, b), b) == a,
        alu_reg(0, 0, a, b) == alu_reg(0, 0, b, a),
{
}

/// The bitwise operations, each stated through the others (De Morgan), in
/// register and immediate forms.
pub proof fn law_bitwise(f7: u32, shamt: u32, a: u32, b: u32)
    ensures
        alu_reg(4, f7, a, b) == (a | b) & !(a & b),
        alu_reg(6, f7, a, b) == !(!a & !b),
        alu_reg(7, f7, a, b) == !(!a | !b),
        alu_imm(4, f7, shamt, a, b) == (a | b) & !(a & b),
        alu_imm(6, f7, shamt, a, b) == !(!a & !b),
        alu_imm(7, f7, shamt, a, b) == !(!a | !b),
        alu_reg(4, f7, alu_reg(4, f7, a, b), b) == a,
{
    assert((a ^ b) == (a | b) & !(a & b) && (a | b) == !(!a & !b) && (a & b) == !(!a | !b) && (a
        ^ b) ^ b == a) by (bit_vector);
}

/// `a << s` is `a * 2^s` modulo 2^32, for `s < 32`.
proof fn lemma_shl_is_mul_mod(a: u32, s: u32)
    requires
        s < 32,
    ensures
        (a << s) as int == (a as int * pow2(s as nat)) % 0x1_0000_0000,
{
    lemma_u64_pow2_no_overflow(s as nat);
    lemma_pow2_pos(s as nat);
    assert(pow2(s as nat) <= 0x8000_0000) by {
        vstd::arithmetic::power2::lemma2_to64();
        vstd::arithmetic::power::lemma_pow_increases(2, s as nat, 31);
        vstd::arithmetic::power2::lemma_pow2(s as nat);
        vstd::arithmetic::power2::lemma_pow2(31);
    }
    assert((a as u64) * pow2(s as nat) <= u64::MAX) by (nonlinear_arith)
        requires
            pow2(s as nat) <= 0x8000_0000,
            a <= u32::MAX,
    ;
    lemma_u64_shl_is_mul(a as u64, s as u64);
    let w = (a as u64) << (s as u64);
    assert((a << s) == ((w & 0xFFFF_FFFFu64) as u32) && (w & 0xFFFF_FFFFu64) == w % 0x1_0000_0000u64)
        by (bit_vector)
        requires
            w == (a as u64) << (s as u64),
            s < 32,
    ;
}

/// Shifts take their amount from the low five bits of `b` (or the `shamt`
/// field): a left shift multiplies by 2^amount modulo 2^32, a logical right
/// shift divides by it, and an arithmetic right shift divides the signed
/// word by it, rounding down.
pub proof fn law_shifts(f7: u32, a: u32, b: u32, shamt: u32)
    requires
        f7 != 0,
        shamt < 32,
    ensures
        alu_reg(1, f7, a, b) as int == (a as int * pow2((b & 31) as nat)) % 0x1_0000_0000,
        alu_reg(5, 0, a, b) as int == a as int / pow2((b & 31) as nat) as int,
        (alu_reg(5, f7, a, b) as i32) as int == (a as i32) as int / pow2((b & 31) as nat) as int,
        alu_imm(1, f7, shamt, a, b) as int == (a as int * pow2(shamt as nat)) % 0x1_0000_0000,
        alu_imm(5, 0, shamt, a, b) as int == a as int / pow2(shamt as nat) as int,
        (alu_imm(5, f7, shamt, a, b) as i32) as int == (a as i32) as int / pow2(shamt as nat) as int,
{
    let s = b & 31;
    assert(s < 32) by (bit_vector)
        requires
            s == b & 31u32,
    ;
    lemma_shl_is_mul_mod(a, s);
    lemma_shl_is_mul_mod(a, shamt);
    lemma_u32_shr_is_div(a, s);
    lemma_u32_shr_is_div(a, shamt);
    lemma_sra_is_floor_div(a, s);
    lemma_sra_is_floor_div(a, shamt);
}

/// An arithmetic right shift by `s < 32` divides the signed word by 2^s,
/// rounding down.
proof fn lemma_sra_is_floor_div(a: u32, s: u32)
    requires
        s < 32,
    ensures
        ((((a as i32) >> s) as u32) as i32) as int == (a as i32) as int / pow2(s as nat) as int,
{
    let r = ((a as i32) >> s) as u32;
    lemma_pow2_pos(s as nat);
    let d = pow2(s as nat) as int;
    assert((r as i32) == ((a as i32) >> s)) by (bit_vector)
        requires
            r == ((a as i32) >> s) as u32,
    ;
    if a >> 31 == 0 {
        assert(r == a >> s && (a as i32) as int == a as int && (r as i32) as int == r as int)
            by (bit_vector)
            requires
                r == ((a as i32) >> s) as u32,
                a >> 31u32 == 0,
                s < 32,
        ;
        lemma_u32_shr_is_div(a, s);
    } else {
        assert(a >> 31u32 != 0 ==> a >> 31u32 == 1) by (bit_vector);
        let na = !a;
        let nr = !r;
        assert(nr == na >> s && (a as i32) as int == -(na as int) - 1 && (r as i32) as int == -(
        nr as int) - 1) by (bit_vector)
            requires
                r == ((a as i32) >> s) as u32,
                na == !a,
                nr == !r,
                a >> 31u32 == 1,
                s < 32,
        ;
        lemma_u32_shr_is_div(na, s);
        let q = na as int / d;
        let rem = na as int % d;
        vstd::arithmetic::div_mod::lemma_fundamental_div_mod(na as int, d);
        assert(0 <= rem < d);
        assert((a as i32) as int == (-q - 1) * d + (d - rem - 1)) by (nonlinear_arith)
            requires
                (a as i32) as int == -(na as int) - 1,
                na as int == d * q + rem,
        ;
        vstd::arithmetic::div_mod::lemma_fundamental_div_mod_converse(
            (a as i32) as int,
            d,
            -q - 1,
            d - rem - 1,
        );
    }
}

// ----------------------------------------------------------------------------
// Caches
// ----------------------------------------------------------------------------

/// Two addresses fall in the same set under the same tag exactly when they
/// lie in the same line: set index and tag together are the line number.
pub proof fn law_index_and_tag_name_the_line(c: CacheModel, a: u32, b: u32)
    requires
        c.can_access(),
    ensures
        (c.set_index(a) == c.set_index(b) && c.tag(a) == c.tag(b)) <==> (a >> c.line_bits == b
            >> c.line_bits),
{
    let lb = c.line_bits;
    let sb = c.set_bits;
    assert(1 <= sb && lb + sb < 32 ==> ((((a >> lb) & (0xFFFF_FFFFu32 >> ((32 - sb) as u32))) == ((
    b >> lb) & (0xFFFF_FFFFu32 >> ((32 - sb) as u32))) && (a >> ((lb + sb) as u32)) == (b >> ((lb
        + sb) as u32))) <==> (a >> lb == b >> lb))) by (bit_vector);
}

/// Using a way moves it to the most recently used end of the order and keeps
/// the other ways in the order in which they were last used.
pub proof fn law_use_keeps_order_of_others(order: Seq<usize>, n: nat, w: usize, i: int, j: int)
    requires
        crate::mem::is_order(order, n),
        (w as nat) < n,
        0 <= i < j < n - 1,
    ensures
        touch(order, w).len() == n,
        touch(order, w)[n - 1] == w,
        exists|p: int, q: int|
            0 <= p < q < n && order[p] == #[trigger] touch(order, w)[i] && order[q]
                == #[trigger] touch(order, w)[j],
{
    crate::mem::lemma_touch(order, n, w);
    assert(order.contains(w));
    let k = choose|p: int| 0 <= p < order.len() && order[p] == w;
    assert forall|x: int| 0 <= x < k implies order[x] != w by {
        assert(order[x] != order[k]);
    }
    crate::mem::lemma_first_index(order, w, k);
    let t = touch(order, w);
    let p = if i < k { i } else { i + 1 };
    let q = if j < k { j } else { j + 1 };
    assert(t[i] == order.remove(k)[i]);
    assert(t[j] == order.remove(k)[j]);
    assert(order[p] == t[i] && order[q] == t[j]);
}

/// After a hit, the tag that hit is held by the most recently used way, so
/// with two or more ways it survives the next access to its set, hit or miss.
pub proof fn law_set_hit_survives_next_access(s: SetModel, t: u32, u: u32)
    requires
        s.wf(),
        s.ways.len() >= 2,
        s.holds(t),
    ensures
        s.access(t).1,
        s.access(t).0.access(u).0.holds(t),
{
    s.lemma_access(t);
    let s1 = s.access(t).0;
    let w = first_index(s.ways, Some(t));
    let k = choose|k: int| 0 <= k < s.ways.len() && s.ways[k] == Some(t);
    assert forall|j: int| 0 <= j < k implies s.ways[j] != Some(t) by {
        if s.ways[j] == Some(t) {
            assert(s.ways[j] == s.ways[k]);
        }
    }
    crate::mem::lemma_first_index(s.ways, Some(t), k);
    crate::mem::lemma_touch(s.lru, s.ways.len(), w as usize);
    assert(s1.lru == touch(s.lru, w as usize));
    assert(s1.ways == s.ways);
    if !s1.holds(u) {
        let n = s1.lru.len();
        assert(s1.lru[n - 1] == w as usize);
        assert(s1.lru[0] != s1.lru[n - 1]);
        let s2 = s1.access(u).0;
        assert(s2.ways[w] == Some(t));
    }
}

/// A miss fills the least recently used way and leaves it least recently
/// used: a second miss in the same set replaces the tag that the first one
/// brought in.
pub proof fn law_set_second_miss_replaces_first(s: SetModel, t: u32, u: u32)
    requires
        s.wf(),
        s.ways.len() > 0,
        !s.holds(t),
        !s.access(t).0.holds(u),
    ensures
        !s.access(t).1,
        !s.access(t).0.access(u).1,
        !s.access(t).0.access(u).0.holds(t),
{
    s.lemma_access(t);
    let s1 = s.access(t).0;
    s1.lemma_access(u);
    let s2 = s1.access(u).0;
    let w = s.lru[0] as int;
    assert(s.lru.contains(0usize));
    assert(0 <= w < s.ways.len());
    assert(s1.lru == s.lru);
    assert(s2.ways[w] == Some(u));
    assert(s1.ways[w] == Some(t));
    if s2.holds(t) {
        let k = choose|k: int| 0 <= k < s2.ways.len() && s2.ways[k] == Some(t);
        assert(k != w);
        assert(s1.ways[k] == Some(t));
        assert(s1.ways[k] == s1.ways[w]);
    }
}

/// An access hits exactly when its line is held, and leaves it held. A hit
/// changes no line that the cache holds; a miss brings in no line but the
/// one accessed.
pub proof fn law_access_brings_only_its_line(c: CacheModel, a: u32, b: u32)
    requires
        c.wf(),
        c.can_access(),
    ensures
        c.access(a).1 == c.holds(a),
        c.access(a).0.holds(a),
        c.holds(a) ==> (c.access(a).0.holds(b) == c.holds(b)),
        c.access(a).0.holds(b) ==> (c.holds(b) || a >> c.line_bits == b >> c.line_bits),
{
    c.lemma_access(a);
    c.lemma_set_index(a);
    c.lemma_set_index(b);
    law_index_and_tag_name_the_line(c, a, b);
    let c1 = c.access(a).0;
    let i = c.set_index(a);
    let j = c.set_index(b);
    assert(c1.set_index(b) == j && c1.tag(b) == c.tag(b));
    if j != i {
        assert(c1.sets[j] == c.sets[j]);
    } else {
        let s = c.sets[i];
        let s1 = c1.sets[i];
        if c.holds(a) {
            assert(s1.ways == s.ways);
        } else if s1.holds(c.tag(b)) && !s.holds(c.tag(b)) {
            let k = choose|k: int| 0 <= k < s1.ways.len() && s1.ways[k] == Some(c.tag(b));
            assert(s.lru.contains(0usize));
            if k != s.lru[0] as int {
                assert(s.ways[k] == Some(c.tag(b)));
            }
        }
    }
}

/// With two or more ways in each set, a line that has just hit is still held
/// after the next access, to whatever address.
pub proof fn law_hit_survives_next_access(c: CacheModel, a: u32, b: u32)
    requires
        c.wf(),
        c.can_access(),
        forall|i: int| 0 <= i < c.sets.len() ==> (#[trigger] c.sets[i]).ways.len() >= 2,
        c.holds(a),
    ensures
        c.access(a).1,
        c.access(a).0.access(b).0.holds(a),
{
    c.lemma_access(a);
    c.lemma_set_index(a);
    let c1 = c.access(a).0;
    c1.lemma_access(b);
    c1.lemma_set_index(b);
    let i = c.set_index(a);
    assert(c1.set_index(a) == i && c1.tag(a) == c.tag(a));
    if c1.set_index(b) == i {
        law_set_hit_survives_next_access(c.sets[i], c.tag(a), c.tag(b));
        assert(c1.sets[i] == c.sets[i].access(c.tag(a)).0);
        assert(c1.tag(b) == c.tag(b));
    } else {
        assert(c1.access(b).0.sets[i] == c1.sets[i]);
    }
}

/// The set mask keeps the low `set_bits` bits.
proof fn lemma_set_mask(sb: u32)
    requires
        1 <= sb < 32,
    ensures
        crate::mem::set_mask(sb) as nat == pow2(sb as nat) - 1,
{
    let k = (32 - sb) as u32;
    lemma_u32_shr_is_div(0xFFFF_FFFFu32, k);
    vstd::arithmetic::power2::lemma_pow2_adds(sb as nat, k as nat);
    vstd::arithmetic::power2::lemma2_to64();
    lemma_pow2_pos(k as nat);
    lemma_pow2_pos(sb as nat);
    let p: int = pow2(sb as nat) as int;
    let q: int = pow2(k as nat) as int;
    assert(p * q == 0x1_0000_0000);
    assert((p * q - 1) / q == p - 1) by (nonlinear_arith)
        requires
            q > 0,
            p > 0,
    ;
}

/// A cache built from a configuration whose line size and number of sets are
/// powers of two holds nothing; an address goes to set `(a / l1_line_size) %
/// num_sets`, and two addresses share a set and a tag exactly when they lie
/// in the same `l1_line_size`-byte line of memory.
pub proof fn law_fresh_cache(config: MemConfig, a: u32, b: u32)
    requires
        config.geometry_ok(),
        pow2(log2(config.l1_line_size as nat)) == config.l1_line_size,
        pow2(log2(config.num_sets())) == config.num_sets(),
        CacheModel::fresh(
            config.num_sets(),
            config.l1_associativity as nat,
            log2(config.l1_line_size as nat) as u32,
            log2(config.num_sets()) as u32,
        ).can_access(),
    ensures
        ({
            let c = CacheModel::fresh(
                config.num_sets(),
                config.l1_associativity as nat,
                log2(config.l1_line_size as nat) as u32,
                log2(config.num_sets()) as u32,
            );
            &&& !c.holds(a)
            &&& c.set_index(a) == (a as int / config.l1_line_size as int) % config.num_sets() as int
            &&& (c.set_index(a) == c.set_index(b) && c.tag(a) == c.tag(b)) <==> a as int
                / config.l1_line_size as int == b as int / config.l1_line_size as int
        }),
{
    let c = CacheModel::fresh(
        config.num_sets(),
        config.l1_associativity as nat,
        log2(config.l1_line_size as nat) as u32,
        log2(config.num_sets()) as u32,
    );
    let lb = c.line_bits;
    vstd::arithmetic::power2::lemma2_to64_rest();
    crate::mem::lemma_log2_lt(config.l1_line_size as nat, 64);
    assert(lb as nat == log2(config.l1_line_size as nat));
    lemma_u32_shr_is_div(a, lb);
    lemma_u32_shr_is_div(b, lb);
    law_index_and_tag_name_the_line(c, a, b);
    assert(config.num_sets() > 0) by (nonlinear_arith)
        requires
            config.l1_size > 0,
            config.l1_associativity > 0,
            config.l1_line_size > 0,
            config.l1_size as int % (config.l1_associativity * config.l1_line_size) == 0,
            config.num_sets() == (config.l1_size as int / (config.l1_associativity
                * config.l1_line_size)) as nat,
    ;
    crate::mem::lemma_pow2_log2(config.num_sets());
    assert(config.l1_associativity * config.l1_line_size >= 1) by (nonlinear_arith)
        requires
            config.l1_associativity > 0,
            config.l1_line_size > 0,
    ;
    assert(config.num_sets() <= config.l1_size) by (nonlinear_arith)
        requires
            config.l1_associativity * config.l1_line_size >= 1,
            config.num_sets() == (config.l1_size as int / (config.l1_associativity
                * config.l1_line_size)) as nat,
    ;
    crate::mem::lemma_log2_lt(config.num_sets(), 64);
    CacheModel::lemma_fresh_wf(
        config.num_sets(),
        config.l1_associativity as nat,
        lb,
        c.set_bits,
    );
    c.lemma_set_index(a);
    let sb = c.set_bits;
    lemma_set_mask(sb);
    vstd::bits::lemma_u32_low_bits_mask_is_mod(a >> lb, sb as nat);
    vstd::bits::lemma_u32_pow2_no_overflow(sb as nat);
    assert(crate::mem::set_mask(sb) == vstd::bits::low_bits_mask(sb as nat) as u32);
    let e = c.sets[c.set_index(a)];
    assert(e == SetModel::empty(config.l1_associativity as nat));
    if e.ways.contains(Some(c.tag(a))) {
        let k = choose|k: int| 0 <= k < e.ways.len() && e.ways[k] == Some(c.tag(a));
        assert(e.ways[k] is None);
    }
}

/// Memory as the core starts: `mem_size` bytes, the firmware from address 0
/// and zeros after it; both caches alike, the data cache's latencies and the
/// instruction cache's miss penalty as configured.
pub proof fn law_initial_memory(init: Seq<u8>, config: MemConfig, i: int)
    requires
        init.len() <= config.mem_size,
        0 <= i < config.mem_size,
    ensures
        ({
            let m = crate::mem::MemModel::initial(init, config);
            &&& m.data.len() == config.mem_size
            &&& i < init.len() ==> m.data[i] == init[i]
            &&& i >= init.len() ==> m.data[i] == 0
            &&& m.icache == m.dcache
            &&& m.l1d_hit_cycles == config.l1d_hit_cycles
            &&& m.l1d_miss_cycles == config.l1d_miss_cycles
            &&& m.l1i_miss_cycles == config.l1i_miss_cycles
        }),
{
}

// ----------------------------------------------------------------------------
// Jumps
// ----------------------------------------------------------------------------

/// Register fields name one of the 32 registers.
proof fn lemma_rd_in_range(ins: u32)
    ensures
        rd_of(ins) < 32,
        rs1_of(ins) < 32,
{
    crate::decode::lemma_field_bounds(ins);
}

/// A word read as signed and back is itself.
proof fn lemma_signed_round_trip(x: i32)
    ensures
        (x as u32) as i32 == x,
{
    assert((x as u32) as i32 == x) by (bit_vector);
}

/// A jump-and-link-register that does not fault writes the link `pc + 4` of
/// the jump to `rd` (unless `rd` is `x0`), jumps to `rs1 + imm` (read before
/// the link is written, added as signed words), takes one cycle and leaves
/// every other register, memory and the ports as they were.
pub proof fn law_jalr(m: CoreModel, ins: u32)
    requires
        m.wf(),
        m.execute(ins, Op::Jalr) is Ok,
    ensures
        (m.execute(ins, Op::Jalr)->Ok_0).1,
        rd_of(ins) != 0 ==> (m.execute(ins, Op::Jalr)->Ok_0).0.reg(rd_of(ins)) == m.pc + 4,
        ((m.execute(ins, Op::Jalr)->Ok_0).0.pc as i32) as int == (m.reg(rs1_of(ins)) as i32) as int
            + (imm_i(ins) as i32) as int,
        (m.execute(ins, Op::Jalr)->Ok_0).0.cycles == m.cycles + 1,
        forall|i: u32|
            i < 32 && i != rd_of(ins) ==> #[trigger] (m.execute(ins, Op::Jalr)->Ok_0).0.reg(i)
                == m.reg(i),
        (m.execute(ins, Op::Jalr)->Ok_0).0.mem == m.mem,
        (m.execute(ins, Op::Jalr)->Ok_0).0.mmio == m.mmio,
{
    lemma_rd_in_range(ins);
    let s = (m.reg(rs1_of(ins)) as i32) as int + (imm_i(ins) as i32) as int;
    lemma_signed_round_trip(s as i32);
    let r = (m.execute(ins, Op::Jalr)->Ok_0).0;
    let m1 = m.tick(1)->Ok_0;
    assert(r == m1.set_reg(rd_of(ins), (m.pc + 4) as u32).with_pc(((s as i32) as u32)));
    assert((s as i32) as int == s);
}

/// A jump-and-link that does not fault writes the link `pc + 4` to `rd`
/// (unless `rd` is `x0`) and takes one cycle; it goes on at `pc + imm` (added
/// as signed words), or, where that is `pc` itself, halts there.
pub proof fn law_jal(m: CoreModel, ins: u32)
    requires
        m.wf(),
        m.execute(ins, Op::Jal) is Ok,
    ensures
        rd_of(ins) != 0 ==> (m.execute(ins, Op::Jal)->Ok_0).0.reg(rd_of(ins)) == m.pc + 4,
        (m.execute(ins, Op::Jal)->Ok_0).1 <==> (imm_j(ins) as i32) != 0,
        ((m.execute(ins, Op::Jal)->Ok_0).0.pc as i32) as int == (m.pc as i32) as int + (imm_j(
            ins,
        ) as i32) as int,
        (m.execute(ins, Op::Jal)->Ok_0).0.cycles == m.cycles + 1,
        forall|i: u32|
            i < 32 && i != rd_of(ins) ==> #[trigger] (m.execute(ins, Op::Jal)->Ok_0).0.reg(i)
                == m.reg(i),
        (m.execute(ins, Op::Jal)->Ok_0).0.mem == m.mem,
        (m.execute(ins, Op::Jal)->Ok_0).0.mmio == m.mmio,
{
    lemma_rd_in_range(ins);
    let s = (m.pc as i32) as int + (imm_j(ins) as i32) as int;
    lemma_signed_round_trip(s as i32);
    lemma_signed_round_trip(s as i32);
    let pc = m.pc;
    assert((pc as i32) as u32 == pc) by (bit_vector);
    assert((s as i32) as int == s);
}

// ----------------------------------------------------------------------------
// Register instructions and branches
// ----------------------------------------------------------------------------

/// The value that a register instruction writes to `rd`.
pub open spec fn register_result(m: CoreModel, ins: u32, op: Op) -> u32 {
    match op {
        Op::Op => alu_reg(funct3_of(ins), funct7_of(ins), m.reg(rs1_of(ins)), m.reg(rs2_of(ins))),
        Op::OpImm => alu_imm(funct3_of(ins), funct7_of(ins), rs2_of(ins), m.reg(rs1_of(ins)), imm_i(ins)),
        Op::Lui => imm_u(ins),
        _ => (imm_u(ins) + m.pc) as u32,
    }
}

/// A register-register, register-immediate, LUI or AUIPC instruction that
/// does not fault writes its result (from the operand registers as they were)
/// to `rd`, and only there; a fence writes nothing. Each takes one cycle, goes
/// on to `pc + 4` and leaves memory and the ports alone. AUIPC adds `pc` to
/// its immediate without wrapping.
pub proof fn law_register_instructions(m: CoreModel, ins: u32, op: Op)
    requires
        m.wf(),
        op == Op::Op || op == Op::OpImm || op == Op::Lui || op == Op::Auipc || op == Op::MiscMem,
        m.execute(ins, op) is Ok,
    ensures
        (m.execute(ins, op)->Ok_0).1,
        (m.execute(ins, op)->Ok_0).0.pc == m.pc + 4,
        (m.execute(ins, op)->Ok_0).0.cycles == m.cycles + 1,
        (m.execute(ins, op)->Ok_0).0.mem == m.mem,
        (m.execute(ins, op)->Ok_0).0.mmio == m.mmio,
        op != Op::MiscMem && rd_of(ins) != 0 ==> (m.execute(ins, op)->Ok_0).0.reg(rd_of(ins))
            == register_result(m, ins, op),
        op == Op::Auipc ==> imm_u(ins) + m.pc <= u32::MAX,
        forall|i: u32|
            i < 32 && (i != rd_of(ins) || op == Op::MiscMem) ==> #[trigger] (m.execute(
                ins,
                op,
            )->Ok_0).0.reg(i) == m.reg(i),
{
    lemma_rd_in_range(ins);
}

/// Whether a branch with a defined condition is taken, by condition code.
pub open spec fn branch_condition_holds(f3: u32, a: u32, b: u32) -> bool {
    if f3 == 0 {
        a == b
    } else if f3 == 1 {
        a != b
    } else if f3 == 4 {
        (a as i32) < (b as i32)
    } else if f3 == 5 {
        !((a as i32) < (b as i32))
    } else if f3 == 6 {
        a < b
    } else {
        !(a < b)
    }
}

/// A branch with one of the two undefined condition codes faults; one that
/// does not fault goes to `pc + offset` (as signed words) when its condition
/// holds and to `pc + 4` otherwise, taking no cycle and changing no register,
/// memory or port.
pub proof fn law_branch(m: CoreModel, ins: u32)
    requires
        m.wf(),
    ensures
        funct3_of(ins) == 2 || funct3_of(ins) == 3 ==> m.execute(ins, Op::Branch) == Err::<
            (CoreModel, bool),
            Fault,
        >(Fault::InvalidBranchCondition(funct3_of(ins))),
        m.execute(ins, Op::Branch) is Ok ==> {
            let r = (m.execute(ins, Op::Branch)->Ok_0).0;
            &&& (m.execute(ins, Op::Branch)->Ok_0).1
            &&& branch_condition_holds(funct3_of(ins), m.reg(rs1_of(ins)), m.reg(rs2_of(ins)))
                ==> (r.pc as i32) as int == (m.pc as i32) as int + (imm_b(ins) as i32) as int
            &&& !branch_condition_holds(funct3_of(ins), m.reg(rs1_of(ins)), m.reg(rs2_of(ins)))
                ==> r.pc == m.pc + 4
            &&& r.cycles == m.cycles
            &&& r.regs == m.regs
            &&& r.mem == m.mem
            &&& r.mmio == m.mmio
        },
{
    let s = (m.pc as i32) as int + (imm_b(ins) as i32) as int;
    lemma_signed_round_trip(s as i32);
    if i32::MIN <= s <= i32::MAX {
        assert((s as i32) as int == s);
    }
    crate::decode::lemma_field_bounds(ins);
}

// ----------------------------------------------------------------------------
// Loads
// ----------------------------------------------------------------------------

/// A load is refused as misaligned only where it is: a half-word load at an
/// odd address, or a word load at an address that is not a multiple of four.
pub proof fn law_load_misaligned_only_when_so(m: CoreModel, ins: u32)
    ensures
        m.execute(ins, Op::Load) == Err::<(CoreModel, bool), Fault>(Fault::MisalignedHalfWordLoad)
            ==> funct3_of(ins) & 3 == 1 && (offset_target(m.reg(rs1_of(ins)), imm_i(ins)) matches Some(
            a) && a % 2 == 1),
        m.execute(ins, Op::Load) == Err::<(CoreModel, bool), Fault>(Fault::MisalignedWordLoad)
            ==> funct3_of(ins) & 3 == 2 && (offset_target(m.reg(rs1_of(ins)), imm_i(ins)) matches Some(
            a) && a % 4 != 0),
{
    if let Some(a) = offset_target(m.reg(rs1_of(ins)), imm_i(ins)) {
        assert(((a & 3u32) & 1u32 != 0 ==> a % 2 == 1) && ((a & 3u32) != 0 ==> a % 4 != 0))
            by (bit_vector);
    }
}

/// The bytes of a little-endian word, and its halves.
proof fn lemma_word_parts(b0: u8, b1: u8, b2: u8, b3: u8)
    ensures
        ({
            let w = (b0 as u32) | ((b1 as u32) << 8u32) | ((b2 as u32) << 16u32) | ((b3 as u32)
                << 24u32);
            &&& ((w >> 0u32) & 0xFF) as u8 == b0
            &&& ((w >> 8u32) & 0xFF) as u8 == b1
            &&& ((w >> 16u32) & 0xFF) as u8 == b2
            &&& ((w >> 24u32) & 0xFF) as u8 == b3
            &&& (w >> 0u32) & 0xFFFF == (b0 as u32) | ((b1 as u32) << 8u32)
            &&& (w >> 16u32) & 0xFFFF == (b2 as u32) | ((b3 as u32) << 8u32)
        }),
{
    assert(({
        let w = (b0 as u32) | ((b1 as u32) << 8u32) | ((b2 as u32) << 16u32) | ((b3 as u32)
            << 24u32);
        &&& ((w >> 0u32) & 0xFF) as u8 == b0
        &&& ((w >> 8u32) & 0xFF) as u8 == b1
        &&& ((w >> 16u32) & 0xFF) as u8 == b2
        &&& ((w >> 24u32) & 0xFF) as u8 == b3
        &&& (w >> 0u32) & 0xFFFF == (b0 as u32) | ((b1 as u32) << 8u32)
        &&& (w >> 16u32) & 0xFFFF == (b2 as u32) | ((b3 as u32) << 8u32)
    })) by (bit_vector);
}

/// A load from memory (an address below `0x8000_0000`) that does not fault
/// puts in `rd` the bytes at the address, little-endian: all four for a word,
/// two for a half-word (zero-extended), one for a byte (sign-extended where
/// bit 2 of `funct3` is set, zero-extended otherwise). Memory is unchanged.
pub proof fn law_load_reads_memory(m: CoreModel, ins: u32, a: u32)
    requires
        m.wf(),
        m.execute(ins, Op::Load) is Ok,
        offset_target(m.reg(rs1_of(ins)), imm_i(ins)) == Some(a),
        a < 0x8000_0000,
        rd_of(ins) != 0,
    ensures
        ({
            let d = m.mem.data;
            let v = (m.execute(ins, Op::Load)->Ok_0).0.reg(rd_of(ins));
            let f3 = funct3_of(ins);
            &&& (m.execute(ins, Op::Load)->Ok_0).0.mem.data == d
            &&& f3 & 3 == 2 ==> v == (d[a as int] as u32) | ((d[a + 1] as u32) << 8u32) | ((d[a
                + 2] as u32) << 16u32) | ((d[a + 3] as u32) << 24u32)
            &&& f3 & 3 == 1 ==> v == (d[a as int] as u32) | ((d[a + 1] as u32) << 8u32)
            &&& f3 & 3 == 0 && f3 & 4 == 0 ==> v == d[a as int] as u32
            &&& f3 & 3 == 0 && f3 & 4 != 0 ==> v & 0xFF == d[a as int] as u32 && v >> 8u32 == (
            if d[a as int] >= 0x80 {
                0xFF_FFFFu32
            } else {
                0u32
            })
        }),
{
    lemma_rd_in_range(ins);
    let wa = word_addr(a);
    let sub = a & 3;
    assert(a < 0x8000_0000u32 ==> wa + sub == a && sub < 4 && (a & 0x8000_0000u32) == 0)
        by (bit_vector)
        requires
            wa == a & 0x7FFF_FFFCu32,
            sub == a & 3u32,
    ;
    let d = m.mem.data;
    let (m1, word) = m.load_word(a)->Ok_0;
    assert(word == le_word(d, wa as int));
    assert(m1.mem.data == d);
    lemma_word_parts(d[wa as int], d[wa + 1], d[wa + 2], d[wa + 3]);
    let f3 = funct3_of(ins);
    assert(f3 & 3u32 < 4 && (sub < 4 && sub & 1 == 0 ==> sub == 0 || sub == 2)) by (bit_vector);
    if f3 & 3 == 1 && sub & 1 == 0 {
        if sub == 0 {
            assert((sub * 8) as u32 == 0);
        } else {
            assert((sub * 8) as u32 == 16);
        }
    }
    let data = ((word >> (sub * 8) as u32) & 0xFF) as u8;
    assert(sext8_parts(data)) by {
        assert(((data as u32) | 0xFFFF_FF00u32) & 0xFF == data as u32 && ((data as u32)
            | 0xFFFF_FF00u32) >> 8u32 == 0xFF_FFFFu32 && (data as u32) & 0xFF == data as u32 && (
        data < 0x80 ==> (data as u32) >> 8u32 == 0)) by (bit_vector);
    }
}

spec fn sext8_parts(b: u8) -> bool {
    &&& crate::semantics::sext8(b) & 0xFF == b as u32
    &&& crate::semantics::sext8(b) >> 8u32 == if b >= 0x80 {
        0xFF_FFFFu32
    } else {
        0u32
    }
}

// ----------------------------------------------------------------------------
// Stores
// ----------------------------------------------------------------------------

/// Byte `k` of a word after a byte or half-word store at byte `sub` of it:
/// below the target the old byte; the target the stored register's bytes;
/// above the target the old byte with the register's higher bytes or-ed in.
pub open spec fn merged_byte(old: u8, v: u32, k: int, sub: int, width: int) -> u8 {
    if k < sub {
        old
    } else if k - sub < width {
        (v >> ((k - sub) * 8) as u32) as u8
    } else {
        old | ((v >> ((k - sub) * 8) as u32) as u8)
    }
}

proof fn lemma_merge(b0: u8, b1: u8, b2: u8, b3: u8, v: u32, sub: u32, mask: u32)
    requires
        sub < 4,
        mask == 0xFF || mask == 0xFFFF,
    ensures
        ({
            let w = (b0 as u32) | ((b1 as u32) << 8u32) | ((b2 as u32) << 16u32) | ((b3 as u32)
                << 24u32);
            let sh = (sub * 8) as u32;
            let val = (w & !(mask << sh)) | (v << sh);
            let width: int = if mask == 0xFF {
                1
            } else {
                2
            };
            &&& val as u8 == merged_byte(b0, v, 0, sub as int, width)
            &&& (val >> 8u32) as u8 == merged_byte(b1, v, 1, sub as int, width)
            &&& (val >> 16u32) as u8 == merged_byte(b2, v, 2, sub as int, width)
            &&& (val >> 24u32) as u8 == merged_byte(b3, v, 3, sub as int, width)
        }),
{
    let w = (b0 as u32) | ((b1 as u32) << 8u32) | ((b2 as u32) << 16u32) | ((b3 as u32) << 24u32);
    let sh = (sub * 8) as u32;
    let val = (w & !(mask << sh)) | (v << sh);
    let width: int = if mask == 0xFF { 1 } else { 2 };
    if sub == 0 {
        assert(sh == 0u32);
        assert(val as u8 == (v >> 0u32) as u8 && (val >> 8u32) as u8 == (if mask == 0xFF { b1 | ((v >> 8u32) as u8) } else { (v >> 8u32) as u8 })
            && (val >> 16u32) as u8 == (b2 | ((v >> 16u32) as u8)) && (val >> 24u32) as u8 == (b3 | ((v >> 24u32) as u8))) by (bit_vector)
            requires
                w == (b0 as u32) | ((b1 as u32) << 8u32) | ((b2 as u32) << 16u32) | ((b3 as u32) << 24u32),
                val == (w & !(mask << 0u32)) | (v << 0u32),
                mask == 0xFFu32 || mask == 0xFFFFu32,
        ;
    } else if sub == 1 {
        assert(sh == 8u32);
        assert(val as u8 == b0 && (val >> 8u32) as u8 == (v >> 0u32) as u8 && (val >> 16u32) as u8 == (if mask == 0xFF { b2 | ((v >> 8u32) as u8) } else { (v >> 8u32) as u8 })
            && (val >> 24u32) as u8 == (b3 | ((v >> 16u32) as u8))) by (bit_vector)
            requires
                w == (b0 as u32) | ((b1 as u32) << 8u32) | ((b2 as u32) << 16u32) | ((b3 as u32) << 24u32),
                val == (w & !(mask << 8u32)) | (v << 8u32),
                mask == 0xFFu32 || mask == 0xFFFFu32,
        ;
    } else if sub == 2 {
        assert(sh == 16u32);
        assert(val as u8 == b0 && (val >> 8u32) as u8 == b1 && (val >> 16u32) as u8 == (v >> 0u32) as u8
            && (val >> 24u32) as u8 == (if mask == 0xFF { b3 | ((v >> 8u32) as u8) } else { (v >> 8u32) as u8 })) by (bit_vector)
            requires
                w == (b0 as u32) | ((b1 as u32) << 8u32) | ((b2 as u32) << 16u32) | ((b3 as u32) << 24u32),
                val == (w & !(mask << 16u32)) | (v << 16u32),
                mask == 0xFFu32 || mask == 0xFFFFu32,
        ;
    } else {
        assert(sh == 24u32);
        assert(val as u8 == b0 && (val >> 8u32) as u8 == b1 && (val >> 16u32) as u8 == b2
            && (val >> 24u32) as u8 == (v >> 0u32) as u8) by (bit_vector)
            requires
                w == (b0 as u32) | ((b1 as u32) << 8u32) | ((b2 as u32) << 16u32) | ((b3 as u32) << 24u32),
                val == (w & !(mask << 24u32)) | (v << 24u32),
                mask == 0xFFu32 || mask == 0xFFFFu32,
        ;
    }
}

/// A store to memory (an address below `0x8000_0000`) that does not fault
/// changes only the word that holds the address. A word store writes the
/// register's four bytes, little-endian, over that word (at the address
/// rounded down to a multiple of four). A byte or half-word store writes the
/// register's low byte or two bytes at the address, keeps the bytes of the
/// word below it, and or-s the register's higher bytes into the bytes of the
/// word above it.
pub proof fn law_store_writes_memory(m: CoreModel, ins: u32, a: u32)
    requires
        m.wf(),
        m.execute(ins, Op::Store) is Ok,
        offset_target(m.reg(rs1_of(ins)), imm_s(ins)) == Some(a),
        a < 0x8000_0000,
    ensures
        ({
            let d = m.mem.data;
            let d2 = (m.execute(ins, Op::Store)->Ok_0).0.mem.data;
            let v = m.reg(rs2_of(ins));
            let size = funct3_of(ins) & 3;
            let wa = a - a % 4;
            &&& d2.len() == d.len()
            &&& forall|i: int| 0 <= i < d.len() && !(wa <= i < wa + 4) ==> #[trigger] d2[i] == d[i]
            &&& size == 2 ==> forall|j: int| 0 <= j < 4 ==> #[trigger] d2[wa + j] == (v >> (j * 8) as u32) as u8
            &&& size == 0 ==> forall|k: int| 0 <= k < 4 ==> #[trigger] d2[wa + k] == merged_byte(d[wa + k], v, k, (a % 4) as int, 1)
            &&& size == 1 ==> forall|k: int| 0 <= k < 4 ==> #[trigger] d2[wa + k] == merged_byte(d[wa + k], v, k, (a % 4) as int, 2)
            &&& (m.execute(ins, Op::Store)->Ok_0).0.regs == m.regs
        }),
{
    let wa = word_addr(a);
    let sub = a & 3;
    assert(a < 0x8000_0000u32 ==> wa + sub == a && sub < 4 && sub == a % 4 && !crate::semantics::is_port(a))
        by (bit_vector)
        requires
            wa == a & 0x7FFF_FFFCu32,
            sub == a & 3u32,
    ;
    let d = m.mem.data;
    let v = m.reg(rs2_of(ins));
    let size = funct3_of(ins) & 3;
    assert(size < 4) by (bit_vector)
        requires
            size == funct3_of(ins) & 3u32,
    ;
    let r = (m.execute(ins, Op::Store)->Ok_0).0;
    if size == 2 {
        let m1 = m.store_word(a, v)->Ok_0;
        assert(m1.mem.data == put_word(d, wa as int, v));
        assert(r.mem.data == m1.mem.data);
        assert(forall|j: int| 0 <= j < 4 ==> #[trigger] r.mem.data[wa + j] == (v >> (j * 8) as u32) as u8) by {
            assert((v >> 0u32) == v) by (bit_vector);
        }
    } else {
        let (m1, orig) = m.load_word(a)->Ok_0;
        assert(m1.mem.data == d);
        assert(orig == le_word(d, wa as int));
        let mask: u32 = if size == 0 { 0xFF } else { 0xFFFF };
        let shift = ((a & 3) * 8) as u32;
        assert(shift == sub * 8);
        let val = (orig & !(mask << shift)) | (v << shift);
        let m2 = m1.store_word(a, val)->Ok_0;
        assert(m2.mem.data == put_word(d, wa as int, val));
        assert(r.mem.data == m2.mem.data);
        lemma_merge(d[wa as int], d[wa + 1], d[wa + 2], d[wa + 3], v, sub, mask);
        assert(forall|k: int| 0 <= k < 4 ==> #[trigger] r.mem.data[wa + k] == merged_byte(
            d[wa + k], v, k, sub as int, if mask == 0xFF { 1int } else { 2int })) by {
            assert(r.mem.data[wa + 0] == val as u8);
        }
    }
}

// ----------------------------------------------------------------------------
// Instruction fields
// ----------------------------------------------------------------------------

/// The value of the sign bit (`inst[31]`) repeated over `width` bits.
pub open spec fn sign_run(inst: u32, width: u32) -> u32 {
    if inst >= 0x8000_0000 {
        (0xFFFF_FFFFu32 >> ((32 - width) as u32))
    } else {
        0
    }
}

/// The fields of an instruction word are its bit ranges: opcode `[6:0]`, rd
/// `[11:7]`, funct3 `[14:12]`, rs1 `[19:15]`, rs2 `[24:20]` and funct7
/// `[31:25]`.
pub proof fn law_register_fields(inst: u32)
    ensures
        opcode_of(inst) == inst % 128,
        rd_of(inst) == (inst / 128) % 32,
        funct3_of(inst) == (inst / 4096) % 8,
        rs1_of(inst) == (inst / 32768) % 32,
        rs2_of(inst) == (inst / 0x10_0000) % 32,
        funct7_of(inst) == inst / 0x200_0000,
{
    assert(inst & 0x7F == inst % 128 && (inst >> 7) & 0x1F == (inst / 128) % 32 && (inst >> 12)
        & 0x7 == (inst / 4096) % 8 && (inst >> 15) & 0x1F == (inst / 32768) % 32 && (inst >> 20)
        & 0x1F == (inst / 0x10_0000) % 32 && inst >> 25 == inst / 0x200_0000) by (bit_vector);
}

/// Where each bit of each immediate comes from in the instruction word.
/// I: `[11:0]` from `inst[31:20]`. S: `[4:0]` from `inst[11:7]`, `[11:5]`
/// from `inst[31:25]`. B: `[0]` zero, `[4:1]` from `inst[11:8]`, `[10:5]`
/// from `inst[30:25]`, `[11]` from `inst[7]`. U: `[31:12]` from
/// `inst[31:12]`, `[11:0]` zero. J: `[0]` zero, `[10:1]` from `inst[30:21]`,
/// `[11]` from `inst[20]`, `[19:12]` from `inst[19:12]`. The bits above each
/// field (from 12 up for I, S and B, from 20 up for J) copy the sign bit.
pub proof fn law_immediate_fields(inst: u32)
    ensures
        imm_i(inst) % 0x1000 == inst / 0x10_0000,
        imm_i(inst) / 0x1000 == sign_run(inst, 20),
        imm_s(inst) % 32 == (inst / 128) % 32,
        (imm_s(inst) / 32) % 128 == inst / 0x200_0000,
        imm_s(inst) / 0x1000 == sign_run(inst, 20),
        imm_b(inst) % 2 == 0,
        (imm_b(inst) / 2) % 16 == (inst / 256) % 16,
        (imm_b(inst) / 32) % 64 == (inst / 0x200_0000) % 64,
        (imm_b(inst) / 2048) % 2 == (inst / 128) % 2,
        imm_b(inst) / 0x1000 == sign_run(inst, 20),
        imm_u(inst) % 0x1000 == 0,
        imm_u(inst) / 0x1000 == inst / 0x1000,
        imm_j(inst) % 2 == 0,
        (imm_j(inst) / 2) % 1024 == (inst / 0x20_0000) % 1024,
        (imm_j(inst) / 2048) % 2 == (inst / 0x10_0000) % 2,
        (imm_j(inst) / 0x1000) % 256 == (inst / 0x1000) % 256,
        imm_j(inst) / 0x10_0000 == sign_run(inst, 12),
{
    let s20 = sign_run(inst, 20);
    let s12 = sign_run(inst, 12);
    let i = imm_i(inst);
    let si = imm_s(inst);
    let b = imm_b(inst);
    let u = imm_u(inst);
    let j = imm_j(inst);
    assert(i % 0x1000 == inst / 0x10_0000 && i / 0x1000 == s20 && si % 32 == (inst / 128) % 32 && (
    si / 32) % 128 == inst / 0x200_0000 && si / 0x1000 == s20 && b % 2 == 0 && (b / 2) % 16 == (
    inst / 256) % 16 && (b / 32) % 64 == (inst / 0x200_0000) % 64 && (b / 2048) % 2 == (inst / 128)
        % 2 && b / 0x1000 == s20 && u % 0x1000 == 0 && u / 0x1000 == inst / 0x1000 && j % 2 == 0
        && (j / 2) % 1024 == (inst / 0x20_0000) % 1024 && (j / 2048) % 2 == (inst / 0x10_0000) % 2
        && (j / 0x1000) % 256 == (inst / 0x1000) % 256 && j / 0x10_0000 == s12) by (bit_vector)
        requires
            s20 == (if inst >= 0x8000_0000u32 { (0xFFFF_FFFFu32 >> 12u32) } else { 0u32 }),
            s12 == (if inst >= 0x8000_0000u32 { (0xFFFF_FFFFu32 >> 20u32) } else { 0u32 }),
            i == (if inst >> 31 == 1u32 { 0xFFFF_F000u32 } else { 0u32 }) | (inst >> 20),
            si == (if inst >> 31 == 1u32 { 0xFFFF_F000u32 } else { 0u32 }) | ((inst >> 25) << 5)
                | ((inst >> 7) & 0x1F),
            b == (if inst >> 31 == 1u32 { 0xFFFF_F000u32 } else { 0u32 }) | (((inst >> 7) & 1)
                << 11) | (((inst >> 25) & 0x3F) << 5) | (((inst >> 8) & 0xF) << 1),
            u == inst & 0xFFFF_F000u32,
            j == (if inst >> 31 == 1u32 { 0xFFF0_0000u32 } else { 0u32 }) | (inst & 0x000F_F000u32)
                | (((inst >> 20) & 1) << 11) | (((inst >> 21) & 0x3FF) << 1),
    ;
}

// ----------------------------------------------------------------------------
// Fetch and cycle costs
// ----------------------------------------------------------------------------

/// A fetch that does not fault reads the four bytes at `pc`, little-endian,
/// and classes the word by its low seven bits. It costs nothing where the
/// instruction cache holds `pc` and the miss penalty otherwise, and changes
/// nothing but the instruction cache and the cycle count.
pub proof fn law_fetch(m: CoreModel)
    requires
        m.wf(),
        m.fetch() is Ok,
    ensures
        ({
            let (m1, ins, op) = m.fetch()->Ok_0;
            let d = m.mem.data;
            let p = m.pc as int;
            &&& ins as int == d[p] as int + 256 * d[p + 1] as int + 0x1_0000 * d[p + 2] as int
                + 0x100_0000 * d[p + 3] as int
            &&& crate::op::op_class(ins % 128) == Some(op)
            &&& m1.cycles == m.cycles + if m.mem.icache.holds(m.pc) {
                0
            } else {
                m.mem.l1i_miss_cycles
            }
            &&& m1.pc == m.pc
            &&& m1.regs == m.regs
            &&& m1.mmio == m.mmio
            &&& m1.mem.data == d
            &&& m1.mem.dcache == m.mem.dcache
            &&& m1.mem.icache.holds(m.pc)
        }),
{
    m.mem.icache.lemma_access(m.pc);
    let d = m.mem.data;
    let p = m.pc as int;
    lemma_le_word_value(d[p], d[p + 1], d[p + 2], d[p + 3]);
    law_register_fields(le_word(d, p));
}

/// A little-endian word is the sum of its bytes' place values.
proof fn lemma_le_word_value(b0: u8, b1: u8, b2: u8, b3: u8)
    ensures
        ((b0 as u32) | ((b1 as u32) << 8u32) | ((b2 as u32) << 16u32) | ((b3 as u32) << 24u32))
            as int == b0 as int + 256 * b1 as int + 0x1_0000 * b2 as int + 0x100_0000 * b3 as int,
{
    assert(((b0 as u32) | ((b1 as u32) << 8u32) | ((b2 as u32) << 16u32) | ((b3 as u32) << 24u32))
        == (b0 as u32) + 256 * (b1 as u32) + 0x1_0000 * (b2 as u32) + 0x100_0000 * (b3 as u32))
        by (bit_vector);
}

/// What a data access costs: one cycle at a port address (top bit set), and
/// at a memory address the data cache's hit or miss cycles, by whether it
/// holds the word that the address lies in.
pub open spec fn access_cost(m: CoreModel, a: u32) -> nat {
    if a >= 0x8000_0000 {
        1
    } else if m.mem.dcache.holds((a - a % 4) as u32) {
        m.mem.l1d_hit_cycles
    } else {
        m.mem.l1d_miss_cycles
    }
}

/// A load that does not fault costs one access, and one cycle more for a
/// byte or half-word. A word store costs one access; a byte or half-word
/// store reads the word first and then writes it back, so it costs one
/// access and then a second, which at a memory address always hits.
pub proof fn law_data_cycles(m: CoreModel, ins: u32, op: Op, a: u32)
    requires
        m.wf(),
        op == Op::Load || op == Op::Store,
        m.execute(ins, op) is Ok,
        op == Op::Load ==> offset_target(m.reg(rs1_of(ins)), imm_i(ins)) == Some(a),
        op == Op::Store ==> offset_target(m.reg(rs1_of(ins)), imm_s(ins)) == Some(a),
    ensures
        ({
            let c = (m.execute(ins, op)->Ok_0).0.cycles;
            let size = funct3_of(ins) & 3;
            &&& op == Op::Load && size == 2 ==> c == m.cycles + access_cost(m, a)
            &&& op == Op::Load && size != 2 ==> c == m.cycles + access_cost(m, a) + 1
            &&& op == Op::Store && size == 2 ==> c == m.cycles + access_cost(m, a)
            &&& op == Op::Store && size != 2 ==> c == m.cycles + access_cost(m, a) + if a
                >= 0x8000_0000 {
                1
            } else {
                m.mem.l1d_hit_cycles
            }
        }),
{
    let wa = word_addr(a);
    assert(wa == a & 0x7FFF_FFFCu32);
    assert((a < 0x8000_0000u32 ==> wa == a - a % 4) && ((a & 0x8000_0000u32 != 0) <==> a
        >= 0x8000_0000u32)) by (bit_vector)
        requires
            wa == a & 0x7FFF_FFFCu32,
    ;
    if a < 0x8000_0000 && m.load_word(a) is Ok {
        m.mem.dcache.lemma_access(wa);
        m.mem.dcache.lemma_access_then_hit(wa);
        let m1 = (m.load_word(a)->Ok_0).0;
        assert(m1.mem.dcache == m.mem.dcache.access(wa).0);
        assert(m1.mem.l1d_hit_cycles == m.mem.l1d_hit_cycles);
    }
}

/// Ports: an address with the top bit set selects port `(a / 4) % 16`. A
/// word load from it puts the value last received on that port in `rd`; a
/// word store to it sends the register, under the next transaction id, where
/// a device is attached, and is dropped otherwise. Neither touches memory,
/// the data cache or another port.
pub proof fn law_port_words(m: CoreModel, ins: u32, op: Op, a: u32)
    requires
        m.wf(),
        op == Op::Load || op == Op::Store,
        funct3_of(ins) & 3 == 2,
        m.execute(ins, op) is Ok,
        op == Op::Load ==> offset_target(m.reg(rs1_of(ins)), imm_i(ins)) == Some(a),
        op == Op::Store ==> offset_target(m.reg(rs1_of(ins)), imm_s(ins)) == Some(a),
        a >= 0x8000_0000,
    ensures
        ({
            let r = (m.execute(ins, op)->Ok_0).0;
            let p = (a / 4) % 16;
            let v = m.reg(rs2_of(ins));
            &&& r.mem == m.mem
            &&& r.mmio.port_data == m.mmio.port_data
            &&& r.mmio.attached == m.mmio.attached
            &&& p < m.mmio.port_data.len()
            &&& op == Op::Load ==> r.mmio == m.mmio
            &&& op == Op::Load && rd_of(ins) != 0 ==> r.reg(rd_of(ins)) == m.mmio.port_data[p as int]
            &&& op == Op::Store && m.mmio.attached[p as int] ==> r.mmio.outbox == m.mmio.outbox.push(
                (p as usize, v, m.mmio.next_tid as usize),
            ) && r.mmio.next_tid == m.mmio.next_tid + 1
            &&& op == Op::Store && !m.mmio.attached[p as int] ==> r.mmio == m.mmio
            &&& op == Op::Store ==> r.regs == m.regs
        }),
{
    lemma_rd_in_range(ins);
    assert((a >= 0x8000_0000u32 ==> crate::semantics::is_port(a)) && crate::semantics::port_index(
        a) as u32 == (a / 4) % 16) by (bit_vector);
}

// ----------------------------------------------------------------------------
// Column display
// ----------------------------------------------------------------------------

/// An update of the column display: without a column packet it only queues
/// the data packets and changes nothing shown. With column packets, every
/// column that one names shows the latest data pattern sent (the last one
/// queued, or the one shown last where none is queued), every other column
/// keeps its pattern, and the queue is emptied. It reports a change exactly
/// when some column's pattern differs.
pub proof fn law_display_update(
    d: crate::io::DisplayModel,
    data: Seq<(u32, usize)>,
    submits: Seq<(u32, usize)>,
    c: int,
)
    requires
        d.can_update(data, submits),
        0 <= c < d.columns.len(),
    ensures
        ({
            let (d2, changed) = d.update(data, submits);
            let q = d.queue + data;
            &&& d2.columns.len() == d.columns.len()
            &&& submits.len() == 0 ==> d2.columns == d.columns && !changed && d2.queue == q
            &&& submits.len() > 0 ==> d2.queue.len() == 0
            &&& (exists|k: int| 0 <= k < submits.len() && #[trigger] submits[k].0 == c)
                ==> d2.columns[c] == if q.len() > 0 {
                q[q.len() - 1].0
            } else {
                d.cur_data
            }
            &&& (forall|k: int| 0 <= k < submits.len() ==> #[trigger] submits[k].0 != c)
                ==> d2.columns[c] == d.columns[c]
            &&& changed <==> exists|j: int| 0 <= j < d.columns.len() && #[trigger] d2.columns[j]
                != d.columns[j]
        }),
{
    let (d2, changed) = d.update(data, submits);
    if submits.len() > 0 {
        if !(exists|j: int| 0 <= j < d.columns.len() && #[trigger] d2.columns[j] != d.columns[j]) {
            assert(d2.columns =~= d.columns);
        } else {
            let j = choose|j: int| 0 <= j < d.columns.len() && #[trigger] d2.columns[j]
                != d.columns[j];
            assert(d2.columns[j] != d.columns[j]);
        }
    }
}

/// Row `r` of the display, counted from the top, shows bit `31 - r` of each
/// column's pattern: the top row the highest bit, the bottom row the lowest.
pub proof fn law_pixel_rows(d: crate::io::DisplayModel, r: int, c: int)
    requires
        0 <= r < 32,
        0 <= c < d.columns.len(),
    ensures
        d.pixel(r, c) == ((d.columns[c] as int / pow2((31 - r) as nat) as int) % 2 == 1),
{
    let x = d.columns[c];
    let s = (31 - r) as u32;
    lemma_u32_shr_is_div(x, s);
    let y = x >> s;
    assert((y & 1 == 1) == (y % 2 == 1)) by (bit_vector);
}

// ----------------------------------------------------------------------------
// When a memory access succeeds
// ----------------------------------------------------------------------------

/// A load or store succeeds wherever nothing stops it: the address is
/// computed without overflow and lies, with the three bytes after it, in a
/// memory of at most 2^32 bytes; the width code is defined; the address is
/// aligned to the width for a load (stores need no alignment); the data cache
/// can be used; the cycle count has room for two accesses and one more cycle;
/// and `pc + 4` fits in a word.
pub proof fn law_memory_access_succeeds(m: CoreModel, ins: u32, op: Op, a: u32)
    requires
        m.wf(),
        op == Op::Load || op == Op::Store,
        op == Op::Load ==> offset_target(m.reg(rs1_of(ins)), imm_i(ins)) == Some(a),
        op == Op::Store ==> offset_target(m.reg(rs1_of(ins)), imm_s(ins)) == Some(a),
        a < 0x8000_0000,
        a + 3 < m.mem.data.len() <= u32::MAX,
        funct3_of(ins) & 3 != 3,
        op == Op::Load && funct3_of(ins) & 3 == 1 ==> a % 2 == 0,
        op == Op::Load && funct3_of(ins) & 3 == 2 ==> a % 4 == 0,
        m.mem.dcache.can_access(),
        m.cycles + 2 * m.mem.l1d_hit_cycles + m.mem.l1d_miss_cycles + 1 <= usize::MAX,
        m.pc + 4 <= u32::MAX,
    ensures
        m.execute(ins, op) is Ok,
{
    let wa = word_addr(a);
    let sub = a & 3;
    let size = funct3_of(ins) & 3;
    assert(a < 0x8000_0000u32 ==> wa + sub == a && sub < 4 && sub == a % 4 && (a
        & 0x8000_0000u32) == 0 && size < 4 && (a % 2 == 0 ==> sub & 1 == 0)) by (bit_vector)
        requires
            wa == a & 0x7FFF_FFFCu32,
            sub == a & 3u32,
            size == funct3_of(ins) & 3u32,
    ;
    assert(wa < (m.mem.data.len() as u32));
    m.mem.dcache.lemma_access(wa);
    m.mem.dcache.lemma_access_then_hit(wa);
    assert(!crate::semantics::is_port(a));
    assert(m.data_access(wa) is Ok);
    assert(m.load_word(a) is Ok);
    let m1 = (m.load_word(a)->Ok_0).0;
    assert(m1.cycles <= m.cycles + m.mem.l1d_hit_cycles + m.mem.l1d_miss_cycles);
    assert(m1.mem.dcache == m.mem.dcache.access(wa).0);
    assert(m1.pc == m.pc);
    if op == Op::Load {
        assert(m.execute(ins, op) == (match m.exec_load(ins) {
            Ok(x) => Ok((x, true)),
            Err(e) => Err(e),
        }));
        assert(m.exec_load(ins) is Ok);
    } else {
        assert(m.execute(ins, op) == (match m.exec_store(ins) {
            Ok(x) => Ok((x, true)),
            Err(e) => Err(e),
        }));
        if size == 2 {
            assert(m.store_word(a, m.reg(rs2_of(ins))) is Ok);
        } else {
            let orig = (m.load_word(a)->Ok_0).1;
            let mask: u32 = if size == 0 { 0xFF } else { 0xFFFF };
            let val = (orig & !(mask << ((a & 3) * 8) as u32)) | (m.reg(rs2_of(ins)) << ((a & 3) * 8) as u32);
            assert(m1.data_access(wa) is Ok);
            assert(m1.store_word(a, val) is Ok);
        }
        assert(m.exec_store(ins) is Ok);
    }
}

/// Every other instruction succeeds wherever nothing stops it: the cycle
/// count has room for one more cycle, `pc + 4` fits in a word, a branch's
/// condition code is defined, and each target, link or sum that it computes
/// fits (a taken branch's or a jump's target as a signed word, AUIPC's sum
/// as an unsigned one).
pub proof fn law_instruction_succeeds(m: CoreModel, ins: u32, op: Op)
    requires
        m.wf(),
        op != Op::Load,
        op != Op::Store,
        m.cycles + 1 <= usize::MAX,
        m.pc + 4 <= u32::MAX,
        op == Op::Auipc ==> imm_u(ins) + m.pc <= u32::MAX,
        op == Op::Branch ==> funct3_of(ins) != 2 && funct3_of(ins) != 3 && offset_target(
            m.pc,
            imm_b(ins),
        ) is Some,
        op == Op::Jal ==> offset_target(m.pc, imm_j(ins)) is Some,
        op == Op::Jalr ==> offset_target(m.reg(rs1_of(ins)), imm_i(ins)) is Some,
    ensures
        m.execute(ins, op) is Ok,
{
    crate::decode::lemma_field_bounds(ins);
}

/// A fetch succeeds wherever nothing stops it: the instruction cache can be
/// used, the four bytes at `pc` lie in memory, the cycle count has room for
/// a miss, and the word's low seven bits are one of RV32I's opcodes.
pub proof fn law_fetch_succeeds(m: CoreModel)
    requires
        m.wf(),
        m.mem.icache.can_access(),
        m.pc + 3 < m.mem.data.len(),
        m.cycles + m.mem.l1i_miss_cycles <= usize::MAX,
        crate::op::op_class(le_word(m.mem.data, m.pc as int) % 128) is Some,
    ensures
        m.fetch() is Ok,
{
    law_register_fields(le_word(m.mem.data, m.pc as int));
}

} // verus!
