use vstd::prelude::*;

verus! {

/// Bytes of instruction memory that the L1I schematic holds.
pub const L1I_SIZE: usize = 1024;

/// Bytes in an instruction word.
pub const INS_WORD: usize = 4;

/// Size of the schematic's world (x, y, z).
pub const WORLD_WIDTH: usize = 63;

pub const WORLD_HEIGHT: usize = 72;

pub const WORLD_LENGTH: usize = 64;

/// The block that stores a set bit.
pub const BIT_ON_BLOCK: &'static str = "repeater[powered=true,facing=west,locked=true]";

/// The block that stores a clear bit.
pub const BIT_OFF_BLOCK: &'static str = "repeater[powered=false,facing=west,locked=true]";

/// One bit of the program as a block: where it stands and whether it is on.
#[derive(Debug, Clone, Copy, PartialEq, Eq, Structural)]
pub struct Placement {
    pub x: usize,
    pub y: usize,
    pub z: usize,
    pub powered: bool,
}

/// The `k`-th placement for a program: bit `k % 8` of byte `(k % 32) / 8` of
/// word `k / 32`. Words run in lines of 32 along x (from x = 62 down, two
/// blocks apart), lines run along z (from z = 56 down, eight blocks apart),
/// and each byte of a word is a layer of eight bits up y (19 blocks per
/// layer, two per bit).
pub open spec fn placement_of(data: Seq<u8>, k: int) -> Placement {
    let word = k / 32;
    let layer = (k % 32) / 8;
    let bit = k % 8;
    Placement {
        x: (62 - (word % 32) * 2) as usize,
        y: (layer * 19 + bit * 2) as usize,
        z: (56 - (word / 32) * 8) as usize,
        powered: (data[word * 4 + layer] >> (bit as u8)) & 1 == 1,
    }
}

proof fn lemma_index_split(w: int, l: int, b: int)
    requires
        0 <= w,
        0 <= l < 4,
        0 <= b < 8,
    ensures
        (w * 32 + l * 8 + b) / 32 == w,
        ((w * 32 + l * 8 + b) % 32) / 8 == l,
        (w * 32 + l * 8 + b) % 8 == b,
{
    assert((w * 32 + l * 8 + b) / 32 == w) by (nonlinear_arith)
        requires
            0 <= w,
            0 <= l < 4,
            0 <= b < 8,
    ;
    assert((w * 32 + l * 8 + b) % 32 == l * 8 + b) by (nonlinear_arith)
        requires
            0 <= w,
            0 <= l < 4,
            0 <= b < 8,
    ;
    assert((w * 32 + l * 8 + b) % 8 == b) by (nonlinear_arith)
        requires
            0 <= w,
            0 <= l < 4,
            0 <= b < 8,
    ;
}

/// The blocks of the L1I schematic for a program, one per bit of each whole
/// instruction word, in order of word, then byte, then bit. The program must
/// fit in the L1I (at most 256 whole words).
pub fn l1i_placements(data: &[u8]) -> (ps: Vec<Placement>)
    requires
        data@.len() / 4 <= L1I_SIZE / INS_WORD,
    ensures
        ps@.len() == (data@.len() / 4) * 32,
        forall|k: int| 0 <= k < ps@.len() ==> #[trigger] ps@[k] == placement_of(data@, k),
{
    let mut ps: Vec<Placement> = Vec::new();
    let num_words = data.len() / INS_WORD;
    let mut word_idx: usize = 0;
    while word_idx < num_words
        invariant
            num_words == data@.len() / 4,
            num_words <= 256,
            word_idx <= num_words,
            ps@.len() == word_idx * 32,
            forall|k: int| 0 <= k < ps@.len() ==> #[trigger] ps@[k] == placement_of(data@, k),
        decreases num_words - word_idx,
    {
        let line_idx = word_idx / 32;
        let z_pos = 56 - line_idx * 8;
        let idx_in_line = word_idx % 32;
        let x_pos = 62 - (idx_in_line * 2);
        let mut layer_idx: usize = 0;
        while layer_idx < 4
            invariant
                num_words == data@.len() / 4,
                word_idx < num_words <= 256,
                line_idx == word_idx / 32,
                z_pos == 56 - line_idx * 8,
                x_pos == 62 - (word_idx % 32) * 2,
                layer_idx <= 4,
                ps@.len() == word_idx * 32 + layer_idx * 8,
                forall|k: int| 0 <= k < ps@.len() ==> #[trigger] ps@[k] == placement_of(data@, k),
            decreases 4 - layer_idx,
        {
            proof {
                assert(word_idx * 4 + layer_idx < data@.len()) by (nonlinear_arith)
                    requires
                        word_idx < num_words,
                        num_words == data@.len() / 4,
                        layer_idx < 4,
                ;
            }
            let byte = data[word_idx * 4 + layer_idx];
            let mut bit_idx: usize = 0;
            while bit_idx < 8
                invariant
                    num_words == data@.len() / 4,
                    word_idx < num_words <= 256,
                    z_pos == 56 - (word_idx / 32) * 8,
                    x_pos == 62 - (word_idx % 32) * 2,
                    layer_idx < 4,
                    byte == data@[word_idx * 4 + layer_idx],
                    bit_idx <= 8,
                    ps@.len() == word_idx * 32 + layer_idx * 8 + bit_idx,
                    forall|k: int|
                        0 <= k < ps@.len() ==> #[trigger] ps@[k] == placement_of(data@, k),
                decreases 8 - bit_idx,
            {
                let y_pos = layer_idx * 19 + bit_idx * 2;
                let b = bit_idx as u8;
                let bit = (byte & (1u8 << b)) != 0;
                proof {
                    assert((byte & (1u8 << b) != 0) == ((byte >> b) & 1 == 1)) by (bit_vector)
                        requires
                            b < 8,
                    ;
                    lemma_index_split(word_idx as int, layer_idx as int, bit_idx as int);
                }
                ps.push(Placement { x: x_pos, y: y_pos, z: z_pos, powered: bit });
                bit_idx = bit_idx + 1;
            }
            layer_idx = layer_idx + 1;
        }
        word_idx = word_idx + 1;
    }
    ps
}

/// The four bytes at `4 * word` read as a little-endian instruction word.
pub open spec fn instruction_word(data: Seq<u8>, word: int) -> u32 {
    (data[word * 4] as u32) | ((data[word * 4 + 1] as u32) << 8u32) | ((data[word * 4 + 2] as u32)
        << 16u32) | ((data[word * 4 + 3] as u32) << 24u32)
}

proof fn lemma_word_bit(b0: u8, b1: u8, b2: u8, b3: u8, layer: u32, bit: u32)
    requires
        layer < 4,
        bit < 8,
    ensures
        ({
            let w = (b0 as u32) | ((b1 as u32) << 8u32) | ((b2 as u32) << 16u32) | ((b3 as u32)
                << 24u32);
            let byte = if layer == 0 {
                b0
            } else if layer == 1 {
                b1
            } else if layer == 2 {
                b2
            } else {
                b3
            };
            ((w >> (layer * 8 + bit)) & 1 == 1) == ((byte >> (bit as u8)) & 1 == 1)
        }),
{
    assert(({
        let w = (b0 as u32) | ((b1 as u32) << 8u32) | ((b2 as u32) << 16u32) | ((b3 as u32)
            << 24u32);
        let byte = if layer == 0 {
            b0
        } else if layer == 1 {
            b1
        } else if layer == 2 {
            b2
        } else {
            b3
        };
        layer < 4 && bit < 8 ==> (((w >> (layer * 8 + bit)) & 1 == 1) == ((byte >> (bit as u8)) & 1
            == 1))
    })) by (bit_vector);
}

/// Placement `k` is lit exactly when bit `k % 32` of instruction word `k / 32`
/// (its four bytes read little-endian) is set.
pub proof fn law_placement_shows_word_bit(data: Seq<u8>, k: int)
    requires
        0 <= k,
        (k / 32) * 4 + 3 < data.len(),
    ensures
        placement_of(data, k).powered == ((instruction_word(data, k / 32) >> ((k % 32) as u32)) & 1
            == 1),
{
    let w = k / 32;
    let layer = (k % 32) / 8;
    let bit = k % 8;
    assert(k % 32 == layer * 8 + bit && 0 <= layer < 4 && 0 <= bit < 8) by (nonlinear_arith)
        requires
            layer == (k % 32) / 8,
            bit == k % 8,
            0 <= k,
    ;
    lemma_word_bit(
        data[w * 4],
        data[w * 4 + 1],
        data[w * 4 + 2],
        data[w * 4 + 3],
        layer as u32,
        bit as u32,
    );
    assert((layer as u32) * 8 + (bit as u32) == ((k % 32) as u32));
}

/// No two bits of a program that fits in the L1I stand in the same place.
pub proof fn law_placements_distinct(data: Seq<u8>, k1: int, k2: int)
    requires
        0 <= k1 < k2 < 256 * 32,
    ensures
        ({
            let p1 = placement_of(data, k1);
            let p2 = placement_of(data, k2);
            p1.x != p2.x || p1.y != p2.y || p1.z != p2.z
        }),
{
    let w1 = k1 / 32;
    let w2 = k2 / 32;
    let l1 = (k1 % 32) / 8;
    let l2 = (k2 % 32) / 8;
    let b1 = k1 % 8;
    let b2 = k2 % 8;
    assert(k1 == w1 * 32 + l1 * 8 + b1 && 0 <= l1 < 4 && 0 <= b1 < 8 && 0 <= w1 < 256)
        by (nonlinear_arith)
        requires
            w1 == k1 / 32,
            l1 == (k1 % 32) / 8,
            b1 == k1 % 8,
            0 <= k1 < 256 * 32,
    ;
    assert(k2 == w2 * 32 + l2 * 8 + b2 && 0 <= l2 < 4 && 0 <= b2 < 8 && 0 <= w2 < 256)
        by (nonlinear_arith)
        requires
            w2 == k2 / 32,
            l2 == (k2 % 32) / 8,
            b2 == k2 % 8,
            0 <= k2 < 256 * 32,
    ;
    assert(w1 == (w1 / 32) * 32 + w1 % 32 && 0 <= w1 / 32 < 8 && 0 <= w1 % 32 < 32)
        by (nonlinear_arith)
        requires
            0 <= w1 < 256,
    ;
    assert(w2 == (w2 / 32) * 32 + w2 % 32 && 0 <= w2 / 32 < 8 && 0 <= w2 % 32 < 32)
        by (nonlinear_arith)
        requires
            0 <= w2 < 256,
    ;
}

/// Every bit of a program that fits in the L1I stands inside the schematic's
/// world.
pub proof fn law_placements_in_world(data: Seq<u8>, k: int)
    requires
        0 <= k < 256 * 32,
    ensures
        placement_of(data, k).x < WORLD_WIDTH,
        placement_of(data, k).y < WORLD_HEIGHT,
        placement_of(data, k).z < WORLD_LENGTH,
{
    let w = k / 32;
    let l = (k % 32) / 8;
    let b = k % 8;
    assert(0 <= w < 256 && 0 <= l < 4 && 0 <= b < 8) by (nonlinear_arith)
        requires
            w == k / 32,
            l == (k % 32) / 8,
            b == k % 8,
            0 <= k < 256 * 32,
    ;
    assert(0 <= w / 32 < 8 && 0 <= w % 32 < 32) by (nonlinear_arith)
        requires
            0 <= w < 256,
    ;
}

} // verus!
