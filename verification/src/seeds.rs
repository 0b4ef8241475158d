//! Deterministic per-tile seed derivation (SplitMix64 finalisation).

use vstd::prelude::*;
use vstd::arithmetic::div_mod::{lemma_mod_multiples_vanish, lemma_mul_mod_noop_left, lemma_small_mod};
use vstd::wrapping::u64_specs::{wrapping_add, wrapping_mul};

verus! {

/// Golden-ratio increment of SplitMix64.
pub const SPLITMIX_GAMMA: u64 = 0x9E37_79B9_7F4A_7C15;

/// First multiplier of the SplitMix64 finaliser.
pub const SPLITMIX_MUL1: u64 = 0xBF58_476D_1CE4_E5B9;

/// Second multiplier of the SplitMix64 finaliser.
pub const SPLITMIX_MUL2: u64 = 0x94D0_49BB_1331_11EB;

/// `z ^ (z >> s)`, the xor-shift step of the finaliser.
pub open spec fn xorshift(z: u64, s: u64) -> u64 {
    z ^ (z >> s)
}

/// The SplitMix64 finalisation function, as 64-bit wrapping arithmetic.
pub open spec fn spec_splitmix64(x: u64) -> u64 {
    let x1 = vstd::wrapping::u64_specs::wrapping_add(x, SPLITMIX_GAMMA);
    let z1 = vstd::wrapping::u64_specs::wrapping_mul(xorshift(x1, 30), SPLITMIX_MUL1);
    let z2 = vstd::wrapping::u64_specs::wrapping_mul(xorshift(z1, 27), SPLITMIX_MUL2);
    xorshift(z2, 31)
}

/// The two tile coordinates packed into one word: `tile_x` in the high half,
/// `tile_z` in the low half, each as its 32-bit two's-complement pattern.
pub open spec fn pack_coords(tile_x: i32, tile_z: i32) -> u64 {
    (((tile_x as u32) as u64) << 32u64) | ((tile_z as u32) as u64)
}

/// The seed of tile `(tile_x, tile_z)` under `base_seed`.
pub open spec fn spec_tile_seed(base_seed: u64, tile_x: i32, tile_z: i32) -> u64 {
    spec_splitmix64(
        vstd::wrapping::u64_specs::wrapping_add(base_seed, spec_splitmix64(pack_coords(tile_x, tile_z))),
    )
}

/// SplitMix64 finalisation function: a fast, well-mixed 64-bit hash.
pub fn splitmix64(x: u64) -> (r: u64)
    ensures
        r == spec_splitmix64(x),
{
    let x1 = x.wrapping_add(SPLITMIX_GAMMA);
    let mut z = x1;
    z = (z ^ (z >> 30)).wrapping_mul(SPLITMIX_MUL1);
    z = (z ^ (z >> 27)).wrapping_mul(SPLITMIX_MUL2);
    z ^ (z >> 31)
}

/// Mix a base seed and tile coordinates into a per-tile seed.
///
/// The coordinates are packed into one word, hashed, added to the base seed
/// and hashed again, so that adjacent tiles get unrelated seeds.
pub fn derive_tile_seed(base_seed: u64, tile_x: i32, tile_z: i32) -> (r: u64)
    ensures
        r == spec_tile_seed(base_seed, tile_x, tile_z),
{
    let packed = pack_key(tile_x, tile_z);
    splitmix64(base_seed.wrapping_add(splitmix64(packed)))
}

/// The word that tile `(tile_x, tile_z)` is packed into: `tile_x`'s 32 bits
/// above `tile_z`'s.
pub(crate) fn pack_key(tile_x: i32, tile_z: i32) -> (k: u64)
    ensures
        k == pack_coords(tile_x, tile_z),
{
    ((tile_x as u32 as u64) << 32u64) | (tile_z as u32 as u64)
}

/// Modulus of 64-bit wrapping arithmetic.
pub open spec fn word_modulus() -> int {
    0x1_0000_0000_0000_0000
}

/// Multiplying by `c` and then by `c_inv` gives back `x`, when
/// `c * c_inv == q * 2^64 + 1`.
proof fn lemma_mul_undone(x: u64, c: u64, c_inv: u64, q: int)
    requires
        q >= 0,
        c as int * c_inv as int == q * word_modulus() + 1,
    ensures
        wrapping_mul(wrapping_mul(x, c), c_inv) == x,
{
    let m = word_modulus();
    let y = wrapping_mul(x, c);
    assert(y as int == (x as int * c as int) % m);
    lemma_mul_mod_noop_left(x as int * c as int, c_inv as int, m);
    assert((x as int * c as int) * c_inv as int == m * (x as int * q) + x as int) by (nonlinear_arith)
        requires
            c as int * c_inv as int == q * m + 1,
    ;
    lemma_mod_multiples_vanish(x as int * q, x as int, m);
    lemma_small_mod(x as nat, m as nat);
    assert(wrapping_mul(y, c_inv) as int == (y as int * c_inv as int) % m);
}

/// The xor-shift step `z ^ (z >> s)` for the shifts of SplitMix64 loses no
/// information.
proof fn lemma_xorshift_injective(a: u64, b: u64)
    ensures
        xorshift(a, 30) == xorshift(b, 30) ==> a == b,
        xorshift(a, 27) == xorshift(b, 27) ==> a == b,
        xorshift(a, 31) == xorshift(b, 31) ==> a == b,
{
    assert(a ^ (a >> 30u64) == b ^ (b >> 30u64) ==> a == b) by (bit_vector);
    assert(a ^ (a >> 27u64) == b ^ (b >> 27u64) ==> a == b) by (bit_vector);
    assert(a ^ (a >> 31u64) == b ^ (b >> 31u64) ==> a == b) by (bit_vector);
}

/// Adding a fixed word with wraparound loses no information.
proof fn lemma_wrapping_add_injective(k: u64, a: u64, b: u64)
    ensures
        wrapping_add(k, a) == wrapping_add(k, b) ==> a == b,
{
}

/// SplitMix64 is one-to-one: distinct inputs give distinct outputs.
pub proof fn lemma_splitmix64_injective(a: u64, b: u64)
    ensures
        spec_splitmix64(a) == spec_splitmix64(b) ==> a == b,
{
    if spec_splitmix64(a) == spec_splitmix64(b) {
        let a1 = wrapping_add(a, SPLITMIX_GAMMA);
        let b1 = wrapping_add(b, SPLITMIX_GAMMA);
        let a2 = wrapping_mul(xorshift(a1, 30), SPLITMIX_MUL1);
        let b2 = wrapping_mul(xorshift(b1, 30), SPLITMIX_MUL1);
        let a3 = wrapping_mul(xorshift(a2, 27), SPLITMIX_MUL2);
        let b3 = wrapping_mul(xorshift(b2, 27), SPLITMIX_MUL2);
        lemma_xorshift_injective(a3, b3);
        lemma_mul_undone(xorshift(a2, 27), SPLITMIX_MUL2, 0x3196_42B2_D24D_8EC3, 2077064247507883091);
        lemma_mul_undone(xorshift(b2, 27), SPLITMIX_MUL2, 0x3196_42B2_D24D_8EC3, 2077064247507883091);
        lemma_xorshift_injective(a2, b2);
        lemma_mul_undone(xorshift(a1, 30), SPLITMIX_MUL1, 0x96DE_1B17_3F11_9089, 8125545580553827436);
        lemma_mul_undone(xorshift(b1, 30), SPLITMIX_MUL1, 0x96DE_1B17_3F11_9089, 8125545580553827436);
        lemma_xorshift_injective(a1, b1);
        assert(wrapping_add(SPLITMIX_GAMMA, a) == a1);
        assert(wrapping_add(SPLITMIX_GAMMA, b) == b1);
        lemma_wrapping_add_injective(SPLITMIX_GAMMA, a, b);
    }
}

/// Packing two tile coordinates into one word loses no information.
pub proof fn lemma_pack_coords_injective(x1: i32, z1: i32, x2: i32, z2: i32)
    ensures
        pack_coords(x1, z1) == pack_coords(x2, z2) ==> x1 == x2 && z1 == z2,
{
    assert((((x1 as u32) as u64) << 32u64) | ((z1 as u32) as u64) == (((x2 as u32) as u64)
        << 32u64) | ((z2 as u32) as u64) ==> x1 == x2 && z1 == z2) by (bit_vector);
}

/// Distinct tiles get distinct seeds under the same base seed.
pub proof fn lemma_tile_seed_injective(base_seed: u64, x1: i32, z1: i32, x2: i32, z2: i32)
    ensures
        spec_tile_seed(base_seed, x1, z1) == spec_tile_seed(base_seed, x2, z2) ==> x1 == x2 && z1
            == z2,
{
    let h1 = spec_splitmix64(pack_coords(x1, z1));
    let h2 = spec_splitmix64(pack_coords(x2, z2));
    lemma_splitmix64_injective(wrapping_add(base_seed, h1), wrapping_add(base_seed, h2));
    lemma_wrapping_add_injective(base_seed, h1, h2);
    lemma_splitmix64_injective(pack_coords(x1, z1), pack_coords(x2, z2));
    lemma_pack_coords_injective(x1, z1, x2, z2);
}

/// The packed word holds `tile_x`'s 32 bits in its upper half and `tile_z`'s
/// in its lower half.
pub proof fn lemma_pack_coords_halves(tile_x: i32, tile_z: i32)
    ensures
        pack_coords(tile_x, tile_z) >> 32u64 == (tile_x as u32) as u64,
        pack_coords(tile_x, tile_z) & 0xffff_ffffu64 == (tile_z as u32) as u64,
{
    let hi = (tile_x as u32) as u64;
    let lo = (tile_z as u32) as u64;
    assert(hi < 0x1_0000_0000 && lo < 0x1_0000_0000);
    assert(((hi << 32u64) | lo) >> 32u64 == hi) by (bit_vector)
        requires
            hi < 0x1_0000_0000u64,
            lo < 0x1_0000_0000u64,
    ;
    assert(((hi << 32u64) | lo) & 0xffff_ffffu64 == lo) by (bit_vector)
        requires
            hi < 0x1_0000_0000u64,
            lo < 0x1_0000_0000u64,
    ;
}

/// For a fixed tile, distinct base seeds give distinct tile seeds: the base
/// seed is never lost, so different worlds get different tiles.
pub proof fn lemma_tile_seed_base_injective(b1: u64, b2: u64, tile_x: i32, tile_z: i32)
    ensures
        spec_tile_seed(b1, tile_x, tile_z) == spec_tile_seed(b2, tile_x, tile_z) ==> b1 == b2,
{
    let h = spec_splitmix64(pack_coords(tile_x, tile_z));
    lemma_splitmix64_injective(wrapping_add(b1, h), wrapping_add(b2, h));
}

} // verus!
