//! Integer hashing behind the value noise: a 32-bit avalanche mix and the
//! lattice hashes that feed it. The conversion of a hash to a float in
//! `[0, 1)` happens outside the library.

use vstd::prelude::*;

verus! {

/// `a * b` wrapped to 32 bits.
pub open spec fn mul32(a: u32, b: u32) -> u32 {
    ((a as nat * b as nat) % 0x1_0000_0000) as u32
}

/// `a + b` wrapped to 32 bits.
pub open spec fn add32(a: u32, b: u32) -> u32 {
    ((a as nat + b as nat) % 0x1_0000_0000) as u32
}

/// The avalanche mix: xor-shift by 16, multiply, xor-shift by 15, multiply,
/// xor-shift by 16, with both products wrapped to 32 bits.
pub open spec fn mix32(a: u32) -> u32 {
    let a1 = a ^ (a >> 16u32);
    let a2 = mul32(a1, 0x7feb_352d);
    let a3 = a2 ^ (a2 >> 15u32);
    let a4 = mul32(a3, 0x846c_a68b);
    a4 ^ (a4 >> 16u32)
}

/// The lattice point `(x, y)` with `seed`, folded into one word before mixing.
pub open spec fn lattice2(x: i32, y: i32, seed: u32) -> u32 {
    add32(add32(mul32(x as u32, 0x9e37_79b9), mul32(y as u32, 0x85eb_ca6b)), seed)
}

/// The lattice point `(x, y, z)` with `seed`, folded into one word.
pub open spec fn lattice3(x: i32, y: i32, z: i32, seed: u32) -> u32 {
    add32(
        add32(add32(mul32(x as u32, 0x9e37_79b9), mul32(y as u32, 0x85eb_ca6b)), mul32(z as u32, 0xc2b2_ae35)),
        seed,
    )
}

/// The 32-bit avalanche hash.
pub fn hash_u32(a: u32) -> (h: u32)
    ensures
        h == mix32(a),
{
    let mut a = a;
    a ^= a >> 16u32;
    a = a.wrapping_mul(0x7feb_352d);
    a ^= a >> 15u32;
    a = a.wrapping_mul(0x846c_a68b);
    a ^= a >> 16u32;
    a
}

/// The top 24 bits of the hash of the lattice point `(x, y)`: divided by
/// `2^24` it is the noise value of that point, in `[0, 1)`.
pub fn hash21_bits(x: i32, y: i32, seed: u32) -> (h: u32)
    ensures
        h == mix32(lattice2(x, y, seed)) >> 8u32,
        h < 0x100_0000,
{
    let v = (x as u32).wrapping_mul(0x9e37_79b9).wrapping_add((y as u32).wrapping_mul(0x85eb_ca6b)).wrapping_add(seed);
    let h = hash_u32(v);
    assert(h >> 8u32 < 0x100_0000u32) by (bit_vector);
    h >> 8u32
}

/// The top 24 bits of the hash of the lattice point `(x, y, z)`.
pub fn hash31_bits(x: i32, y: i32, z: i32, seed: u32) -> (h: u32)
    ensures
        h == mix32(lattice3(x, y, z, seed)) >> 8u32,
        h < 0x100_0000,
{
    let a = (x as u32).wrapping_mul(0x9e37_79b9).wrapping_add((y as u32).wrapping_mul(0x85eb_ca6b));
    let b = a.wrapping_add((z as u32).wrapping_mul(0xc2b2_ae35));
    let v = b.wrapping_add(seed);
    let h = hash_u32(v);
    assert(h >> 8u32 < 0x100_0000u32) by (bit_vector);
    h >> 8u32
}


/// The inverse of `mix32`: each step of the mix undone in reverse order.
/// An xor-shift by 16 is its own inverse on 32 bits; the xor-shift by 15 is
/// undone by xoring the shifts by 15 and 30; each odd multiplier is undone
/// by its inverse modulo `2^32`.
pub open spec fn unmix32(h: u32) -> u32 {
    let a4 = h ^ (h >> 16u32);
    let a3 = mul32(a4, 0x4302_1123);
    let a2 = a3 ^ (a3 >> 15u32) ^ (a3 >> 30u32);
    let a1 = mul32(a2, 0x1d69_e2a5);
    a1 ^ (a1 >> 16u32)
}

proof fn lemma_odd_factor(a: u32, c: u32, d: u32)
    requires
        (c == 0x7feb_352d && d == 0x1d69_e2a5) || (c == 0x1d69_e2a5 && d == 0x7feb_352d) || (c
            == 0x846c_a68b && d == 0x4302_1123) || (c == 0x4302_1123 && d == 0x846c_a68b),
    ensures
        mul32(mul32(a, c), d) == a,
{
    let x = mul32(a, c);
    let y = mul32(x, d);
    assert(x == ((a * c) % 0x1_0000_0000) as u32);
    assert(y == ((x * d) % 0x1_0000_0000) as u32);
    if c == 0x7feb_352d {
        assert(y == a) by (bit_vector)
            requires
                x == ((a * 0x7feb_352du32) % 0x1_0000_0000) as u32,
                y == ((x * 0x1d69_e2a5u32) % 0x1_0000_0000) as u32,
        ;
    } else if c == 0x1d69_e2a5 {
        assert(y == a) by (bit_vector)
            requires
                x == ((a * 0x1d69_e2a5u32) % 0x1_0000_0000) as u32,
                y == ((x * 0x7feb_352du32) % 0x1_0000_0000) as u32,
        ;
    } else if c == 0x846c_a68b {
        assert(y == a) by (bit_vector)
            requires
                x == ((a * 0x846c_a68bu32) % 0x1_0000_0000) as u32,
                y == ((x * 0x4302_1123u32) % 0x1_0000_0000) as u32,
        ;
    } else if c == 0x4302_1123 {
        assert(y == a) by (bit_vector)
            requires
                x == ((a * 0x4302_1123u32) % 0x1_0000_0000) as u32,
                y == ((x * 0x846c_a68bu32) % 0x1_0000_0000) as u32,
        ;
    }
}

/// The avalanche mix is a permutation of the 32-bit words that sends 0 to
/// 0: `unmix32` undoes it and it undoes `unmix32`, so two different words
/// never hash alike and every word is the hash of exactly one word.
pub proof fn lemma_mix32_permutation(a: u32, b: u32)
    ensures
        mix32(0) == 0,
        unmix32(mix32(a)) == a,
        mix32(unmix32(a)) == a,
        a != b ==> mix32(a) != mix32(b),
{
    assert(mul32(0, 0x7feb_352d) == 0);
    assert(mul32(0, 0x846c_a68b) == 0);
    assert((0u32 ^ (0u32 >> 16u32)) == 0u32) by (bit_vector);
    assert((0u32 ^ (0u32 >> 15u32)) == 0u32) by (bit_vector);
    lemma_unmix_mix(a);
    lemma_unmix_mix(b);
    lemma_mix_unmix(a);
}

proof fn lemma_unmix_mix(a: u32)
    ensures
        unmix32(mix32(a)) == a,
{
    let a1 = a ^ (a >> 16u32);
    let a2 = mul32(a1, 0x7feb_352d);
    let a3 = a2 ^ (a2 >> 15u32);
    let a4 = mul32(a3, 0x846c_a68b);
    let h = a4 ^ (a4 >> 16u32);
    assert((h ^ (h >> 16u32)) == a4) by (bit_vector)
        requires
            h == a4 ^ (a4 >> 16u32),
    ;
    lemma_odd_factor(a3, 0x846c_a68b, 0x4302_1123);
    assert((a3 ^ (a3 >> 15u32) ^ (a3 >> 30u32)) == a2) by (bit_vector)
        requires
            a3 == a2 ^ (a2 >> 15u32),
    ;
    lemma_odd_factor(a2, 0x1d69_e2a5, 0x7feb_352d);
    lemma_odd_factor(a1, 0x7feb_352d, 0x1d69_e2a5);
    assert((a1 ^ (a1 >> 16u32)) == a) by (bit_vector)
        requires
            a1 == a ^ (a >> 16u32),
    ;
}

proof fn lemma_mix_unmix(h: u32)
    ensures
        mix32(unmix32(h)) == h,
{
    let a4 = h ^ (h >> 16u32);
    let a3 = mul32(a4, 0x4302_1123);
    let a2 = a3 ^ (a3 >> 15u32) ^ (a3 >> 30u32);
    let a1 = mul32(a2, 0x1d69_e2a5);
    let a = a1 ^ (a1 >> 16u32);
    assert((a ^ (a >> 16u32)) == a1) by (bit_vector)
        requires
            a == a1 ^ (a1 >> 16u32),
    ;
    lemma_odd_factor(a2, 0x1d69_e2a5, 0x7feb_352d);
    assert((a2 ^ (a2 >> 15u32)) == a3) by (bit_vector)
        requires
            a2 == a3 ^ (a3 >> 15u32) ^ (a3 >> 30u32),
    ;
    lemma_odd_factor(a4, 0x4302_1123, 0x846c_a68b);
    assert((a4 ^ (a4 >> 16u32)) == h) by (bit_vector)
        requires
            a4 == h ^ (h >> 16u32),
    ;
}

} // verus!
