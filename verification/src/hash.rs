//! The position hash that decides where bedrock lies.
use vstd::prelude::*;

use crate::rng::rotl;

verus! {

/// The factor of the x coordinate in the position hash.
pub const K_X: i32 = 3_129_871;

/// The factor of the z coordinate in the position hash.
pub const K_Z: i64 = 116_129_781;

/// The hash of a position, from the products of its x coordinate with `K_X` and of its z
/// coordinate with `K_Z`.
pub open spec fn hash_terms(term_x: i32, y: i32, term_z: i64) -> i64 {
    let l = (term_x as i64) ^ term_z ^ (y as i64);
    l.wrapping_mul(l.wrapping_mul(42_317_861).wrapping_add(11)) >> 16
}

/// The 24-bit random number of a position with the given hash, in a layer with the given seeds.
pub open spec fn top24_of_hash(hash: i64, dlo: i64, dhi: i64) -> u64 {
    crate::rng::xoroshiro_output(((hash ^ dlo) as u64, dhi as u64)) >> 40
}

/// The bedrock test on the terms of a position.
pub open spec fn bedrock_by_terms(
    term_x: i32,
    y: i32,
    term_z: i64,
    dlo: i64,
    dhi: i64,
    threshold: u64,
) -> bool {
    top24_of_hash(hash_terms(term_x, y, term_z), dlo, dhi) < threshold
}

/// The x term of a position: the product with `K_X`, wrapped to 32 bits.
pub open spec fn x_term(x: int) -> i32 {
    vstd::wrapping::i32_specs::signed_crop(x * K_X)
}

/// The z term of a position: the product with `K_Z`.
pub open spec fn z_term(z: int) -> i64 {
    (z * K_Z) as i64
}

/// There is bedrock at position `(x, y, z)` of a layer with the given seeds, where bedrock has the
/// likelihood that `threshold` stands for.
pub open spec fn bedrock_at(
    x: int,
    y: i32,
    z: int,
    dlo: i64,
    dhi: i64,
    threshold: u64,
) -> bool {
    bedrock_by_terms(x_term(x), y, z_term(z), dlo, dhi, threshold)
}

/// Decides the bedrock test from the terms of a position.
pub fn is_bedrock_by_terms(
    term_x: i32,
    y: i32,
    term_z: i64,
    dlo: i64,
    dhi: i64,
    threshold: u64,
) -> (r: bool)
    ensures
        r == bedrock_by_terms(term_x, y, term_z, dlo, dhi, threshold),
{
    let l: i64 = (term_x as i64) ^ term_z ^ (y as i64);
    let inner: i64 = l.wrapping_mul(42_317_861).wrapping_add(11);
    let hash: i64 = l.wrapping_mul(inner) >> 16;
    let s0: u64 = (hash ^ dlo) as u64;
    let s1: u64 = dhi as u64;
    let result: u64 = rotl(s0.wrapping_add(s1), 17).wrapping_add(s0);
    (result >> 40) < threshold
}

/// Computes the x term of a position.
pub fn position_x_term(x: i32) -> (t: i32)
    ensures
        t == x_term(x as int),
{
    x.wrapping_mul(K_X)
}

/// Computes the z term of a position.
pub fn position_z_term(z: i32) -> (t: i64)
    ensures
        t == z_term(z as int),
{
    assert(i64::MIN <= z * K_Z <= i64::MAX) by (nonlinear_arith)
        requires
            i32::MIN <= z <= i32::MAX,
    ;
    proof {
        assert(z as int * K_Z == z as i64 * K_Z);
    }
    (z as i64).wrapping_mul(K_Z)
}

proof fn lemma_crop_add(a: int, b: int)
    ensures
        vstd::wrapping::i32_specs::signed_crop(a).wrapping_add(
            vstd::wrapping::i32_specs::signed_crop(b),
        ) == vstd::wrapping::i32_specs::signed_crop(a + b),
{
    let m = 0x1_0000_0000int;
    vstd::arithmetic::div_mod::lemma_add_mod_noop(a, b, m);
    let ra = a % m;
    let rb = b % m;
    let rs = (a + b) % m;
    assert(0 <= ra < m && 0 <= rb < m);
    assert(rs == (ra + rb) % m);
    assert(rs == if ra + rb < m {
        ra + rb
    } else {
        ra + rb - m
    });
}

/// The product of a sum with `K_X` wraps to the same 32 bits as the sum of the two products, so
/// that the term of a pattern's position can be computed apart from those of its blocks.
pub proof fn law_x_terms_add(ox: int, bx: int)
    ensures
        x_term(ox).wrapping_add(x_term(bx)) == x_term(ox + bx),
{
    lemma_crop_add(ox * K_X, bx * K_X);
    assert((ox + bx) * K_X == ox * K_X + bx * K_X) by (nonlinear_arith);
}

/// The terms of the z coordinates of a pattern's position and of its blocks add up in the same way.
pub proof fn law_z_terms_add(oz: i32, bz: i32)
    ensures
        z_term(oz as int).wrapping_add(z_term(bz as int)) == z_term(oz + bz),
{
    assert((oz + bz) * K_Z == oz * K_Z + bz * K_Z) by (nonlinear_arith);
    assert(-0x1000_0000_0000_0000 <= oz * K_Z <= 0x1000_0000_0000_0000) by (nonlinear_arith)
        requires
            i32::MIN <= oz <= i32::MAX,
    ;
    assert(-0x1000_0000_0000_0000 <= bz * K_Z <= 0x1000_0000_0000_0000) by (nonlinear_arith)
        requires
            i32::MIN <= bz <= i32::MAX,
    ;
}

/// The terms of a position are the products of its coordinates with the two factors of the hash,
/// that of x up to multiples of `2^32` and that of z exactly.
pub proof fn law_terms_are_products(x: int, z: int)
    requires
        -0x2_0000_0000 <= z <= 0x2_0000_0000,
    ensures
        (x_term(x) - 3_129_871 * x) % 0x1_0000_0000 == 0,
        z_term(z) == 116_129_781 * z,
{
    let m = 0x1_0000_0000int;
    let p = x * K_X;
    assert(p == 3_129_871 * x);
    vstd::arithmetic::div_mod::lemma_fundamental_div_mod(p, m);
    let c = if p % m > 0x7FFF_FFFF {
        p / m + 1
    } else {
        p / m
    };
    assert(x_term(x) - p == -c * m);
    vstd::arithmetic::div_mod::lemma_mod_multiples_basic(-c, m);
    assert(z * K_Z == 116_129_781 * z);
}

/// The hash sees nothing of a position but the exclusive or of its two terms and its height: what
/// is combined with two of them at once makes no difference.
pub proof fn law_hash_sees_exclusive_or(term_x: i32, y: i32, term_z: i64, d: i32)
    ensures
        hash_terms(term_x ^ d, y, term_z ^ (d as i64)) == hash_terms(term_x, y, term_z),
        hash_terms(term_x, y ^ d, term_z ^ (d as i64)) == hash_terms(term_x, y, term_z),
        hash_terms(term_x ^ d, y ^ d, term_z) == hash_terms(term_x, y, term_z),
{
    assert({
        let l = (term_x as i64) ^ term_z ^ (y as i64);
        &&& ((term_x ^ d) as i64) ^ (term_z ^ (d as i64)) ^ (y as i64) == l
        &&& (term_x as i64) ^ (term_z ^ (d as i64)) ^ ((y ^ d) as i64) == l
        &&& ((term_x ^ d) as i64) ^ term_z ^ ((y ^ d) as i64) == l
    }) by (bit_vector);
}

/// A wrapping product of signed words is the one word that differs from the product by a multiple
/// of `2^64`.
proof fn lemma_wrapped(p: int, w: i64)
    requires
        (w - p) % 0x1_0000_0000_0000_0000 == 0,
    ensures
        vstd::wrapping::i64_specs::signed_crop(p) == w,
{
    let m = 0x1_0000_0000_0000_0000int;
    vstd::arithmetic::div_mod::lemma_fundamental_div_mod(w - p, m);
    let c = (w - p) / m;
    assert(p == -c * m + w) by (nonlinear_arith)
        requires
            w - p == m * c,
    ;
    vstd::arithmetic::div_mod::lemma_mod_multiples_vanish(-c, w as int, m);
}

/// With `l` for the exclusive or of the terms and the height, the hash is the upper 48 bits of
/// `42317861 l^2 + 11 l` modulo `2^64`, read as a signed word `w`.
pub proof fn law_hash_is_quadratic(term_x: i32, y: i32, term_z: i64, w: i64)
    requires
        ({
            let l = (term_x as i64) ^ term_z ^ (y as i64);
            (w - (42_317_861 * l * l + 11 * l)) % 0x1_0000_0000_0000_0000 == 0
        }),
    ensures
        65536 * hash_terms(term_x, y, term_z) <= w < 65536 * hash_terms(term_x, y, term_z) + 65536,
{
    let m = 0x1_0000_0000_0000_0000int;
    let l = (term_x as i64) ^ term_z ^ (y as i64);
    let scaled = l.wrapping_mul(42_317_861);
    let inner = scaled.wrapping_add(11);
    let p = l * 42_317_861;
    vstd::arithmetic::div_mod::lemma_fundamental_div_mod(p, m);
    let a = if p % m > i64::MAX {
        p / m + 1
    } else {
        p / m
    };
    assert(scaled == p - a * m);
    let b: int = if scaled + 11 > i64::MAX {
        1
    } else {
        0
    };
    assert(inner == p + 11 - (a + b) * m) by (nonlinear_arith)
        requires
            inner == scaled + 11 - b * m,
            scaled == p - a * m,
    ;
    let full = 42_317_861 * l * l + 11 * l;
    assert(l * inner == full - l * (a + b) * m) by (nonlinear_arith)
        requires
            inner == l * 42_317_861 + 11 - (a + b) * m,
            full == 42_317_861 * l * l + 11 * l,
    ;
    assert((w - l * inner) % m == 0) by {
        vstd::arithmetic::div_mod::lemma_mod_multiples_vanish(l * (a + b), w - full, m);
        assert(w - l * inner == l * (a + b) * m + (w - full));
    }
    lemma_wrapped(l * inner, w);
    assert(65536 * (w >> 16) <= w && w < 65536 * (w >> 16) + 65536) by (bit_vector);
}

/// The number of a position sees nothing of the hash and the low seed but their exclusive or, in
/// all of its bits.
pub proof fn law_number_sees_exclusive_or(hash: i64, dlo: i64, dhi: i64, d: i64)
    ensures
        top24_of_hash(hash ^ d, dlo ^ d, dhi) == top24_of_hash(hash, dlo, dhi),
{
    assert((hash ^ d) ^ (dlo ^ d) == hash ^ dlo) by (bit_vector);
}

/// The number of a position is the upper 24 bits of the first number that a generator gives out
/// whose low word, combined with the hash, gives back the whole low seed, and whose high word is
/// the whole high seed.
pub proof fn law_number_is_top_of_output(hash: i64, dlo: i64, dhi: i64, lo: u64)
    requires
        lo ^ (hash as u64) == dlo as u64,
    ensures
        top24_of_hash(hash, dlo, dhi) == crate::rng::xoroshiro_output((lo, dhi as u64))
            / 0x100_0000_0000,
{
    assert(lo == (hash ^ dlo) as u64) by (bit_vector)
        requires
            lo ^ (hash as u64) == dlo as u64,
    ;
    let n = crate::rng::xoroshiro_output((lo, dhi as u64));
    assert(n >> 40 == n / 0x100_0000_0000) by (bit_vector);
}

/// What decides a position, from its coordinates to the comparison with the threshold, in numbers:
/// the terms `tx` and `116129781 z`, their exclusive or with the height, its quadratic hash `h`, a
/// generator whose low word gives back the low seed when it is combined with the hash, and the
/// number `n` that this generator gives out first. There is bedrock exactly if the upper 24 bits
/// of that number lie below the threshold.
pub proof fn law_bedrock_is_decided_by_generator(
    x: int,
    y: i32,
    z: int,
    dlo: i64,
    dhi: i64,
    threshold: u64,
    tx: i32,
    tz: i64,
    w: i64,
    h: i64,
    lo: u64,
    n: int,
)
    requires
        -0x2_0000_0000 <= z <= 0x2_0000_0000,
        (tx - 3_129_871 * x) % 0x1_0000_0000 == 0,
        tz == 116_129_781 * z,
        ({
            let l = (tx as i64) ^ tz ^ (y as i64);
            (w - (42_317_861 * l * l + 11 * l)) % 0x1_0000_0000_0000_0000 == 0
        }),
        65536 * h <= w < 65536 * h + 65536,
        lo ^ (h as u64) == dlo as u64,
        ({
            let sum = (lo + dhi as u64) % 0x1_0000_0000_0000_0000;
            let turned = (sum % 0x8000_0000_0000) * 0x2_0000 + sum / 0x8000_0000_0000;
            n == (turned + lo) % 0x1_0000_0000_0000_0000
        }),
    ensures
        bedrock_at(x, y, z, dlo, dhi, threshold) <==> n / 0x100_0000_0000 < threshold,
{
    law_terms_are_products(x, z);
    let m = 0x1_0000_0000int;
    assert(tx == x_term(x)) by {
        let a = tx - 3_129_871 * x;
        let b = x_term(x) - 3_129_871 * x;
        vstd::arithmetic::div_mod::lemma_fundamental_div_mod(a, m);
        vstd::arithmetic::div_mod::lemma_fundamental_div_mod(b, m);
        assert(tx - x_term(x) == m * (a / m) - m * (b / m));
    }
    law_hash_is_quadratic(tx, y, tz, w);
    law_number_is_top_of_output(h, dlo, dhi, lo);
    crate::rng::law_output_is_turned_sum((lo, dhi as u64));
}

/// A higher threshold takes no bedrock away: it is the likelihood of bedrock. Below no threshold
/// at all there is none, and from `2^24` on it is everywhere.
pub proof fn law_higher_threshold_more_bedrock(
    x: int,
    y: i32,
    z: int,
    dlo: i64,
    dhi: i64,
    low: u64,
    high: u64,
)
    requires
        low <= high,
    ensures
        bedrock_at(x, y, z, dlo, dhi, low) ==> bedrock_at(x, y, z, dlo, dhi, high),
        !bedrock_at(x, y, z, dlo, dhi, 0),
        high >= 0x100_0000 ==> bedrock_at(x, y, z, dlo, dhi, high),
{
    let n = crate::rng::xoroshiro_output(
        ((hash_terms(x_term(x), y, z_term(z)) ^ dlo) as u64, dhi as u64),
    );
    assert(n >> 40 < 0x100_0000) by (bit_vector);
}

} // verus!
