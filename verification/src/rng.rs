//! The random number generators that place bedrock, and the seeds derived from a world seed.
use vstd::prelude::*;

use crate::bedrock::BedrockType;

verus! {

/// The state that stands in for an all-zero state, low word.
pub const FALLBACK_LO: u64 = 0x9E37_79B9_7F4A_7C15;

/// The state that stands in for an all-zero state, high word.
pub const FALLBACK_HI: u64 = 0x6A09_E667_F3BC_C909;

/// The two big-endian words of the MD5 digest of `minecraft:bedrock_floor`.
pub const FLOOR_DIGEST: (u64, u64) = (0xBBF7_928B_7BF1_D285, 0xC4DC_7CF9_0E1B_3B94);

/// The two big-endian words of the MD5 digest of `minecraft:bedrock_roof`.
pub const ROOF_DIGEST: (u64, u64) = (0x8EBD_4A1D_131D_71CC, 0xC984_CFBB_684A_26C4);

/// Left rotation of a 64-bit word by `n` bits.
pub open spec fn rotl_spec(x: u64, n: u64) -> u64 {
    (x << n) | (x >> ((64 - n) as u64))
}

/// Rotates a word left by `n` bits.
pub fn rotl(x: u64, n: u64) -> (r: u64)
    requires
        0 < n < 64,
    ensures
        r == rotl_spec(x, n),
{
    (x << n) | (x >> (64 - n))
}

/// The number that a xoroshiro128++ generator in state `s` gives out.
pub open spec fn xoroshiro_output(s: (u64, u64)) -> u64 {
    rotl_spec(s.0.wrapping_add(s.1), 17).wrapping_add(s.0)
}

/// The state of a xoroshiro128++ generator after it has given out one number.
pub open spec fn xoroshiro_advance(s: (u64, u64)) -> (u64, u64) {
    let t = s.1 ^ s.0;
    (rotl_spec(s.0, 49) ^ t ^ (t << 21), rotl_spec(t, 28))
}

/// Takes the next number from a xoroshiro128++ generator.
pub fn xoroshiro_next(s: &mut (u64, u64)) -> (result: u64)
    ensures
        result == xoroshiro_output(*old(s)),
        *final(s) == xoroshiro_advance(*old(s)),
{
    let (s0, s1) = *s;
    let result: u64 = rotl(s0.wrapping_add(s1), 17).wrapping_add(s0);
    let t: u64 = s1 ^ s0;
    s.0 = rotl(s0, 49) ^ t ^ (t << 21);
    s.1 = rotl(t, 28);
    result
}

/// A generator state with the all-zero state replaced.
pub open spec fn guarded(state: (u64, u64)) -> (u64, u64) {
    if state == (0u64, 0u64) {
        (FALLBACK_LO, FALLBACK_HI)
    } else {
        state
    }
}

/// Replaces the all-zero state, from which a generator would never move.
pub fn guard_zero(state: (u64, u64)) -> (r: (u64, u64))
    ensures
        r == guarded(state),
        r != (0u64, 0u64),
{
    let (a, b) = state;
    assert((a | b) == 0 <==> a == 0 && b == 0) by (bit_vector);
    if (state.0 | state.1) == 0 {
        (FALLBACK_LO, FALLBACK_HI)
    } else {
        state
    }
}

/// The mixing function of SplitMix64.
pub open spec fn split_mix64_spec(seed: u64) -> u64 {
    let a = (seed ^ (seed >> 30)).wrapping_mul(0xBF58_476D_1CE4_E5B9);
    let b = (a ^ (a >> 27)).wrapping_mul(0x94D0_49BB_1331_11EB);
    b ^ (b >> 31)
}

/// Mixes a seed as SplitMix64 does.
pub fn split_mix64(seed: u64) -> (r: u64)
    ensures
        r == split_mix64_spec(seed),
{
    let a: u64 = (seed ^ (seed >> 30)).wrapping_mul(0xBF58_476D_1CE4_E5B9);
    let b: u64 = (a ^ (a >> 27)).wrapping_mul(0x94D0_49BB_1331_11EB);
    b ^ (b >> 31)
}

/// The state in which the generator of a world seed starts.
pub open spec fn xoroshiro_seed(seed: i64) -> (u64, u64) {
    let l = (seed as u64) ^ 0x6A09_E667_F3BC_C909u64;
    guarded((split_mix64_spec(l), split_mix64_spec(l.wrapping_add(FALLBACK_LO))))
}

/// Seeds a generator from a world seed.
pub fn create_xoroshiro_seed(seed: i64) -> (r: (u64, u64))
    ensures
        r == xoroshiro_seed(seed),
        r != (0u64, 0u64),
{
    let l: u64 = (seed as u64) ^ 0x6A09_E667_F3BC_C909u64;
    let m: u64 = l.wrapping_add(FALLBACK_LO);
    guard_zero((split_mix64(l), split_mix64(m)))
}

/// Two numbers drawn in a row from a generator in state `s`.
pub open spec fn two_outputs(s: (u64, u64)) -> (u64, u64) {
    (xoroshiro_output(s), xoroshiro_output(xoroshiro_advance(s)))
}

/// The digest that names a bedrock layer.
pub open spec fn layer_digest(bt: BedrockType) -> (u64, u64) {
    match bt {
        BedrockType::Floor => FLOOR_DIGEST,
        BedrockType::Roof => ROOF_DIGEST,
    }
}

/// The state of the generator of a bedrock layer: two numbers drawn from the world's generator,
/// combined with the layer's digest.
pub open spec fn layer_state(seed: i64, bt: BedrockType) -> (u64, u64) {
    let d = two_outputs(xoroshiro_seed(seed));
    let m = layer_digest(bt);
    guarded((m.0 ^ d.0, m.1 ^ d.1))
}

/// The pair of seeds from which the bedrock of a layer is decided at every position: two numbers
/// drawn from the layer's generator.
pub open spec fn deriver_seeds(seed: i64, bt: BedrockType) -> (i64, i64) {
    let d = two_outputs(layer_state(seed, bt));
    (d.0 as i64, d.1 as i64)
}

/// Derives the seeds of a bedrock layer from the world seed.
pub fn compute_deriver_seeds(seed: i64, bt: BedrockType) -> (r: (i64, i64))
    ensures
        r == deriver_seeds(seed, bt),
{
    let mut state = create_xoroshiro_seed(seed);
    let d1_lo: u64 = xoroshiro_next(&mut state);
    let d1_hi: u64 = xoroshiro_next(&mut state);
    let (l, m) = match bt {
        BedrockType::Floor => FLOOR_DIGEST,
        BedrockType::Roof => ROOF_DIGEST,
    };
    let mut state2 = guard_zero((l ^ d1_lo, m ^ d1_hi));
    let d2_lo: u64 = xoroshiro_next(&mut state2);
    let d2_hi: u64 = xoroshiro_next(&mut state2);
    (d2_lo as i64, d2_hi as i64)
}

/// A generator that is not in the all-zero state never reaches it.
pub proof fn law_state_stays_nonzero(s: (u64, u64))
    requires
        s != (0u64, 0u64),
    ensures
        xoroshiro_advance(s) != (0u64, 0u64),
{
    let (a, b) = s;
    assert(a != 0 || b != 0 ==> {
        let t = b ^ a;
        ||| ((a << 49) | (a >> 15)) ^ t ^ (t << 21) != 0
        ||| ((t << 28) | (t >> 36)) != 0
    }) by (bit_vector);
}

/// Two different states of a generator never lead to the same state.
pub proof fn law_advance_is_injective(s: (u64, u64), t: (u64, u64))
    requires
        xoroshiro_advance(s) == xoroshiro_advance(t),
    ensures
        s == t,
{
    let (a, b) = s;
    let (c, d) = t;
    assert({
        let p = b ^ a;
        let q = d ^ c;
        &&& ((a << 49) | (a >> 15)) ^ p ^ (p << 21) == ((c << 49) | (c >> 15)) ^ q ^ (q << 21)
        &&& ((p << 28) | (p >> 36)) == ((q << 28) | (q >> 36))
    } ==> a == c && b == d) by (bit_vector);
}

/// The generator of a bedrock layer never starts in the all-zero state.
pub proof fn law_layer_state_nonzero(seed: i64, bt: BedrockType)
    ensures
        xoroshiro_seed(seed) != (0u64, 0u64),
        layer_state(seed, bt) != (0u64, 0u64),
{
}

/// Rotating a word left by `n` bits moves the bit at place `i` to the place `n` higher, counted
/// round the word.
pub proof fn law_rotation_moves_bits(x: u64, n: u64, i: u64, j: u64)
    requires
        0 < n < 64,
        i < 64,
        j < 64,
        i + n == j || i + n == j + 64,
    ensures
        (rotl_spec(x, n) >> j) & 1 == (x >> i) & 1,
{
    let m = (64 - n) as u64;
    assert((((x << n) | (x >> m)) >> j) & 1 == (x >> i) & 1) by (bit_vector)
        requires
            0 < n < 64,
            m == 64 - n,
            i < 64,
            j < 64,
            i + n == j || i + n == j + 64,
    ;
}

/// What a generator gives out is its low word plus the sum of both words with the upper 17 bits
/// moved to the bottom, all modulo `2^64`.
pub proof fn law_output_is_turned_sum(s: (u64, u64))
    ensures
        ({
            let sum = (s.0 + s.1) % 0x1_0000_0000_0000_0000;
            let turned = (sum % 0x8000_0000_0000) * 0x2_0000 + sum / 0x8000_0000_0000;
            xoroshiro_output(s) == (turned + s.0) % 0x1_0000_0000_0000_0000
        }),
{
    let sum: u64 = s.0.wrapping_add(s.1);
    assert(sum == (s.0 + s.1) % 0x1_0000_0000_0000_0000);
    assert(((sum << 17) | (sum >> 47)) == (sum % 0x8000_0000_0000) * 0x2_0000 + sum
        / 0x8000_0000_0000) by (bit_vector);
}

/// The number that a generator gives out and its low word reveal its high word.
pub proof fn law_output_reveals_high_word(s: (u64, u64), t: (u64, u64))
    requires
        s.0 == t.0,
        xoroshiro_output(s) == xoroshiro_output(t),
    ensures
        s.1 == t.1,
{
    let a: u64 = s.0.wrapping_add(s.1);
    let b: u64 = t.0.wrapping_add(t.1);
    assert(((a << 17) | (a >> 47)) == ((b << 17) | (b >> 47)) ==> a == b) by (bit_vector);
}

/// The state before the last number was given out can be computed from the state after it.
pub proof fn law_advance_can_be_undone(s: (u64, u64))
    ensures
        ({
            let n = xoroshiro_advance(s);
            let t = (n.1 << 36) | (n.1 >> 28);
            let turned = n.0 ^ t ^ (t << 21);
            let lo = (turned << 15) | (turned >> 49);
            s == (lo, t ^ lo)
        }),
{
    let (a, b) = s;
    assert({
        let p = b ^ a;
        let n0 = ((a << 49) | (a >> 15)) ^ p ^ (p << 21);
        let n1 = (p << 28) | (p >> 36);
        let t = (n1 << 36) | (n1 >> 28);
        let turned = n0 ^ t ^ (t << 21);
        let lo = (turned << 15) | (turned >> 49);
        a == lo && b == t ^ lo
    }) by (bit_vector);
}

/// The seed that SplitMix64 mixes to a word: the steps of the mixing undone in reverse order. The
/// factors are the inverses, modulo `2^64`, of those of the mixing.
pub open spec fn unmixed(w: u64) -> u64 {
    let b = (w ^ (w >> 31) ^ (w >> 62)).wrapping_mul(0x3196_42B2_D24D_8EC3);
    let a = (b ^ (b >> 27) ^ (b >> 54)).wrapping_mul(0x96DE_1B17_3F11_9089);
    a ^ (a >> 30) ^ (a >> 60)
}

proof fn lemma_inverse_factors(a: u64, c: u64, d: u64)
    requires
        (c * d) % 0x1_0000_0000_0000_0000 == 1,
    ensures
        a.wrapping_mul(c).wrapping_mul(d) == a,
{
    let m = 0x1_0000_0000_0000_0000int;
    let p = a.wrapping_mul(c) as int;
    assert(0 <= a * c && 0 <= p * d) by (nonlinear_arith)
        requires
            0 <= p,
    ;
    assert(p == (a * c) % m);
    vstd::arithmetic::div_mod::lemma_mul_mod_noop_left(a * c, d as int, m);
    assert(a * c * d == a * (c * d)) by (nonlinear_arith);
    vstd::arithmetic::div_mod::lemma_mul_mod_noop_right(a as int, c * d, m);
    assert((a * c * d) % m == a);
}

/// The mixing of SplitMix64 loses nothing: the seed can be computed back from what it is mixed to.
pub proof fn law_mixing_can_be_undone(seed: u64)
    ensures
        unmixed(split_mix64_spec(seed)) == seed,
{
    let x = seed ^ (seed >> 30);
    let a = x.wrapping_mul(0xBF58_476D_1CE4_E5B9);
    let y = a ^ (a >> 27);
    let b = y.wrapping_mul(0x94D0_49BB_1331_11EB);
    let w = b ^ (b >> 31);
    assert((b ^ (b >> 31)) ^ ((b ^ (b >> 31)) >> 31) ^ ((b ^ (b >> 31)) >> 62) == b)
        by (bit_vector);
    lemma_inverse_factors(y, 0x94D0_49BB_1331_11EB, 0x3196_42B2_D24D_8EC3);
    assert((a ^ (a >> 27)) ^ ((a ^ (a >> 27)) >> 27) ^ ((a ^ (a >> 27)) >> 54) == a)
        by (bit_vector);
    lemma_inverse_factors(x, 0xBF58_476D_1CE4_E5B9, 0x96DE_1B17_3F11_9089);
    assert((seed ^ (seed >> 30)) ^ ((seed ^ (seed >> 30)) >> 30) ^ ((seed ^ (seed >> 30)) >> 60)
        == seed) by (bit_vector);
    assert(w == split_mix64_spec(seed));
}

/// The world seed can be computed back from the state in which its generator starts: all of its
/// bits go into the low word, and the high word is mixed from a seed that lies a fixed distance
/// from the one of the low word.
pub proof fn law_world_seed_can_be_read_back(seed: i64)
    ensures
        ({
            let s = xoroshiro_seed(seed);
            &&& unmixed(s.0) ^ 0x6A09_E667_F3BC_C909 == seed as u64
            &&& unmixed(s.1) == (unmixed(s.0) + 0x9E37_79B9_7F4A_7C15) % 0x1_0000_0000_0000_0000
        }),
{
    let u = seed as u64;
    let l = u ^ 0x6A09_E667_F3BC_C909u64;
    let m = l.wrapping_add(0x9E37_79B9_7F4A_7C15);
    assert((u ^ 0x6A09_E667_F3BC_C909u64) ^ 0x6A09_E667_F3BC_C909u64 == u) by (bit_vector);
    law_mixing_can_be_undone(l);
    law_mixing_can_be_undone(m);
    assert(l != m);
}

/// Two different world seeds never lead to the same state of a generator.
pub proof fn law_seeding_is_injective(a: i64, b: i64)
    requires
        xoroshiro_seed(a) == xoroshiro_seed(b),
    ensures
        a == b,
{
    law_world_seed_can_be_read_back(a);
    law_world_seed_can_be_read_back(b);
    crate::lanes::lemma_unsigned(a);
    crate::lanes::lemma_unsigned(b);
}

/// A state other than the all-zero one is never replaced.
pub proof fn law_guard_keeps_states(s: (u64, u64))
    ensures
        s != (0u64, 0u64) ==> guarded(s) == s,
        s == (0u64, 0u64) ==> guarded(s) == (0x9E37_79B9_7F4A_7C15u64, 0x6A09_E667_F3BC_C909u64),
{
}

/// The state of a layer's generator, combined with the two numbers that the world's generator gives
/// out first, is the MD5 digest of the layer's name, whatever the world seed is.
pub proof fn law_layer_state_reveals_digest(seed: i64, bt: BedrockType)
    ensures
        ({
            let w = xoroshiro_seed(seed);
            let first = xoroshiro_output(w);
            let second = xoroshiro_output(xoroshiro_advance(w));
            let digest: (u64, u64) = if bt is Floor {
                (0xBBF7_928B_7BF1_D285, 0xC4DC_7CF9_0E1B_3B94)
            } else {
                (0x8EBD_4A1D_131D_71CC, 0xC984_CFBB_684A_26C4)
            };
            let s = layer_state(seed, bt);
            if (first, second) == digest {
                s == (0x9E37_79B9_7F4A_7C15u64, 0x6A09_E667_F3BC_C909u64)
            } else {
                (s.0 ^ first, s.1 ^ second) == digest
            }
        }),
{
    let d = two_outputs(xoroshiro_seed(seed));
    let m = layer_digest(bt);
    let (a, b) = d;
    let (p, q) = m;
    assert((p ^ a) ^ a == p && (q ^ b) ^ b == q && ((p ^ a) == 0 <==> p == a) && ((q ^ b) == 0
        <==> q == b)) by (bit_vector);
}

/// The states of the floor's and of the roof's generator of one world differ in the same bits in
/// every world, save where one of them is the stand-in for the all-zero state.
pub proof fn law_layers_of_a_world_differ_alike(seed: i64)
    requires
        ({
            let s = xoroshiro_seed(seed);
            let d = (xoroshiro_output(s), xoroshiro_output(xoroshiro_advance(s)));
            &&& d != (0xBBF7_928B_7BF1_D285u64, 0xC4DC_7CF9_0E1B_3B94u64)
            &&& d != (0x8EBD_4A1D_131D_71CCu64, 0xC984_CFBB_684A_26C4u64)
        }),
    ensures
        ({
            let f = layer_state(seed, BedrockType::Floor);
            let r = layer_state(seed, BedrockType::Roof);
            &&& f.0 ^ r.0 == 0x354A_D896_68EC_A349
            &&& f.1 ^ r.1 == 0x0D58_B342_6651_1D50
        }),
{
    law_layer_state_reveals_digest(seed, BedrockType::Floor);
    law_layer_state_reveals_digest(seed, BedrockType::Roof);
    let d = two_outputs(xoroshiro_seed(seed));
    let (a, b) = d;
    let (f0, f1) = layer_state(seed, BedrockType::Floor);
    let (r0, r1) = layer_state(seed, BedrockType::Roof);
    assert(f0 ^ r0 == 0x354A_D896_68EC_A349 && f1 ^ r1 == 0x0D58_B342_6651_1D50) by (bit_vector)
        requires
            f0 ^ a == 0xBBF7_928B_7BF1_D285,
            f1 ^ b == 0xC4DC_7CF9_0E1B_3B94,
            r0 ^ a == 0x8EBD_4A1D_131D_71CC,
            r1 ^ b == 0xC984_CFBB_684A_26C4,
    ;
}

/// The seeds of a layer are the two numbers that its generator gives out first, bit by bit: given
/// the state, each of them determines the sum of the state's words from which it was turned.
pub proof fn law_layer_seeds_are_drawn_from_state(seed: i64, bt: BedrockType)
    ensures
        ({
            let s = layer_state(seed, bt);
            let t = xoroshiro_advance(s);
            let m = 0x1_0000_0000_0000_0000int;
            let first = deriver_seeds(seed, bt).0 as u64;
            let second = deriver_seeds(seed, bt).1 as u64;
            let a = (s.0 + s.1) % m;
            let b = (t.0 + t.1) % m;
            &&& first == ((a % 0x8000_0000_0000) * 0x2_0000 + a / 0x8000_0000_0000 + s.0) % m
            &&& second == ((b % 0x8000_0000_0000) * 0x2_0000 + b / 0x8000_0000_0000 + t.0) % m
        }),
{
    let s = layer_state(seed, bt);
    law_output_is_turned_sum(s);
    law_output_is_turned_sum(xoroshiro_advance(s));
    crate::lanes::lemma_signed(xoroshiro_output(s));
    crate::lanes::lemma_signed(xoroshiro_output(xoroshiro_advance(s)));
}

} // verus!
