//! The kernel for machines with four 64-bit lanes and only a 32-bit lane multiply: eight positions
//! are tested as two halves of four. Words are kept as unsigned bit patterns.
use vstd::prelude::*;

use crate::blocks::Blocks;
use crate::hash::{position_x_term, K_Z};
use crate::lanes::set_lane;
use crate::rng::rotl;

verus! {

/// The product of the low halves of two words.
fn mul_epu32(a: u64, b: u64) -> (r: u64)
    ensures
        r == (a % 0x1_0000_0000) * (b % 0x1_0000_0000),
{
    assert(a & 0xFFFF_FFFF == a % 0x1_0000_0000) by (bit_vector);
    assert(b & 0xFFFF_FFFF == b % 0x1_0000_0000) by (bit_vector);
    assert((a % 0x1_0000_0000) * (b % 0x1_0000_0000) <= 0xFFFF_FFFF * 0xFFFF_FFFF)
        by (nonlinear_arith);
    (a & 0xFFFF_FFFF) * (b & 0xFFFF_FFFF)
}

/// The low 64 bits of a product, from the products of the factors' halves.
proof fn lemma_schoolbook(a: int, b: int, cross: int)
    requires
        0 <= a,
        0 <= b,
        cross % 0x1_0000_0000 == ((a / 0x1_0000_0000) * (b % 0x1_0000_0000) + (a % 0x1_0000_0000)
            * (b / 0x1_0000_0000)) % 0x1_0000_0000,
    ensures
        ((a % 0x1_0000_0000) * (b % 0x1_0000_0000) + (cross % 0x1_0000_0000) * 0x1_0000_0000)
            % 0x1_0000_0000_0000_0000 == (a * b) % 0x1_0000_0000_0000_0000,
{
    let m = 0x1_0000_0000int;
    let al = a % m;
    let ah = a / m;
    let bl = b % m;
    let bh = b / m;
    let x = ah * bl + al * bh;
    let q = x / m;
    assert(x == m * q + cross % m);
    assert(a == m * ah + al && b == m * bh + bl);
    let c = cross % m;
    assert(a * b == (m * ah) * (m * bh) + (m * ah) * bl + al * (m * bh) + al * bl)
        by (nonlinear_arith)
        requires
            a == m * ah + al,
            b == m * bh + bl,
    ;
    assert((m * ah) * (m * bh) == (ah * bh) * (m * m)) by (nonlinear_arith);
    assert((m * ah) * bl + al * (m * bh) == m * x) by (nonlinear_arith)
        requires
            x == ah * bl + al * bh,
    ;
    assert(m * x == q * (m * m) + c * m) by (nonlinear_arith)
        requires
            x == m * q + c,
    ;
    assert((ah * bh) * (m * m) + q * (m * m) == (ah * bh + q) * (m * m)) by (nonlinear_arith);
    vstd::arithmetic::div_mod::lemma_mod_multiples_vanish(
        ah * bh + q,
        al * bl + (cross % m) * m,
        m * m,
    );
}

/// The low 64 bits of the product of two words, by 32-bit multiplications.
fn mullo_lane(a: u64, b: u64) -> (r: u64)
    ensures
        r == a.wrapping_mul(b),
{
    let a_hi: u64 = a >> 32;
    let b_hi: u64 = b >> 32;
    assert(a >> 32 == a / 0x1_0000_0000) by (bit_vector);
    assert(b >> 32 == b / 0x1_0000_0000) by (bit_vector);
    let lo_lo: u64 = mul_epu32(a, b);
    let hi_lo: u64 = mul_epu32(a_hi, b);
    let lo_hi: u64 = mul_epu32(a, b_hi);
    let cross: u64 = hi_lo.wrapping_add(lo_hi);
    let shifted: u64 = cross << 32;
    assert(cross << 32 == (cross % 0x1_0000_0000) * 0x1_0000_0000) by (bit_vector);
    proof {
        assert(a_hi % 0x1_0000_0000 == a / 0x1_0000_0000);
        assert(b_hi % 0x1_0000_0000 == b / 0x1_0000_0000);
        lemma_schoolbook(a as int, b as int, cross as int);
    }
    lo_lo.wrapping_add(shifted)
}

/// The low 64 bits of the product of a word with a factor below `2^32`.
fn mullo_lane_small_b(a: u64, b: u64) -> (r: u64)
    requires
        b < 0x1_0000_0000,
    ensures
        r == a.wrapping_mul(b),
{
    let a_hi: u64 = a >> 32;
    assert(a >> 32 == a / 0x1_0000_0000) by (bit_vector);
    let lo_lo: u64 = mul_epu32(a, b);
    let cross: u64 = mul_epu32(a_hi, b);
    let shifted: u64 = cross << 32;
    assert(cross << 32 == (cross % 0x1_0000_0000) * 0x1_0000_0000) by (bit_vector);
    proof {
        assert(a_hi % 0x1_0000_0000 == a / 0x1_0000_0000);
        assert(b / 0x1_0000_0000 == 0);
        assert((a % 0x1_0000_0000) * 0 == 0) by (nonlinear_arith);
        lemma_schoolbook(a as int, b as int, cross as int);
    }
    lo_lo.wrapping_add(shifted)
}

/// The low 64 bits of the product of each lane.
fn mullo_epi64(a: &[u64; 4], b: &[u64; 4]) -> (r: [u64; 4])
    ensures
        forall|i: int| 0 <= i < 4 ==> #[trigger] r@[i] == a@[i].wrapping_mul(b@[i]),
{
    [
        mullo_lane(a[0], b[0]),
        mullo_lane(a[1], b[1]),
        mullo_lane(a[2], b[2]),
        mullo_lane(a[3], b[3]),
    ]
}

/// The low 64 bits of the product of each lane with a factor below `2^32`.
fn mullo_epi64_small_b(a: &[u64; 4], b: u64) -> (r: [u64; 4])
    requires
        b < 0x1_0000_0000,
    ensures
        forall|i: int| 0 <= i < 4 ==> #[trigger] r@[i] == a@[i].wrapping_mul(b),
{
    [
        mullo_lane_small_b(a[0], b),
        mullo_lane_small_b(a[1], b),
        mullo_lane_small_b(a[2], b),
        mullo_lane_small_b(a[3], b),
    ]
}

/// Rotates each lane left by 17 bits.
fn rotl17_epi64(x: &[u64; 4]) -> (r: [u64; 4])
    ensures
        forall|i: int| 0 <= i < 4 ==> #[trigger] r@[i] == crate::rng::rotl_spec(x@[i], 17),
{
    [rotl(x[0], 17), rotl(x[1], 17), rotl(x[2], 17), rotl(x[3], 17)]
}

/// Shifts a word right by 16 bits and repeats its sign bit, by a logical shift and a mask.
fn srai16_lane(l: u64) -> (r: u64)
    ensures
        r == ((l as i64) >> 16) as u64,
{
    let logical: u64 = l >> 16;
    let sign_mask: u64 = if (l as i64) < 0 {
        0xFFFF_FFFF_FFFF_FFFF
    } else {
        0
    };
    let top16: u64 = sign_mask & 0xFFFF_0000_0000_0000;
    assert((l >> 16) | ((if (l as i64) < 0 {
        0xFFFF_FFFF_FFFF_FFFFu64
    } else {
        0u64
    }) & 0xFFFF_0000_0000_0000) == ((l as i64) >> 16) as u64) by (bit_vector);
    logical | top16
}

/// The position hash of each lane.
fn math_hash_x4_precomputed(x_term: &[i32; 4], y: i32, term_z: &[u64; 4]) -> (hash: [u64; 4])
    ensures
        forall|i: int|
            0 <= i < 4 ==> #[trigger] hash@[i] == crate::hash::hash_terms(
                x_term@[i],
                y,
                term_z@[i] as i64,
            ) as u64,
{
    let y64: u64 = (y as i64) as u64;
    let l: [u64; 4] = [
        ((x_term[0] as i64) as u64) ^ term_z[0] ^ y64,
        ((x_term[1] as i64) as u64) ^ term_z[1] ^ y64,
        ((x_term[2] as i64) as u64) ^ term_z[2] ^ y64,
        ((x_term[3] as i64) as u64) ^ term_z[3] ^ y64,
    ];
    let scaled = mullo_epi64_small_b(&l, 42_317_861);
    let inner: [u64; 4] = [
        scaled[0].wrapping_add(11),
        scaled[1].wrapping_add(11),
        scaled[2].wrapping_add(11),
        scaled[3].wrapping_add(11),
    ];
    let mixed = mullo_epi64(&l, &inner);
    let hash: [u64; 4] = [
        srai16_lane(mixed[0]),
        srai16_lane(mixed[1]),
        srai16_lane(mixed[2]),
        srai16_lane(mixed[3]),
    ];
    proof {
        assert forall|i: int| 0 <= i < 4 implies #[trigger] hash@[i] == crate::hash::hash_terms(
            x_term@[i],
            y,
            term_z@[i] as i64,
        ) as u64 by {
            assert(i == 0 || i == 1 || i == 2 || i == 3);
            assert(scaled@[i] == l@[i].wrapping_mul(42_317_861));
            assert(inner@[i] == scaled@[i].wrapping_add(11));
            assert(mixed@[i] == l@[i].wrapping_mul(inner@[i]));
            assert(hash@[i] == ((mixed@[i] as i64) >> 16) as u64);
            lemma_hash_lane(x_term@[i], y, term_z@[i], l@[i], scaled@[i], inner@[i], mixed@[i]);
        }
    }
    hash
}

/// The steps of the position hash on unsigned words lead to the hash of the signed ones.
proof fn lemma_hash_lane(x: i32, y: i32, z: u64, l: u64, scaled: u64, inner: u64, mixed: u64)
    requires
        l == ((x as i64) as u64) ^ z ^ ((y as i64) as u64),
        scaled == l.wrapping_mul(42_317_861),
        inner == scaled.wrapping_add(11),
        mixed == l.wrapping_mul(inner),
    ensures
        ((mixed as i64) >> 16) == crate::hash::hash_terms(x, y, z as i64),
{
    let sl = (x as i64) ^ (z as i64) ^ (y as i64);
    crate::lanes::lemma_signed(z);
    crate::lanes::lemma_unsigned_ops(x as i64, z as i64);
    crate::lanes::lemma_unsigned_ops((x as i64) ^ (z as i64), y as i64);
    assert(sl as u64 == l);
    let ss = sl.wrapping_mul(42_317_861);
    crate::lanes::lemma_unsigned_ops(sl, 42_317_861);
    crate::lanes::lemma_unsigned(42_317_861);
    assert(ss as u64 == scaled);
    let si = ss.wrapping_add(11);
    crate::lanes::lemma_unsigned_ops(ss, 11);
    crate::lanes::lemma_unsigned(11);
    assert(si as u64 == inner);
    let sm = sl.wrapping_mul(si);
    crate::lanes::lemma_unsigned_ops(sl, si);
    assert(sm as u64 == mixed);
    crate::lanes::lemma_unsigned(sm);
}

/// The mask of the lanes at which one block of a pattern finds what it demands. Only the low four
/// lanes of the mask mean anything.
fn is_bedrock_x4_precomputed(
    dlo: i64,
    dhi: i64,
    x_term: &[i32; 4],
    y: i32,
    term_z: &[u64; 4],
    prob_threshold: u64,
    sbb_xor: u8,
) -> (mask: u8)
    requires
        sbb_xor == 0 || sbb_xor == 0xFF,
    ensures
        forall|i: int|
            0 <= i < 4 ==> #[trigger] crate::lanes::lane(mask, i) == (
            crate::hash::bedrock_by_terms(
                x_term@[i],
                y,
                term_z@[i] as i64,
                dlo,
                dhi,
                prob_threshold,
            ) == (sbb_xor == 0)),
{
    let hash = math_hash_x4_precomputed(x_term, y, term_z);
    let d0: u64 = dlo as u64;
    let s1: u64 = dhi as u64;
    let s0: [u64; 4] = [hash[0] ^ d0, hash[1] ^ d0, hash[2] ^ d0, hash[3] ^ d0];
    let sum: [u64; 4] = [
        s0[0].wrapping_add(s1),
        s0[1].wrapping_add(s1),
        s0[2].wrapping_add(s1),
        s0[3].wrapping_add(s1),
    ];
    let rotated = rotl17_epi64(&sum);
    let result: [u64; 4] = [
        rotated[0].wrapping_add(s0[0]),
        rotated[1].wrapping_add(s0[1]),
        rotated[2].wrapping_add(s0[2]),
        rotated[3].wrapping_add(s0[3]),
    ];
    let mut bedrock_mask: u8 = 0;
    let mut i: usize = 0;
    let ghost found = Seq::new(
        4,
        |m: int|
            crate::hash::bedrock_by_terms(
                x_term@[m],
                y,
                term_z@[m] as i64,
                dlo,
                dhi,
                prob_threshold,
            ),
    );
    proof {
        crate::lanes::lemma_lane_constants();
        assert forall|m: int| 0 <= m < 4 implies (#[trigger] result@[m] >> 40 < prob_threshold)
            == found[m] by {
            assert(m == 0 || m == 1 || m == 2 || m == 3);
            let h = crate::hash::hash_terms(x_term@[m], y, term_z@[m] as i64);
            assert(hash@[m] == h as u64);
            crate::lanes::lemma_unsigned_ops(h, dlo);
            assert(s0@[m] == (h ^ dlo) as u64);
            assert(rotated@[m] == crate::rng::rotl_spec(sum@[m], 17));
        }
    }
    while i < 4
        invariant
            0 <= i <= 4,
            found.len() == 4,
            forall|m: int|
                0 <= m < 4 ==> (#[trigger] result@[m] >> 40 < prob_threshold) == found[m],
            forall|m: int|
                0 <= m < 8 ==> #[trigger] crate::lanes::lane(bedrock_mask, m) == (m < i
                    && found[m]),
        decreases 4 - i,
    {
        let top24: u64 = result[i] >> 40;
        assert((result@[i as int] >> 40 < prob_threshold) == found[i as int]);
        if top24 < prob_threshold {
            bedrock_mask = set_lane(bedrock_mask, i as u8);
        }
        i = i + 1;
    }
    proof {
        crate::lanes::lemma_lane_ops(bedrock_mask, 0);
    }
    bedrock_mask ^ sbb_xor
}

/// Fills `xs` and `zs` with eight positions along one leg of the spiral, the first of which is
/// `(x_g, z_g)`.
pub fn fill_group_uniform(
    x_g: i32,
    z_g: i32,
    dx: i32,
    dz: i32,
    xs: &mut [i32; 8],
    zs: &mut [i32; 8],
)
    requires
        (dx, dz) == (1i32, 0i32) || (dx, dz) == (-1i32, 0i32) || (dx, dz) == (0i32, 1i32) || (
        dx,
        dz,
    ) == (0i32, -1i32),
        i32::MIN <= x_g + 7 * dx <= i32::MAX,
        i32::MIN <= z_g + 7 * dz <= i32::MAX,
    ensures
        forall|i: int| 0 <= i < 8 ==> #[trigger] final(xs)@[i] == x_g + i * dx,
        forall|i: int| 0 <= i < 8 ==> #[trigger] final(zs)@[i] == z_g + i * dz,
{
    let mut i: i32 = 0;
    while i < 8
        invariant
            0 <= i <= 8,
            (dx, dz) == (1i32, 0i32) || (dx, dz) == (-1i32, 0i32) || (dx, dz) == (0i32, 1i32) || (
            dx,
            dz,
        ) == (0i32, -1i32),
            i32::MIN <= x_g + 7 * dx <= i32::MAX,
            i32::MIN <= z_g + 7 * dz <= i32::MAX,
            xs@.len() == 8,
            zs@.len() == 8,
            forall|m: int| 0 <= m < i ==> #[trigger] xs@[m] == x_g + m * dx,
            forall|m: int| 0 <= m < i ==> #[trigger] zs@[m] == z_g + m * dz,
        decreases 8 - i,
    {
        assert(i * 1 == i && i * (-1) == -i && i * 0 == 0) by (nonlinear_arith);
        if dx == 1 {
            xs[i as usize] = x_g + i;
            zs[i as usize] = z_g;
        } else if dx == -1 {
            xs[i as usize] = x_g - i;
            zs[i as usize] = z_g;
        } else if dz == 1 {
            xs[i as usize] = x_g;
            zs[i as usize] = z_g + i;
        } else {
            xs[i as usize] = x_g;
            zs[i as usize] = z_g - i;
        }
        i = i + 1;
    }
}

/// The z term of a position, by 32-bit multiplications.
fn z_term_lane(z: i32) -> (t: u64)
    ensures
        t as i64 == crate::hash::z_term(z as int),
        t == crate::hash::z_term(z as int) as u64,
{
    let t: u64 = mullo_lane_small_b((z as i64) as u64, K_Z as u64);
    proof {
        crate::lanes::lemma_unsigned_ops(z as i64, K_Z);
        crate::lanes::lemma_unsigned(K_Z);
        assert(i64::MIN <= z * K_Z <= i64::MAX) by (nonlinear_arith)
            requires
                i32::MIN <= z <= i32::MAX,
        ;
        assert((z as i64).wrapping_mul(K_Z) == crate::hash::z_term(z as int));
        crate::lanes::lemma_unsigned(crate::hash::z_term(z as int));
    }
    t
}

/// The terms of the position hash of eight positions: the x terms of the low and of the high half,
/// then the z terms of both, as bit patterns.
pub fn position_terms_x8_avx2(positions_x: &[i32; 8], positions_z: &[i32; 8]) -> (terms: (
    [i32; 4],
    [i32; 4],
    [u64; 4],
    [u64; 4],
))
    ensures
        forall|i: int|
            0 <= i < 4 ==> #[trigger] terms.0@[i] == crate::hash::x_term(positions_x@[i] as int),
        forall|i: int|
            0 <= i < 4 ==> #[trigger] terms.1@[i] == crate::hash::x_term(
                positions_x@[i + 4] as int,
            ),
        forall|i: int|
            0 <= i < 4 ==> #[trigger] terms.2@[i] as i64 == crate::hash::z_term(
                positions_z@[i] as int,
            ),
        forall|i: int|
            0 <= i < 4 ==> #[trigger] terms.3@[i] as i64 == crate::hash::z_term(
                positions_z@[i + 4] as int,
            ),
{
    let ox_lo: [i32; 4] = [
        position_x_term(positions_x[0]),
        position_x_term(positions_x[1]),
        position_x_term(positions_x[2]),
        position_x_term(positions_x[3]),
    ];
    let ox_hi: [i32; 4] = [
        position_x_term(positions_x[4]),
        position_x_term(positions_x[5]),
        position_x_term(positions_x[6]),
        position_x_term(positions_x[7]),
    ];
    let oz_lo: [u64; 4] = [
        z_term_lane(positions_z[0]),
        z_term_lane(positions_z[1]),
        z_term_lane(positions_z[2]),
        z_term_lane(positions_z[3]),
    ];
    let oz_hi: [u64; 4] = [
        z_term_lane(positions_z[4]),
        z_term_lane(positions_z[5]),
        z_term_lane(positions_z[6]),
        z_term_lane(positions_z[7]),
    ];
    (ox_lo, ox_hi, oz_lo, oz_hi)
}

/// The terms of four positions with those of a block added.
fn add_block_terms(ox: &[i32; 4], oz: &[u64; 4], bx: i32, bz: i64) -> (terms: ([i32; 4], [u64; 4]))
    ensures
        forall|i: int| 0 <= i < 4 ==> #[trigger] terms.0@[i] == ox@[i].wrapping_add(bx),
        forall|i: int|
            0 <= i < 4 ==> #[trigger] terms.1@[i] as i64 == (oz@[i] as i64).wrapping_add(bz),
{
    let bzu: u64 = bz as u64;
    let x: [i32; 4] = [
        ox[0].wrapping_add(bx),
        ox[1].wrapping_add(bx),
        ox[2].wrapping_add(bx),
        ox[3].wrapping_add(bx),
    ];
    let z: [u64; 4] = [
        oz[0].wrapping_add(bzu),
        oz[1].wrapping_add(bzu),
        oz[2].wrapping_add(bzu),
        oz[3].wrapping_add(bzu),
    ];
    proof {
        assert forall|i: int| 0 <= i < 4 implies #[trigger] z@[i] as i64 == (
        oz@[i] as i64).wrapping_add(bz) by {
            assert(i == 0 || i == 1 || i == 2 || i == 3);
            let s = oz@[i] as i64;
            crate::lanes::lemma_signed(oz@[i]);
            crate::lanes::lemma_unsigned_ops(s, bz);
            crate::lanes::lemma_unsigned(s.wrapping_add(bz));
        }
    }
    (x, z)
}

/// The lanes of `active` are those of four positions at which the first `b` blocks hold.
spec fn half_active(
    active: u8,
    blocks: Blocks,
    b: int,
    ox: Seq<i32>,
    oz: Seq<u64>,
    dlo: i64,
    dhi: i64,
) -> bool {
    &&& forall|i: int|
        0 <= i < 4 ==> #[trigger] crate::lanes::lane(active, i) == (forall|m: int|
            0 <= m < b ==> #[trigger] blocks.block_holds(m, ox[i], oz[i] as i64, dlo, dhi))
    &&& forall|i: int| 4 <= i < 8 ==> !#[trigger] crate::lanes::lane(active, i)
}

/// Drops from `active` the lanes at which block `b` does not hold.
fn narrow_half(
    active: u8,
    b: usize,
    y: i32,
    threshold: u64,
    ox: &[i32; 4],
    oz: &[u64; 4],
    dlo: i64,
    dhi: i64,
    blocks: &Blocks,
) -> (r: u8)
    requires
        blocks.wf(),
        b < blocks.count(),
        y == blocks.y@[b as int],
        threshold == blocks.prob_threshold@[b as int],
        half_active(active, *blocks, b as int, ox@, oz@, dlo, dhi),
    ensures
        half_active(r, *blocks, b + 1, ox@, oz@, dlo, dhi),
{
    let bx: i32 = blocks.bx_hash_term[b];
    let bz: i64 = blocks.bz_hash_term[b];
    let sbb: u8 = blocks.sbb_xor[b];
    let (term_x, term_z) = add_block_terms(ox, oz, bx, bz);
    let passed: u8 = is_bedrock_x4_precomputed(dlo, dhi, &term_x, y, &term_z, threshold, sbb);
    let r: u8 = active & passed;
    proof {
        crate::lanes::lemma_lane_ops(active, passed);
        assert forall|i: int| 0 <= i < 4 implies #[trigger] crate::lanes::lane(r, i) == (forall|
            m: int,
        |
            0 <= m < b + 1 ==> #[trigger] blocks.block_holds(
                m,
                ox@[i],
                oz@[i] as i64,
                dlo,
                dhi,
            )) by {
            assert(term_x@[i] == ox@[i].wrapping_add(bx));
            assert(term_z@[i] as i64 == (oz@[i] as i64).wrapping_add(bz));
            assert(crate::lanes::lane(passed, i) == blocks.block_holds(
                b as int,
                ox@[i],
                oz@[i] as i64,
                dlo,
                dhi,
            ));
        }
    }
    r
}

/// The mask of the lanes at whose position a pattern lies.
pub fn check_formation_x8_avx2_with_terms(
    ox_lo: &[i32; 4],
    ox_hi: &[i32; 4],
    oz_lo: &[u64; 4],
    oz_hi: &[u64; 4],
    dlo: i64,
    dhi: i64,
    blocks: &Blocks,
) -> (mask: u8)
    requires
        blocks.wf(),
    ensures
        forall|i: int|
            0 <= i < 4 ==> #[trigger] crate::lanes::lane(mask, i) == blocks.holds(
                ox_lo@[i],
                oz_lo@[i] as i64,
                dlo,
                dhi,
            ),
        forall|i: int|
            4 <= i < 8 ==> #[trigger] crate::lanes::lane(mask, i) == blocks.holds(
                ox_hi@[i - 4],
                oz_hi@[i - 4] as i64,
                dlo,
                dhi,
            ),
{
    let mut active_lo: u8 = 0x0F;
    let mut active_hi: u8 = 0x0F;
    let n: usize = blocks.y.len();
    let mut b: usize = 0;
    proof {
        crate::lanes::lemma_lane_constants();
    }
    while b < n
        invariant
            0 <= b <= n,
            n == blocks.count(),
            blocks.wf(),
            half_active(active_lo, *blocks, b as int, ox_lo@, oz_lo@, dlo, dhi),
            half_active(active_hi, *blocks, b as int, ox_hi@, oz_hi@, dlo, dhi),
        decreases n - b,
    {
        let y: i32 = match blocks.uniform_y {
            Some(y) => y,
            None => blocks.y[b],
        };
        let threshold: u64 = match blocks.uniform_threshold {
            Some(t) => t,
            None => blocks.prob_threshold[b],
        };
        active_lo = narrow_half(active_lo, b, y, threshold, ox_lo, oz_lo, dlo, dhi, blocks);
        active_hi = narrow_half(active_hi, b, y, threshold, ox_hi, oz_hi, dlo, dhi, blocks);
        if (active_lo | active_hi) == 0 {
            proof {
                crate::lanes::lemma_lane_constants();
                assert(active_lo == 0 && active_hi == 0) by (bit_vector)
                    requires
                        (active_lo | active_hi) == 0,
                ;
                assert forall|i: int| 0 <= i < 4 implies #[trigger] crate::lanes::lane(0, i)
                    == blocks.holds(ox_lo@[i], oz_lo@[i] as i64, dlo, dhi) by {
                    assert(!crate::lanes::lane(active_lo, i));
                }
                assert forall|i: int| 4 <= i < 8 implies #[trigger] crate::lanes::lane(0, i)
                    == blocks.holds(ox_hi@[i - 4], oz_hi@[i - 4] as i64, dlo, dhi) by {
                    assert(!crate::lanes::lane(active_hi, i - 4));
                }
            }
            return 0;
        }
        b = b + 1;
    }
    proof {
        crate::lanes::lemma_lane_join(active_lo, active_hi);
    }
    active_lo | (active_hi << 4)
}

} // verus!
