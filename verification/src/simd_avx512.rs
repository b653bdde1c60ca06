//! The kernel for machines with eight 64-bit lanes and a full lane multiply: eight positions are
//! tested in step.
use vstd::prelude::*;

use crate::blocks::Blocks;
use crate::hash::{position_x_term, position_z_term};
use crate::lanes::set_lane;
use crate::rng::rotl;

verus! {

/// Rotates each lane left by 17 bits.
fn rotl17_epi64(x: &[u64; 8]) -> (r: [u64; 8])
    ensures
        forall|i: int| 0 <= i < 8 ==> #[trigger] r@[i] == crate::rng::rotl_spec(x@[i], 17),
{
    let mut r: [u64; 8] = [0; 8];
    let mut i: usize = 0;
    while i < 8
        invariant
            0 <= i <= 8,
            forall|m: int| 0 <= m < i ==> #[trigger] r@[m] == crate::rng::rotl_spec(x@[m], 17),
        decreases 8 - i,
    {
        r[i] = rotl(x[i], 17);
        i = i + 1;
    }
    r
}

/// The position hash of each lane.
fn math_hash_x8(term_x: &[i32; 8], y: i32, term_z: &[i64; 8]) -> (hash: [i64; 8])
    ensures
        forall|i: int|
            0 <= i < 8 ==> #[trigger] hash@[i] == crate::hash::hash_terms(
                term_x@[i],
                y,
                term_z@[i],
            ),
{
    let mut hash: [i64; 8] = [0; 8];
    let mut i: usize = 0;
    while i < 8
        invariant
            0 <= i <= 8,
            forall|m: int|
                0 <= m < i ==> #[trigger] hash@[m] == crate::hash::hash_terms(
                    term_x@[m],
                    y,
                    term_z@[m],
                ),
        decreases 8 - i,
    {
        let l: i64 = (term_x[i] as i64) ^ term_z[i] ^ (y as i64);
        let inner: i64 = l.wrapping_mul(42_317_861).wrapping_add(11);
        hash[i] = l.wrapping_mul(inner) >> 16;
        i = i + 1;
    }
    hash
}

/// The mask of the lanes at which one block of a pattern finds what it demands.
fn is_bedrock_x8(
    dlo: i64,
    dhi: i64,
    term_x: &[i32; 8],
    y: i32,
    term_z: &[i64; 8],
    prob_threshold: u64,
    sbb_xor: u8,
) -> (mask: u8)
    requires
        sbb_xor == 0 || sbb_xor == 0xFF,
    ensures
        forall|i: int|
            0 <= i < 8 ==> #[trigger] crate::lanes::lane(mask, i) == (
            crate::hash::bedrock_by_terms(term_x@[i], y, term_z@[i], dlo, dhi, prob_threshold) == (
            sbb_xor == 0)),
{
    let hash = math_hash_x8(term_x, y, term_z);
    let mut s0: [u64; 8] = [0; 8];
    let mut sum: [u64; 8] = [0; 8];
    let s1: u64 = dhi as u64;
    let mut i: usize = 0;
    while i < 8
        invariant
            0 <= i <= 8,
            s1 == dhi as u64,
            forall|m: int| 0 <= m < i ==> #[trigger] s0@[m] == (hash@[m] ^ dlo) as u64,
            forall|m: int| 0 <= m < i ==> #[trigger] sum@[m] == s0@[m].wrapping_add(s1),
        decreases 8 - i,
    {
        let w: u64 = (hash[i] ^ dlo) as u64;
        s0[i] = w;
        sum[i] = w.wrapping_add(s1);
        i = i + 1;
    }
    let rotated = rotl17_epi64(&sum);
    let mut bedrock_mask: u8 = 0;
    let mut i: usize = 0;
    proof {
        crate::lanes::lemma_lane_constants();
    }
    while i < 8
        invariant
            0 <= i <= 8,
            s1 == dhi as u64,
            forall|m: int| 0 <= m < 8 ==> #[trigger] s0@[m] == (hash@[m] ^ dlo) as u64,
            forall|m: int| 0 <= m < 8 ==> #[trigger] sum@[m] == s0@[m].wrapping_add(s1),
            forall|m: int|
                0 <= m < 8 ==> #[trigger] rotated@[m] == crate::rng::rotl_spec(sum@[m], 17),
            forall|m: int|
                0 <= m < 8 ==> #[trigger] hash@[m] == crate::hash::hash_terms(
                    term_x@[m],
                    y,
                    term_z@[m],
                ),
            forall|m: int|
                0 <= m < 8 ==> #[trigger] crate::lanes::lane(bedrock_mask, m) == (m < i
                    && crate::hash::bedrock_by_terms(
                    term_x@[m],
                    y,
                    term_z@[m],
                    dlo,
                    dhi,
                    prob_threshold,
                )),
        decreases 8 - i,
    {
        let top24: u64 = rotated[i].wrapping_add(s0[i]) >> 40;
        assert(sum@[i as int] == s0@[i as int].wrapping_add(s1));
        assert(hash@[i as int] == crate::hash::hash_terms(
            term_x@[i as int],
            y,
            term_z@[i as int],
        ));
        if top24 < prob_threshold {
            bedrock_mask = set_lane(bedrock_mask, i as u8);
        }
        i = i + 1;
    }
    proof {
        crate::lanes::lemma_lane_ops(bedrock_mask, 0);
    }
    bedrock_mask ^ sbb_xor
}

/// The terms of the position hash of eight positions.
pub fn position_terms_x8(positions_x: &[i32; 8], positions_z: &[i32; 8]) -> (terms: (
    [i32; 8],
    [i64; 8],
))
    ensures
        forall|i: int|
            0 <= i < 8 ==> #[trigger] terms.0@[i] == crate::hash::x_term(positions_x@[i] as int),
        forall|i: int|
            0 <= i < 8 ==> #[trigger] terms.1@[i] == crate::hash::z_term(positions_z@[i] as int),
{
    let mut ox: [i32; 8] = [0; 8];
    let mut oz: [i64; 8] = [0; 8];
    let mut i: usize = 0;
    while i < 8
        invariant
            0 <= i <= 8,
            forall|m: int|
                0 <= m < i ==> #[trigger] ox@[m] == crate::hash::x_term(positions_x@[m] as int),
            forall|m: int|
                0 <= m < i ==> #[trigger] oz@[m] == crate::hash::z_term(positions_z@[m] as int),
        decreases 8 - i,
    {
        ox[i] = position_x_term(positions_x[i]);
        oz[i] = position_z_term(positions_z[i]);
        i = i + 1;
    }
    (ox, oz)
}

/// The mask of the lanes at whose position a pattern lies.
pub fn check_formation_x8_with_terms(
    ox_term: &[i32; 8],
    oz_term: &[i64; 8],
    dlo: i64,
    dhi: i64,
    blocks: &Blocks,
) -> (mask: u8)
    requires
        blocks.wf(),
    ensures
        forall|i: int|
            0 <= i < 8 ==> #[trigger] crate::lanes::lane(mask, i) == blocks.holds(
                ox_term@[i],
                oz_term@[i],
                dlo,
                dhi,
            ),
{
    let mut active: u8 = 0xFF;
    let n: usize = blocks.y.len();
    let mut b: usize = 0;
    proof {
        crate::lanes::lemma_lane_constants();
    }
    while b < n
        invariant
            0 <= b <= n,
            n == blocks.count(),
            blocks.wf(),
            forall|i: int|
                0 <= i < 8 ==> #[trigger] crate::lanes::lane(active, i) == (forall|m: int|
                    0 <= m < b ==> #[trigger] blocks.block_holds(
                        m,
                        ox_term@[i],
                        oz_term@[i],
                        dlo,
                        dhi,
                    )),
        decreases n - b,
    {
        let y: i32 = match blocks.uniform_y {
            Some(y) => y,
            None => blocks.y[b],
        };
        let threshold: u64 = match blocks.uniform_threshold {
            Some(t) => t,
            None => blocks.prob_threshold[b],
        };
        assert(y == blocks.y@[b as int]);
        assert(threshold == blocks.prob_threshold@[b as int]);
        let bx: i32 = blocks.bx_hash_term[b];
        let bz: i64 = blocks.bz_hash_term[b];
        let mut term_x: [i32; 8] = [0; 8];
        let mut term_z: [i64; 8] = [0; 8];
        let mut i: usize = 0;
        while i < 8
            invariant
                0 <= i <= 8,
                forall|m: int| 0 <= m < i ==> #[trigger] term_x@[m] == ox_term@[m].wrapping_add(bx),
                forall|m: int| 0 <= m < i ==> #[trigger] term_z@[m] == oz_term@[m].wrapping_add(bz),
            decreases 8 - i,
        {
            term_x[i] = ox_term[i].wrapping_add(bx);
            term_z[i] = oz_term[i].wrapping_add(bz);
            i = i + 1;
        }
        let sbb: u8 = blocks.sbb_xor[b];
        let passed: u8 = is_bedrock_x8(dlo, dhi, &term_x, y, &term_z, threshold, sbb);
        let ghost before = active;
        active = active & passed;
        proof {
            crate::lanes::lemma_lane_ops(before, passed);
            assert forall|i: int| 0 <= i < 8 implies #[trigger] crate::lanes::lane(active, i) == (
            forall|m: int|
                0 <= m < b + 1 ==> #[trigger] blocks.block_holds(
                    m,
                    ox_term@[i],
                    oz_term@[i],
                    dlo,
                    dhi,
                )) by {
                assert(term_x@[i] == ox_term@[i].wrapping_add(bx));
                assert(term_z@[i] == oz_term@[i].wrapping_add(bz));
                assert(crate::lanes::lane(passed, i) == blocks.block_holds(
                    b as int,
                    ox_term@[i],
                    oz_term@[i],
                    dlo,
                    dhi,
                ));
            }
            crate::lanes::lemma_mask_zero(active);
        }
        if active == 0 {
            assert forall|i: int| 0 <= i < 8 implies #[trigger] crate::lanes::lane(0, i)
                == blocks.holds(ox_term@[i], oz_term@[i], dlo, dhi) by {
                assert(!crate::lanes::lane(active, i));
            }
            return 0;
        }
        b = b + 1;
    }
    active
}

} // verus!
