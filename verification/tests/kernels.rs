//! Testing eight positions at once gives what testing them one by one gives.
use bedrockformation::bedrock::{compute_probability, prob_to_threshold, BedrockType, Block};
use bedrockformation::blocks::{check_formation_with_terms, Blocks};
use bedrockformation::hash::{is_bedrock_by_terms, position_x_term, position_z_term};
use bedrockformation::lanes::set_lane;
use bedrockformation::rng::compute_deriver_seeds;
use bedrockformation::simd_avx2::{
    check_formation_x8_avx2_with_terms, fill_group_uniform, position_terms_x8_avx2,
};
use bedrockformation::simd_avx512::{check_formation_x8_with_terms, position_terms_x8};

fn block(x: i32, y: i32, z: i32, should_be_bedrock: bool) -> Block {
    let probability = compute_probability(y, BedrockType::Floor);
    Block { x, y, z, should_be_bedrock, probability, prob_threshold: prob_to_threshold(probability) }
}

fn satisfied(b: &Block, x: i32, z: i32, seeds: (i64, i64)) -> bool {
    is_bedrock_by_terms(
        position_x_term(x + b.x),
        b.y,
        position_z_term(z + b.z),
        seeds.0,
        seeds.1,
        b.prob_threshold,
    ) == b.should_be_bedrock
}

#[test]
fn lanes_are_set() {
    assert_eq!(set_lane(0, 0), 1);
    assert_eq!(set_lane(0b1000_0001, 3), 0b1000_1001);
    assert_eq!(set_lane(0xFF, 7), 0xFF);
}

#[test]
fn arrays_of_a_pattern() {
    let v = vec![block(1, -63, 2, true), block(-1, -63, 0, false)];
    let b = Blocks::from_vec(&v);
    assert_eq!(b.y, vec![-63, -63]);
    assert_eq!(b.sbb_xor, vec![0x00, 0xFF]);
    assert_eq!(b.prob_threshold, vec![13421772, 13421772]);
    assert_eq!(b.bx_hash_term, vec![3129871, -3129871]);
    assert_eq!(b.bz_hash_term, vec![232259562, 0]);
    assert_eq!(b.uniform_y, Some(-63));
    assert_eq!(b.uniform_threshold, Some(13421772));
    let mixed = Blocks::from_vec(&vec![block(0, -63, 0, true), block(0, -62, 0, true)]);
    assert_eq!(mixed.uniform_y, None);
    assert_eq!(mixed.uniform_threshold, None);
}

#[test]
fn empty_pattern_lies_everywhere() {
    let b = Blocks::from_vec(&Vec::new());
    assert!(check_formation_with_terms(1, 2, 3, 4, &b));
}

#[test]
fn uniform_groups() {
    let mut xs = [0i32; 8];
    let mut zs = [0i32; 8];
    fill_group_uniform(-3, 9, 1, 0, &mut xs, &mut zs);
    assert_eq!(xs, [-3, -2, -1, 0, 1, 2, 3, 4]);
    assert_eq!(zs, [9; 8]);
    fill_group_uniform(-3, 9, 0, -1, &mut xs, &mut zs);
    assert_eq!(xs, [-3; 8]);
    assert_eq!(zs, [9, 8, 7, 6, 5, 4, 3, 2]);
}

#[test]
fn all_kernels_agree() {
    let seeds = compute_deriver_seeds(124352345, BedrockType::Floor);
    let patterns = vec![
        vec![block(0, -61, 0, true)],
        vec![block(0, -62, 0, true), block(1, -62, 0, false)],
        vec![block(0, -63, 0, true), block(1, -62, 0, true), block(0, -63, 1, false)],
        vec![block(3, -60, -2, false), block(-4, -60, 5, false), block(2, -61, 2, false)],
    ];
    let mut matches = 0;
    for v in &patterns {
        let b = Blocks::from_vec(v);
        for row in -20..20i32 {
            let mut xs = [0i32; 8];
            let mut zs = [0i32; 8];
            for p in 0..8i32 {
                xs[p as usize] = 1_000_003 * p - row;
                zs[p as usize] = 77 * row - 30_000_000 + p;
            }
            let (ox, oz) = position_terms_x8(&xs, &zs);
            let wide = check_formation_x8_with_terms(&ox, &oz, seeds.0, seeds.1, &b);
            let (xl, xh, zl, zh) = position_terms_x8_avx2(&xs, &zs);
            let narrow =
                check_formation_x8_avx2_with_terms(&xl, &xh, &zl, &zh, seeds.0, seeds.1, &b);
            for p in 0..8usize {
                let one = check_formation_with_terms(
                    position_x_term(xs[p]),
                    position_z_term(zs[p]),
                    seeds.0,
                    seeds.1,
                    &b,
                );
                let expected = v.iter().all(|b| satisfied(b, xs[p], zs[p], seeds));
                assert_eq!(one, expected);
                assert_eq!((wide >> p) & 1 == 1, expected);
                assert_eq!((narrow >> p) & 1 == 1, expected);
                if expected {
                    matches += 1;
                }
            }
        }
    }
    assert!(matches > 100);
}
