//! The rotations of a pattern.
use bedrockformation::bedrock::{compute_probability, prob_to_threshold, BedrockType, Block};
use bedrockformation::rotations::{generate_rotations, rotate_blocks, rotations_fit};

fn block(x: i32, y: i32, z: i32, should_be_bedrock: bool) -> Block {
    let probability = compute_probability(y, BedrockType::Floor);
    Block { x, y, z, should_be_bedrock, probability, prob_threshold: prob_to_threshold(probability) }
}

fn keys(v: &Vec<Block>) -> Vec<(i32, i32, i32, bool)> {
    v.iter().map(|b| (b.x, b.y, b.z, b.should_be_bedrock)).collect()
}

fn sorted(v: &Vec<Block>) -> Vec<(i32, i32, i32, bool)> {
    let mut k = keys(v);
    k.sort();
    k
}

fn corner() -> Vec<Block> {
    vec![block(5, -63, 7, true), block(6, -62, 7, false), block(7, -61, 7, true), block(5, -60, 8, true)]
}

#[test]
fn quarter_turns() {
    let v = corner();
    assert_eq!(
        keys(&rotate_blocks(&v, 0)),
        vec![(0, -63, 0, true), (1, -62, 0, false), (2, -61, 0, true), (0, -60, 1, true)]
    );
    assert_eq!(
        keys(&rotate_blocks(&v, 1)),
        vec![(1, -63, 0, true), (1, -62, 1, false), (1, -61, 2, true), (0, -60, 0, true)]
    );
    assert_eq!(
        keys(&rotate_blocks(&v, 2)),
        vec![(2, -63, 1, true), (1, -62, 1, false), (0, -61, 1, true), (2, -60, 0, true)]
    );
    assert_eq!(
        keys(&rotate_blocks(&v, 3)),
        vec![(0, -63, 2, true), (0, -62, 1, false), (0, -61, 0, true), (1, -60, 2, true)]
    );
    assert_eq!(rotate_blocks(&v, 7), rotate_blocks(&v, 3));
}

#[test]
fn turns_keep_the_demand() {
    let v = corner();
    let w = rotate_blocks(&v, 1);
    for i in 0..v.len() {
        assert_eq!(w[i].probability, v[i].probability);
        assert_eq!(w[i].prob_threshold, v[i].prob_threshold);
    }
}

#[test]
fn empty_pattern_stays_empty() {
    assert_eq!(rotate_blocks(&Vec::new(), 1), Vec::new());
    assert_eq!(generate_rotations(Vec::new()), vec![Vec::new()]);
}

#[test]
fn turns_add_up() {
    let v = corner();
    for a in 0..4u8 {
        for b in 0..4u8 {
            assert_eq!(rotate_blocks(&rotate_blocks(&v, a), b), rotate_blocks(&v, a + b));
        }
    }
}

#[test]
fn rotated_patterns_start_at_zero() {
    for t in 0..4u8 {
        let w = rotate_blocks(&corner(), t);
        assert_eq!(w.iter().map(|b| b.x).min(), Some(0));
        assert_eq!(w.iter().map(|b| b.z).min(), Some(0));
    }
}

#[test]
fn pattern_without_symmetry_has_four_rotations() {
    let v = corner();
    let r = generate_rotations(v.clone());
    assert_eq!(r.len(), 4);
    for t in 0..4u8 {
        assert_eq!(r[t as usize], rotate_blocks(&v, t));
    }
    for i in 0..4 {
        for j in 0..i {
            assert_ne!(sorted(&r[i]), sorted(&r[j]));
        }
    }
}

#[test]
fn pattern_with_half_turn_symmetry_has_two_rotations() {
    let v = vec![block(0, -62, 0, true), block(1, -62, 0, true), block(2, -62, 0, true)];
    let r = generate_rotations(v.clone());
    assert_eq!(r, vec![rotate_blocks(&v, 0), rotate_blocks(&v, 1)]);
}

#[test]
fn pattern_with_quarter_turn_symmetry_has_one_rotation() {
    let v = vec![
        block(1, -62, 0, true),
        block(0, -62, 0, true),
        block(0, -62, 1, true),
        block(1, -62, 1, true),
    ];
    assert_eq!(generate_rotations(v.clone()), vec![rotate_blocks(&v, 0)]);
}

#[test]
fn demand_tells_shapes_apart() {
    let v = vec![block(0, -62, 0, true), block(1, -62, 0, false)];
    assert_eq!(generate_rotations(v).len(), 4);
}

#[test]
fn patterns_beyond_the_inline_capacity() {
    let mut v: Vec<Block> = Vec::new();
    for x in 0..10 {
        for z in 0..10 {
            v.push(block(x, -62, z, true));
        }
    }
    assert_eq!(generate_rotations(v.clone()).len(), 1);
    v.push(block(3, -61, 0, true));
    assert_eq!(generate_rotations(v).len(), 4);
}

#[test]
fn coordinates_that_do_not_fit() {
    assert!(rotations_fit(&corner()));
    assert!(rotations_fit(&Vec::new()));
    assert!(!rotations_fit(&vec![block(i32::MIN, -62, 0, true)]));
    assert!(rotations_fit(&vec![block(i32::MAX, -62, i32::MIN + 1, true)]));
    assert!(!rotations_fit(&vec![block(i32::MAX, -62, 0, true), block(-1, -62, 0, true)]));
}
