//! The random numbers of a world, and the bedrock that they place.
use bedrockformation::bedrock::{
    clamp01, compute_probability, prob_to_threshold, y_values, BedrockType, Probability,
};
use bedrockformation::hash::{is_bedrock_by_terms, position_x_term, position_z_term};
use bedrockformation::rng::{
    compute_deriver_seeds, create_xoroshiro_seed, guard_zero, rotl, split_mix64, xoroshiro_next,
    FALLBACK_HI, FALLBACK_LO,
};

fn bedrock(x: i32, y: i32, z: i32, bt: BedrockType, seeds: (i64, i64)) -> bool {
    let threshold = prob_to_threshold(compute_probability(y, bt));
    is_bedrock_by_terms(
        position_x_term(x),
        y,
        position_z_term(z),
        seeds.0,
        seeds.1,
        threshold,
    )
}

#[test]
fn rotation_of_words() {
    assert_eq!(rotl(1, 17), 1 << 17);
    assert_eq!(rotl(0x8000_0000_0000_0001, 1), 3);
    assert_eq!(rotl(0x0123_4567_89AB_CDEF, 49), 0x0123_4567_89AB_CDEFu64.rotate_left(49));
}

#[test]
fn xoroshiro_sequence() {
    let mut s: (u64, u64) = (1, 2);
    assert_eq!(xoroshiro_next(&mut s), 0x60001);
    assert_eq!(xoroshiro_next(&mut s), 0x260c000660007);
    assert_eq!(xoroshiro_next(&mut s), 0x180acc04718606d3);
    assert_eq!(s, (0x82020c04006840c3, 0x4000020c303040c0));
}

#[test]
fn states_are_never_zero() {
    assert_eq!(guard_zero((0, 0)), (FALLBACK_LO, FALLBACK_HI));
    assert_eq!(guard_zero((0, 1)), (0, 1));
    assert_eq!(guard_zero((1, 0)), (1, 0));
    let mut s: (u64, u64) = (0, 1);
    for _ in 0..1000 {
        xoroshiro_next(&mut s);
        assert_ne!(s, (0, 0));
    }
}

#[test]
fn advancing_keeps_states_apart() {
    let mut a: (u64, u64) = (5, 9);
    let mut b: (u64, u64) = (5, 8);
    for _ in 0..100 {
        xoroshiro_next(&mut a);
        xoroshiro_next(&mut b);
        assert_ne!(a, b);
    }
}

#[test]
fn split_mix_values() {
    assert_eq!(split_mix64(0), 0);
    assert_eq!(split_mix64(1), 0x5692161d100b05e5);
    assert_eq!(split_mix64(u64::MAX), 0xb4d055fcf2cbbd7b);
}

#[test]
fn seed_states() {
    assert_eq!(create_xoroshiro_seed(124352345), (0xfd10670fd7ed22c5, 0x3626783045e23dc2));
    assert_eq!(create_xoroshiro_seed(0), (0x3564b439cd1e1f16, 0x63cfc62a2b097592));
    assert_eq!(create_xoroshiro_seed(-1), (0xfe766ab13afab784, 0x28b159defd9c7fba));
    assert_eq!(create_xoroshiro_seed(i64::MIN), (0xa76c539a9a3f0612, 0x4b9e7f42d2702803));
}

#[test]
fn layer_seeds() {
    assert_eq!(
        compute_deriver_seeds(124352345, BedrockType::Floor),
        (3039594737650435186, -4369609160349596298)
    );
    assert_eq!(
        compute_deriver_seeds(124352345, BedrockType::Roof),
        (-5290579231861366601, 1059825616734725231)
    );
    assert_eq!(
        compute_deriver_seeds(-1, BedrockType::Floor),
        (8761157179652947573, -352025933423272959)
    );
    assert_eq!(
        compute_deriver_seeds(i64::MIN, BedrockType::Roof),
        (2918280905601648383, -8584275536917111967)
    );
}

#[test]
fn heights_of_the_layers() {
    assert_eq!(BedrockType::Floor.min(), -64);
    assert_eq!(BedrockType::Floor.max(), -59);
    assert_eq!(BedrockType::Roof.min(), 128);
    assert_eq!(BedrockType::Roof.max(), 123);
    assert_eq!(y_values(BedrockType::Floor), [-60, -61, -62, -63]);
    assert_eq!(y_values(BedrockType::Roof), [124, 125, 126, 127]);
}

#[test]
fn probabilities_of_the_floor() {
    let fifths = |y: i32| compute_probability(y, BedrockType::Floor).fifths;
    assert_eq!(fifths(-64), 10);
    assert_eq!(fifths(-63), 4);
    assert_eq!(fifths(-62), 3);
    assert_eq!(fifths(-61), 2);
    assert_eq!(fifths(-60), 1);
    assert_eq!(fifths(-59), 0);
    assert_eq!(fifths(-58), -5);
    assert_eq!(fifths(-65), 6);
    assert_eq!(fifths(i32::MAX), -5);
    assert_eq!(fifths(i32::MIN), 2147483589);
}

#[test]
fn probabilities_of_the_roof() {
    let fifths = |y: i32| compute_probability(y, BedrockType::Roof).fifths;
    assert_eq!(fifths(128), 10);
    assert_eq!(fifths(127), 4);
    assert_eq!(fifths(126), 3);
    assert_eq!(fifths(125), 2);
    assert_eq!(fifths(124), 1);
    assert_eq!(fifths(123), 0);
    assert_eq!(fifths(122), -5);
    assert_eq!(fifths(129), -1);
    assert_eq!(fifths(133), -5);
    assert_eq!(fifths(i32::MAX), -2147483519);
}

#[test]
fn solid_and_air_ends() {
    for bt in [BedrockType::Floor, BedrockType::Roof] {
        assert!(compute_probability(bt.min(), bt).fifths >= 5);
        assert!(compute_probability(bt.max(), bt).fifths <= 0);
    }
}

#[test]
fn most_air_comes_first() {
    for bt in [BedrockType::Floor, BedrockType::Roof] {
        let fifths: Vec<i32> =
            y_values(bt).iter().map(|y| compute_probability(*y, bt).fifths).collect();
        assert_eq!(fifths, vec![1, 2, 3, 4]);
    }
}

#[test]
fn thresholds() {
    let threshold = |fifths: i32| prob_to_threshold(Probability { fifths });
    assert_eq!(threshold(1), 3355443);
    assert_eq!(threshold(2), 6710886);
    assert_eq!(threshold(3), 10066329);
    assert_eq!(threshold(4), 13421772);
}

#[test]
fn threshold_decides_as_fraction() {
    for fifths in 1..5i32 {
        let t = prob_to_threshold(Probability { fifths });
        for top24 in [0, t - 1, t + 1, 0xFF_FFFF] {
            let fraction = top24 as f64 / 16_777_216.0;
            assert_eq!(top24 < t, fraction < fifths as f64 / 5.0);
        }
    }
}

#[test]
fn thresholds_agree_with_floating_point() {
    for y in [-60, -61, -62, -63] {
        let p = 1.0 - (y + 64) as f64 / 5.0;
        let t = prob_to_threshold(compute_probability(y, BedrockType::Floor));
        assert_eq!(t, (p * 16_777_216.0) as u64);
    }
    for y in [124, 125, 126, 127] {
        let p = 1.0 - (128 - y) as f64 / 5.0;
        let t = prob_to_threshold(compute_probability(y, BedrockType::Roof));
        assert_eq!(t, (p * 16_777_216.0) as u64);
    }
}

#[test]
fn clamped_probabilities() {
    assert_eq!(clamp01(Probability { fifths: -5 }), Probability { fifths: 0 });
    assert_eq!(clamp01(Probability { fifths: 10 }), Probability { fifths: 5 });
    assert_eq!(clamp01(Probability { fifths: 3 }), Probability { fifths: 3 });
}

#[test]
fn position_terms() {
    assert_eq!(position_x_term(1), 3129871);
    assert_eq!(position_x_term(-1), -3129871);
    assert_eq!(position_x_term(1000), 1000i32.wrapping_mul(3129871));
    assert_eq!(position_z_term(1), 116129781);
    assert_eq!(position_z_term(i32::MIN), -2147483648 * 116129781);
}

#[test]
fn terms_add() {
    let (x, bx): (i32, i32) = (2_000_000_000, 15);
    assert_eq!(position_x_term(x).wrapping_add(position_x_term(bx)), position_x_term(x + bx));
    let (z, bz): (i32, i32) = (-30_000_000, 7);
    assert_eq!(position_z_term(z).wrapping_add(position_z_term(bz)), position_z_term(z + bz));
}

#[test]
fn bedrock_of_a_world() {
    let seeds = compute_deriver_seeds(124352345, BedrockType::Floor);
    assert!(!bedrock(0, -61, 0, BedrockType::Floor, seeds));
    assert!(!bedrock(1, -62, 0, BedrockType::Floor, seeds));
    assert!(!bedrock(0, -63, 0, BedrockType::Floor, seeds));
    assert!(!bedrock(-5, -60, 17, BedrockType::Floor, seeds));
    assert!(bedrock(30_000_000, -62, -30_000_000, BedrockType::Floor, seeds));
    assert!(bedrock(0, -61, 1, BedrockType::Floor, seeds));
}

#[test]
fn bedrock_is_compared_with_the_threshold() {
    let (dlo, dhi) = compute_deriver_seeds(124352345, BedrockType::Floor);
    let at = |t: u64| is_bedrock_by_terms(0, -61, 0, dlo, dhi, t);
    assert!(!at(14158489));
    assert!(at(14158490));
}
