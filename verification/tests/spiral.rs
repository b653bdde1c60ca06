//! The spiral along which positions are examined.
use bedrockformation::spiral::{
    advance, coords_from_lj, fill_group_from_state, fill_group_straight, leg_state, shell_of_index,
    spiral_coords_with_state, spiral_index_limit, SpiralState, MAX_INDEX, MAX_SHELL,
};

fn position(k: i64) -> (i32, i32) {
    let s = spiral_coords_with_state(k, 0, 0);
    (s.x, s.z)
}

#[test]
fn first_positions() {
    let expected = [
        (0, 0),
        (1, 0),
        (1, 1),
        (0, 1),
        (-1, 1),
        (-1, 0),
        (-1, -1),
        (0, -1),
        (1, -1),
        (2, -1),
        (2, 0),
        (2, 1),
    ];
    for k in 0..expected.len() {
        assert_eq!(position(k as i64), expected[k]);
    }
}

#[test]
fn centre_is_added() {
    let s = spiral_coords_with_state(31, 100, -200);
    assert_eq!((s.x, s.z), (102, -197));
    assert_eq!((s.l, s.j), (3, 6));
}

#[test]
fn state_at_the_centre() {
    let s = spiral_coords_with_state(0, 7, 8);
    let expected =
        SpiralState { x: 7, z: 8, l: 0, j: -1, dx: 0, dz: 1, next_leg_j: 0 };
    assert_eq!(s, expected);
}

#[test]
fn steps_are_adjacent_and_new() {
    let mut seen: Vec<(i32, i32)> = Vec::new();
    for k in 0..400i64 {
        let p = position(k);
        assert!(!seen.contains(&p));
        if let Some(last) = seen.last() {
            assert_eq!((p.0 - last.0).abs() + (p.1 - last.1).abs(), 1);
        }
        seen.push(p);
    }
    for x in -9..=9 {
        for z in -9..=9 {
            assert!(seen.contains(&(x, z)));
        }
    }
}

#[test]
fn shells_are_distances() {
    for k in 0..500i64 {
        let (x, z) = position(k);
        let distance = x.abs().max(z.abs());
        assert_eq!(shell_of_index(k), distance as i64);
        if k > 0 {
            let (px, pz) = position(k - 1);
            assert!(px.abs().max(pz.abs()) <= distance);
        }
    }
}

#[test]
fn shell_borders() {
    assert_eq!(shell_of_index(0), 0);
    assert_eq!(shell_of_index(8), 1);
    assert_eq!(shell_of_index(9), 2);
    assert_eq!(shell_of_index(24), 2);
    assert_eq!(shell_of_index(25), 3);
    assert_eq!(shell_of_index(MAX_INDEX), MAX_SHELL);
    let l: i64 = 1_000_000_000;
    assert_eq!(shell_of_index(4 * l * l - 4 * l), l - 1);
    assert_eq!(shell_of_index(4 * l * l - 4 * l + 1), l);
    assert_eq!(shell_of_index(4 * l * l + 4 * l), l);
    assert_eq!(shell_of_index(4 * l * l + 4 * l + 1), l + 1);
}

#[test]
fn legs_of_a_shell() {
    assert_eq!(coords_from_lj(2, 0), (2, -1));
    assert_eq!(coords_from_lj(2, 3), (2, 2));
    assert_eq!(coords_from_lj(2, 7), (-2, 2));
    assert_eq!(coords_from_lj(2, 11), (-2, -2));
    assert_eq!(coords_from_lj(2, 15), (2, -2));
    assert_eq!(leg_state(2, 0), (0, 1, 4));
    assert_eq!(leg_state(2, 3), (0, 1, 4));
    assert_eq!(leg_state(2, 4), (-1, 0, 8));
    assert_eq!(leg_state(2, 8), (0, -1, 12));
    assert_eq!(leg_state(2, 12), (1, 0, 16));
}

#[test]
fn advancing_follows_the_closed_form() {
    let mut s = spiral_coords_with_state(0, 3, 4);
    for k in 1..600i64 {
        advance(&mut s, 3, 4);
        let t = spiral_coords_with_state(k, 3, 4);
        assert_eq!((s.x, s.z, s.l, s.j), (t.x, t.z, t.l, t.j));
    }
}

#[test]
fn groups_follow_the_closed_form() {
    let mut s = spiral_coords_with_state(0, -2, 5);
    let mut xs = [0i32; 8];
    let mut zs = [0i32; 8];
    for g in 0..300i64 {
        fill_group_from_state(&mut s, &mut xs, &mut zs, -2, 5);
        for p in 0..8usize {
            let t = spiral_coords_with_state(8 * g + p as i64, -2, 5);
            assert_eq!((xs[p], zs[p]), (t.x, t.z));
        }
    }
}

#[test]
fn straight_groups() {
    let mut xs = [0i32; 8];
    let mut zs = [0i32; 8];
    fill_group_straight(10, 20, -1, 0, &mut xs, &mut zs);
    assert_eq!(xs, [10, 9, 8, 7, 6, 5, 4, 3]);
    assert_eq!(zs, [20; 8]);
    fill_group_straight(10, 20, 0, 1, &mut xs, &mut zs);
    assert_eq!(xs, [10; 8]);
    assert_eq!(zs, [20, 21, 22, 23, 24, 25, 26, 27]);
}

#[test]
fn index_limits() {
    assert_eq!(spiral_index_limit(0, 0), MAX_INDEX);
    let near = spiral_index_limit(i32::MAX - 3, 0);
    let s = spiral_coords_with_state(near, i32::MAX - 3, 0);
    assert_eq!(s.x, i32::MAX);
    assert_eq!(near, 48);
    assert_eq!(spiral_index_limit(i32::MIN, 0), 0);
    assert_eq!(spiral_index_limit(0, i32::MIN + 1), 8);
}
