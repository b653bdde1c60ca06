//! The grid in which a pattern is drawn.
use bedrockformation::bedrock::BedrockType;
use bedrockformation::grid::{
    fill_unknown, grid_blocks, grid_fits, layer_has_data, make_grid, pattern_factors, resize_grid,
    rotate_grid_ccw, rotate_grid_cw, CellState,
};
use bedrockformation::prepare::find_error;
use bedrockformation::rotations::rotate_blocks;

const U: CellState = CellState::Unknown;
const N: CellState = CellState::NonBedrock;
const B: CellState = CellState::Bedrock;

fn drawn() -> Vec<Vec<Vec<CellState>>> {
    vec![
        vec![vec![U, N, B], vec![B, U, N]],
        vec![vec![U, U, U], vec![U, U, B]],
        vec![vec![U, U, U], vec![U, U, U]],
        vec![vec![N, N, N], vec![B, B, B]],
    ]
}

#[test]
fn cell_states_cycle() {
    assert_eq!(U.next(), N);
    assert_eq!(N.next(), B);
    assert_eq!(B.next(), U);
    for c in [U, N, B] {
        assert_eq!(c.next().prev(), c);
        assert_eq!(c.prev().next(), c);
        assert_eq!(c.next().next().next(), c);
    }
    assert_eq!(CellState::default(), U);
    assert_eq!((U.label(), N.label(), B.label()), ("?", "O", "X"));
}

#[test]
fn new_grids_are_unknown() {
    assert_eq!(make_grid(2, 3), vec![vec![vec![U; 3]; 2]; 4]);
    assert_eq!(make_grid(0, 0), vec![Vec::<Vec<CellState>>::new(); 4]);
}

#[test]
fn turning_clockwise() {
    let (cells, rows, cols) = rotate_grid_cw(&drawn(), 2, 3);
    assert_eq!((rows, cols), (3, 2));
    assert_eq!(cells[0], vec![vec![B, U], vec![U, N], vec![N, B]]);
    assert_eq!(cells[1], vec![vec![U, U], vec![U, U], vec![B, U]]);
}

#[test]
fn turning_counter_clockwise() {
    let (cells, rows, cols) = rotate_grid_ccw(&drawn(), 2, 3);
    assert_eq!((rows, cols), (3, 2));
    assert_eq!(cells[0], vec![vec![B, N], vec![N, U], vec![U, B]]);
}

#[test]
fn turns_cancel() {
    let g = drawn();
    let (a, r, c) = rotate_grid_cw(&g, 2, 3);
    assert_eq!(rotate_grid_ccw(&a, r, c), (g.clone(), 2, 3));
    let (a, r, c) = rotate_grid_ccw(&g, 2, 3);
    assert_eq!(rotate_grid_cw(&a, r, c), (g, 2, 3));
}

#[test]
fn four_turns_lead_round() {
    let (mut cells, mut rows, mut cols) = (drawn(), 2, 3);
    for _ in 0..4 {
        (cells, rows, cols) = rotate_grid_cw(&cells, rows, cols);
    }
    assert_eq!((cells, rows, cols), (drawn(), 2, 3));
}

#[test]
fn turning_any_number_of_layers() {
    for n in 0..=3 {
        let g: Vec<Vec<Vec<CellState>>> = drawn()[..n].to_vec();
        let (a, r, c) = rotate_grid_cw(&g, 2, 3);
        assert_eq!((a.len(), r, c), (n, 3, 2));
        assert_eq!(rotate_grid_ccw(&a, r, c), (g, 2, 3));
    }
}

#[test]
fn resizing() {
    let larger = resize_grid(&drawn(), 3, 4);
    assert_eq!(
        larger[0],
        vec![vec![U, N, B, U], vec![B, U, N, U], vec![U, U, U, U]]
    );
    assert_eq!(resize_grid(&larger, 2, 3), drawn());
    let smaller = resize_grid(&drawn(), 1, 2);
    assert_eq!(smaller[0], vec![vec![U, N]]);
}

#[test]
fn filling_a_layer() {
    assert_eq!(fill_unknown(&drawn()[0]), vec![vec![N, N, B], vec![B, N, N]]);
    assert_eq!(fill_unknown(&drawn()[2]), vec![vec![N; 3]; 2]);
}

#[test]
fn layers_with_data() {
    let g = drawn();
    assert!(layer_has_data(&g[0]));
    assert!(layer_has_data(&g[1]));
    assert!(!layer_has_data(&g[2]));
    assert!(layer_has_data(&g[3]));
}

#[test]
fn pattern_of_a_grid() {
    let v = grid_blocks(&drawn(), BedrockType::Floor, 10, -5, 2, 3);
    let keys: Vec<(i32, i32, i32, bool, i32)> = v
        .iter()
        .map(|b| (b.x, b.y, b.z, b.should_be_bedrock, b.probability.fifths))
        .collect();
    let expected = vec![
        (11, -60, -5, false, 1),
        (12, -60, -5, true, 1),
        (10, -60, -4, true, 1),
        (12, -60, -4, false, 1),
        (12, -61, -4, true, 2),
        (10, -63, -5, false, 4),
        (11, -63, -5, false, 4),
        (12, -63, -5, false, 4),
        (10, -63, -4, true, 4),
        (11, -63, -4, true, 4),
        (12, -63, -4, true, 4),
    ];
    assert_eq!(keys, expected);
    assert_eq!(v[0].prob_threshold, 3355443);
    assert_eq!(find_error(&v), None);
    let roof = grid_blocks(&drawn(), BedrockType::Roof, 0, 0, 2, 3);
    assert_eq!((roof[0].y, roof[0].probability.fifths), (124, 1));
}

#[test]
fn patterns_that_do_not_fit() {
    let g = drawn();
    assert!(grid_fits(&g, 0, 0, 2, 3));
    assert!(grid_fits(&g, i32::MAX - 2, i32::MAX - 1, 2, 3));
    assert!(!grid_fits(&g, i32::MAX - 1, 0, 2, 3));
    assert!(!grid_fits(&g, 0, i32::MAX, 2, 3));
    assert!(grid_fits(&make_grid(2, 3), i32::MAX, i32::MAX, 2, 3));
}

#[test]
fn turning_the_grid_turns_the_pattern() {
    let g = drawn();
    let (t, rows, cols) = rotate_grid_cw(&g, 2, 3);
    let sorted = |v: Vec<bedrockformation::bedrock::Block>| {
        let mut k: Vec<(i32, i32, i32, bool)> =
            v.iter().map(|b| (b.x, b.y, b.z, b.should_be_bedrock)).collect();
        k.sort();
        k
    };
    let a = rotate_blocks(&grid_blocks(&g, BedrockType::Floor, 4, 9, 2, 3), 1);
    let b = rotate_blocks(&grid_blocks(&t, BedrockType::Floor, 4, 9, rows, cols), 0);
    assert_eq!(sorted(a), sorted(b));
}

#[test]
fn likelihood_of_a_pattern() {
    let v = grid_blocks(&drawn(), BedrockType::Floor, 0, 0, 2, 3);
    assert_eq!(pattern_factors(&v), [5, 1, 0, 5]);
    assert_eq!(pattern_factors(&Vec::new()), [0; 4]);
}
