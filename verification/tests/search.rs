//! Preparing and running a search.
use std::cell::RefCell;
use std::sync::atomic::{AtomicBool, AtomicUsize, Ordering};

use bedrockformation::bedrock::{compute_probability, prob_to_threshold, BedrockType, Block};
use bedrockformation::prepare::{
    drop_certain, find_error, prepare_rotations, sort_by_rarity, Preparation, SearchError,
};
use bedrockformation::rotations::{generate_rotations, rotate_blocks};
use bedrockformation::search::{
    compute_super_batch_chunks, run_search, run_search_until, super_batch_chunks, Batch, Begin,
    Search, SimdLevel, CHUNKS_PER_BATCH, GROUPS_PER_BATCH, GROUPS_PER_CHUNK, SEARCH_BATCH_SIZE,
};
use bedrockformation::spiral::spiral_index_limit;

const LEVELS: [SimdLevel; 3] = [SimdLevel::Avx512, SimdLevel::Avx2, SimdLevel::Scalar];

fn block_in(bt: BedrockType, x: i32, y: i32, z: i32, should_be_bedrock: bool) -> Block {
    let probability = compute_probability(y, bt);
    let prob_threshold = if probability.fifths > 0 && probability.fifths < 5 {
        prob_to_threshold(probability)
    } else {
        0
    };
    Block { x, y, z, should_be_bedrock, probability, prob_threshold }
}

fn block(x: i32, y: i32, z: i32, should_be_bedrock: bool) -> Block {
    block_in(BedrockType::Floor, x, y, z, should_be_bedrock)
}

fn four_blocks() -> Vec<Block> {
    vec![
        block(0, -63, 0, true),
        block(1, -62, 0, true),
        block(0, -63, 1, false),
        block(-1, -61, 0, true),
    ]
}

/// A pattern of 24 blocks that lies at (73, -41), index 21056, of the floor of world 124352345.
fn rare_pattern() -> Vec<Block> {
    let bits = [0, 0, 0, 0, 0, 0, 0, 1, 0, 1, 0, 1, 0, 1, 0, 1, 1, 1, 1, 0, 1, 0, 1, 1];
    let mut v: Vec<Block> = Vec::new();
    for y in [-60, -61, -62, -63] {
        for i in 0..3 {
            for j in 0..2 {
                v.push(block(i, y, j, bits[v.len()] == 1));
            }
        }
    }
    v
}

fn search(
    seed: i64,
    centre: (i32, i32),
    bt: BedrockType,
    rotations: &Vec<Vec<Block>>,
    simd: SimdLevel,
    start_group: i64,
) -> Result<Option<(i32, i32, i64)>, SearchError> {
    let cancel = AtomicBool::new(false);
    run_search(seed, centre.0, centre.1, bt, rotations, &cancel, &|_| {}, simd, start_group)
}

#[test]
fn sizes_of_a_batch() {
    assert_eq!(SEARCH_BATCH_SIZE, 1 << 20);
    assert_eq!(GROUPS_PER_BATCH * 8, SEARCH_BATCH_SIZE);
    assert_eq!(CHUNKS_PER_BATCH * GROUPS_PER_CHUNK, GROUPS_PER_BATCH);
}

#[test]
fn batches_grow_with_the_threads() {
    assert_eq!(super_batch_chunks(1), 2048);
    assert_eq!(super_batch_chunks(512), 2048);
    assert_eq!(super_batch_chunks(513), 4096);
    assert_eq!(super_batch_chunks(65535), 262144);
    let chunks = compute_super_batch_chunks();
    assert!(chunks >= 2048);
    assert_eq!(chunks & (chunks - 1), 0);
    assert_eq!(chunks, super_batch_chunks(rayon::current_num_threads()));
}

#[test]
fn single_loose_block() {
    for simd in LEVELS {
        let r = search(
            124352345,
            (0, 0),
            BedrockType::Floor,
            &vec![vec![block(0, -61, 0, true)]],
            simd,
            0,
        );
        assert_eq!(r, Ok(Some((0, 1, 1))));
    }
}

#[test]
fn guaranteed_block_lies_at_the_centre() {
    for (x, z) in [(0, 0), (17, -4)] {
        let r = search(
            124352345,
            (x, z),
            BedrockType::Floor,
            &vec![vec![block(0, -64, 0, true)]],
            SimdLevel::Scalar,
            0,
        );
        assert_eq!(r, Ok(Some((x, z, 1))));
    }
}

#[test]
fn no_rotations_lie_at_the_centre() {
    let r = search(1, (3, 4), BedrockType::Floor, &Vec::new(), SimdLevel::Scalar, 0);
    assert_eq!(r, Ok(Some((3, 4, 1))));
}

#[test]
fn pattern_that_lies_everywhere_is_found_further_on() {
    let v = vec![vec![block(0, -64, 0, true)]];
    let at = |group: i64| {
        search(1, (3, 4), BedrockType::Floor, &v, SimdLevel::Scalar, group)
    };
    assert_eq!(at(0), Ok(Some((3, 4, 1))));
    assert_eq!(at(1), Ok(Some((4, 3, 2))));
    assert_eq!(at(2), Ok(Some((1, 6, 3))));
    assert_eq!(at(i64::MAX), Err(SearchError::SpaceExhausted));
    let near = search(1, (i32::MAX, 4), BedrockType::Floor, &v, SimdLevel::Scalar, 0);
    assert_eq!(near, Ok(Some((i32::MAX, 4, 1))));
    let beyond = search(1, (i32::MAX, 4), BedrockType::Floor, &v, SimdLevel::Scalar, 1);
    assert_eq!(beyond, Err(SearchError::SpaceExhausted));
}

#[test]
fn one_rotation_without_constraints_is_enough() {
    let r = search(
        1,
        (3, 4),
        BedrockType::Floor,
        &vec![rare_pattern(), vec![block(0, -58, 0, false)]],
        SimdLevel::Scalar,
        0,
    );
    assert_eq!(r, Ok(Some((3, 4, 1))));
}

#[test]
fn successive_matches() {
    let expected = [(2, 3), (-1, 3), (-2, -3), (-4, 4), (-4, -4), (4, -4)];
    for simd in LEVELS {
        let mut group = 0;
        for (x, z) in expected {
            let r = search(
                124352345,
                (0, 0),
                BedrockType::Floor,
                &vec![four_blocks()],
                simd,
                group,
            );
            let found = r.unwrap().unwrap();
            assert_eq!((found.0, found.1), (x, z));
            assert!(found.2 > group);
            group = found.2;
        }
        assert_eq!(group, 11);
    }
}

#[test]
fn centres_and_layers() {
    let v = vec![block(0, -63, 0, true), block(1, -62, 0, true), block(0, -63, 1, false)];
    for simd in LEVELS {
        let floor = BedrockType::Floor;
        let r = search(124352345, (0, 0), floor, &vec![v.clone()], simd, 0);
        assert_eq!(r, Ok(Some((1, 0, 1))));
        let r = search(124352345, (100, -200), floor, &vec![v.clone()], simd, 0);
        assert_eq!(r, Ok(Some((100, -200, 1))));
        let roof = BedrockType::Roof;
        let w = vec![
            block_in(roof, 0, 124, 0, true),
            block_in(roof, 1, 125, 0, false),
            block_in(roof, 2, 126, 1, true),
        ];
        let r = search(-77, (-5, 9), roof, &vec![w], simd, 0);
        assert_eq!(r, Ok(Some((-3, 10, 2))));
    }
}

#[test]
fn rare_pattern_in_a_later_chunk() {
    for simd in LEVELS {
        let r = search(124352345, (0, 0), BedrockType::Floor, &vec![rare_pattern()], simd, 0);
        assert_eq!(r, Ok(Some((73, -41, 21056 / 8 + 1))));
    }
}

#[test]
fn rotated_pattern_is_found_by_its_rotations() {
    let turned = rotate_blocks(&rare_pattern(), 1);
    let rotations = generate_rotations(turned);
    assert_eq!(rotations.len(), 4);
    let r = search(
        124352345,
        (0, 0),
        BedrockType::Floor,
        &rotations,
        SimdLevel::Avx2,
        0,
    );
    assert_eq!(r, Ok(Some((73, -41, 2633))));
}

#[test]
fn searching_on_from_the_middle_of_a_batch() {
    let r = search(
        124352345,
        (0, 0),
        BedrockType::Floor,
        &vec![rare_pattern()],
        SimdLevel::Scalar,
        2632,
    );
    assert_eq!(r, Ok(Some((73, -41, 2633))));
}

#[test]
fn impossible_blocks_are_errors() {
    let always = vec![block(0, -62, 0, true), block(1, -64, 2, false)];
    let e = search(1, (0, 0), BedrockType::Floor, &vec![always], SimdLevel::Scalar, 0);
    assert_eq!(e, Err(SearchError::AlwaysBedrock { x: 1, y: -64, z: 2 }));
    assert_eq!(
        e.unwrap_err().message(),
        "Block (1,-64,2) is always bedrock but declared as air. No solution exists."
    );
    let never = vec![block(-3, -59, 0, true), block(1, -64, 2, false)];
    let e = search(1, (0, 0), BedrockType::Floor, &vec![never], SimdLevel::Scalar, 0);
    assert_eq!(e, Err(SearchError::NeverBedrock { x: -3, y: -59, z: 0 }));
    assert_eq!(
        e.unwrap_err().message(),
        "Block (-3,-59,0) is never bedrock but declared as bedrock. No solution exists."
    );
}

#[test]
fn rotations_are_impossible_together() {
    let v = vec![block(0, -62, 0, true), block(2, -58, 1, true)];
    for t in 0..4u8 {
        assert!(find_error(&rotate_blocks(&v, t)).is_some());
    }
    assert_eq!(find_error(&four_blocks()), None);
}

#[test]
fn edge_of_the_world() {
    let e = search(
        1,
        (i32::MAX - 3, 0),
        BedrockType::Floor,
        &vec![rare_pattern()],
        SimdLevel::Scalar,
        0,
    );
    assert_eq!(e, Err(SearchError::SpaceExhausted));
    assert_eq!(e.unwrap_err().message(), "The spiral has reached the edge of the world.");
}

#[test]
fn matches_near_the_edge_of_the_world() {
    let v = vec![vec![
        block(0, -61, 0, true),
        block(0, -62, 1, false),
        block(1, -63, 0, false),
    ]];
    for simd in LEVELS {
        let r = search(124352345, (i32::MAX - 10, 0), BedrockType::Floor, &v, simd, 0);
        assert_eq!(r, Ok(Some((2147483633, -2, 9))));
    }
}

fn sampled(bits: [i32; 24]) -> Vec<Vec<Block>> {
    let mut v: Vec<Block> = Vec::new();
    for y in [-60, -61, -62, -63] {
        for i in 0..3 {
            for j in 0..2 {
                v.push(block(i, y, j, bits[v.len()] == 1));
            }
        }
    }
    vec![v]
}

#[test]
fn last_part_of_a_chunk_is_searched() {
    let centre = (i32::MAX - 60, 0);
    let inside = sampled([
        0, 0, 1, 0, 0, 0, 0, 0, 1, 0, 0, 0, 0, 0, 1, 1, 0, 1, 1, 1, 1, 1, 1, 1,
    ]);
    let last = sampled([
        0, 1, 0, 0, 0, 1, 1, 1, 1, 0, 1, 1, 1, 0, 1, 1, 1, 1, 1, 1, 1, 1, 1, 1,
    ]);
    for simd in LEVELS {
        let r = search(124352345, centre, BedrockType::Floor, &inside, simd, 0);
        assert_eq!(r, Ok(Some((2147483629, 55, 12003 / 8 + 1))));
        let r = search(124352345, centre, BedrockType::Floor, &last, simd, 0);
        assert_eq!(r, Ok(Some((2147483647, -60, 14640 / 8 + 1))));
        let r = search(124352345, centre, BedrockType::Floor, &last, simd, 14640 / 8 + 1);
        assert_eq!(r, Err(SearchError::SpaceExhausted));
    }
}

#[test]
fn moved_pattern_is_found_at_the_moved_place() {
    let moved: Vec<Block> =
        rare_pattern().iter().map(|b| Block { x: b.x + 1000, z: b.z - 7, ..*b }).collect();
    let r = search(
        124352345,
        (-1000, 7),
        BedrockType::Floor,
        &vec![moved],
        SimdLevel::Avx512,
        0,
    );
    assert_eq!(r, Ok(Some((73 - 1000, -41 + 7, 2633))));
}

#[test]
fn cancelled_search() {
    let cancel = AtomicBool::new(true);
    let r = run_search(
        124352345,
        0,
        0,
        BedrockType::Floor,
        &vec![rare_pattern()],
        &cancel,
        &|_| {},
        SimdLevel::Scalar,
        0,
    );
    assert_eq!(r, Ok(None));
    let loose = vec![vec![block(0, -61, 0, true)]];
    let floor = BedrockType::Floor;
    let r = run_search(1, 0, 0, floor, &loose, &cancel, &|_| {}, SimdLevel::Scalar, 0);
    assert_eq!(r, Ok(None));
    let r = run_search_until(
        124352345,
        0,
        0,
        BedrockType::Floor,
        &vec![rare_pattern()],
        &|| true,
        &|_| {},
        SimdLevel::Scalar,
        0,
    );
    assert_eq!(r, Ok(None));
}

#[test]
fn progress_is_reported_batch_by_batch() {
    let reports: RefCell<Vec<i64>> = RefCell::new(Vec::new());
    let s = match Search::begin(
        124352345,
        0,
        0,
        BedrockType::Floor,
        &vec![rare_pattern()],
        SimdLevel::Avx512,
    ) {
        Ok(Begin::Search(s)) => s,
        _ => panic!("there is something to look for"),
    };
    let r = s.run(0, 1, &|| false, &|k| reports.borrow_mut().push(k));
    assert_eq!(r, Ok(Some((73, -41, 2633))));
    assert_eq!(reports.into_inner(), vec![8192, 16384]);
}

#[test]
fn last_batch_may_be_shorter() {
    let s = match Search::begin(
        124352345,
        0,
        0,
        BedrockType::Floor,
        &vec![rare_pattern()],
        SimdLevel::Scalar,
    ) {
        Ok(Begin::Search(s)) => s,
        _ => panic!("there is something to look for"),
    };
    let start = spiral_index_limit(0, 0) / 8 - 3 * GROUPS_PER_CHUNK - 5;
    let reports: RefCell<Vec<i64>> = RefCell::new(Vec::new());
    let asked: RefCell<Vec<(i64, i64)>> = RefCell::new(Vec::new());
    let r = s.run_with(
        start,
        2,
        &|| false,
        &|k| reports.borrow_mut().push(k),
        &|group, chunks| {
            asked.borrow_mut().push((group, chunks));
            Batch::Clear
        },
    );
    assert_eq!(r, Err(SearchError::SpaceExhausted));
    assert_eq!(asked.into_inner(), vec![(start, 2), (start + 2048, 1)]);
    assert_eq!(reports.into_inner(), vec![8 * (start + 2048), 8 * (start + 3072)]);
}

#[test]
fn match_found_before_cancelling_is_kept() {
    let s = match Search::begin(
        124352345,
        0,
        0,
        BedrockType::Floor,
        &vec![rare_pattern()],
        SimdLevel::Avx2,
    ) {
        Ok(Begin::Search(s)) => s,
        _ => panic!("there is something to look for"),
    };
    let asked = AtomicUsize::new(0);
    let late = || asked.fetch_add(1, Ordering::Relaxed) > 0;
    assert_eq!(s.run_chunk_batch(2 * GROUPS_PER_CHUNK, 1, &late), Batch::Hit(0));
    assert_eq!(asked.load(Ordering::Relaxed), 1);
}

#[test]
fn order_does_not_matter() {
    let rotations = generate_rotations(four_blocks());
    assert_eq!(rotations.len(), 4);
    let expected = search(124352345, (0, 0), BedrockType::Floor, &rotations, SimdLevel::Avx2, 0);
    let mut shuffled: Vec<Vec<Block>> = rotations.clone();
    shuffled.rotate_left(1);
    for v in shuffled.iter_mut() {
        v.reverse();
    }
    let r = search(124352345, (0, 0), BedrockType::Floor, &shuffled, SimdLevel::Avx2, 0);
    assert_eq!(r, expected);
    assert!(matches!(r, Ok(Some(_))));
}

#[test]
fn batches_step_by_step() {
    let s = match Search::begin(
        124352345,
        0,
        0,
        BedrockType::Floor,
        &vec![rare_pattern()],
        SimdLevel::Avx2,
    ) {
        Ok(Begin::Search(s)) => s,
        _ => panic!("there is something to look for"),
    };
    assert!(s.position_matches(73, -41));
    assert!(!s.position_matches(73, -40));
    assert!(!s.chunk_matches(0));
    assert!(s.chunk_matches(2 * GROUPS_PER_CHUNK));
    assert_eq!(s.confirm_chunk(0), None);
    assert_eq!(s.confirm_chunk(2 * GROUPS_PER_CHUNK), Some((73, -41, 2633)));
    assert_eq!(s.run_chunk_batch(0, 2, &|| false), Batch::Clear);
    assert_eq!(s.run_chunk_batch(0, 8, &|| false), Batch::Hit(2));
    assert_eq!(s.run_chunk_batch(0, 8, &|| true), Batch::Cancelled);
    assert_eq!(s.run_chunk_batch(2 * GROUPS_PER_CHUNK, 1, &|| true), Batch::Cancelled);
    assert_eq!(s.search_rest(2600), Some((73, -41, 2633)));
    assert_eq!(s.search_rest(i64::MAX), None);
    assert_eq!(Batch::from_found(Some(3)), Batch::Hit(3));
    assert_eq!(Batch::from_found(None), Batch::Clear);
    assert_eq!(s.remaining_chunks(0), 9_223_372_030_926_249_000 / 8192);
    assert_eq!(s.remaining_chunks(i64::MAX), 0);
}

#[test]
fn batches_examined_elsewhere() {
    let s = match Search::begin(
        124352345,
        0,
        0,
        BedrockType::Floor,
        &vec![rare_pattern()],
        SimdLevel::Scalar,
    ) {
        Ok(Begin::Search(s)) => s,
        _ => panic!("there is something to look for"),
    };
    let asked: RefCell<Vec<(i64, i64)>> = RefCell::new(Vec::new());
    let reports: RefCell<Vec<i64>> = RefCell::new(Vec::new());
    let truthful = |group: i64, chunks: i64| {
        asked.borrow_mut().push((group, chunks));
        s.run_chunk_batch(group, chunks, &|| false)
    };
    let r = s.run_with(0, 2, &|| false, &|k| reports.borrow_mut().push(k), &truthful);
    assert_eq!(r, Ok(Some((73, -41, 2633))));
    assert_eq!(r, s.run(0, 2, &|| false, &|_| {}));
    assert_eq!(asked.into_inner(), vec![(0, 2), (2048, 2)]);
    assert_eq!(reports.into_inner(), vec![16384]);
    let reports: RefCell<Vec<i64>> = RefCell::new(Vec::new());
    let cancelled = s.run_with(
        0,
        2,
        &|| false,
        &|k| reports.borrow_mut().push(k),
        &|group, _| if group == 0 { Batch::Clear } else { Batch::Cancelled },
    );
    assert_eq!(cancelled, Ok(None));
    assert_eq!(reports.into_inner(), vec![16384, 32768]);
    for ci in [-1, 0, 2] {
        let e = s.run_with(0, 2, &|| false, &|_| {}, &|_, _| Batch::Hit(ci));
        assert_eq!(e, Err(SearchError::Unconfirmed { chunk: ci }));
    }
    assert_eq!(
        SearchError::Unconfirmed { chunk: 7 }.message(),
        "A match was claimed in chunk 7, which holds none."
    );
}

#[test]
fn rarest_blocks_come_first() {
    let v = vec![
        block(0, -60, 0, false),
        block(1, -60, 0, true),
        block(2, -63, 0, false),
        block(3, -62, 0, true),
        block(4, -64, 0, true),
        block(5, -61, 0, true),
        block(6, -58, 0, false),
    ];
    let xs: Vec<i32> = sort_by_rarity(&v).iter().map(|b| b.x).collect();
    assert_eq!(xs, vec![1, 2, 5, 3, 0, 4, 6]);
    let left: Vec<i32> = drop_certain(&v).iter().map(|b| b.x).collect();
    assert_eq!(left, vec![0, 1, 2, 3, 5]);
    match prepare_rotations(&vec![v]) {
        Ok(Preparation::Patterns(p)) => {
            assert_eq!(p.len(), 1);
            let xs: Vec<i32> = p[0].iter().map(|b| b.x).collect();
            assert_eq!(xs, vec![1, 2, 5, 3, 0]);
        }
        _ => panic!("some blocks are left"),
    }
}

#[test]
fn rotations_are_equally_long() {
    let v = vec![
        block(0, -60, 0, false),
        block(4, -64, 3, true),
        block(5, -61, 0, true),
        block(6, -58, -2, false),
    ];
    match prepare_rotations(&generate_rotations(v)) {
        Ok(Preparation::Patterns(p)) => {
            assert_eq!(p.len(), 4);
            assert!(p.iter().all(|r| r.len() == 2));
        }
        _ => panic!("some blocks are left"),
    }
}
