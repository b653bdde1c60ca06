//! Collecting several matches.
use std::cell::{Cell, RefCell};

use bedrockformation::bedrock::{compute_probability, prob_to_threshold, BedrockType, Block};
use bedrockformation::collect::{collect_matches, Collector};
use bedrockformation::prepare::SearchError;
use bedrockformation::search::{Batch, Begin, Search, SimdLevel};
use std::sync::atomic::{AtomicUsize, Ordering};

fn block(x: i32, y: i32, z: i32, should_be_bedrock: bool) -> Block {
    let probability = compute_probability(y, BedrockType::Floor);
    let prob_threshold = if probability.fifths > 0 && probability.fifths < 5 {
        prob_to_threshold(probability)
    } else {
        0
    };
    Block { x, y, z, should_be_bedrock, probability, prob_threshold }
}

fn four_blocks() -> Vec<Vec<Block>> {
    vec![vec![
        block(0, -63, 0, true),
        block(1, -62, 0, true),
        block(0, -63, 1, false),
        block(-1, -61, 0, true),
    ]]
}

const MATCHES: [(i32, i32); 6] = [(2, 3), (-1, 3), (-2, -3), (-4, 4), (-4, -4), (4, -4)];

#[test]
fn collector_counts() {
    let mut c = Collector::new(2);
    assert_eq!(c.start_group, 0);
    assert!(!c.record(1, 2, 5));
    assert_eq!(c.start_group, 5);
    assert!(c.record(3, 4, 9));
    assert_eq!(c.results, vec![(1, 2), (3, 4)]);
    let mut unlimited = Collector::new(0);
    assert!(!unlimited.record(0, 0, 1));
}

#[test]
fn as_many_matches_as_wanted() {
    let handed: RefCell<Vec<(i32, i32)>> = RefCell::new(Vec::new());
    for n in 1..=6usize {
        handed.borrow_mut().clear();
        let r = collect_matches(
            124352345,
            0,
            0,
            BedrockType::Floor,
            &four_blocks(),
            &|| false,
            &|_| {},
            &|x, z| handed.borrow_mut().push((x, z)),
            SimdLevel::Scalar,
            n,
        );
        assert_eq!(r, Ok((MATCHES[..n].to_vec(), false)));
        assert_eq!(*handed.borrow(), MATCHES[..n].to_vec());
    }
}

#[test]
fn matches_go_outwards() {
    let (found, _) = collect_matches(
        124352345,
        0,
        0,
        BedrockType::Floor,
        &four_blocks(),
        &|| false,
        &|_| {},
        &|_, _| {},
        SimdLevel::Avx512,
        30,
    )
    .unwrap();
    assert_eq!(found.len(), 30);
    for i in 1..found.len() {
        let d = |p: (i32, i32)| p.0.abs().max(p.1.abs());
        assert!(d(found[i - 1]) <= d(found[i]));
        assert!(!found[..i].contains(&found[i]));
    }
}

#[test]
fn collecting_until_cancelled() {
    let asked = AtomicUsize::new(0);
    let found = Cell::new(0usize);
    let stop = AtomicUsize::new(0);
    let (results, was_cancelled) = collect_matches(
        124352345,
        0,
        0,
        BedrockType::Floor,
        &four_blocks(),
        &|| {
            asked.fetch_add(1, Ordering::Relaxed);
            stop.load(Ordering::Relaxed) >= 3
        },
        &|_| {},
        &|_, _| {
            found.set(found.get() + 1);
            stop.store(found.get(), Ordering::Relaxed);
        },
        SimdLevel::Avx2,
        0,
    )
    .unwrap();
    assert!(was_cancelled);
    assert_eq!(results, MATCHES[..3].to_vec());
    assert!(asked.load(Ordering::Relaxed) >= 4);
}

#[test]
fn cancelled_before_it_began() {
    let r = collect_matches(
        124352345,
        0,
        0,
        BedrockType::Floor,
        &four_blocks(),
        &|| true,
        &|_| {},
        &|_, _| {},
        SimdLevel::Scalar,
        5,
    );
    assert_eq!(r, Ok((Vec::new(), true)));
}

#[test]
fn impossible_pattern() {
    let r = collect_matches(
        124352345,
        0,
        0,
        BedrockType::Floor,
        &vec![vec![block(0, -64, 0, false)]],
        &|| false,
        &|_| {},
        &|_, _| {},
        SimdLevel::Scalar,
        1,
    );
    assert_eq!(r, Err(SearchError::AlwaysBedrock { x: 0, y: -64, z: 0 }));
}

#[test]
fn exhausted_space_ends_the_collecting() {
    let r = collect_matches(
        124352345,
        i32::MAX - 60,
        0,
        BedrockType::Floor,
        &four_blocks(),
        &|| false,
        &|_| {},
        &|_, _| {},
        SimdLevel::Scalar,
        0,
    );
    let (found, was_cancelled) = r.unwrap();
    assert!(!was_cancelled);
    assert_eq!(found.len(), 482);
}

#[test]
fn pattern_that_lies_everywhere() {
    let r = collect_matches(
        1,
        5,
        6,
        BedrockType::Floor,
        &vec![vec![block(0, -64, 0, true)]],
        &|| false,
        &|_| {},
        &|_, _| {},
        SimdLevel::Scalar,
        3,
    );
    assert_eq!(r, Ok((vec![(5, 6), (6, 5), (3, 8)], false)));
}

#[test]
fn collecting_with_batches_examined_elsewhere() {
    let s = match Search::begin(
        124352345,
        0,
        0,
        BedrockType::Floor,
        &four_blocks(),
        SimdLevel::Scalar,
    ) {
        Ok(Begin::Search(s)) => s,
        _ => panic!("there is something to look for"),
    };
    let handed: RefCell<Vec<(i32, i32)>> = RefCell::new(Vec::new());
    let r = s.collect(
        4,
        1,
        &|| false,
        &|_| {},
        &|x, z| handed.borrow_mut().push((x, z)),
        &|group, chunks| s.run_chunk_batch(group, chunks, &|| false),
    );
    assert_eq!(r, Ok((MATCHES[..4].to_vec(), false)));
    assert_eq!(handed.into_inner(), MATCHES[..4].to_vec());
    let r = s.collect(4, 1, &|| false, &|_| {}, &|_, _| {}, &|_, _| Batch::Cancelled);
    assert_eq!(r, Ok((Vec::new(), true)));
    let r = s.collect(4, 1, &|| false, &|_| {}, &|_, _| {}, &|_, _| Batch::Hit(9));
    assert_eq!(r, Err(SearchError::Unconfirmed { chunk: 9 }));
}

#[test]
fn every_search_of_a_collection_reports() {
    let loose = vec![vec![block(0, -60, 0, true)]];
    let s = match Search::begin(124352345, 0, 0, BedrockType::Floor, &loose, SimdLevel::Scalar) {
        Ok(Begin::Search(s)) => s,
        _ => panic!("there is something to look for"),
    };
    let reports: RefCell<Vec<i64>> = RefCell::new(Vec::new());
    let r = s.collect(
        2,
        1,
        &|| false,
        &|k| reports.borrow_mut().push(k),
        &|_, _| {},
        &|group, chunks| {
            if group < 2048 {
                Batch::Clear
            } else {
                s.run_chunk_batch(group, chunks, &|| false)
            }
        },
    );
    let (found, was_cancelled) = r.unwrap();
    assert_eq!((found.len(), was_cancelled), (2, false));
    assert_eq!(reports.into_inner(), vec![8192, 16384]);
}
