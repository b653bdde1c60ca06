//! What a graphics processor is told, and what its answer means.
use bedrockformation::bedrock::{compute_probability, prob_to_threshold, BedrockType, Block};
use bedrockformation::gpu::{
    batch_request, block_bytes, decode_result, dispatch_grid, gpu_block, gpu_blocks, read_result,
    uniform_bytes, MAX_BLOCKS_PER_ROTATION, MAX_TOTAL_BLOCKS,
};
use bedrockformation::hash::{is_bedrock_by_terms, position_x_term, position_z_term};
use bedrockformation::rng::compute_deriver_seeds;
use bedrockformation::rotations::generate_rotations;
use bedrockformation::search::{Batch, Begin, Search, SimdLevel};
use bedrockformation::spiral::spiral_coords_with_state;

fn block(x: i32, y: i32, z: i32, should_be_bedrock: bool) -> Block {
    let probability = compute_probability(y, BedrockType::Floor);
    Block { x, y, z, should_be_bedrock, probability, prob_threshold: prob_to_threshold(probability) }
}

#[test]
fn largest_patterns() {
    assert_eq!(MAX_BLOCKS_PER_ROTATION, 4 * 16 * 16);
    assert_eq!(MAX_TOTAL_BLOCKS, 4 * MAX_BLOCKS_PER_ROTATION);
}

#[test]
fn block_entries() {
    let g = gpu_block(&block(-1, -61, -2, true));
    assert_eq!(g.bx_k, 3129871u32.wrapping_neg());
    assert_eq!(g.by, -61);
    assert_eq!(((g.bz_k_hi as u64) << 32 | g.bz_k_lo as u64) as i64, -232259562);
    assert_eq!(g.prob_threshold, 6710886);
    assert_eq!(g.should_be_bedrock, 1);
    assert_eq!(g._pad, [0, 0]);
    assert_eq!(gpu_block(&block(0, -61, 0, false)).should_be_bedrock, 0);
}

#[test]
fn entries_decide_as_blocks() {
    let (dlo, dhi) = compute_deriver_seeds(124352345, BedrockType::Floor);
    let b = block(3, -62, -7, true);
    let g = gpu_block(&b);
    for x in -30..30 {
        let z = 5 * x - 1;
        let by_entry = is_bedrock_by_terms(
            position_x_term(x).wrapping_add(g.bx_k as i32),
            g.by,
            position_z_term(z).wrapping_add(((g.bz_k_hi as u64) << 32 | g.bz_k_lo as u64) as i64),
            dlo,
            dhi,
            g.prob_threshold as u64,
        ) == (g.should_be_bedrock != 0);
        let by_block = is_bedrock_by_terms(
            position_x_term(x + b.x),
            b.y,
            position_z_term(z + b.z),
            dlo,
            dhi,
            b.prob_threshold,
        );
        assert_eq!(by_entry, by_block);
    }
}

#[test]
fn rotations_one_after_the_other() {
    let a = vec![block(0, -60, 0, true), block(1, -61, 0, true)];
    let b = vec![block(0, -62, 0, false), block(0, -63, 1, true)];
    let all = gpu_blocks(&vec![a, b]);
    let ys: Vec<i32> = all.iter().map(|g| g.by).collect();
    assert_eq!(ys, vec![-60, -61, -62, -63]);
    assert!(gpu_blocks(&Vec::new()).is_empty());
}

#[test]
fn dispatch_grids() {
    assert_eq!(dispatch_grid(0), (1, 1));
    assert_eq!(dispatch_grid(1), (1, 1));
    assert_eq!(dispatch_grid(32), (32, 1));
    assert_eq!(dispatch_grid(65_535), (65_535, 1));
    assert_eq!(dispatch_grid(65_536), (256, 256));
    assert_eq!(dispatch_grid(65_537), (257, 256));
    assert_eq!(dispatch_grid(131_072), (363, 362));
    assert_eq!(dispatch_grid(0x100_0000), (4096, 4096));
}

#[test]
fn grids_agree_with_floating_point() {
    for n in [65_536u32, 65_537, 70_000, 131_071, 131_072, 1_000_000, 16_777_215] {
        let (x, y) = dispatch_grid(n);
        assert_eq!(x, (n as f64).sqrt().ceil() as u32);
        assert_eq!(y, (n + x - 1) / x);
    }
}

#[test]
fn request_of_a_batch() {
    let r = batch_request(
        0x1_0000_0001,
        2048,
        -3,
        7,
        -2,
        0x0123_4567_89AB_CDEF,
        12,
        4,
    );
    let u = r.uniforms;
    assert_eq!((u.dlo_lo, u.dlo_hi), (0xFFFF_FFFE, 0xFFFF_FFFF));
    assert_eq!((u.dhi_lo, u.dhi_hi), (0x89AB_CDEF, 0x0123_4567));
    assert_eq!(u.blocks_per_rotation, 3);
    assert_eq!(u.rotation_count, 4);
    assert_eq!(u.candidate_count, 16_777_216);
    assert_eq!((u.batch_base_k_lo, u.batch_base_k_hi), (8, 8));
    assert_eq!((u.start_x, u.start_z), (-3, 7));
    assert_eq!((r.dispatch_x, r.dispatch_y), (256, 256));
    assert_eq!(u.dispatch_width, 65_536);
}

#[test]
fn every_candidate_has_one_thread() {
    for chunks in [1usize, 3, 2047, 2049] {
        let r = batch_request(0, chunks, 0, 0, 1, 2, 1, 1);
        let w = r.uniforms.dispatch_width;
        let n = r.uniforms.candidate_count;
        for c in [0, 1, w - 1, n / 2, n - 1] {
            if c < n {
                assert!(c / w < r.dispatch_y);
                assert_eq!((c / w) * w + c % w, c);
            }
        }
        assert!(r.dispatch_x <= 65_535 && r.dispatch_y <= 65_535);
    }
}

#[test]
fn bytes_of_the_parameters() {
    let u = batch_request(5, 1, -3, 7, 1, -1, 8, 2).uniforms;
    let words = [
        u.dlo_lo,
        u.dlo_hi,
        u.dhi_lo,
        u.dhi_hi,
        u.blocks_per_rotation,
        u.candidate_count,
        u.batch_base_k_lo,
        u.start_x as u32,
        u.start_z as u32,
        u.dispatch_width,
        u.rotation_count,
        u.batch_base_k_hi,
    ];
    let mut expected: Vec<u8> = Vec::new();
    for w in words {
        expected.extend_from_slice(&w.to_ne_bytes());
    }
    assert_eq!(uniform_bytes(&u), expected);
    assert_eq!(expected.len(), 48);
}

#[test]
fn bytes_of_the_blocks() {
    let blocks = gpu_blocks(&vec![vec![block(1, -60, 2, true), block(-1, -63, -2, false)]]);
    let mut expected: Vec<u8> = Vec::new();
    for g in &blocks {
        for w in [
            g.bx_k,
            g.by as u32,
            g.bz_k_lo,
            g.bz_k_hi,
            g.prob_threshold,
            g.should_be_bedrock,
            g._pad[0],
            g._pad[1],
        ] {
            expected.extend_from_slice(&w.to_ne_bytes());
        }
    }
    assert_eq!(block_bytes(&blocks), expected);
    assert_eq!(expected.len(), 64);
}

#[test]
fn answers() {
    assert_eq!(decode_result(0xFFFF_FFFF), None);
    assert_eq!(decode_result(0), Some(0));
    assert_eq!(decode_result(8191), Some(0));
    assert_eq!(decode_result(8192), Some(1));
    assert_eq!(decode_result(0xFFFF_FFFE), Some(524_287));
    assert_eq!(read_result(&[0xFF; 4]), None);
    assert_eq!(read_result(&21_056u32.to_ne_bytes()), Some(2));
    assert_eq!(read_result(&0x0102_0304u32.to_ne_bytes()), Some(0x0102_0304 / 8192));
}

/// What a kernel that works answers: the least candidate at which one rotation passes.
fn kernel(s: &Search, base_group: i64, chunks: usize) -> u32 {
    let entries = gpu_blocks(&s.patterns);
    let u = batch_request(
        base_group,
        chunks,
        s.start_x,
        s.start_z,
        s.dlo,
        s.dhi,
        entries.len(),
        s.patterns.len() as u32,
    )
    .uniforms;
    let base = (u.batch_base_k_hi as i64) << 32 | u.batch_base_k_lo as i64;
    for c in 0..u.candidate_count {
        let p = spiral_coords_with_state(base + c as i64, u.start_x, u.start_z);
        let passes = |r: u32| {
            (0..u.blocks_per_rotation).all(|i| {
                let g = entries[(r * u.blocks_per_rotation + i) as usize];
                let bz_k = ((g.bz_k_hi as u64) << 32 | g.bz_k_lo as u64) as i64;
                is_bedrock_by_terms(
                    position_x_term(p.x).wrapping_add(g.bx_k as i32),
                    g.by,
                    position_z_term(p.z).wrapping_add(bz_k),
                    s.dlo,
                    s.dhi,
                    g.prob_threshold as u64,
                ) == (g.should_be_bedrock != 0)
            })
        };
        if (0..u.rotation_count).any(passes) {
            return c;
        }
    }
    0xFFFF_FFFF
}

#[test]
fn kernel_and_threads_agree() {
    let bits = [0, 0, 0, 0, 0, 0, 0, 1, 0, 1, 0, 1, 0, 1, 0, 1, 1, 1, 1, 0, 1, 0, 1, 1];
    let mut v: Vec<Block> = Vec::new();
    for y in [-60, -61, -62, -63] {
        for i in 0..3 {
            for j in 0..2 {
                v.push(block(i, y, j, bits[v.len()] == 1));
            }
        }
    }
    let s = match Search::begin(
        124352345,
        0,
        0,
        BedrockType::Floor,
        &generate_rotations(v),
        SimdLevel::Scalar,
    ) {
        Ok(Begin::Search(s)) => s,
        _ => panic!("there is something to look for"),
    };
    assert_eq!(kernel(&s, 0, 3), 21_056);
    let never = || false;
    for (group, chunks, expected) in
        [(0, 2, Batch::Clear), (0, 3, Batch::Hit(2)), (1024, 2, Batch::Hit(1))]
    {
        let raw = kernel(&s, group, chunks);
        assert_eq!(Batch::from_found(decode_result(raw)), expected);
        assert_eq!(s.run_chunk_batch(group, chunks as i64, &never), expected);
    }
    let on_kernel = s.run_with(0, 2, &never, &|_| {}, &|group, chunks| {
        Batch::from_found(decode_result(kernel(&s, group, chunks as usize)))
    });
    assert_eq!(on_kernel, s.run(0, 2, &never, &|_| {}));
    assert_eq!(on_kernel, Ok(Some((73, -41, 2633))));
}
