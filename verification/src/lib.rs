//! Search for bedrock patterns in a seeded world, walking outwards from a centre along a square
//! spiral.
pub mod bedrock;
pub mod blocks;
pub mod collect;
pub mod gpu;
pub mod grid;
pub mod grid_turns;
pub mod gui;
pub mod hash;
pub mod lanes;
pub mod moved;
pub mod prepare;
pub mod rng;
pub mod rotations;
pub mod search;
pub mod simd_avx2;
pub mod simd_avx512;
pub mod spiral;
pub mod text;
