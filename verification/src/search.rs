//! The search along the spiral, in chunks that are handed out to worker threads.
use std::sync::atomic::{AtomicBool, Ordering};

use rayon::iter::{IntoParallelIterator, ParallelIterator};
use vstd::prelude::*;

use crate::bedrock::{BedrockType, Block};
use crate::blocks::{check_formation_with_terms, Blocks};
use crate::hash::{position_x_term, position_z_term};
use crate::prepare::{prepare_rotations, Preparation, SearchError};
use crate::rng::compute_deriver_seeds;
use crate::simd_avx2::{
    check_formation_x8_avx2_with_terms, fill_group_uniform, position_terms_x8_avx2,
};
use crate::simd_avx512::{check_formation_x8_with_terms, position_terms_x8};
use crate::spiral::{
    advance, fill_group_from_state, fill_group_straight, spiral_coords_with_state,
    spiral_index_limit, SpiralState, MAX_INDEX,
};

verus! {

/// The number of positions of a basic batch. What is handed out at a time is a multiple of it.
pub const SEARCH_BATCH_SIZE: i64 = 1_048_576;

/// The number of groups of eight positions that one task examines.
pub const GROUPS_PER_CHUNK: i64 = 1024;

/// The number of groups of a basic batch.
pub const GROUPS_PER_BATCH: i64 = 131_072;

/// The number of chunks of a basic batch.
pub const CHUNKS_PER_BATCH: i64 = 128;

/// `n` is a power of two.
pub open spec fn is_power_of_two(n: int) -> bool {
    exists|e: nat| n == #[trigger] vstd::arithmetic::power2::pow2(e)
}

/// The least power of two that is not below `target`.
fn next_power_of_two(target: u64) -> (p: u64)
    requires
        1 <= target <= 0x4000_0000_0000_0000,
    ensures
        is_power_of_two(p as int),
        target <= p < 2 * target,
        p <= 0x4000_0000_0000_0000,
{
    let mut p: u64 = 1;
    let ghost mut e: nat = 0;
    proof {
        vstd::arithmetic::power2::lemma2_to64();
        vstd::arithmetic::power2::lemma2_to64_rest();
    }
    while p < target
        invariant
            1 <= target <= 0x4000_0000_0000_0000,
            p == vstd::arithmetic::power2::pow2(e),
            1 <= p < 2 * target,
            p <= 0x4000_0000_0000_0000,
            e <= 62,
            p < 0x4000_0000_0000_0000 ==> e < 62,
            vstd::arithmetic::power2::pow2(62) == 0x4000_0000_0000_0000,
        decreases 2 * target - p,
    {
        proof {
            vstd::arithmetic::power2::lemma_pow2_unfold(e + 1);
            if e + 1 < 62 {
                vstd::arithmetic::power2::lemma_pow2_strictly_increases(e + 1, 62);
            }
        }
        p = p * 2;
        proof {
            e = e + 1;
        }
    }
    p
}

/// How many chunks to hand out at a time to a number of threads: at least four per thread, at
/// least sixteen times `CHUNKS_PER_BATCH`, rounded up to a power of two.
pub fn super_batch_chunks(threads: usize) -> (chunks: i64)
    requires
        threads <= 0x1000_0000_0000_0000,
    ensures
        is_power_of_two(chunks as int),
        ({
            let target = if 4 * threads > 16 * CHUNKS_PER_BATCH {
                4 * threads
            } else {
                16 * CHUNKS_PER_BATCH
            };
            target <= chunks < 2 * target
        }),
{
    let for_balance: i64 = threads as i64 * 4;
    let for_batching: i64 = CHUNKS_PER_BATCH * 16;
    let target: i64 = if for_balance > for_batching {
        for_balance
    } else {
        for_batching
    };
    next_power_of_two(target as u64) as i64
}

/// `rayon::current_num_threads` gives the number of threads of a pool, which is at least one and
/// at most the 65535 that a pool can count. Which number it is depends on the machine and its
/// settings.
#[verifier::external_body]
fn current_num_threads() -> (n: usize)
    ensures
        1 <= n <= 65_535,
{
    rayon::current_num_threads()
}

/// How many chunks to hand out at a time on this machine.
pub fn compute_super_batch_chunks() -> (chunks: i64)
    ensures
        is_power_of_two(chunks as int),
        2048 <= chunks < 524_288,
{
    super_batch_chunks(current_num_threads())
}

/// What a look at a chunk shows.
#[derive(Clone, Copy, PartialEq, Eq, Debug, Structural)]
pub struct Look {
    pub chunk: i64,
    /// There is no need to look at later chunks.
    pub stops: bool,
    /// The chunk holds a match.
    pub hit: bool,
}

/// A look at number `j` may show that later ones are needed.
pub open spec fn goes_on<F: Fn(i64) -> Look>(f: F, j: i64) -> bool {
    exists|t: Look| #[trigger] call_ensures(f, (j,), t) && !t.stops
}

/// A look at number `i` may show `s`, and a look at each smaller number that later ones are needed.
pub open spec fn stops_at<F: Fn(i64) -> Look>(f: F, i: i64, s: Look) -> bool {
    &&& call_ensures(f, (i,), s)
    &&& forall|j: i64| 0 <= j < i ==> #[trigger] goes_on(f, j)
}

/// `find_first` of a parallel iterator over `0..n` whose numbers are mapped to looks gives the look
/// at the least number that stops. There was a look at every smaller number, and at every number if
/// none stops, and none of these stopped.
#[verifier::external_body]
fn find_first_stop<F: Fn(i64) -> Look + Sync + Send>(n: i64, f: F) -> (r: Option<Look>)
    requires
        forall|i: i64| 0 <= i < n ==> call_requires(f, (i,)),
    ensures
        match r {
            Some(s) => s.stops && exists|i: i64| 0 <= i < n && #[trigger] stops_at(f, i, s),
            None => forall|j: i64| 0 <= j < n ==> #[trigger] goes_on(f, j),
        },
{
    (0..n).into_par_iter().map(f).find_first(|look| look.stops)
}

/// The instructions that a machine offers for testing several positions at once.
#[derive(Clone, Copy, PartialEq, Eq, Debug, Structural)]
pub enum SimdLevel {
    /// Eight lanes with a full multiply.
    Avx512,
    /// Four lanes with a 32-bit multiply.
    Avx2,
    /// One position at a time.
    Scalar,
}

/// Some pattern of a list lies at position `(x, z)` of a layer with the given seeds.
pub open spec fn any_pattern_at(
    patterns: Seq<Seq<Block>>,
    x: int,
    z: int,
    dlo: i64,
    dhi: i64,
) -> bool {
    exists|r: int|
        0 <= r < patterns.len() && #[trigger] crate::blocks::pattern_at(
            patterns[r],
            x,
            z,
            dlo,
            dhi,
        )
}

/// What is said of a batch of chunks.
#[derive(Clone, Copy, PartialEq, Eq, Debug, Structural)]
pub enum Batch {
    /// This chunk of the batch is the first that holds a match.
    Hit(i64),
    /// No chunk of the batch holds a match.
    Clear,
    /// The search was cancelled before the batch was examined to its end.
    Cancelled,
}

impl Batch {
    /// What the index of the first chunk with a match, if there is one, says of a batch.
    pub open spec fn of(found: Option<i64>) -> Batch {
        match found {
            Some(ci) => Batch::Hit(ci),
            None => Batch::Clear,
        }
    }

    /// Says of a batch which chunk is the first with a match, if there is one.
    pub fn from_found(found: Option<i64>) -> (b: Batch)
        ensures
            b == Batch::of(found),
    {
        match found {
            Some(ci) => Batch::Hit(ci),
            None => Batch::Clear,
        }
    }
}

/// The question that a search answers: where, along the spiral around a centre of a layer with
/// the given seeds, does one of some patterns lie?
pub struct Query {
    pub start_x: i32,
    pub start_z: i32,
    pub dlo: i64,
    pub dhi: i64,
    pub patterns: Seq<Seq<Block>>,
}

impl Query {
    /// A match lies at position `(x, z)`.
    pub open spec fn matches(self, x: int, z: int) -> bool {
        any_pattern_at(self.patterns, x, z, self.dlo, self.dhi)
    }

    /// A match lies at index `k` of the spiral.
    pub open spec fn hit(self, k: int) -> bool {
        let p = crate::spiral::spiral_position(self.start_x, self.start_z, k);
        self.matches(p.0, p.1)
    }

    /// A match lies in the chunk that begins with the given group.
    pub open spec fn chunk_hit(self, base_group: int) -> bool {
        exists|k: int|
            8 * base_group <= k < 8 * (base_group + GROUPS_PER_CHUNK) && #[trigger] self.hit(k)
    }

    /// The first match from index `from` on lies at index `k`.
    pub open spec fn first_hit(self, from: int, k: int) -> bool {
        &&& from <= k
        &&& self.hit(k)
        &&& forall|m: int| from <= m < k ==> !#[trigger] self.hit(m)
    }

    /// The chunk that begins with the given group lies within the coordinates and indices.
    pub open spec fn chunk_fits(self, base_group: int) -> bool {
        &&& 0 <= base_group
        &&& 8 * (base_group + GROUPS_PER_CHUNK) <= crate::spiral::index_limit(
            self.start_x,
            self.start_z,
        )
    }

    /// How many whole chunks from the given group on lie within the coordinates and indices.
    pub open spec fn chunks_left(self, group: int) -> int {
        let left = crate::spiral::index_limit(self.start_x, self.start_z) - 8 * group;
        if left < 0 {
            0
        } else {
            left / (8 * GROUPS_PER_CHUNK)
        }
    }

    /// Some position of a group matches.
    pub open spec fn group_matches(self, xs: Seq<i32>, zs: Seq<i32>) -> bool {
        exists|p: int| 0 <= p < 8 && #[trigger] self.matches(xs[p] as int, zs[p] as int)
    }

    /// The last index that is examined.
    pub open spec fn limit(self) -> int {
        crate::spiral::index_limit(self.start_x, self.start_z)
    }

    /// A match from a group on lies at `(x, z)`, and `resume` is the group after the one that holds
    /// it.
    pub open spec fn located(self, start_group: int, x: int, z: int, resume: int) -> bool {
        exists|k: int|
            {
                &&& 8 * start_group <= k <= self.limit()
                &&& #[trigger] self.hit(k)
                &&& (x, z) == crate::spiral::spiral_position(self.start_x, self.start_z, k)
                &&& resume == k / 8 + 1
            }
    }

    /// The first match from a group on lies at `(x, z)`, and `resume` is the group after the one
    /// that holds it.
    pub open spec fn found(self, start_group: int, x: int, z: int, resume: int) -> bool {
        exists|k: int|
            {
                &&& #[trigger] self.first_hit(8 * start_group, k)
                &&& k <= self.limit()
                &&& (x, z) == crate::spiral::spiral_position(self.start_x, self.start_z, k)
                &&& resume == k / 8 + 1
            }
    }

    /// No match lies from a group on.
    pub open spec fn exhausted(self, start_group: int) -> bool {
        forall|k: int| 8 * start_group <= k <= self.limit() ==> !#[trigger] self.hit(k)
    }

    /// A search from a group on may answer `r`: the first match, or that there is none. Nothing is
    /// said of a search that is cancelled.
    pub open spec fn answered(
        self,
        start_group: int,
        r: Result<Option<(i32, i32, i64)>, SearchError>,
    ) -> bool {
        match r {
            Ok(Some((x, z, resume))) => self.found(start_group, x as int, z as int, resume as int),
            Ok(None) => true,
            Err(e) => e == SearchError::SpaceExhausted && self.exhausted(start_group),
        }
    }

    /// No match lies between a group and index `k`.
    pub open spec fn clear_before(self, start_group: int, k: int) -> bool {
        forall|m: int| 8 * start_group <= m < k ==> !#[trigger] self.hit(m)
    }

    /// A search from a group on, in batches of so many chunks, has a batch number `n`, counted from
    /// 1. The last batch may be shorter.
    pub open spec fn is_batch(self, start_group: int, batch_chunks: int, n: int) -> bool {
        1 <= n && (n - 1) * batch_chunks < self.chunks_left(start_group)
    }

    /// The index after batch number `n` of a search from a group on.
    pub open spec fn batch_end(self, start_group: int, batch_chunks: int, n: int) -> int {
        let chunks = if n * batch_chunks < self.chunks_left(start_group) {
            n * batch_chunks
        } else {
            self.chunks_left(start_group)
        };
        8 * (start_group + GROUPS_PER_CHUNK * chunks)
    }

    /// A search from a group on may report index `k` after batch number `n`: the index after that
    /// batch. If the batches are examined truthfully, no match lies before it; only a batch in
    /// which the search is cancelled is reported though it was not examined to its end.
    pub open spec fn may_report(
        self,
        start_group: int,
        batch_chunks: int,
        n: int,
        k: int,
        truthful: bool,
        cancelled: bool,
    ) -> bool {
        &&& self.is_batch(start_group, batch_chunks, n)
        &&& k == self.batch_end(start_group, batch_chunks, n)
        &&& truthful ==> {
            ||| self.clear_before(start_group, k)
            ||| cancelled && self.clear_before(
                start_group,
                self.batch_end(start_group, batch_chunks, n - 1),
            )
        }
    }

    /// What is said of a batch of chunks is true: the first chunk that holds a match, or that none
    /// does.
    pub open spec fn batch_says(self, batch_base: int, chunks: int, b: Batch) -> bool {
        match b {
            Batch::Hit(ci) => {
                &&& 0 <= ci < chunks
                &&& self.chunk_hit(batch_base + GROUPS_PER_CHUNK * ci)
                &&& forall|c: int|
                    0 <= c < ci ==> !#[trigger] self.chunk_hit(batch_base + GROUPS_PER_CHUNK * c)
            },
            Batch::Clear => forall|c: int|
                0 <= c < chunks ==> !#[trigger] self.chunk_hit(batch_base + GROUPS_PER_CHUNK * c),
            Batch::Cancelled => true,
        }
    }

    /// Chunks without a match hold no hit.
    proof fn lemma_clear_chunks(self, batch_base: int, n: int)
        requires
            forall|c: int|
                0 <= c < n ==> !#[trigger] self.chunk_hit(batch_base + GROUPS_PER_CHUNK * c),
        ensures
            self.clear_before(batch_base, 8 * (batch_base + GROUPS_PER_CHUNK * n)),
    {
        let end = 8 * (batch_base + GROUPS_PER_CHUNK * n);
        assert forall|k: int| 8 * batch_base <= k < end implies !#[trigger] self.hit(k) by {
            let c = (k - 8 * batch_base) / 8192;
            assert(8 * (batch_base + GROUPS_PER_CHUNK * c) <= k < 8 * (batch_base + GROUPS_PER_CHUNK
                * c + GROUPS_PER_CHUNK));
            assert(!self.chunk_hit(batch_base + GROUPS_PER_CHUNK * c));
        }
    }

    /// How many whole chunks are left after `n` batches of a search from a group on.
    pub open spec fn chunks_after(self, start_group: int, batch_chunks: int, n: int) -> int {
        if n * batch_chunks < self.chunks_left(start_group) {
            self.chunks_left(start_group) - n * batch_chunks
        } else {
            0
        }
    }

    /// Before the first batch, nothing has been passed over.
    proof fn lemma_no_batch(self, start_group: int, batch_chunks: int)
        ensures
            self.batch_end(start_group, batch_chunks, 0) == 8 * start_group,
            self.chunks_after(start_group, batch_chunks, 0) == self.chunks_left(start_group),
    {
        assert(0 * batch_chunks == 0) by (nonlinear_arith);
    }

    /// While chunks are left, there is a next batch, as long as a batch or as what is left.
    proof fn lemma_next_batch(self, start_group: int, batch_chunks: int, n: int)
        requires
            0 <= n,
            1 <= batch_chunks,
            0 < self.chunks_after(start_group, batch_chunks, n),
        ensures
            self.is_batch(start_group, batch_chunks, n + 1),
            ({
                let left = self.chunks_after(start_group, batch_chunks, n);
                let chunks = if left < batch_chunks {
                    left
                } else {
                    batch_chunks
                };
                &&& self.batch_end(start_group, batch_chunks, n + 1) == self.batch_end(
                    start_group,
                    batch_chunks,
                    n,
                ) + 8 * (GROUPS_PER_CHUNK * chunks)
                &&& self.chunks_after(start_group, batch_chunks, n + 1) == left - chunks
            }),
    {
        assert((n + 1) * batch_chunks == n * batch_chunks + batch_chunks) by (nonlinear_arith);
    }

    /// Where no chunk is left after `n` batches, there are no more than `n`.
    proof fn lemma_batches_done(self, start_group: int, batch_chunks: int, n: int)
        requires
            0 <= n,
            1 <= batch_chunks,
            self.chunks_after(start_group, batch_chunks, n) == 0,
        ensures
            forall|m: int| #[trigger] self.is_batch(start_group, batch_chunks, m) ==> m <= n,
    {
        assert forall|m: int| #[trigger] self.is_batch(start_group, batch_chunks, m) implies m
            <= n by {
            if m > n {
                assert((m - 1) * batch_chunks >= n * batch_chunks) by (nonlinear_arith)
                    requires
                        m - 1 >= n,
                        batch_chunks >= 1,
                ;
            }
        }
    }

    /// A batch that ends at or before an index inside batch `n + 1` is one of the first `n`.
    proof fn lemma_batches_before(self, start_group: int, batch_chunks: int, n: int, k: int)
        requires
            0 <= n,
            1 <= batch_chunks,
            k < self.batch_end(start_group, batch_chunks, n + 1),
        ensures
            forall|m: int|
                self.is_batch(start_group, batch_chunks, m) && #[trigger] self.batch_end(
                    start_group,
                    batch_chunks,
                    m,
                ) <= k ==> m <= n,
    {
        assert forall|m: int|
            self.is_batch(start_group, batch_chunks, m) && #[trigger] self.batch_end(
                start_group,
                batch_chunks,
                m,
            ) <= k implies m <= n by {
            if m > n {
                assert(m * batch_chunks >= (n + 1) * batch_chunks) by (nonlinear_arith)
                    requires
                        m >= n + 1,
                        batch_chunks >= 1,
                ;
            }
        }
    }

    /// Two stretches without a match that join make one.
    proof fn lemma_clear_joins(self, from: int, middle: int, k: int)
        requires
            self.clear_before(from, 8 * middle),
            self.clear_before(middle, k),
        ensures
            self.clear_before(from, k),
    {
        assert forall|m: int| 8 * from <= m < k implies !#[trigger] self.hit(m) by {}
    }

    /// The first match from a later group on is a match, and the first one where none lies before
    /// that group.
    proof fn lemma_found_further(
        self,
        from: int,
        group: int,
        x: int,
        z: int,
        resume: int,
        clear: bool,
    )
        requires
            from <= group,
            self.found(group, x, z, resume),
            clear ==> self.clear_before(from, 8 * group),
        ensures
            self.located(from, x, z, resume),
            clear ==> self.found(from, x, z, resume),
    {
        let k = choose|k: int|
            {
                &&& #[trigger] self.first_hit(8 * group, k)
                &&& k <= self.limit()
                &&& (x, z) == crate::spiral::spiral_position(self.start_x, self.start_z, k)
                &&& resume == k / 8 + 1
            };
        assert(self.hit(k));
        if clear {
            assert(self.first_hit(8 * from, k));
        }
    }

    /// Passing over whole chunks leaves so many fewer.
    proof fn lemma_chunks_left(self, group: int, chunks: int)
        requires
            0 <= group,
            0 <= chunks <= self.chunks_left(group),
        ensures
            self.chunks_left(group + GROUPS_PER_CHUNK * chunks) == self.chunks_left(group) - chunks,
    {
        let left = self.limit() - 8 * group;
        if left >= 0 {
            assert((left - 8192 * chunks) / 8192 == left / 8192 - chunks);
        }
    }

    /// The chunks that are left fit.
    proof fn lemma_chunks_fit(self, group: int, chunk: int)
        requires
            0 <= group,
            0 <= chunk < self.chunks_left(group),
        ensures
            self.chunk_fits(group + GROUPS_PER_CHUNK * chunk),
    {
        let left = crate::spiral::index_limit(self.start_x, self.start_z) - 8 * group;
        assert(8192 * (left / 8192) <= left);
    }
}

/// A query whose patterns are laid out for testing.
pub struct Search {
    pub start_x: i32,
    pub start_z: i32,
    pub dlo: i64,
    pub dhi: i64,
    pub simd: SimdLevel,
    pub patterns: Vec<Vec<Block>>,
    pub blocks_list: Vec<Blocks>,
}

impl Search {
    /// Every pattern is laid out.
    pub open spec fn wf(self) -> bool {
        &&& self.blocks_list@.len() == self.patterns@.len()
        &&& forall|r: int|
            0 <= r < self.patterns@.len() ==> (#[trigger] self.blocks_list@[r]).encodes(
                self.patterns@[r]@,
            )
    }

    /// What this search looks for, and where.
    pub open spec fn query(&self) -> Query {
        Query {
            start_x: self.start_x,
            start_z: self.start_z,
            dlo: self.dlo,
            dhi: self.dhi,
            patterns: crate::rotations::patterns_of(self.patterns@),
        }
    }

    /// Tests one position.
    pub fn position_matches(&self, x: i32, z: i32) -> (r: bool)
        requires
            self.wf(),
        ensures
            r == self.query().matches(x as int, z as int),
    {
        let ox: i32 = position_x_term(x);
        let oz: i64 = position_z_term(z);
        let ghost patterns = crate::rotations::patterns_of(self.patterns@);
        let mut i: usize = 0;
        while i < self.blocks_list.len()
            invariant
                self.wf(),
                0 <= i <= self.blocks_list@.len(),
                patterns == crate::rotations::patterns_of(self.patterns@),
                ox == crate::hash::x_term(x as int),
                oz == crate::hash::z_term(z as int),
                forall|m: int|
                    0 <= m < i ==> !#[trigger] crate::blocks::pattern_at(
                        patterns[m],
                        x as int,
                        z as int,
                        self.dlo,
                        self.dhi,
                    ),
            decreases self.blocks_list@.len() - i,
        {
            proof {
                assert(self.blocks_list@[i as int].encodes(self.patterns@[i as int]@));
                crate::blocks::law_terms_decide_pattern(
                    self.blocks_list@[i as int],
                    patterns[i as int],
                    x,
                    z,
                    self.dlo,
                    self.dhi,
                );
            }
            if check_formation_with_terms(ox, oz, self.dlo, self.dhi, &self.blocks_list[i]) {
                return true;
            }
            i = i + 1;
        }
        false
    }

    /// Tests the positions of a group one by one.
    fn check_group_scalar(&self, xs: &[i32; 8], zs: &[i32; 8]) -> (r: bool)
        requires
            self.wf(),
        ensures
            r == self.query().group_matches(xs@, zs@),
    {
        let mut p: usize = 0;
        while p < 8
            invariant
                self.wf(),
                0 <= p <= 8,
                forall|m: int|
                    0 <= m < p ==> !#[trigger] self.query().matches(xs@[m] as int, zs@[m] as int),
            decreases 8 - p,
        {
            if self.position_matches(xs[p], zs[p]) {
                assert(self.query().matches(xs@[p as int] as int, zs@[p as int] as int));
                return true;
            }
            p = p + 1;
        }
        false
    }

    /// The mask of the lanes at which pattern `r` lies.
    spec fn mask_of(self, mask: u8, r: int, xs: Seq<i32>, zs: Seq<i32>) -> bool {
        forall|p: int|
            0 <= p < 8 ==> #[trigger] crate::lanes::lane(mask, p) == crate::blocks::pattern_at(
                self.patterns@[r]@,
                xs[p] as int,
                zs[p] as int,
                self.dlo,
                self.dhi,
            )
    }

    proof fn lemma_mask_decides(self, mask: u8, r: int, xs: Seq<i32>, zs: Seq<i32>)
        requires
            0 <= r < self.patterns@.len(),
            self.mask_of(mask, r, xs, zs),
        ensures
            mask != 0 ==> self.query().group_matches(xs, zs),
            mask == 0 ==> forall|p: int|
                0 <= p < 8 ==> !#[trigger] crate::blocks::pattern_at(
                    self.patterns@[r]@,
                    xs[p] as int,
                    zs[p] as int,
                    self.dlo,
                    self.dhi,
                ),
    {
        crate::lanes::lemma_mask_zero(mask);
        let patterns = crate::rotations::patterns_of(self.patterns@);
        assert(patterns[r] == self.patterns@[r]@);
        if mask != 0 {
            let p = choose|p: int| 0 <= p < 8 && #[trigger] crate::lanes::lane(mask, p);
            assert(crate::blocks::pattern_at(
                patterns[r],
                xs[p] as int,
                zs[p] as int,
                self.dlo,
                self.dhi,
            ));
            assert(self.query().matches(xs[p] as int, zs[p] as int));
        } else {
            assert forall|p: int| 0 <= p < 8 implies !#[trigger] crate::blocks::pattern_at(
                self.patterns@[r]@,
                xs[p] as int,
                zs[p] as int,
                self.dlo,
                self.dhi,
            ) by {
                assert(!crate::lanes::lane(mask, p));
            }
        }
    }

    /// Patterns below `n` lie at no position of a group.
    spec fn none_below(self, n: int, xs: Seq<i32>, zs: Seq<i32>) -> bool {
        forall|r: int, p: int|
            0 <= r < n && 0 <= p < 8 ==> !#[trigger] crate::blocks::pattern_at(
                self.patterns@[r]@,
                xs[p] as int,
                zs[p] as int,
                self.dlo,
                self.dhi,
            )
    }

    proof fn lemma_none_matches(self, xs: Seq<i32>, zs: Seq<i32>)
        requires
            self.none_below(self.patterns@.len() as int, xs, zs),
        ensures
            !self.query().group_matches(xs, zs),
    {
        let patterns = crate::rotations::patterns_of(self.patterns@);
        assert forall|p: int| 0 <= p < 8 implies !#[trigger] self.query().matches(
            xs[p] as int,
            zs[p] as int,
        ) by {
            assert forall|r: int| 0 <= r < patterns.len() implies !#[trigger]
                crate::blocks::pattern_at(
                patterns[r],
                xs[p] as int,
                zs[p] as int,
                self.dlo,
                self.dhi,
            ) by {
                assert(patterns[r] == self.patterns@[r]@);
            }
        }
    }

    /// Tests the positions of a group in eight lanes.
    fn check_group_avx512(&self, xs: &[i32; 8], zs: &[i32; 8]) -> (r: bool)
        requires
            self.wf(),
        ensures
            r == self.query().group_matches(xs@, zs@),
    {
        let (ox, oz) = position_terms_x8(xs, zs);
        let mut i: usize = 0;
        while i < self.blocks_list.len()
            invariant
                self.wf(),
                0 <= i <= self.blocks_list@.len(),
                forall|p: int|
                    0 <= p < 8 ==> #[trigger] ox@[p] == crate::hash::x_term(xs@[p] as int),
                forall|p: int|
                    0 <= p < 8 ==> #[trigger] oz@[p] == crate::hash::z_term(zs@[p] as int),
                self.none_below(i as int, xs@, zs@),
            decreases self.blocks_list@.len() - i,
        {
            let mask: u8 = check_formation_x8_with_terms(
                &ox,
                &oz,
                self.dlo,
                self.dhi,
                &self.blocks_list[i],
            );
            proof {
                let b = self.blocks_list@[i as int];
                let v = self.patterns@[i as int]@;
                assert(b.encodes(v));
                assert forall|p: int| 0 <= p < 8 implies #[trigger] crate::lanes::lane(mask, p)
                    == crate::blocks::pattern_at(
                    v,
                    xs@[p] as int,
                    zs@[p] as int,
                    self.dlo,
                    self.dhi,
                ) by {
                    assert(ox@[p] == crate::hash::x_term(xs@[p] as int));
                    assert(oz@[p] == crate::hash::z_term(zs@[p] as int));
                    crate::blocks::law_terms_decide_pattern(
                        b,
                        v,
                        xs@[p],
                        zs@[p],
                        self.dlo,
                        self.dhi,
                    );
                }
                self.lemma_mask_decides(mask, i as int, xs@, zs@);
            }
            if mask != 0 {
                return true;
            }
            i = i + 1;
        }
        proof {
            self.lemma_none_matches(xs@, zs@);
        }
        false
    }

    /// Tests the positions of a group in two halves of four lanes.
    fn check_group_avx2(&self, xs: &[i32; 8], zs: &[i32; 8]) -> (r: bool)
        requires
            self.wf(),
        ensures
            r == self.query().group_matches(xs@, zs@),
    {
        let (ox_lo, ox_hi, oz_lo, oz_hi) = position_terms_x8_avx2(xs, zs);
        let mut i: usize = 0;
        while i < self.blocks_list.len()
            invariant
                self.wf(),
                0 <= i <= self.blocks_list@.len(),
                forall|p: int|
                    0 <= p < 4 ==> #[trigger] ox_lo@[p] == crate::hash::x_term(xs@[p] as int),
                forall|p: int|
                    0 <= p < 4 ==> #[trigger] ox_hi@[p] == crate::hash::x_term(xs@[p + 4] as int),
                forall|p: int|
                    0 <= p < 4 ==> #[trigger] oz_lo@[p] as i64 == crate::hash::z_term(
                        zs@[p] as int,
                    ),
                forall|p: int|
                    0 <= p < 4 ==> #[trigger] oz_hi@[p] as i64 == crate::hash::z_term(
                        zs@[p + 4] as int,
                    ),
                self.none_below(i as int, xs@, zs@),
            decreases self.blocks_list@.len() - i,
        {
            let mask: u8 = check_formation_x8_avx2_with_terms(
                &ox_lo,
                &ox_hi,
                &oz_lo,
                &oz_hi,
                self.dlo,
                self.dhi,
                &self.blocks_list[i],
            );
            proof {
                let b = self.blocks_list@[i as int];
                let v = self.patterns@[i as int]@;
                assert(b.encodes(v));
                assert forall|p: int| 0 <= p < 8 implies #[trigger] crate::lanes::lane(mask, p)
                    == crate::blocks::pattern_at(
                    v,
                    xs@[p] as int,
                    zs@[p] as int,
                    self.dlo,
                    self.dhi,
                ) by {
                    if p < 4 {
                        assert(ox_lo@[p] == crate::hash::x_term(xs@[p] as int));
                        assert(oz_lo@[p] as i64 == crate::hash::z_term(zs@[p] as int));
                    } else {
                        assert(ox_hi@[p - 4] == crate::hash::x_term(xs@[p] as int));
                        assert(oz_hi@[p - 4] as i64 == crate::hash::z_term(zs@[p] as int));
                    }
                    crate::blocks::law_terms_decide_pattern(
                        b,
                        v,
                        xs@[p],
                        zs@[p],
                        self.dlo,
                        self.dhi,
                    );
                }
                self.lemma_mask_decides(mask, i as int, xs@, zs@);
            }
            if mask != 0 {
                return true;
            }
            i = i + 1;
        }
        proof {
            self.lemma_none_matches(xs@, zs@);
        }
        false
    }

    /// Tests the positions of a group.
    pub fn check_group(&self, xs: &[i32; 8], zs: &[i32; 8]) -> (r: bool)
        requires
            self.wf(),
        ensures
            r == self.query().group_matches(xs@, zs@),
    {
        match self.simd {
            SimdLevel::Avx512 => self.check_group_avx512(xs, zs),
            SimdLevel::Avx2 => self.check_group_avx2(xs, zs),
            SimdLevel::Scalar => self.check_group_scalar(xs, zs),
        }
    }

    /// Fills a group along one leg of the spiral.
    fn fill_straight(
        &self,
        x: i32,
        z: i32,
        dx: i32,
        dz: i32,
        xs: &mut [i32; 8],
        zs: &mut [i32; 8],
    )
        requires
            (dx, dz) == (1i32, 0i32) || (dx, dz) == (-1i32, 0i32) || (dx, dz) == (0i32, 1i32) || (
            dx,
            dz,
        ) == (0i32, -1i32),
            i32::MIN <= x + 7 * dx <= i32::MAX,
            i32::MIN <= z + 7 * dz <= i32::MAX,
        ensures
            forall|i: int| 0 <= i < 8 ==> #[trigger] final(xs)@[i] == x + i * dx,
            forall|i: int| 0 <= i < 8 ==> #[trigger] final(zs)@[i] == z + i * dz,
    {
        match self.simd {
            SimdLevel::Scalar => {
                proof {
                    assert forall|i: int| 0 <= i < 8 implies i32::MIN <= #[trigger] (x + i * dx)
                        <= i32::MAX by {
                        assert(i * 0 == 0 && i * 1 == i && i * (-1) == -i) by (nonlinear_arith);
                    }
                    assert forall|i: int| 0 <= i < 8 implies i32::MIN <= #[trigger] (z + i * dz)
                        <= i32::MAX by {
                        assert(i * 0 == 0 && i * 1 == i && i * (-1) == -i) by (nonlinear_arith);
                    }
                }
                fill_group_straight(x, z, dx, dz, xs, zs);
            },
            _ => {
                fill_group_uniform(x, z, dx, dz, xs, zs);
            },
        }
    }

    /// A group holds a match exactly if one of its indices does.
    proof fn lemma_group(self, xs: Seq<i32>, zs: Seq<i32>, k: int)
        requires
            crate::spiral::group_at(xs, zs, self.start_x, self.start_z, k),
        ensures
            self.query().group_matches(xs, zs) <==> (exists|m: int| k <= m < k + 8 && #[trigger] self.query().hit(m)),
    {
        if self.query().group_matches(xs, zs) {
            let p = choose|p: int| 0 <= p < 8 && #[trigger] self.query().matches(xs[p] as int, zs[p] as int);
            assert(self.query().hit(k + p));
        }
        if exists|m: int| k <= m < k + 8 && #[trigger] self.query().hit(m) {
            let m = choose|m: int| k <= m < k + 8 && #[trigger] self.query().hit(m);
            let p = m - k;
            assert(xs[p] as int == crate::spiral::spiral_position(
                self.start_x,
                self.start_z,
                k + p,
            ).0);
            assert(self.query().matches(xs[p] as int, zs[p] as int));
        }
    }

    /// Tests whether a chunk that lies along one leg of the spiral holds a match.
    fn scan_straight(&self, state: &SpiralState) -> (r: bool)
        requires
            self.wf(),
            state.wf(self.start_x, self.start_z),
            state.l > 0,
            state.index() + 8 * GROUPS_PER_CHUNK <= crate::spiral::index_limit(
                self.start_x,
                self.start_z,
            ),
            state.j + 8 * GROUPS_PER_CHUNK < state.next_leg_j,
        ensures
            r == (exists|k: int|
                state.index() <= k < state.index() + 8 * GROUPS_PER_CHUNK && #[trigger] self.query().hit(
                    k,
                )),
    {
        let mut xs: [i32; 8] = [0; 8];
        let mut zs: [i32; 8] = [0; 8];
        let mut x: i32 = state.x;
        let mut z: i32 = state.z;
        let dx: i32 = state.dx;
        let dz: i32 = state.dz;
        let ghost k = state.index();
        let mut g: i64 = 0;
        while g < GROUPS_PER_CHUNK
            invariant
                0 <= g <= GROUPS_PER_CHUNK,
                self.wf(),
                state.wf(self.start_x, self.start_z),
                state.l > 0,
                k == state.index(),
                k + 8 * GROUPS_PER_CHUNK <= crate::spiral::index_limit(self.start_x, self.start_z),
                state.j + 8 * GROUPS_PER_CHUNK < state.next_leg_j,
                dx == state.dx,
                dz == state.dz,
                x == state.x + (8 * g) * dx,
                z == state.z + (8 * g) * dz,
                forall|m: int| k <= m < k + 8 * g ==> !#[trigger] self.query().hit(m),
            decreases GROUPS_PER_CHUNK - g,
        {
            proof {
                let m = 8 * g as int;
                crate::spiral::lemma_leg_is_straight(*state, self.start_x, self.start_z, m + 7);
                crate::spiral::lemma_leg_is_straight(*state, self.start_x, self.start_z, m + 8);
                crate::spiral::lemma_index_limit(self.start_x, self.start_z, k + m + 7);
                crate::spiral::lemma_index_limit(self.start_x, self.start_z, k + m + 8);
                assert((m + 7) * dx == m * dx + 7 * dx && (m + 7) * dz == m * dz + 7 * dz && (m + 8)
                    * dx == m * dx + 8 * dx && (m + 8) * dz == m * dz + 8 * dz)
                    by (nonlinear_arith);
            }
            self.fill_straight(x, z, dx, dz, &mut xs, &mut zs);
            proof {
                let m = 8 * g as int;
                assert forall|i: int|
                    #![trigger xs@[i]]
                    #![trigger zs@[i]]
                    0 <= i < 8 implies (xs@[i] as int, zs@[i] as int)
                    == crate::spiral::spiral_position(self.start_x, self.start_z, k + m + i) by {
                    crate::spiral::lemma_leg_is_straight(*state, self.start_x, self.start_z, m + i);
                    assert((m + i) * dx == m * dx + i * dx && (m + i) * dz == m * dz + i * dz)
                        by (nonlinear_arith);
                    assert(xs@[i] == x + i * dx);
                    assert(zs@[i] == z + i * dz);
                }
                self.lemma_group(xs@, zs@, k + m);
            }
            x = x + 8 * dx;
            z = z + 8 * dz;
            if self.check_group(&xs, &zs) {
                return true;
            }
            g = g + 1;
        }
        false
    }

    /// Tests whether a chunk holds a match, group by group along the spiral.
    fn scan_turning(&self, first: SpiralState) -> (r: bool)
        requires
            self.wf(),
            first.wf(self.start_x, self.start_z),
            first.index() + 8 * GROUPS_PER_CHUNK <= crate::spiral::index_limit(
                self.start_x,
                self.start_z,
            ),
        ensures
            r == (exists|k: int|
                first.index() <= k < first.index() + 8 * GROUPS_PER_CHUNK && #[trigger] self.query().hit(
                    k,
                )),
    {
        let mut xs: [i32; 8] = [0; 8];
        let mut zs: [i32; 8] = [0; 8];
        let mut state: SpiralState = first;
        let ghost k = first.index();
        let mut g: i64 = 0;
        while g < GROUPS_PER_CHUNK
            invariant
                0 <= g <= GROUPS_PER_CHUNK,
                self.wf(),
                state.wf(self.start_x, self.start_z),
                k == first.index(),
                0 <= k,
                state.index() == k + 8 * g,
                k + 8 * GROUPS_PER_CHUNK <= crate::spiral::index_limit(self.start_x, self.start_z),
                forall|m: int| k <= m < k + 8 * g ==> !#[trigger] self.query().hit(m),
            decreases GROUPS_PER_CHUNK - g,
        {
            proof {
                assert forall|i: int| 0 <= i <= 8 implies #[trigger] crate::spiral::position_fits(
                    self.start_x,
                    self.start_z,
                    state.index() + i,
                ) by {
                    crate::spiral::lemma_index_limit(
                        self.start_x,
                        self.start_z,
                        state.index() + i,
                    );
                }
                crate::spiral::lemma_index_limit(self.start_x, self.start_z, state.index() + 8);
            }
            fill_group_from_state(&mut state, &mut xs, &mut zs, self.start_x, self.start_z);
            proof {
                self.lemma_group(xs@, zs@, k + 8 * g);
            }
            if self.check_group(&xs, &zs) {
                return true;
            }
            g = g + 1;
        }
        false
    }

    /// Tests whether a chunk holds a match.
    pub fn chunk_matches(&self, base_group: i64) -> (r: bool)
        requires
            self.wf(),
            self.query().chunk_fits(base_group as int),
        ensures
            r == self.query().chunk_hit(base_group as int),
    {
        proof {
            crate::spiral::lemma_index_limit(
                self.start_x,
                self.start_z,
                8 * (base_group + GROUPS_PER_CHUNK),
            );
            crate::spiral::lemma_index_limit(self.start_x, self.start_z, 8 * base_group as int);
        }
        let state: SpiralState = spiral_coords_with_state(
            base_group * 8,
            self.start_x,
            self.start_z,
        );
        let chunk_end_j: i64 = state.j + GROUPS_PER_CHUNK * 8;
        if state.l > 0 && chunk_end_j < state.next_leg_j && chunk_end_j < 8 * state.l {
            self.scan_straight(&state)
        } else {
            self.scan_turning(state)
        }
    }

    /// Looks for the first match of a chunk. Gives its position, and the group after it.
    pub fn confirm_chunk(&self, base_group: i64) -> (r: Option<(i32, i32, i64)>)
        requires
            self.wf(),
            self.query().chunk_fits(base_group as int),
        ensures
            match r {
                Some((x, z, resume)) => exists|k: int|
                    {
                        &&& #[trigger] self.query().first_hit(8 * base_group as int, k)
                        &&& k < 8 * (base_group + GROUPS_PER_CHUNK)
                        &&& (x as int, z as int) == crate::spiral::spiral_position(
                            self.start_x,
                            self.start_z,
                            k,
                        )
                        &&& resume == k / 8 + 1
                    },
                None => !self.query().chunk_hit(base_group as int),
            },
    {
        proof {
            crate::spiral::lemma_index_limit(
                self.start_x,
                self.start_z,
                8 * (base_group + GROUPS_PER_CHUNK),
            );
            crate::spiral::lemma_index_limit(self.start_x, self.start_z, 8 * base_group as int);
        }
        let mut state: SpiralState = spiral_coords_with_state(
            base_group * 8,
            self.start_x,
            self.start_z,
        );
        let mut xs: [i32; 8] = [0; 8];
        let mut zs: [i32; 8] = [0; 8];
        let ghost k = 8 * base_group as int;
        let mut g: i64 = 0;
        while g < GROUPS_PER_CHUNK
            invariant
                0 <= g <= GROUPS_PER_CHUNK,
                self.wf(),
                self.query().chunk_fits(base_group as int),
                base_group + GROUPS_PER_CHUNK <= MAX_INDEX,
                state.wf(self.start_x, self.start_z),
                k == 8 * base_group,
                state.index() == k + 8 * g,
                forall|m: int| k <= m < k + 8 * g ==> !#[trigger] self.query().hit(m),
            decreases GROUPS_PER_CHUNK - g,
        {
            proof {
                assert forall|i: int| 0 <= i <= 8 implies #[trigger] crate::spiral::position_fits(
                    self.start_x,
                    self.start_z,
                    state.index() + i,
                ) by {
                    crate::spiral::lemma_index_limit(
                        self.start_x,
                        self.start_z,
                        state.index() + i,
                    );
                }
                crate::spiral::lemma_index_limit(self.start_x, self.start_z, state.index() + 8);
            }
            fill_group_from_state(&mut state, &mut xs, &mut zs, self.start_x, self.start_z);
            let mut p: usize = 0;
            while p < 8
                invariant
                    0 <= p <= 8,
                    0 <= g < GROUPS_PER_CHUNK,
                    self.wf(),
                    base_group + GROUPS_PER_CHUNK <= MAX_INDEX,
                    0 <= base_group,
                    k == 8 * base_group,
                    crate::spiral::group_at(xs@, zs@, self.start_x, self.start_z, k + 8 * g),
                    forall|m: int| k <= m < k + 8 * g + p ==> !#[trigger] self.query().hit(m),
                decreases 8 - p,
            {
                let ghost i = k + 8 * g + p;
                assert((xs@[p as int] as int, zs@[p as int] as int)
                    == crate::spiral::spiral_position(self.start_x, self.start_z, i));
                if self.position_matches(xs[p], zs[p]) {
                    assert(self.query().first_hit(k, i));
                    assert(i / 8 == base_group + g);
                    return Some((xs[p], zs[p], base_group + g + 1));
                }
                assert(!self.query().hit(i));
                p = p + 1;
            }
            g = g + 1;
        }
        None
    }

    /// Computes [`Query::chunks_left`].
    pub fn remaining_chunks(&self, group: i64) -> (n: i64)
        requires
            0 <= group,
        ensures
            n == self.query().chunks_left(group as int),
            0 <= n <= MAX_INDEX,
    {
        let limit: i64 = spiral_index_limit(self.start_x, self.start_z);
        if group > limit / 8 {
            0
        } else {
            (limit - 8 * group) / (8 * GROUPS_PER_CHUNK)
        }
    }

    /// Looks for the first of some chunks that holds a match, on all threads at once.
    ///
    /// A cancelled search stops at the next chunk that any thread takes up, and says so. A match in
    /// an earlier chunk is still given.
    pub fn run_chunk_batch<C: Fn() -> bool + Sync + Send>(
        &self,
        batch_base: i64,
        total_chunks: i64,
        cancelled: &C,
    ) -> (r: Batch)
        requires
            self.wf(),
            0 <= batch_base,
            0 <= total_chunks <= self.query().chunks_left(batch_base as int),
            call_requires(*cancelled, ()),
        ensures
            self.query().batch_says(batch_base as int, total_chunks as int, r),
            r is Cancelled ==> call_ensures(*cancelled, (), true),
            1 <= total_chunks && only_yes(*cancelled) ==> r is Cancelled,
    {
        let look = |ci: i64| -> (t: Look)
            requires
                0 <= ci < total_chunks,
            ensures
                t.chunk == ci,
                t.hit ==> t.stops,
                t.hit ==> self.query().chunk_hit(batch_base + GROUPS_PER_CHUNK * ci),
                t.stops && !t.hit ==> call_ensures(*cancelled, (), true),
                !t.stops ==> !self.query().chunk_hit(batch_base + GROUPS_PER_CHUNK * ci),
                t.hit || !t.stops ==> call_ensures(*cancelled, (), false),
            {
                if cancelled() {
                    return Look { chunk: ci, stops: true, hit: false };
                }
                proof {
                    self.query().lemma_chunks_fit(batch_base as int, ci as int);
                    crate::spiral::lemma_index_limit(
                        self.start_x,
                        self.start_z,
                        8 * (batch_base + GROUPS_PER_CHUNK * ci + GROUPS_PER_CHUNK),
                    );
                }
                let hit: bool = self.chunk_matches(batch_base + GROUPS_PER_CHUNK * ci);
                Look { chunk: ci, stops: hit, hit }
            };
        let stop = find_first_stop(total_chunks, look);
        proof {
            let n: int = match stop {
                Some(s) => {
                    let i = choose|i: i64| 0 <= i < total_chunks && #[trigger] stops_at(look, i, s);
                    assert(call_ensures(look, (i,), s));
                    i as int
                },
                None => total_chunks as int,
            };
            assert forall|c: int| 0 <= c < n implies !#[trigger] self.query().chunk_hit(
                batch_base + GROUPS_PER_CHUNK * c,
            ) by {
                assert(goes_on(look, c as i64));
                let t = choose|t: Look| #[trigger] call_ensures(look, (c as i64,), t) && !t.stops;
                assert(call_ensures(look, (c as i64,), t));
            }
            if n > 0 {
                assert(goes_on(look, 0i64));
                let t = choose|t: Look| #[trigger] call_ensures(look, (0i64,), t) && !t.stops;
                assert(call_ensures(look, (0i64,), t));
            }
        }
        match stop {
            None => Batch::Clear,
            Some(s) => if s.hit {
                Batch::Hit(s.chunk)
            } else {
                Batch::Cancelled
            },
        }
    }

    /// Looks for the first match from a group on, one position after the other.
    pub fn search_rest(&self, group: i64) -> (r: Option<(i32, i32, i64)>)
        requires
            self.wf(),
            0 <= group,
        ensures
            match r {
                Some((x, z, resume)) => self.query().found(
                    group as int,
                    x as int,
                    z as int,
                    resume as int,
                ),
                None => self.query().exhausted(group as int),
            },
    {
        let ghost q = self.query();
        let limit: i64 = spiral_index_limit(self.start_x, self.start_z);
        if group > limit / 8 {
            return None;
        }
        let mut k: i64 = 8 * group;
        proof {
            crate::spiral::lemma_index_limit(self.start_x, self.start_z, k as int);
        }
        let mut state: SpiralState = spiral_coords_with_state(k, self.start_x, self.start_z);
        loop
            invariant
                self.wf(),
                q == self.query(),
                0 <= group,
                limit == q.limit(),
                8 * group <= k <= limit,
                limit <= MAX_INDEX,
                state.wf(self.start_x, self.start_z),
                state.index() == k,
                q.clear_before(group as int, k as int),
            decreases limit - k,
        {
            if self.position_matches(state.x, state.z) {
                assert(q.first_hit(8 * group as int, k as int));
                return Some((state.x, state.z, k / 8 + 1));
            }
            assert(!q.hit(k as int));
            if k == limit {
                return None;
            }
            proof {
                crate::spiral::lemma_index_limit(self.start_x, self.start_z, k + 1);
            }
            advance(&mut state, self.start_x, self.start_z);
            k = k + 1;
        }
    }
}

/// Each of the first `n` batches of a search from a group on was reported.
pub open spec fn all_reported<P: Fn(i64)>(
    q: Query,
    start_group: int,
    batch_chunks: int,
    n: int,
    progress_cb: P,
) -> bool {
    forall|m: int|
        1 <= m <= n ==> call_ensures(
            progress_cb,
            (#[trigger] q.batch_end(start_group, batch_chunks, m) as i64,),
            (),
        )
}

/// Each batch of a search from a group on that ends at or before an index was reported.
pub open spec fn reported_until<P: Fn(i64)>(
    q: Query,
    start_group: int,
    batch_chunks: int,
    k: int,
    progress_cb: P,
) -> bool {
    forall|m: int|
        q.is_batch(start_group, batch_chunks, m) && #[trigger] q.batch_end(
            start_group,
            batch_chunks,
            m,
        ) <= k ==> call_ensures(
            progress_cb,
            (q.batch_end(start_group, batch_chunks, m) as i64,),
            (),
        )
}

/// Each batch of a search from a group on was reported.
pub open spec fn reported_to_the_end<P: Fn(i64)>(
    q: Query,
    start_group: int,
    batch_chunks: int,
    progress_cb: P,
) -> bool {
    forall|m: int| #[trigger]
        q.is_batch(start_group, batch_chunks, m) ==> call_ensures(
            progress_cb,
            (q.batch_end(start_group, batch_chunks, m) as i64,),
            (),
        )
}

/// The reports that an answer owes were made: on every batch that ends before the group of the
/// match, and on every batch where there is no match.
pub open spec fn answer_reported<P: Fn(i64)>(
    q: Query,
    start_group: int,
    batch_chunks: int,
    r: Result<Option<(i32, i32, i64)>, SearchError>,
    progress_cb: P,
) -> bool {
    match r {
        Ok(Some((x, z, resume))) => reported_until(
            q,
            start_group,
            batch_chunks,
            8 * (resume - 1),
            progress_cb,
        ),
        Err(SearchError::SpaceExhausted) => reported_to_the_end(
            q,
            start_group,
            batch_chunks,
            progress_cb,
        ),
        _ => true,
    }
}

/// The observer never says anything but yes.
pub open spec fn only_yes<C: Fn() -> bool>(cancelled: C) -> bool {
    forall|b: bool| call_ensures(cancelled, (), b) ==> b
}

/// Batches of up to a number of chunks are examined truthfully, and given up only where the observer
/// may say yes.
pub open spec fn truthful<C: Fn() -> bool, D: Fn(i64, i64) -> Batch>(
    q: Query,
    batch_chunks: int,
    cancelled: C,
    dispatch: D,
) -> bool {
    forall|group: i64, chunks: i64, b: Batch|
        0 <= group && 1 <= chunks <= batch_chunks && chunks <= q.chunks_left(group as int)
            && #[trigger] call_ensures(
            dispatch,
            (group, chunks),
            b,
        ) ==> q.batch_says(group as int, chunks as int, b) && (b is Cancelled ==> call_ensures(
            cancelled,
            (),
            true,
        ))
}

/// The query of a search for some patterns in a layer of the world with the given seed.
pub open spec fn query_for(
    seed: i64,
    start_x: i32,
    start_z: i32,
    bt: BedrockType,
    patterns: Seq<Seq<Block>>,
) -> Query {
    let d = crate::rng::deriver_seeds(seed, bt);
    Query { start_x, start_z, dlo: d.0, dhi: d.1, patterns }
}

/// The query of a search for the rotations of a pattern. Where one of them lies at every position,
/// that is what is looked for.
pub open spec fn hunted(
    seed: i64,
    start_x: i32,
    start_z: i32,
    bt: BedrockType,
    rotations: Seq<Seq<Block>>,
) -> Query {
    match crate::prepare::search_preparation(rotations) {
        Ok(Some(patterns)) => query_for(seed, start_x, start_z, bt, patterns),
        _ => query_for(seed, start_x, start_z, bt, seq![Seq::empty()]),
    }
}

/// How a search begins.
pub enum Begin {
    /// The pattern lies at every position; this search looks for a pattern without blocks.
    Everywhere(Search),
    /// There is something to look for.
    Search(Search),
}

/// A pattern without blocks is found at the first position of a group.
proof fn lemma_empty_pattern(q: Query, start_group: int)
    requires
        0 <= start_group,
        q.patterns == seq![Seq::<Block>::empty()],
    ensures
        forall|k: int| #[trigger] q.hit(k),
        8 * start_group <= q.limit() ==> q.found(
            start_group,
            crate::spiral::spiral_position(q.start_x, q.start_z, 8 * start_group).0,
            crate::spiral::spiral_position(q.start_x, q.start_z, 8 * start_group).1,
            start_group + 1,
        ),
{
    assert forall|k: int| #[trigger] q.hit(k) by {
        let p = crate::spiral::spiral_position(q.start_x, q.start_z, k);
        assert(crate::blocks::pattern_at(q.patterns[0], p.0, p.1, q.dlo, q.dhi));
    }
    assert(q.first_hit(8 * start_group, 8 * start_group));
}

impl Search {
    /// Lays out some patterns.
    fn lay_out(
        start_x: i32,
        start_z: i32,
        seeds: (i64, i64),
        patterns: Vec<Vec<Block>>,
        simd: SimdLevel,
    ) -> (s: Search)
        ensures
            s.wf(),
            s.simd == simd,
            s.query() == (Query {
                start_x,
                start_z,
                dlo: seeds.0,
                dhi: seeds.1,
                patterns: crate::rotations::patterns_of(patterns@),
            }),
    {
        let mut blocks_list: Vec<Blocks> = Vec::with_capacity(patterns.len());
        let mut i: usize = 0;
        while i < patterns.len()
            invariant
                0 <= i <= patterns@.len(),
                blocks_list@.len() == i,
                forall|r: int| 0 <= r < i ==> (#[trigger] blocks_list@[r]).encodes(patterns@[r]@),
            decreases patterns@.len() - i,
        {
            blocks_list.push(Blocks::from_vec(&patterns[i]));
            i = i + 1;
        }
        Search { start_x, start_z, dlo: seeds.0, dhi: seeds.1, simd, patterns, blocks_list }
    }

    /// Prepares a search for the rotations of a pattern.
    pub fn begin(
        seed: i64,
        start_x: i32,
        start_z: i32,
        bt: BedrockType,
        rotations: &Vec<Vec<Block>>,
        simd: SimdLevel,
    ) -> (r: Result<Begin, SearchError>)
        ensures
            ({
                let patterns = crate::rotations::patterns_of(rotations@);
                let q = hunted(seed, start_x, start_z, bt, patterns);
                match crate::prepare::search_preparation(patterns) {
                    Err(e) => r matches Err(f) && e == f,
                    Ok(None) => r matches Ok(Begin::Everywhere(s)) && s.wf() && s.simd == simd
                        && s.query() == q,
                    Ok(Some(_)) => r matches Ok(Begin::Search(s)) && s.wf() && s.simd == simd
                        && s.query() == q,
                }
            }),
    {
        let seeds: (i64, i64) = compute_deriver_seeds(seed, bt);
        match prepare_rotations(rotations) {
            Err(e) => Err(e),
            Ok(Preparation::Everywhere) => {
                let empty: Vec<Block> = Vec::new();
                let patterns: Vec<Vec<Block>> = vec![empty];
                assert(crate::rotations::patterns_of(patterns@) =~= seq![Seq::<Block>::empty()]);
                Ok(Begin::Everywhere(Search::lay_out(start_x, start_z, seeds, patterns, simd)))
            },
            Ok(Preparation::Patterns(patterns)) => Ok(
                Begin::Search(Search::lay_out(start_x, start_z, seeds, patterns, simd)),
            ),
        }
    }

    /// Walks the spiral from a group on, batch by batch, until a match is found, the search is
    /// cancelled or the last index is reached. `dispatch` examines a batch, which begins with a
    /// group and has a number of chunks. Reports the index reached after every batch, also after one
    /// in which the search is cancelled. When each report is made is not part of the contract.
    ///
    /// A chunk in which `dispatch` claims a match is walked again, so a match that is given is
    /// always there. A claim that turns out wrong is an error.
    pub fn run_with<C: Fn() -> bool, P: Fn(i64), D: Fn(i64, i64) -> Batch>(
        &self,
        start_group: i64,
        batch_chunks: i64,
        cancelled: &C,
        progress_cb: &P,
        dispatch: &D,
    ) -> (r: Result<Option<(i32, i32, i64)>, SearchError>)
        requires
            self.wf(),
            0 <= start_group,
            1 <= batch_chunks,
            call_requires(*cancelled, ()),
            forall|group: i64, chunks: i64|
                0 <= group && 1 <= chunks <= batch_chunks && chunks <= self.query().chunks_left(
                    group as int,
                ) ==> #[trigger] call_requires(*dispatch, (group, chunks)),
            forall|n: int, k: i64| #[trigger]
                self.query().may_report(
                    start_group as int,
                    batch_chunks as int,
                    n,
                    k as int,
                    truthful(self.query(), batch_chunks as int, *cancelled, *dispatch),
                    call_ensures(*cancelled, (), true),
                ) ==> call_requires(*progress_cb, (k,)),
        ensures
            r matches Ok(Some((x, z, resume))) ==> self.query().located(
                start_group as int,
                x as int,
                z as int,
                resume as int,
            ),
            r matches Err(e) ==> e == SearchError::SpaceExhausted || e is Unconfirmed,
            truthful(self.query(), batch_chunks as int, *cancelled, *dispatch)
                ==> self.query().answered(start_group as int, r) && (r == Ok::<
                Option<(i32, i32, i64)>,
                SearchError,
            >(None) ==> call_ensures(*cancelled, (), true)),
            answer_reported(
                self.query(),
                start_group as int,
                batch_chunks as int,
                r,
                *progress_cb,
            ),
            r == Ok::<Option<(i32, i32, i64)>, SearchError>(None) && !call_ensures(
                *cancelled,
                (),
                true,
            ) ==> exists|n: int| #[trigger]
                self.query().is_batch(start_group as int, batch_chunks as int, n) && all_reported(
                    self.query(),
                    start_group as int,
                    batch_chunks as int,
                    n,
                    *progress_cb,
                ),
            only_yes(*cancelled) ==> r == Ok::<Option<(i32, i32, i64)>, SearchError>(None),
    {
        let ghost q = self.query();
        let ghost honest = truthful(q, batch_chunks as int, *cancelled, *dispatch);
        let ghost bc = batch_chunks as int;
        let ghost start = start_group as int;
        let ghost mut n: int = 0;
        let mut group: i64 = start_group;
        proof {
            q.lemma_no_batch(start, bc);
        }
        loop
            invariant
                self.wf(),
                q == self.query(),
                honest == truthful(q, batch_chunks as int, *cancelled, *dispatch),
                0 <= start_group <= group,
                1 <= batch_chunks,
                bc == batch_chunks,
                start == start_group,
                0 <= n,
                8 * group == q.batch_end(start, bc, n),
                q.chunks_left(group as int) == q.chunks_after(start, bc, n),
                all_reported(q, start, bc, n, *progress_cb),
                call_requires(*cancelled, ()),
                forall|g: i64, chunks: i64|
                    0 <= g && 1 <= chunks <= batch_chunks && chunks <= q.chunks_left(g as int)
                        ==> #[trigger] call_requires(*dispatch, (g, chunks)),
                forall|m: int, k: i64| #[trigger]
                    q.may_report(
                        start,
                        bc,
                        m,
                        k as int,
                        honest,
                        call_ensures(*cancelled, (), true),
                    ) ==> call_requires(*progress_cb, (k,)),
                honest ==> q.clear_before(start_group as int, 8 * group as int),
                group == start_group || !only_yes(*cancelled),
            decreases q.chunks_left(group as int),
        {
            if cancelled() {
                return Ok(None);
            }
            let left: i64 = self.remaining_chunks(group);
            if left == 0 {
                proof {
                    q.lemma_batches_done(start, bc, n);
                }
                return match self.search_rest(group) {
                    Some((x, z, resume)) => {
                        proof {
                            q.lemma_found_further(
                                start_group as int,
                                group as int,
                                x as int,
                                z as int,
                                resume as int,
                                honest,
                            );
                        }
                        Ok(Some((x, z, resume)))
                    },
                    None => Err(SearchError::SpaceExhausted),
                };
            }
            let chunks: i64 = if left < batch_chunks {
                left
            } else {
                batch_chunks
            };
            proof {
                q.lemma_chunks_left(group as int, chunks as int);
                q.lemma_next_batch(start, bc, n);
                q.lemma_chunks_fit(group as int, chunks - 1);
                crate::spiral::lemma_index_limit(
                    self.start_x,
                    self.start_z,
                    8 * (group + GROUPS_PER_CHUNK * chunks),
                );
            }
            let batch: Batch = dispatch(group, chunks);
            match batch {
                Batch::Cancelled => {
                    proof {
                        assert(q.may_report(
                            start,
                            bc,
                            n + 1,
                            8 * (group + GROUPS_PER_CHUNK * chunks),
                            honest,
                            call_ensures(*cancelled, (), true),
                        ));
                    }
                    progress_cb((group + GROUPS_PER_CHUNK * chunks) * 8);
                    assert(q.is_batch(start, bc, n + 1) && all_reported(
                        q,
                        start,
                        bc,
                        n + 1,
                        *progress_cb,
                    ));
                    return Ok(None);
                },
                Batch::Hit(ci) => {
                    if ci < 0 || ci >= chunks {
                        return Err(SearchError::Unconfirmed { chunk: ci });
                    }
                    proof {
                        q.lemma_chunks_fit(group as int, ci as int);
                    }
                    let base: i64 = group + GROUPS_PER_CHUNK * ci;
                    return match self.confirm_chunk(base) {
                        Some((x, z, resume)) => {
                            proof {
                                if honest {
                                    q.lemma_clear_chunks(group as int, ci as int);
                                    q.lemma_clear_joins(
                                        start_group as int,
                                        group as int,
                                        8 * base as int,
                                    );
                                }
                                assert(q.found(base as int, x as int, z as int, resume as int));
                                q.lemma_found_further(
                                    start_group as int,
                                    base as int,
                                    x as int,
                                    z as int,
                                    resume as int,
                                    honest,
                                );
                                q.lemma_batches_before(start, bc, n, 8 * (resume - 1));
                            }
                            Ok(Some((x, z, resume)))
                        },
                        None => Err(SearchError::Unconfirmed { chunk: ci }),
                    };
                },
                Batch::Clear => {
                    proof {
                        if honest {
                            q.lemma_clear_chunks(group as int, chunks as int);
                            q.lemma_clear_joins(
                                start_group as int,
                                group as int,
                                8 * (group + GROUPS_PER_CHUNK * chunks),
                            );
                        }
                    }
                    group = group + GROUPS_PER_CHUNK * chunks;
                },
            }
            proof {
                n = n + 1;
                assert(q.may_report(
                    start,
                    bc,
                    n,
                    8 * group,
                    honest,
                    call_ensures(*cancelled, (), true),
                ));
            }
            progress_cb(group * 8);
        }
    }

    /// Walks the spiral from a group on, examining batches on all threads of this machine.
    pub fn run<C: Fn() -> bool + Sync + Send, P: Fn(i64)>(
        &self,
        start_group: i64,
        batch_chunks: i64,
        cancelled: &C,
        progress_cb: &P,
    ) -> (r: Result<Option<(i32, i32, i64)>, SearchError>)
        requires
            self.wf(),
            0 <= start_group,
            1 <= batch_chunks,
            call_requires(*cancelled, ()),
            forall|n: int, k: i64| #[trigger]
                self.query().may_report(
                    start_group as int,
                    batch_chunks as int,
                    n,
                    k as int,
                    true,
                    call_ensures(*cancelled, (), true),
                ) ==> call_requires(*progress_cb, (k,)),
        ensures
            self.query().answered(start_group as int, r),
            r == Ok::<Option<(i32, i32, i64)>, SearchError>(None) ==> call_ensures(
                *cancelled,
                (),
                true,
            ),
            answer_reported(
                self.query(),
                start_group as int,
                batch_chunks as int,
                r,
                *progress_cb,
            ),
            only_yes(*cancelled) ==> r == Ok::<Option<(i32, i32, i64)>, SearchError>(None),
    {
        let dispatch = |group: i64, chunks: i64| -> (b: Batch)
            requires
                0 <= group,
                1 <= chunks <= self.query().chunks_left(group as int),
            ensures
                self.query().batch_says(group as int, chunks as int, b),
                b is Cancelled ==> call_ensures(*cancelled, (), true),
            { self.run_chunk_batch(group, chunks, cancelled) };
        assert(truthful(self.query(), batch_chunks as int, *cancelled, dispatch));
        self.run_with(start_group, batch_chunks, cancelled, progress_cb, &dispatch)
    }

    /// Gives the first position of a group, where the pattern lies at every position.
    pub fn anywhere(&self, start_group: i64) -> (r: Result<Option<(i32, i32, i64)>, SearchError>)
        requires
            0 <= start_group,
        ensures
            everywhere_answer(self.start_x, self.start_z, start_group, r),
    {
        let limit: i64 = spiral_index_limit(self.start_x, self.start_z);
        if start_group > limit / 8 {
            return Err(SearchError::SpaceExhausted);
        }
        proof {
            crate::spiral::lemma_index_limit(self.start_x, self.start_z, 8 * start_group as int);
        }
        let state: SpiralState = spiral_coords_with_state(
            8 * start_group,
            self.start_x,
            self.start_z,
        );
        Ok(Some((state.x, state.z, start_group + 1)))
    }
}

/// What a search from a group on gives where the pattern lies at every position: the first position
/// of the group, as long as there is one.
pub open spec fn everywhere_answer(
    start_x: i32,
    start_z: i32,
    start_group: i64,
    r: Result<Option<(i32, i32, i64)>, SearchError>,
) -> bool {
    if 8 * start_group <= crate::spiral::index_limit(start_x, start_z) {
        r matches Ok(Some((x, z, resume))) && (x as int, z as int)
            == crate::spiral::spiral_position(start_x, start_z, 8 * start_group as int) && resume
            == start_group + 1
    } else {
        r == Err::<Option<(i32, i32, i64)>, SearchError>(SearchError::SpaceExhausted)
    }
}

/// What a search for the rotations of a pattern gives, as far as it does not depend on being
/// cancelled.
///
/// A block that demands the impossible is an error. Where the pattern lies everywhere, the first
/// position from the given group on is the answer. Otherwise a match is the first one along the
/// spiral from the given group on, and reaching the last index without a match is an error.
pub open spec fn search_answer(
    seed: i64,
    start_x: i32,
    start_z: i32,
    bt: BedrockType,
    rotations: Seq<Seq<Block>>,
    start_group: i64,
    r: Result<Option<(i32, i32, i64)>, SearchError>,
) -> bool {
    match crate::prepare::search_preparation(rotations) {
        Err(e) => r == Err::<Option<(i32, i32, i64)>, SearchError>(e),
        Ok(None) => everywhere_answer(start_x, start_z, start_group, r),
        Ok(Some(patterns)) => query_for(seed, start_x, start_z, bt, patterns).answered(
            start_group as int,
            r,
        ),
    }
}

/// A number of chunks that a batch may have on some machine.
pub open spec fn is_batch_size(batch_chunks: int) -> bool {
    is_power_of_two(batch_chunks) && 2048 <= batch_chunks < 524_288
}

/// A search for the rotations of a pattern may report index `k`, after batch number `n` of so many
/// chunks. Nothing is reported before an error on a block, or where the pattern lies everywhere.
pub open spec fn search_may_report(
    seed: i64,
    start_x: i32,
    start_z: i32,
    bt: BedrockType,
    rotations: Seq<Seq<Block>>,
    start_group: i64,
    batch_chunks: int,
    n: int,
    k: i64,
    cancelled: bool,
) -> bool {
    &&& is_batch_size(batch_chunks)
    &&& crate::prepare::search_preparation(rotations) matches Ok(Some(patterns)) && query_for(
        seed,
        start_x,
        start_z,
        bt,
        patterns,
    ).may_report(start_group as int, batch_chunks, n, k as int, true, cancelled)
}

/// What may be reported of a search that may or may not be cancelled may be reported of one that
/// may be.
proof fn lemma_may_report(
    seed: i64,
    start_x: i32,
    start_z: i32,
    bt: BedrockType,
    rotations: Seq<Seq<Block>>,
    start_group: i64,
    batch_chunks: int,
    n: int,
    k: i64,
    cancelled: bool,
)
    requires
        search_may_report(
            seed,
            start_x,
            start_z,
            bt,
            rotations,
            start_group,
            batch_chunks,
            n,
            k,
            cancelled,
        ),
    ensures
        search_may_report(
            seed,
            start_x,
            start_z,
            bt,
            rotations,
            start_group,
            batch_chunks,
            n,
            k,
            true,
        ),
{
}

/// The reports that the answer of a search for the rotations of a pattern owes were made, in
/// batches of a size that fits the machine.
pub open spec fn search_reported<P: Fn(i64)>(
    seed: i64,
    start_x: i32,
    start_z: i32,
    bt: BedrockType,
    rotations: Seq<Seq<Block>>,
    start_group: i64,
    r: Result<Option<(i32, i32, i64)>, SearchError>,
    progress_cb: P,
) -> bool {
    crate::prepare::search_preparation(rotations) matches Ok(Some(patterns)) ==> exists|
        batch_chunks: int,
    |
        is_batch_size(batch_chunks) && #[trigger] answer_reported(
            query_for(seed, start_x, start_z, bt, patterns),
            start_group as int,
            batch_chunks,
            r,
            progress_cb,
        )
}

/// Searches for the rotations of a pattern until `cancelled` says yes.
///
/// A match comes with the group at which to go on for further matches. `Ok(None)` is given only
/// after `cancelled` has said yes. The index after every batch is reported.
pub fn run_search_until<C: Fn() -> bool + Sync + Send, P: Fn(i64)>(
    seed: i64,
    start_x: i32,
    start_z: i32,
    bt: BedrockType,
    rotations: &Vec<Vec<Block>>,
    cancelled: &C,
    progress_cb: &P,
    simd: SimdLevel,
    start_group: i64,
) -> (r: Result<Option<(i32, i32, i64)>, SearchError>)
    requires
        0 <= start_group,
        call_requires(*cancelled, ()),
        forall|batch_chunks: int, n: int, k: i64| #[trigger]
            search_may_report(
                seed,
                start_x,
                start_z,
                bt,
                crate::rotations::patterns_of(rotations@),
                start_group,
                batch_chunks,
                n,
                k,
                call_ensures(*cancelled, (), true),
            ) ==> call_requires(*progress_cb, (k,)),
    ensures
        search_answer(
            seed,
            start_x,
            start_z,
            bt,
            crate::rotations::patterns_of(rotations@),
            start_group,
            r,
        ),
        search_reported(
            seed,
            start_x,
            start_z,
            bt,
            crate::rotations::patterns_of(rotations@),
            start_group,
            r,
            *progress_cb,
        ),
        r == Ok::<Option<(i32, i32, i64)>, SearchError>(None) ==> call_ensures(
            *cancelled,
            (),
            true,
        ),
        only_yes(*cancelled) && (crate::prepare::search_preparation(
            crate::rotations::patterns_of(rotations@),
        ) matches Ok(Some(_))) ==> r == Ok::<Option<(i32, i32, i64)>, SearchError>(None),
{
    match Search::begin(seed, start_x, start_z, bt, rotations, simd) {
        Err(e) => Err(e),
        Ok(Begin::Everywhere(search)) => search.anywhere(start_group),
        Ok(Begin::Search(search)) => {
            let batch_chunks: i64 = compute_super_batch_chunks();
            proof {
                let q = search.query();
                assert forall|n: int, k: i64| #[trigger]
                    q.may_report(
                        start_group as int,
                        batch_chunks as int,
                        n,
                        k as int,
                        true,
                        call_ensures(*cancelled, (), true),
                    ) implies call_requires(*progress_cb, (k,)) by {
                    assert(search_may_report(
                        seed,
                        start_x,
                        start_z,
                        bt,
                        crate::rotations::patterns_of(rotations@),
                        start_group,
                        batch_chunks as int,
                        n,
                        k,
                        call_ensures(*cancelled, (), true),
                    ));
                }
            }
            search.run(start_group, batch_chunks, cancelled, progress_cb)
        },
    }
}

/// Searches for the rotations of a pattern until the flag is set.
///
/// A match comes with the group at which to go on for further matches. `Ok(None)` is given only
/// after the flag was seen set; what the flag holds at which time is not part of the contract.
pub fn run_search<P: Fn(i64)>(
    seed: i64,
    start_x: i32,
    start_z: i32,
    bt: BedrockType,
    rotations: &Vec<Vec<Block>>,
    cancel: &AtomicBool,
    progress_cb: &P,
    simd: SimdLevel,
    start_group: i64,
) -> (r: Result<Option<(i32, i32, i64)>, SearchError>)
    requires
        0 <= start_group,
        forall|batch_chunks: int, n: int, k: i64| #[trigger]
            search_may_report(
                seed,
                start_x,
                start_z,
                bt,
                crate::rotations::patterns_of(rotations@),
                start_group,
                batch_chunks,
                n,
                k,
                true,
            ) ==> call_requires(*progress_cb, (k,)),
    ensures
        search_answer(
            seed,
            start_x,
            start_z,
            bt,
            crate::rotations::patterns_of(rotations@),
            start_group,
            r,
        ),
        search_reported(
            seed,
            start_x,
            start_z,
            bt,
            crate::rotations::patterns_of(rotations@),
            start_group,
            r,
            *progress_cb,
        ),
{
    let cancelled = || -> (c: bool) { cancel.load(Ordering::Relaxed) };
    proof {
        let patterns = crate::rotations::patterns_of(rotations@);
        let may = call_ensures(cancelled, (), true);
        assert forall|batch_chunks: int, n: int, k: i64| #[trigger]
            search_may_report(
                seed,
                start_x,
                start_z,
                bt,
                patterns,
                start_group,
                batch_chunks,
                n,
                k,
                may,
            ) implies call_requires(*progress_cb, (k,)) by {
            lemma_may_report(
                seed,
                start_x,
                start_z,
                bt,
                patterns,
                start_group,
                batch_chunks,
                n,
                k,
                may,
            );
        }
    }
    run_search_until(
        seed,
        start_x,
        start_z,
        bt,
        rotations,
        &cancelled,
        progress_cb,
        simd,
        start_group,
    )
}

/// The indices that a search reports after its batches grow, and each batch but the last takes them
/// equally far.
pub proof fn law_reports_are_evenly_spaced(q: Query, start_group: int, batch_chunks: int, n: int)
    requires
        1 <= batch_chunks,
        q.is_batch(start_group, batch_chunks, n),
    ensures
        ({
            let gap = q.batch_end(start_group, batch_chunks, n) - q.batch_end(
                start_group,
                batch_chunks,
                n - 1,
            );
            let whole = 8192 * batch_chunks;
            &&& q.batch_end(start_group, batch_chunks, 0) == 8 * start_group
            &&& 0 < gap <= whole
            &&& q.is_batch(start_group, batch_chunks, n + 1) ==> gap == whole
        }),
{
    q.lemma_no_batch(start_group, batch_chunks);
    q.lemma_next_batch(start_group, batch_chunks, n - 1);
    assert((n - 1) * batch_chunks + batch_chunks == n * batch_chunks) by (nonlinear_arith);
}

/// A match that a search for the rotations of a pattern gives is the first one of its query.
pub proof fn law_answer_is_first_match(
    seed: i64,
    start_x: i32,
    start_z: i32,
    bt: BedrockType,
    rotations: Seq<Seq<Block>>,
    start_group: i64,
    found: (i32, i32, i64),
)
    requires
        0 <= start_group,
        search_answer(
            seed,
            start_x,
            start_z,
            bt,
            rotations,
            start_group,
            Ok::<Option<(i32, i32, i64)>, SearchError>(Some(found)),
        ),
    ensures
        hunted(seed, start_x, start_z, bt, rotations).found(
            start_group as int,
            found.0 as int,
            found.1 as int,
            found.2 as int,
        ),
{
    let q = hunted(seed, start_x, start_z, bt, rotations);
    if crate::prepare::search_preparation(rotations) == Ok::<
        Option<Seq<Seq<Block>>>,
        SearchError,
    >(None) {
        lemma_empty_pattern(q, start_group as int);
    }
}

/// Two searches for the same that are not cancelled answer the same, whatever examines their
/// batches.
pub proof fn law_answers_agree(
    q: Query,
    start_group: int,
    r: Result<Option<(i32, i32, i64)>, SearchError>,
    s: Result<Option<(i32, i32, i64)>, SearchError>,
)
    requires
        q.answered(start_group, r),
        q.answered(start_group, s),
        r != Ok::<Option<(i32, i32, i64)>, SearchError>(None),
        s != Ok::<Option<(i32, i32, i64)>, SearchError>(None),
    ensures
        r == s,
{
    match (r, s) {
        (Ok(Some(a)), Ok(Some(b))) => {
            law_found_match_is_unique(
                q,
                start_group,
                (a.0 as int, a.1 as int, a.2 as int),
                (b.0 as int, b.1 as int, b.2 as int),
            );
        },
        (Ok(Some(a)), Err(_)) => {
            lemma_found_not_exhausted(q, start_group, a);
        },
        (Err(_), Ok(Some(b))) => {
            lemma_found_not_exhausted(q, start_group, b);
        },
        _ => {},
    }
}

/// Two searches for the rotations of a pattern that are not cancelled answer the same.
pub proof fn law_search_answers_agree(
    seed: i64,
    start_x: i32,
    start_z: i32,
    bt: BedrockType,
    rotations: Seq<Seq<Block>>,
    start_group: i64,
    r: Result<Option<(i32, i32, i64)>, SearchError>,
    s: Result<Option<(i32, i32, i64)>, SearchError>,
)
    requires
        search_answer(seed, start_x, start_z, bt, rotations, start_group, r),
        search_answer(seed, start_x, start_z, bt, rotations, start_group, s),
        r != Ok::<Option<(i32, i32, i64)>, SearchError>(None),
        s != Ok::<Option<(i32, i32, i64)>, SearchError>(None),
    ensures
        r == s,
{
    match crate::prepare::search_preparation(rotations) {
        Ok(Some(patterns)) => {
            law_answers_agree(
                query_for(seed, start_x, start_z, bt, patterns),
                start_group as int,
                r,
                s,
            );
        },
        _ => {},
    }
}

/// Where a match is found, the space is not exhausted.
proof fn lemma_found_not_exhausted(q: Query, start_group: int, a: (i32, i32, i64))
    requires
        q.found(start_group, a.0 as int, a.1 as int, a.2 as int),
    ensures
        !q.exhausted(start_group),
{
    let k = choose|k: int|
        {
            &&& #[trigger] q.first_hit(8 * start_group, k)
            &&& k <= q.limit()
            &&& (a.0 as int, a.1 as int) == crate::spiral::spiral_position(q.start_x, q.start_z, k)
            &&& a.2 == k / 8 + 1
        };
    assert(q.hit(k));
}

/// A search that goes on at the group that a match came with gives another match at another
/// position, further on, also where the pattern lies everywhere.
pub proof fn law_successive_answers_differ(
    seed: i64,
    start_x: i32,
    start_z: i32,
    bt: BedrockType,
    rotations: Seq<Seq<Block>>,
    start_group: i64,
    a: (i32, i32, i64),
    b: (i32, i32, i64),
)
    requires
        0 <= start_group,
        search_answer(
            seed,
            start_x,
            start_z,
            bt,
            rotations,
            start_group,
            Ok::<Option<(i32, i32, i64)>, SearchError>(Some(a)),
        ),
        search_answer(
            seed,
            start_x,
            start_z,
            bt,
            rotations,
            a.2,
            Ok::<Option<(i32, i32, i64)>, SearchError>(Some(b)),
        ),
    ensures
        (a.0, a.1) != (b.0, b.1),
        start_group < a.2 < b.2,
{
    let q = hunted(seed, start_x, start_z, bt, rotations);
    law_answer_is_first_match(seed, start_x, start_z, bt, rotations, start_group, a);
    let i = choose|k: int|
        {
            &&& #[trigger] q.first_hit(8 * start_group, k)
            &&& k <= q.limit()
            &&& (a.0 as int, a.1 as int) == crate::spiral::spiral_position(q.start_x, q.start_z, k)
            &&& a.2 == k / 8 + 1
        };
    law_answer_is_first_match(seed, start_x, start_z, bt, rotations, a.2, b);
    let j = choose|k: int|
        {
            &&& #[trigger] q.first_hit(8 * a.2, k)
            &&& k <= q.limit()
            &&& (b.0 as int, b.1 as int) == crate::spiral::spiral_position(q.start_x, q.start_z, k)
            &&& b.2 == k / 8 + 1
        };
    law_resumed_search_moves_on(q, start_group as int, i, j);
}

/// What is truthfully said of a batch that was not given up is settled.
pub proof fn law_batch_answers_agree(q: Query, batch_base: int, chunks: int, a: Batch, b: Batch)
    requires
        q.batch_says(batch_base, chunks, a),
        q.batch_says(batch_base, chunks, b),
        !(a is Cancelled),
        !(b is Cancelled),
    ensures
        a == b,
{
    if let Batch::Hit(i) = a {
        assert(q.chunk_hit(batch_base + GROUPS_PER_CHUNK * i));
    }
    if let Batch::Hit(j) = b {
        assert(q.chunk_hit(batch_base + GROUPS_PER_CHUNK * j));
    }
}

/// Going on at the group that a match gives leads to a later match, at another position; what is
/// passed over between the two lies in the group of the first.
pub proof fn law_resumed_search_moves_on(q: Query, start_group: int, k: int, next: int)
    requires
        0 <= start_group,
        q.first_hit(8 * start_group, k),
        q.first_hit(8 * (k / 8 + 1), next),
    ensures
        k < next,
        crate::spiral::spiral_position(q.start_x, q.start_z, k) != crate::spiral::spiral_position(
            q.start_x,
            q.start_z,
            next,
        ),
        forall|m: int| k < m < next && #[trigger] q.hit(m) ==> m / 8 == k / 8,
{
    if crate::spiral::spiral_offset(k) == crate::spiral::spiral_offset(next) {
        crate::spiral::law_spiral_is_injective(k, next);
    }
}

/// The first match along the spiral is a nearest one: no match examined is nearer to the centre.
pub proof fn law_first_match_is_nearest(q: Query, k: int, m: int)
    requires
        q.first_hit(0, k),
        0 <= m,
        q.hit(m),
    ensures
        crate::spiral::chebyshev(crate::spiral::spiral_offset(k)) <= crate::spiral::chebyshev(
            crate::spiral::spiral_offset(m),
        ),
{
    if m < k {
        assert(!q.hit(m));
    }
    crate::spiral::law_spiral_goes_outwards(k, m);
}

/// The answer of a search that is not cancelled does not depend on the machine: two searches for
/// the same pattern that both find a match find the same one.
pub proof fn law_found_match_is_unique(
    q: Query,
    start_group: int,
    a: (int, int, int),
    b: (int, int, int),
)
    requires
        q.found(start_group, a.0, a.1, a.2),
        q.found(start_group, b.0, b.1, b.2),
    ensures
        a == b,
{
    let i = choose|k: int|
        {
            &&& #[trigger] q.first_hit(8 * start_group, k)
            &&& k <= q.limit()
            &&& (a.0, a.1) == crate::spiral::spiral_position(q.start_x, q.start_z, k)
            &&& a.2 == k / 8 + 1
        };
    let j = choose|k: int|
        {
            &&& #[trigger] q.first_hit(8 * start_group, k)
            &&& k <= q.limit()
            &&& (b.0, b.1) == crate::spiral::spiral_position(q.start_x, q.start_z, k)
            &&& b.2 == k / 8 + 1
        };
    if i < j {
        assert(!q.hit(i));
    }
    if j < i {
        assert(!q.hit(j));
    }
}

/// Looking for further patterns beside some patterns, in whatever order, loses no match.
pub proof fn law_more_patterns_match_more(q: Query, more: Seq<Seq<Block>>, x: int, z: int)
    requires
        forall|r: int| 0 <= r < q.patterns.len() ==> more.contains(#[trigger] q.patterns[r]),
        q.matches(x, z),
    ensures
        (Query { patterns: more, ..q }).matches(x, z),
{
    let r = choose|r: int|
        0 <= r < q.patterns.len() && #[trigger] crate::blocks::pattern_at(
            q.patterns[r],
            x,
            z,
            q.dlo,
            q.dhi,
        );
    assert(more.contains(q.patterns[r]));
    let s = choose|s: int| 0 <= s < more.len() && more[s] == q.patterns[r];
    assert(crate::blocks::pattern_at(more[s], x, z, q.dlo, q.dhi));
}

/// Some pattern of a list has the blocks of `p`, in whatever order.
pub open spec fn lists_blocks(list: Seq<Seq<Block>>, p: Seq<Block>) -> bool {
    exists|j: int| 0 <= j < list.len() && (#[trigger] list[j]).to_multiset() == p.to_multiset()
}

/// Every pattern of a list has the blocks of some pattern of another list, in whatever order.
pub open spec fn is_listed_in(v: Seq<Seq<Block>>, w: Seq<Seq<Block>>) -> bool {
    forall|i: int| 0 <= i < v.len() ==> lists_blocks(w, #[trigger] v[i])
}

/// Patterns that are listed in another list are searched for if those of that list are, and lie
/// only where one of those lies.
proof fn lemma_listed_patterns(
    v: Seq<Seq<Block>>,
    w: Seq<Seq<Block>>,
    x: int,
    z: int,
    dlo: i64,
    dhi: i64,
)
    requires
        is_listed_in(v, w),
        crate::prepare::prepared(w) matches Ok(Some(_)),
    ensures
        crate::prepare::prepared(v) matches Ok(Some(a)) && (crate::prepare::prepared(
            w,
        ) matches Ok(Some(b)) && (any_pattern_at(a, x, z, dlo, dhi) ==> any_pattern_at(
            b,
            x,
            z,
            dlo,
            dhi,
        ))),
{
    crate::prepare::lemma_prepared_each(v);
    crate::prepare::lemma_prepared_each(w);
    crate::prepare::lemma_prepared_patterns(v);
    crate::prepare::lemma_prepared_patterns(w);
    assert forall|i: int| 0 <= i < v.len() implies crate::prepare::first_error(
        #[trigger] v[i],
    ) is None && crate::prepare::searchable(v[i]).len() > 0 by {
        assert(lists_blocks(w, v[i]));
        let j = choose|j: int|
            0 <= j < w.len() && (#[trigger] w[j]).to_multiset() == v[i].to_multiset();
        crate::prepare::lemma_same_blocks(v[i], w[j], x, z, dlo, dhi);
    }
    let a = crate::prepare::prepared(v)->Ok_0->0;
    let b = crate::prepare::prepared(w)->Ok_0->0;
    if any_pattern_at(a, x, z, dlo, dhi) {
        let i = choose|i: int|
            0 <= i < a.len() && #[trigger] crate::blocks::pattern_at(a[i], x, z, dlo, dhi);
        assert(lists_blocks(w, v[i]));
        let j = choose|j: int|
            0 <= j < w.len() && (#[trigger] w[j]).to_multiset() == v[i].to_multiset();
        crate::prepare::lemma_same_blocks(v[i], w[j], x, z, dlo, dhi);
        assert(crate::blocks::pattern_at(b[j], x, z, dlo, dhi));
    }
}

/// Queries with the same matches around the same position are answered alike.
proof fn lemma_same_matches_same_answer(
    q: Query,
    p: Query,
    start_group: int,
    r: Result<Option<(i32, i32, i64)>, SearchError>,
)
    requires
        q.start_x == p.start_x,
        q.start_z == p.start_z,
        forall|x: int, z: int| #[trigger] q.matches(x, z) == p.matches(x, z),
        q.answered(start_group, r),
    ensures
        p.answered(start_group, r),
{
    assert forall|k: int| #[trigger] p.hit(k) == q.hit(k) by {
        let at = crate::spiral::spiral_position(q.start_x, q.start_z, k);
        assert(q.matches(at.0, at.1) == p.matches(at.0, at.1));
    }
    if let Ok(Some((x, z, resume))) = r {
        let k = choose|k: int|
            {
                &&& #[trigger] q.first_hit(8 * start_group, k)
                &&& k <= q.limit()
                &&& (x as int, z as int) == crate::spiral::spiral_position(
                    q.start_x,
                    q.start_z,
                    k,
                )
                &&& resume == k / 8 + 1
            };
        assert(p.first_hit(8 * start_group, k));
    }
}

/// The order of the rotations and the order of their blocks do not matter: if two lists hold
/// patterns with the same blocks, in whatever order, two searches for them that are not cancelled
/// answer the same.
pub proof fn law_order_does_not_matter(
    seed: i64,
    start_x: i32,
    start_z: i32,
    bt: BedrockType,
    v: Seq<Seq<Block>>,
    w: Seq<Seq<Block>>,
    start_group: i64,
    r: Result<Option<(i32, i32, i64)>, SearchError>,
    s: Result<Option<(i32, i32, i64)>, SearchError>,
)
    requires
        is_listed_in(v, w),
        is_listed_in(w, v),
        crate::prepare::search_preparation(v) matches Ok(Some(_)),
        search_answer(seed, start_x, start_z, bt, v, start_group, r),
        search_answer(seed, start_x, start_z, bt, w, start_group, s),
        r != Ok::<Option<(i32, i32, i64)>, SearchError>(None),
        s != Ok::<Option<(i32, i32, i64)>, SearchError>(None),
    ensures
        r == s,
{
    assert(lists_blocks(w, v[0]));
    lemma_listed_patterns(w, v, 0, 0, 0, 0);
    let q = query_for(seed, start_x, start_z, bt, crate::prepare::prepared(v)->Ok_0->0);
    let p = query_for(seed, start_x, start_z, bt, crate::prepare::prepared(w)->Ok_0->0);
    assert forall|x: int, z: int| #[trigger] q.matches(x, z) == p.matches(x, z) by {
        lemma_listed_patterns(v, w, x, z, q.dlo, q.dhi);
        lemma_listed_patterns(w, v, x, z, q.dlo, q.dhi);
    }
    lemma_same_matches_same_answer(q, p, start_group as int, r);
    law_answers_agree(p, start_group as int, r, s);
}

/// Blocks of a pattern at the same height have the same threshold.
pub open spec fn thresholds_follow_heights(v: Seq<Block>) -> bool {
    forall|i: int, j: int|
        0 <= i < v.len() && 0 <= j < v.len() && (#[trigger] v[i]).y == (#[trigger] v[j]).y
            ==> v[i].prob_threshold == v[j].prob_threshold
}

/// Rotations of one pattern that have the same shape lie at the same positions.
proof fn lemma_same_shape_same_places(
    v: Seq<Block>,
    s: int,
    t: int,
    x: int,
    z: int,
    dlo: i64,
    dhi: i64,
)
    requires
        thresholds_follow_heights(v),
        crate::rotations::same_shape(
            crate::rotations::rotated(v, s),
            crate::rotations::rotated(v, t),
        ),
        crate::blocks::pattern_at(crate::rotations::rotated(v, t), x, z, dlo, dhi),
    ensures
        crate::blocks::pattern_at(crate::rotations::rotated(v, s), x, z, dlo, dhi),
{
    broadcast use vstd::seq_lib::group_to_multiset_ensures;

    let a = crate::rotations::rotated(v, s);
    let b = crate::rotations::rotated(v, t);
    let ka = crate::rotations::block_keys(a);
    let kb = crate::rotations::block_keys(b);
    assert forall|i: int| 0 <= i < a.len() implies #[trigger] crate::blocks::block_satisfied(
        a[i],
        x,
        z,
        dlo,
        dhi,
    ) by {
        assert(ka.contains(ka[i]));
        assert(ka.to_multiset().count(ka[i]) > 0);
        assert(kb.to_multiset().count(ka[i]) > 0);
        assert(kb.contains(ka[i]));
        let j = choose|j: int| 0 <= j < kb.len() && kb[j] == ka[i];
        assert(kb[j] == crate::rotations::block_key(b[j]));
        assert(ka[i] == crate::rotations::block_key(a[i]));
        assert(v[i].y == v[j].y);
        assert(crate::blocks::block_satisfied(b[j], x, z, dlo, dhi));
    }
}

/// The distinct rotations of a pattern are found wherever the pattern lies in any of the four
/// directions, and nowhere else.
pub proof fn law_rotations_find_every_direction(
    v: Seq<Block>,
    x: int,
    z: int,
    dlo: i64,
    dhi: i64,
)
    requires
        thresholds_follow_heights(v),
    ensures
        any_pattern_at(crate::rotations::distinct_rotations(v, 4), x, z, dlo, dhi) <==> (exists|
            t: int,
        |
            0 <= t < 4 && crate::blocks::pattern_at(
                #[trigger] crate::rotations::rotated(v, t),
                x,
                z,
                dlo,
                dhi,
            )),
{
    let list = crate::rotations::distinct_rotations(v, 4);
    crate::rotations::law_rotations_are_distinct_and_complete(v, 4);
    if any_pattern_at(list, x, z, dlo, dhi) {
        let r = choose|r: int|
            0 <= r < list.len() && #[trigger] crate::blocks::pattern_at(list[r], x, z, dlo, dhi);
        assert(crate::rotations::is_rotation_below(list[r], v, 4));
        let t = choose|t: int| 0 <= t < 4 && list[r] == #[trigger] crate::rotations::rotated(v, t);
        assert(crate::blocks::pattern_at(crate::rotations::rotated(v, t), x, z, dlo, dhi));
    }
    if exists|t: int|
        0 <= t < 4 && crate::blocks::pattern_at(
            #[trigger] crate::rotations::rotated(v, t),
            x,
            z,
            dlo,
            dhi,
        ) {
        let t = choose|t: int|
            0 <= t < 4 && crate::blocks::pattern_at(
                #[trigger] crate::rotations::rotated(v, t),
                x,
                z,
                dlo,
                dhi,
            );
        let p = crate::rotations::rotated(v, t);
        assert(crate::rotations::lists_shape(list, p));
        let i = choose|i: int|
            0 <= i < list.len() && crate::rotations::same_shape(#[trigger] list[i], p);
        assert(crate::rotations::is_rotation_below(list[i], v, 4));
        let s = choose|s: int| 0 <= s < 4 && list[i] == #[trigger] crate::rotations::rotated(v, s);
        lemma_same_shape_same_places(v, s, t, x, z, dlo, dhi);
        assert(crate::blocks::pattern_at(list[i], x, z, dlo, dhi));
    }
}

/// A block of a height at which bedrock is neither certain nor impossible finds what it demands
/// where a pattern lies at `(x, z)` of a world.
pub open spec fn demand_met(b: Block, seed: i64, bt: BedrockType, x: int, z: int) -> bool {
    let d = crate::rng::deriver_seeds(seed, bt);
    0 < b.probability.fifths < 5 ==> (crate::hash::bedrock_at(
        x + b.x,
        b.y,
        z + b.z,
        d.0,
        d.1,
        b.prob_threshold,
    ) <==> b.should_be_bedrock)
}

/// All blocks of a pattern find what they demand at `(x, z)` of a world.
pub open spec fn lies_in_world(v: Seq<Block>, seed: i64, bt: BedrockType, x: int, z: int) -> bool {
    forall|i: int| 0 <= i < v.len() ==> demand_met(#[trigger] v[i], seed, bt, x, z)
}

/// One of some patterns lies at `(x, z)` of a world.
pub open spec fn one_lies_in_world(
    rotations: Seq<Seq<Block>>,
    seed: i64,
    bt: BedrockType,
    x: int,
    z: int,
) -> bool {
    exists|r: int| 0 <= r < rotations.len() && lies_in_world(#[trigger] rotations[r], seed, bt, x, z)
}

/// No block of some patterns demands that what is always bedrock is none, or that what is never
/// bedrock is some.
pub open spec fn all_demands_possible(rotations: Seq<Seq<Block>>) -> bool {
    forall|r: int, i: int|
        0 <= r < rotations.len() && 0 <= i < rotations[r].len() ==> {
            let b = #[trigger] rotations[r][i];
            &&& b.probability.fifths >= 5 ==> b.should_be_bedrock
            &&& b.probability.fifths <= 0 ==> !b.should_be_bedrock
        }
}

proof fn lemma_possible_pattern(v: Seq<Block>, i: int)
    requires
        crate::prepare::first_error(v) is None,
        0 <= i < v.len(),
    ensures
        crate::prepare::is_uncertain(v[i]) <==> 0 < v[i].probability.fifths < 5,
{
    crate::prepare::lemma_first_error(v);
    assert(crate::prepare::block_error(v[i]) is None);
}

proof fn lemma_lies_in_world(v: Seq<Block>, seed: i64, bt: BedrockType, x: int, z: int)
    requires
        crate::prepare::first_error(v) is None,
    ensures
        ({
            let d = crate::rng::deriver_seeds(seed, bt);
            lies_in_world(v, seed, bt, x, z) <==> crate::blocks::pattern_at(
                crate::prepare::searchable(v),
                x,
                z,
                d.0,
                d.1,
            )
        }),
{
    let d = crate::rng::deriver_seeds(seed, bt);
    crate::prepare::law_searchable_decides_pattern(v, x, z, d.0, d.1);
    assert forall|i: int| 0 <= i < v.len() implies (demand_met(#[trigger] v[i], seed, bt, x, z) <==> (
    crate::prepare::is_uncertain(v[i]) ==> crate::blocks::block_satisfied(
        v[i],
        x,
        z,
        d.0,
        d.1,
    ))) by {
        lemma_possible_pattern(v, i);
    }
}

proof fn lemma_query_in_world(
    seed: i64,
    start_x: i32,
    start_z: i32,
    bt: BedrockType,
    rotations: Seq<Seq<Block>>,
    x: int,
    z: int,
)
    requires
        crate::prepare::prepared(rotations) matches Ok(Some(_)),
    ensures
        query_for(
            seed,
            start_x,
            start_z,
            bt,
            crate::prepare::prepared(rotations)->Ok_0->0,
        ).matches(x, z) <==> one_lies_in_world(rotations, seed, bt, x, z),
{
    let patterns = crate::prepare::prepared(rotations)->Ok_0->0;
    let q = query_for(seed, start_x, start_z, bt, patterns);
    crate::prepare::lemma_prepared_each(rotations);
    crate::prepare::lemma_prepared_patterns(rotations);
    assert forall|r: int| 0 <= r < rotations.len() implies (lies_in_world(
        #[trigger] rotations[r],
        seed,
        bt,
        x,
        z,
    ) <==> crate::blocks::pattern_at(patterns[r], x, z, q.dlo, q.dhi)) by {
        lemma_lies_in_world(rotations[r], seed, bt, x, z);
    }
    if one_lies_in_world(rotations, seed, bt, x, z) {
        let r = choose|r: int|
            0 <= r < rotations.len() && lies_in_world(#[trigger] rotations[r], seed, bt, x, z);
        assert(crate::blocks::pattern_at(patterns[r], x, z, q.dlo, q.dhi));
    }
    if q.matches(x, z) {
        let r = choose|r: int|
            0 <= r < patterns.len() && #[trigger] crate::blocks::pattern_at(
                patterns[r],
                x,
                z,
                q.dlo,
                q.dhi,
            );
        assert(lies_in_world(rotations[r], seed, bt, x, z));
    }
}

/// Where some rotation is satisfied everywhere, it lies everywhere in the world.
proof fn lemma_everywhere_in_world(
    rotations: Seq<Seq<Block>>,
    seed: i64,
    bt: BedrockType,
    x: int,
    z: int,
)
    requires
        crate::prepare::prepared(rotations) matches Ok(None),
    ensures
        one_lies_in_world(rotations, seed, bt, x, z),
    decreases rotations.len(),
{
    let before = rotations.drop_last();
    if crate::prepare::prepared(before) matches Ok(None) {
        lemma_everywhere_in_world(before, seed, bt, x, z);
        let r = choose|r: int|
            0 <= r < before.len() && lies_in_world(#[trigger] before[r], seed, bt, x, z);
        assert(rotations[r] == before[r]);
    } else {
        let v = rotations[rotations.len() - 1];
        assert(v == rotations.last());
        lemma_lies_in_world(v, seed, bt, x, z);
    }
}

/// What a collection looks for is where one of the rotations lies in the world.
pub proof fn lemma_hunted_in_world(
    seed: i64,
    start_x: i32,
    start_z: i32,
    bt: BedrockType,
    rotations: Seq<Seq<Block>>,
    x: int,
    z: int,
)
    requires
        rotations.len() > 0,
        crate::prepare::search_preparation(rotations) is Ok,
    ensures
        hunted(seed, start_x, start_z, bt, rotations).matches(x, z) <==> one_lies_in_world(
            rotations,
            seed,
            bt,
            x,
            z,
        ),
{
    match crate::prepare::prepared(rotations) {
        Ok(Some(_)) => {
            lemma_query_in_world(seed, start_x, start_z, bt, rotations, x, z);
        },
        _ => {
            let q = hunted(seed, start_x, start_z, bt, rotations);
            lemma_everywhere_in_world(rotations, seed, bt, x, z);
            assert(crate::blocks::pattern_at(q.patterns[0], x, z, q.dlo, q.dhi));
        },
    }
}

/// The only errors on a rotation are those on a block of it that demands the impossible.
proof fn lemma_refused_block(rotations: Seq<Seq<Block>>)
    requires
        crate::prepare::prepared(rotations) is Err,
    ensures
        exists|r: int, i: int|
            0 <= r < rotations.len() && 0 <= i < rotations[r].len() && crate::prepare::block_error(
                #[trigger] rotations[r][i],
            ) == Some(crate::prepare::prepared(rotations)->Err_0),
    decreases rotations.len(),
{
    let before = rotations.drop_last();
    if crate::prepare::prepared(before) is Err {
        lemma_refused_block(before);
        let (r, i) = choose|r: int, i: int|
            0 <= r < before.len() && 0 <= i < before[r].len() && crate::prepare::block_error(
                #[trigger] before[r][i],
            ) == Some(crate::prepare::prepared(before)->Err_0);
        assert(rotations[r][i] == before[r][i]);
    } else {
        let n = rotations.len() - 1;
        assert(rotations[n] == rotations.last());
        crate::prepare::lemma_first_error_block(rotations[n]);
        let i = choose|i: int|
            0 <= i < rotations[n].len() && crate::prepare::block_error(
                #[trigger] rotations[n][i],
            ) == crate::prepare::first_error(rotations[n]);
        assert(crate::prepare::block_error(rotations[n][i]) == Some(
            crate::prepare::prepared(rotations)->Err_0,
        ));
    }
}

/// What a match says of the world: at an index of the spiral from the given group on one of the
/// rotations lies, none of them lies at an index before it, and the group at which to go on is the
/// one after the group of that index.
pub proof fn law_match_is_first_in_world(
    seed: i64,
    start_x: i32,
    start_z: i32,
    bt: BedrockType,
    rotations: Seq<Seq<Block>>,
    start_group: i64,
    x: i32,
    z: i32,
    resume: i64,
)
    requires
        0 <= start_group,
        rotations.len() > 0,
        search_answer(
            seed,
            start_x,
            start_z,
            bt,
            rotations,
            start_group,
            Ok::<Option<(i32, i32, i64)>, SearchError>(Some((x, z, resume))),
        ),
    ensures
        one_lies_in_world(rotations, seed, bt, x as int, z as int),
        exists|k: int|
            {
                &&& 8 * start_group <= k
                &&& 8 * (resume - 1) <= k < 8 * resume
                &&& #[trigger] crate::spiral::spiral_position(start_x, start_z, k) == (
                    x as int,
                    z as int,
                )
                &&& forall|m: int|
                    8 * start_group <= m < k ==> {
                        let p = #[trigger] crate::spiral::spiral_position(start_x, start_z, m);
                        !one_lies_in_world(rotations, seed, bt, p.0, p.1)
                    }
            },
{
    match crate::prepare::prepared(rotations) {
        Ok(Some(patterns)) => {
            let q = query_for(seed, start_x, start_z, bt, patterns);
            let k = choose|k: int|
                {
                    &&& #[trigger] q.first_hit(8 * start_group, k)
                    &&& k <= q.limit()
                    &&& (x as int, z as int) == crate::spiral::spiral_position(
                        q.start_x,
                        q.start_z,
                        k,
                    )
                    &&& resume == k / 8 + 1
                };
            lemma_query_in_world(seed, start_x, start_z, bt, rotations, x as int, z as int);
            assert(q.hit(k));
            assert forall|m: int| 8 * start_group <= m < k implies ({
                let p = #[trigger] crate::spiral::spiral_position(start_x, start_z, m);
                !one_lies_in_world(rotations, seed, bt, p.0, p.1)
            }) by {
                let p = crate::spiral::spiral_position(start_x, start_z, m);
                assert(!q.hit(m));
                lemma_query_in_world(seed, start_x, start_z, bt, rotations, p.0, p.1);
            }
            assert(crate::spiral::spiral_position(start_x, start_z, k) == (x as int, z as int));
        },
        Ok(None) => {
            lemma_everywhere_in_world(rotations, seed, bt, x as int, z as int);
            assert(crate::spiral::spiral_position(start_x, start_z, 8 * start_group as int) == (
                x as int,
                z as int,
            ));
        },
        Err(_) => {},
    }
}

/// The match that a search gives which starts at the centre is a nearest one of the world: where
/// all is nearer than it, none of the rotations lies.
pub proof fn law_match_is_nearest_in_world(
    seed: i64,
    start_x: i32,
    start_z: i32,
    bt: BedrockType,
    rotations: Seq<Seq<Block>>,
    found: (i32, i32, i64),
    d: int,
    x: int,
    z: int,
)
    requires
        rotations.len() > 0,
        search_answer(
            seed,
            start_x,
            start_z,
            bt,
            rotations,
            0,
            Ok::<Option<(i32, i32, i64)>, SearchError>(Some(found)),
        ),
        !crate::spiral::is_nearer_than(d, found.0 - start_x, found.1 - start_z),
        crate::spiral::is_nearer_than(d, x - start_x, z - start_z),
    ensures
        !one_lies_in_world(rotations, seed, bt, x, z),
{
    law_match_is_first_in_world(
        seed,
        start_x,
        start_z,
        bt,
        rotations,
        0,
        found.0,
        found.1,
        found.2,
    );
    let k = choose|k: int|
        {
            &&& 0 <= k
            &&& 8 * (found.2 - 1) <= k < 8 * found.2
            &&& #[trigger] crate::spiral::spiral_position(start_x, start_z, k) == (
                found.0 as int,
                found.1 as int,
            )
            &&& forall|m: int|
                0 <= m < k ==> {
                    let p = #[trigger] crate::spiral::spiral_position(start_x, start_z, m);
                    !one_lies_in_world(rotations, seed, bt, p.0, p.1)
                }
        };
    crate::spiral::law_nearer_positions_come_first(start_x, start_z, k, d, x, z);
}

/// A search gives up only where none of the rotations lies at any position of any square around
/// the centre that fits, from the group on at which it starts: for a search that starts at the
/// centre, at any position of the square at all.
pub proof fn law_exhausted_search_missed_nothing(
    seed: i64,
    start_x: i32,
    start_z: i32,
    bt: BedrockType,
    rotations: Seq<Seq<Block>>,
    start_group: i64,
    l: int,
    k: int,
)
    requires
        0 <= start_group,
        search_answer(
            seed,
            start_x,
            start_z,
            bt,
            rotations,
            start_group,
            Err::<Option<(i32, i32, i64)>, SearchError>(SearchError::SpaceExhausted),
        ),
        0 <= l,
        crate::spiral::square_fits(start_x, start_z, l),
        8 * start_group <= k < (2 * l + 1) * (2 * l + 1),
    ensures
        ({
            let p = crate::spiral::spiral_position(start_x, start_z, k);
            !one_lies_in_world(rotations, seed, bt, p.0, p.1)
        }),
{
    let p = crate::spiral::spiral_position(start_x, start_z, k);
    crate::spiral::law_search_reaches_every_square_that_fits(start_x, start_z, l);
    match crate::prepare::search_preparation(rotations) {
        Ok(Some(patterns)) => {
            let q = query_for(seed, start_x, start_z, bt, patterns);
            assert(!q.hit(k));
            lemma_query_in_world(seed, start_x, start_z, bt, rotations, p.0, p.1);
        },
        Ok(None) => {},
        Err(_) => {
            lemma_refused_block(rotations);
        },
    }
}

/// A search from the centre that gives up has looked at every position of every square around the
/// centre that fits.
pub proof fn law_exhausted_search_has_seen_the_square(
    seed: i64,
    start_x: i32,
    start_z: i32,
    bt: BedrockType,
    rotations: Seq<Seq<Block>>,
    l: int,
    x: int,
    z: int,
)
    requires
        search_answer(
            seed,
            start_x,
            start_z,
            bt,
            rotations,
            0,
            Err::<Option<(i32, i32, i64)>, SearchError>(SearchError::SpaceExhausted),
        ),
        0 <= l,
        crate::spiral::square_fits(start_x, start_z, l),
        -l <= x - start_x <= l,
        -l <= z - start_z <= l,
    ensures
        !one_lies_in_world(rotations, seed, bt, x, z),
{
    let k = crate::spiral::index_of_offset((x - start_x, z - start_z));
    crate::spiral::lemma_index_in_square(x - start_x, z - start_z, l);
    law_exhausted_search_missed_nothing(seed, start_x, start_z, bt, rotations, 0, l, k);
}

/// What lies in reach is found: if one of the rotations lies at an index from the given group on,
/// in a square around the centre that fits, and no block demands the impossible, a search from that
/// group on that is not cancelled gives a match, and at no later index.
pub proof fn law_match_in_reach_is_found(
    seed: i64,
    start_x: i32,
    start_z: i32,
    bt: BedrockType,
    rotations: Seq<Seq<Block>>,
    start_group: i64,
    l: int,
    k: int,
    r: Result<Option<(i32, i32, i64)>, SearchError>,
)
    requires
        0 <= start_group,
        search_answer(seed, start_x, start_z, bt, rotations, start_group, r),
        r != Ok::<Option<(i32, i32, i64)>, SearchError>(None),
        all_demands_possible(rotations),
        0 <= l,
        crate::spiral::square_fits(start_x, start_z, l),
        8 * start_group <= k < (2 * l + 1) * (2 * l + 1),
        ({
            let p = crate::spiral::spiral_position(start_x, start_z, k);
            one_lies_in_world(rotations, seed, bt, p.0, p.1)
        }),
    ensures
        r matches Ok(Some((x, z, resume))) && 8 * (resume - 1) <= k,
{
    if crate::prepare::search_preparation(rotations) is Err {
        lemma_refused_block(rotations);
        let (p, i) = choose|p: int, i: int|
            0 <= p < rotations.len() && 0 <= i < rotations[p].len() && crate::prepare::block_error(
                #[trigger] rotations[p][i],
            ) == Some(crate::prepare::prepared(rotations)->Err_0);
        assert(crate::prepare::block_error(rotations[p][i]) is None);
    } else if r == Err::<Option<(i32, i32, i64)>, SearchError>(SearchError::SpaceExhausted) {
        law_exhausted_search_missed_nothing(
            seed,
            start_x,
            start_z,
            bt,
            rotations,
            start_group,
            l,
            k,
        );
    } else if let Ok(Some((x, z, resume))) = r {
        law_match_is_first_in_world(
            seed,
            start_x,
            start_z,
            bt,
            rotations,
            start_group,
            x,
            z,
            resume,
        );
        let m = choose|m: int|
            {
                &&& 8 * start_group <= m
                &&& 8 * (resume - 1) <= m < 8 * resume
                &&& #[trigger] crate::spiral::spiral_position(start_x, start_z, m) == (
                    x as int,
                    z as int,
                )
                &&& forall|n: int|
                    8 * start_group <= n < m ==> {
                        let p = #[trigger] crate::spiral::spiral_position(start_x, start_z, n);
                        !one_lies_in_world(rotations, seed, bt, p.0, p.1)
                    }
            };
        assert(m <= k);
    }
}

/// Where a block of the first rotation demands the impossible the search is refused, whatever the
/// other rotations are, and the error names the first block of that rotation that does: one that is
/// always bedrock and must be none, or one that is never bedrock and must be some.
pub proof fn law_impossible_demand_is_refused(
    seed: i64,
    start_x: i32,
    start_z: i32,
    bt: BedrockType,
    rotations: Seq<Seq<Block>>,
    start_group: i64,
    r: Result<Option<(i32, i32, i64)>, SearchError>,
)
    requires
        search_answer(seed, start_x, start_z, bt, rotations, start_group, r),
        rotations.len() > 0,
        !all_demands_possible(seq![rotations[0]]),
    ensures
        exists|i: int|
            0 <= i < rotations[0].len() && all_demands_possible(seq![rotations[0].take(i)]) && {
                let b = #[trigger] rotations[0][i];
                ||| b.probability.fifths >= 5 && !b.should_be_bedrock && r == Err::<
                    Option<(i32, i32, i64)>,
                    SearchError,
                >(SearchError::AlwaysBedrock { x: b.x, y: b.y, z: b.z })
                ||| b.probability.fifths <= 0 && b.should_be_bedrock && r == Err::<
                    Option<(i32, i32, i64)>,
                    SearchError,
                >(SearchError::NeverBedrock { x: b.x, y: b.y, z: b.z })
            },
{
    let v = rotations[0];
    let list = seq![v];
    let (p, j) = choose|p: int, j: int|
        0 <= p < list.len() && 0 <= j < list[p].len() && {
            let b = #[trigger] list[p][j];
            !((b.probability.fifths >= 5 ==> b.should_be_bedrock) && (b.probability.fifths <= 0
                ==> !b.should_be_bedrock))
        };
    assert(crate::prepare::block_error(v[j]) is Some);
    crate::prepare::lemma_first_error(v);
    crate::prepare::lemma_first_error_block(v);
    reveal_with_fuel(crate::prepare::prepared, 2);
    assert(list.drop_last() =~= Seq::empty());
    assert(list.last() == v);
    assert(rotations.take(1) =~= list);
    crate::prepare::lemma_stop_decides(rotations, 1);
    let i = choose|i: int|
        {
            &&& 0 <= i < v.len()
            &&& crate::prepare::block_error(#[trigger] v[i]) == crate::prepare::first_error(v)
            &&& forall|j: int|
                0 <= j < i ==> crate::prepare::block_error(#[trigger] v[j]) is None
        };
    assert(crate::prepare::block_error(v[i]) is Some);
    assert forall|p: int, j: int|
        0 <= p < seq![v.take(i)].len() && 0 <= j < seq![v.take(i)][p].len() implies ({
        let b = #[trigger] seq![v.take(i)][p][j];
        &&& b.probability.fifths >= 5 ==> b.should_be_bedrock
        &&& b.probability.fifths <= 0 ==> !b.should_be_bedrock
    }) by {
        assert(crate::prepare::block_error(v[j]) is None);
    }
    assert(v[i] == rotations[0][i]);
}

} // verus!
