//! What a graphics processor is told about a search, and what its answer means.
use vstd::prelude::*;

use crate::bedrock::Block;
use crate::hash::{position_x_term, position_z_term};
use crate::search::GROUPS_PER_CHUNK;

verus! {

/// The most blocks of one rotation: four heights of sixteen by sixteen cells.
pub const MAX_BLOCKS_PER_ROTATION: u64 = 1024;

/// The most blocks of a search: four rotations.
pub const MAX_TOTAL_BLOCKS: u64 = 4096;

/// The number of threads of a workgroup. The kernel declares the same number.
pub const GPU_WORKGROUP_SIZE: u32 = 256;

/// The most workgroups that one dimension of a dispatch may have.
pub const MAX_WORKGROUPS_PER_DIM: u32 = 65_535;

/// The answer that says that no candidate matches.
pub const NO_HIT: u32 = 0xFFFF_FFFF;

/// The number of candidates of one chunk.
pub const POSITIONS_PER_CHUNK: u32 = 8192;

/// The parameters of one batch, twelve words in this order.
#[derive(Clone, Copy, PartialEq, Eq, Debug, Structural)]
pub struct SearchUniforms {
    pub dlo_lo: u32,
    pub dlo_hi: u32,
    pub dhi_lo: u32,
    pub dhi_hi: u32,
    /// The number of blocks of each rotation.
    pub blocks_per_rotation: u32,
    pub candidate_count: u32,
    /// The low word of the spiral index of candidate 0.
    pub batch_base_k_lo: u32,
    pub start_x: i32,
    pub start_z: i32,
    /// The number of threads of a row of the dispatch grid: the candidate of a thread is
    /// `y * dispatch_width + x`.
    pub dispatch_width: u32,
    /// The number of rotations in the block buffer.
    pub rotation_count: u32,
    /// The high word of the spiral index of candidate 0.
    pub batch_base_k_hi: u32,
}

/// One block of a pattern, eight words in this order. The coordinates are kept as their terms of
/// the position hash.
#[derive(Clone, Copy, Debug)]
pub struct GpuBlock {
    pub bx_k: u32,
    pub by: i32,
    pub bz_k_lo: u32,
    pub bz_k_hi: u32,
    pub prob_threshold: u32,
    pub should_be_bedrock: u32,
    pub _pad: [u32; 2],
}

/// The 64-bit word with the given halves.
pub open spec fn joined(lo: u32, hi: u32) -> u64 {
    (hi * 0x1_0000_0000 + lo) as u64
}

/// The halves of a 64-bit word, the low one first.
fn split_word(w: u64) -> (r: (u32, u32))
    ensures
        joined(r.0, r.1) == w,
{
    let lo: u32 = (w & 0xFFFF_FFFF) as u32;
    let hi: u32 = (w >> 32) as u32;
    assert((w & 0xFFFF_FFFF) as u32 as u64 == w % 0x1_0000_0000) by (bit_vector);
    assert((w >> 32) as u32 as u64 == w / 0x1_0000_0000) by (bit_vector);
    (lo, hi)
}

/// A block buffer entry holds a block.
pub open spec fn holds_block(g: GpuBlock, b: Block) -> bool {
    &&& g.bx_k as i32 == crate::hash::x_term(b.x as int)
    &&& g.by == b.y
    &&& joined(g.bz_k_lo, g.bz_k_hi) as i64 == crate::hash::z_term(b.z as int)
    &&& g.prob_threshold == b.prob_threshold as u32
    &&& g.should_be_bedrock == if b.should_be_bedrock {
        1u32
    } else {
        0u32
    }
    &&& g._pad@ == seq![0u32, 0u32]
}

/// Makes the block buffer entry of a block.
pub fn gpu_block(b: &Block) -> (g: GpuBlock)
    ensures
        holds_block(g, *b),
{
    let bx: i32 = position_x_term(b.x);
    let bz: i64 = position_z_term(b.z);
    assert((bx as u32) as i32 == bx) by (bit_vector);
    proof {
        crate::lanes::lemma_unsigned(bz);
    }
    let (lo, hi) = split_word(bz as u64);
    let g = GpuBlock {
        bx_k: bx as u32,
        by: b.y,
        bz_k_lo: lo,
        bz_k_hi: hi,
        prob_threshold: b.prob_threshold as u32,
        should_be_bedrock: if b.should_be_bedrock {
            1
        } else {
            0
        },
        _pad: [0, 0],
    };
    assert(g._pad@ =~= seq![0u32, 0u32]);
    g
}

/// Makes the block buffer of a search: the blocks of all rotations, one rotation after the other.
pub fn gpu_blocks(patterns: &Vec<Vec<Block>>) -> (r: Vec<GpuBlock>)
    ensures
        ({
            let all = crate::rotations::patterns_of(patterns@).flatten();
            &&& r@.len() == all.len()
            &&& forall|i: int| 0 <= i < all.len() ==> holds_block(#[trigger] r@[i], all[i])
        }),
{
    let ghost lists = crate::rotations::patterns_of(patterns@);
    let mut r: Vec<GpuBlock> = Vec::new();
    let mut p: usize = 0;
    assert(lists.take(0) =~= Seq::empty());
    while p < patterns.len()
        invariant
            0 <= p <= patterns@.len(),
            lists == crate::rotations::patterns_of(patterns@),
            r@.len() == lists.take(p as int).flatten().len(),
            forall|i: int|
                0 <= i < r@.len() ==> holds_block(
                    #[trigger] r@[i],
                    lists.take(p as int).flatten()[i],
                ),
        decreases patterns@.len() - p,
    {
        let ghost done = lists.take(p as int).flatten();
        let mut i: usize = 0;
        while i < patterns[p as usize].len()
            invariant
                0 <= p < patterns@.len(),
                0 <= i <= patterns@[p as int]@.len(),
                r@.len() == done.len() + i,
                forall|m: int| 0 <= m < done.len() ==> holds_block(#[trigger] r@[m], done[m]),
                forall|m: int|
                    done.len() <= m < r@.len() ==> holds_block(
                        #[trigger] r@[m],
                        patterns@[p as int]@[m - done.len()],
                    ),
            decreases patterns@[p as int]@.len() - i,
        {
            r.push(gpu_block(&patterns[p][i]));
            i = i + 1;
        }
        proof {
            assert(lists.take(p + 1) =~= lists.take(p as int).push(lists[p as int]));
            lists.take(p as int).lemma_flatten_push(lists[p as int]);
        }
        p = p + 1;
    }
    assert(lists.take(patterns@.len() as int) =~= lists);
    r
}

/// The test that the kernel makes of one block at a position with the given terms.
pub open spec fn kernel_block_passes(
    g: GpuBlock,
    ox_term: i32,
    oz_term: i64,
    dlo: i64,
    dhi: i64,
) -> bool {
    crate::hash::bedrock_by_terms(
        ox_term.wrapping_add(g.bx_k as i32),
        g.by,
        oz_term.wrapping_add(joined(g.bz_k_lo, g.bz_k_hi) as i64),
        dlo,
        dhi,
        g.prob_threshold as u64,
    ) == (g.should_be_bedrock != 0)
}

/// The kernel's test of a block buffer entry decides as the block itself does.
pub proof fn law_kernel_decides_block(g: GpuBlock, b: Block, x: i32, z: i32, dlo: i64, dhi: i64)
    requires
        holds_block(g, b),
        b.prob_threshold < 0x1_0000_0000,
    ensures
        kernel_block_passes(
            g,
            crate::hash::x_term(x as int),
            crate::hash::z_term(z as int),
            dlo,
            dhi,
        ) == crate::blocks::block_satisfied(b, x as int, z as int, dlo, dhi),
{
    crate::hash::law_x_terms_add(x as int, b.x as int);
    crate::hash::law_z_terms_add(z, b.z);
}

/// The least number whose square is not below `n`.
fn ceil_sqrt(n: u32) -> (r: u32)
    requires
        n <= 0x100_0000,
    ensures
        n <= r * r,
        r > 0 ==> (r - 1) * (r - 1) < n,
        r <= 4096,
{
    let mut lo: u32 = 0;
    let mut hi: u32 = 4096;
    while lo < hi
        invariant
            n <= 0x100_0000,
            0 <= lo <= hi <= 4096,
            n <= hi * hi,
            lo > 0 ==> (lo - 1) * (lo - 1) < n,
        decreases hi - lo,
    {
        let mid: u32 = lo + (hi - lo) / 2;
        assert(mid * mid <= 4096 * 4096) by (nonlinear_arith)
            requires
                0 <= mid <= 4096,
        ;
        if mid * mid >= n {
            hi = mid;
        } else {
            lo = mid + 1;
        }
    }
    lo
}

/// A dispatch of one batch: the parameters, and the number of workgroups in both dimensions.
#[derive(Clone, Copy, PartialEq, Eq, Debug, Structural)]
pub struct BatchRequest {
    pub uniforms: SearchUniforms,
    pub dispatch_x: u32,
    pub dispatch_y: u32,
}

/// The quotient, rounded up.
pub open spec fn ceil_div(n: int, d: int) -> int {
    (n + d - 1) / d
}

/// A width of the dispatch grid for a number of workgroups: all of them where one dimension can
/// hold them, and otherwise the rounded up square root, so that the grid is about square.
pub open spec fn is_grid_width(w: int, workgroups: int) -> bool {
    if workgroups <= MAX_WORKGROUPS_PER_DIM {
        w == if workgroups < 1 {
            1
        } else {
            workgroups
        }
    } else {
        &&& 1 <= w
        &&& workgroups <= w * w
        &&& (w - 1) * (w - 1) < workgroups
    }
}

/// The grid on which a number of workgroups is dispatched.
pub fn dispatch_grid(workgroups: u32) -> (grid: (u32, u32))
    requires
        workgroups <= 0x100_0000,
    ensures
        is_grid_width(grid.0 as int, workgroups as int),
        1 <= grid.0 <= MAX_WORKGROUPS_PER_DIM,
        1 <= grid.1 <= MAX_WORKGROUPS_PER_DIM,
        grid.1 == if workgroups == 0 {
            1
        } else {
            ceil_div(workgroups as int, grid.0 as int)
        },
{
    let x: u32 = if workgroups <= MAX_WORKGROUPS_PER_DIM {
        if workgroups < 1 {
            1
        } else {
            workgroups
        }
    } else {
        ceil_sqrt(workgroups)
    };
    proof {
        if workgroups > MAX_WORKGROUPS_PER_DIM {
            assert(x > 0) by (nonlinear_arith)
                requires
                    workgroups <= x * x,
                    workgroups > 0,
            ;
            assert((workgroups + x - 1) / x as int <= x) by (nonlinear_arith)
                requires
                    0 < x,
                    workgroups <= x * x,
            ;
            assert(1 <= (workgroups + x - 1) / x as int) by (nonlinear_arith)
                requires
                    0 < x,
                    0 < workgroups,
            ;
        } else if workgroups > 0 {
            assert((workgroups + x - 1) / x as int == 1) by (nonlinear_arith)
                requires
                    x == workgroups,
                    0 < x,
            ;
        } else {
            assert((workgroups + x - 1) / x as int == 0);
        }
    }
    let rows: u32 = (workgroups + x - 1) / x;
    let y: u32 = if rows < 1 {
        1
    } else if rows > MAX_WORKGROUPS_PER_DIM {
        MAX_WORKGROUPS_PER_DIM
    } else {
        rows
    };
    (x, y)
}

/// What a batch request says.
pub open spec fn is_request(
    r: BatchRequest,
    batch_base_group: int,
    num_chunks: int,
    start_x: i32,
    start_z: i32,
    dlo: i64,
    dhi: i64,
    block_count: int,
    rotation_count: int,
) -> bool {
    let u = r.uniforms;
    let workgroups = ceil_div(u.candidate_count as int, GPU_WORKGROUP_SIZE as int);
    &&& joined(u.dlo_lo, u.dlo_hi) as i64 == dlo
    &&& joined(u.dhi_lo, u.dhi_hi) as i64 == dhi
    &&& u.blocks_per_rotation == block_count / rotation_count
    &&& u.rotation_count == rotation_count
    &&& u.candidate_count == num_chunks * POSITIONS_PER_CHUNK
    &&& joined(u.batch_base_k_lo, u.batch_base_k_hi) == 8 * batch_base_group
    &&& u.start_x == start_x
    &&& u.start_z == start_z
    &&& u.dispatch_width == r.dispatch_x * GPU_WORKGROUP_SIZE
    &&& is_grid_width(r.dispatch_x as int, workgroups)
    &&& r.dispatch_x <= MAX_WORKGROUPS_PER_DIM
    &&& r.dispatch_y <= MAX_WORKGROUPS_PER_DIM
    &&& r.dispatch_y == if workgroups == 0 {
        1
    } else {
        ceil_div(workgroups, r.dispatch_x as int)
    }
}

/// Makes the request for a batch of chunks that begins with the given group.
pub fn batch_request(
    batch_base_group: i64,
    num_chunks: usize,
    start_x: i32,
    start_z: i32,
    dlo: i64,
    dhi: i64,
    block_count: usize,
    rotation_count: u32,
) -> (r: BatchRequest)
    requires
        0 <= batch_base_group,
        8 * batch_base_group <= u64::MAX,
        num_chunks < 524_288,
        1 <= rotation_count,
        block_count <= u32::MAX,
        block_count % rotation_count as usize == 0,
    ensures
        is_request(
            r,
            batch_base_group as int,
            num_chunks as int,
            start_x,
            start_z,
            dlo,
            dhi,
            block_count as int,
            rotation_count as int,
        ),
{
    let blocks_per_rotation: u32 = block_count as u32 / rotation_count;
    let candidate_count: u32 = num_chunks as u32 * POSITIONS_PER_CHUNK;
    let batch_base_k: u64 = batch_base_group as u64 * 8;
    let (batch_base_k_lo, batch_base_k_hi) = split_word(batch_base_k);
    let total_workgroups: u32 = (candidate_count + (GPU_WORKGROUP_SIZE - 1)) / GPU_WORKGROUP_SIZE;
    let (dispatch_x, dispatch_y) = dispatch_grid(total_workgroups);
    let dispatch_width: u32 = dispatch_x * GPU_WORKGROUP_SIZE;
    let (dlo_lo, dlo_hi) = split_word(dlo as u64);
    let (dhi_lo, dhi_hi) = split_word(dhi as u64);
    proof {
        crate::lanes::lemma_unsigned(dlo);
        crate::lanes::lemma_unsigned(dhi);
    }
    BatchRequest {
        uniforms: SearchUniforms {
            dlo_lo,
            dlo_hi,
            dhi_lo,
            dhi_hi,
            blocks_per_rotation,
            candidate_count,
            batch_base_k_lo,
            start_x,
            start_z,
            dispatch_width,
            rotation_count,
            batch_base_k_hi,
        },
        dispatch_x,
        dispatch_y,
    }
}

/// The candidate of the thread in a column and a row of a grid of the given width.
pub open spec fn candidate_of(x: int, y: int, width: int) -> int {
    y * width + x
}

/// Every candidate of a batch has exactly one thread of the grid: the one in column
/// `c % dispatch_width` of row `c / dispatch_width`.
pub proof fn law_grid_covers_candidates(
    r: BatchRequest,
    batch_base_group: int,
    num_chunks: int,
    start_x: i32,
    start_z: i32,
    dlo: i64,
    dhi: i64,
    block_count: int,
    rotation_count: int,
    c: int,
)
    requires
        is_request(
            r,
            batch_base_group,
            num_chunks,
            start_x,
            start_z,
            dlo,
            dhi,
            block_count,
            rotation_count,
        ),
        0 <= c < r.uniforms.candidate_count,
    ensures
        ({
            let w = r.uniforms.dispatch_width as int;
            &&& 0 <= c % w < w
            &&& 0 <= c / w < r.dispatch_y
            &&& candidate_of(c % w, c / w, w) == c
            &&& forall|x: int, y: int|
                0 <= x < w && 0 <= y && #[trigger] candidate_of(x, y, w) == c ==> x == c % w && y
                    == c / w
        }),
{
    let w = r.uniforms.dispatch_width as int;
    let n = r.uniforms.candidate_count as int;
    let g = ceil_div(n, 256);
    let dx = r.dispatch_x as int;
    let dy = r.dispatch_y as int;
    assert(dx >= 1 && w == 256 * dx);
    assert(n <= 256 * g);
    assert(dy * dx >= g) by (nonlinear_arith)
        requires
            dx >= 1,
            dy == (g + dx - 1) / dx,
    ;
    assert(n <= dy * w) by (nonlinear_arith)
        requires
            n <= 256 * g,
            dy * dx >= g,
            w == 256 * dx,
    ;
    vstd::arithmetic::div_mod::lemma_fundamental_div_mod(c, w);
    assert((c / w) * w == w * (c / w)) by (nonlinear_arith);
    assert(c / w < dy) by (nonlinear_arith)
        requires
            w > 0,
            c < dy * w,
            c >= 0,
    ;
    assert(0 <= c / w) by (nonlinear_arith)
        requires
            w > 0,
            c >= 0,
    ;
    assert forall|x: int, y: int|
        0 <= x < w && 0 <= y && #[trigger] candidate_of(x, y, w) == c implies x == c % w && y == c
        / w by {
        vstd::arithmetic::div_mod::lemma_fundamental_div_mod_converse(c, w, y, x);
    }
}

/// What the answer of a batch means: the chunk of the earliest candidate that matches.
pub fn decode_result(raw: u32) -> (r: Option<i64>)
    ensures
        r == decoded(raw),
{
    if raw == NO_HIT {
        None
    } else {
        Some((raw / POSITIONS_PER_CHUNK) as i64)
    }
}

/// All entries of rotation `r` pass the kernel's test at a position with the given terms.
pub open spec fn kernel_rotation_passes(
    entries: Seq<GpuBlock>,
    per_rotation: int,
    r: int,
    ox_term: i32,
    oz_term: i64,
    dlo: i64,
    dhi: i64,
) -> bool {
    forall|i: int|
        0 <= i < per_rotation ==> #[trigger] kernel_entry_passes(
            entries,
            r * per_rotation + i,
            ox_term,
            oz_term,
            dlo,
            dhi,
        )
}

/// Entry `n` passes the kernel's test at a position with the given terms.
pub open spec fn kernel_entry_passes(
    entries: Seq<GpuBlock>,
    n: int,
    ox_term: i32,
    oz_term: i64,
    dlo: i64,
    dhi: i64,
) -> bool {
    kernel_block_passes(entries[n], ox_term, oz_term, dlo, dhi)
}

/// Candidate `c` of a batch passes: all entries of one rotation do at its position.
pub open spec fn kernel_passes(entries: Seq<GpuBlock>, u: SearchUniforms, c: int) -> bool {
    let k = joined(u.batch_base_k_lo, u.batch_base_k_hi) + c;
    let p = crate::spiral::spiral_position(u.start_x, u.start_z, k);
    exists|r: int|
        0 <= r < u.rotation_count && #[trigger] kernel_rotation_passes(
            entries,
            u.blocks_per_rotation as int,
            r,
            crate::hash::x_term(p.0),
            crate::hash::z_term(p.1),
            joined(u.dlo_lo, u.dlo_hi) as i64,
            joined(u.dhi_lo, u.dhi_hi) as i64,
        )
}

/// The answer of a kernel that works: the least candidate that passes, or that there is none.
pub open spec fn kernel_answer(entries: Seq<GpuBlock>, u: SearchUniforms, raw: u32) -> bool {
    if raw == NO_HIT {
        forall|c: int| 0 <= c < u.candidate_count ==> !#[trigger] kernel_passes(entries, u, c)
    } else {
        &&& raw < u.candidate_count
        &&& kernel_passes(entries, u, raw as int)
        &&& forall|c: int| 0 <= c < raw ==> !#[trigger] kernel_passes(entries, u, c)
    }
}

/// What the answer of a batch means.
pub open spec fn decoded(raw: u32) -> Option<i64> {
    if raw == NO_HIT {
        None
    } else {
        Some((raw / POSITIONS_PER_CHUNK) as i64)
    }
}

/// An entry of a list of equally long lists, strung together.
proof fn lemma_flatten_entry(lists: Seq<Seq<Block>>, n: int, r: int, i: int)
    requires
        forall|m: int| 0 <= m < lists.len() ==> (#[trigger] lists[m]).len() == n,
        0 <= r < lists.len(),
        0 <= i < n,
    ensures
        0 <= r * n + i < lists.flatten().len(),
        lists.flatten()[r * n + i] == lists[r][i],
    decreases lists.len(),
{
    let rest = lists.drop_first();
    assert(lists.flatten() == lists.first() + rest.flatten());
    assert(lists.first() == lists[0]);
    if r > 0 {
        assert forall|m: int| 0 <= m < rest.len() implies (#[trigger] rest[m]).len() == n by {
            assert(rest[m] == lists[m + 1]);
        }
        lemma_flatten_entry(rest, n, r - 1, i);
        assert((r - 1) * n + i == r * n + i - n) by (nonlinear_arith);
        assert(0 <= (r - 1) * n) by (nonlinear_arith)
            requires
                r >= 1,
                n >= 0,
        ;
    } else {
        assert(r * n == 0) by (nonlinear_arith)
            requires
                r == 0,
        ;
    }
}

/// The block buffer, the parameters and the query of a batch belong together.
pub open spec fn batch_of_query(
    entries: Seq<GpuBlock>,
    request: BatchRequest,
    q: crate::search::Query,
    batch_base_group: int,
    num_chunks: int,
    per_rotation: int,
) -> bool {
    &&& 0 <= batch_base_group
    &&& 1 <= num_chunks <= q.chunks_left(batch_base_group)
    &&& 1 <= q.patterns.len()
    &&& forall|r: int| 0 <= r < q.patterns.len() ==> (#[trigger] q.patterns[r]).len() == per_rotation
    &&& forall|r: int, i: int|
        0 <= r < q.patterns.len() && 0 <= i < per_rotation ==> (
        #[trigger] q.patterns[r][i]).prob_threshold < 0x1_0000_0000
    &&& entries.len() == q.patterns.flatten().len()
    &&& forall|i: int|
        0 <= i < entries.len() ==> holds_block(#[trigger] entries[i], q.patterns.flatten()[i])
    &&& is_request(
        request,
        batch_base_group,
        num_chunks,
        q.start_x,
        q.start_z,
        q.dlo,
        q.dhi,
        per_rotation * q.patterns.len(),
        q.patterns.len() as int,
    )
}

/// A candidate passes exactly if a match lies at its index of the spiral.
proof fn lemma_candidate_is_hit(
    entries: Seq<GpuBlock>,
    request: BatchRequest,
    q: crate::search::Query,
    batch_base_group: int,
    num_chunks: int,
    per_rotation: int,
    c: int,
)
    requires
        batch_of_query(entries, request, q, batch_base_group, num_chunks, per_rotation),
        0 <= c < request.uniforms.candidate_count,
    ensures
        kernel_passes(entries, request.uniforms, c) <==> q.hit(8 * batch_base_group + c),
{
    let u = request.uniforms;
    let k = 8 * batch_base_group + c;
    let p = crate::spiral::spiral_position(q.start_x, q.start_z, k);
    let ox = crate::hash::x_term(p.0);
    let oz = crate::hash::z_term(p.1);
    let count = q.patterns.len() as int;
    assert((per_rotation * count) / count == per_rotation) by (nonlinear_arith)
        requires
            count >= 1,
    ;
    assert(u.blocks_per_rotation == per_rotation);
    let left = q.limit() - 8 * batch_base_group;
    assert(8192 * (left / 8192) <= left);
    assert(k <= q.limit());
    crate::spiral::lemma_index_limit(q.start_x, q.start_z, k);
    assert forall|r: int| 0 <= r < count implies (#[trigger] kernel_rotation_passes(
        entries,
        per_rotation,
        r,
        ox,
        oz,
        q.dlo,
        q.dhi,
    ) <==> crate::blocks::pattern_at(q.patterns[r], p.0, p.1, q.dlo, q.dhi)) by {
        assert(q.patterns[r].len() == per_rotation);
        assert forall|i: int| 0 <= i < per_rotation implies (#[trigger] kernel_entry_passes(
            entries,
            r * per_rotation + i,
            ox,
            oz,
            q.dlo,
            q.dhi,
        ) <==> crate::blocks::block_satisfied(q.patterns[r][i], p.0, p.1, q.dlo, q.dhi)) by {
            lemma_flatten_entry(q.patterns, per_rotation, r, i);
            let n = r * per_rotation + i;
            assert(holds_block(entries[n], q.patterns.flatten()[n]));
            assert(q.patterns[r][i].prob_threshold < 0x1_0000_0000);
            law_kernel_decides_block(
                entries[n],
                q.patterns[r][i],
                p.0 as i32,
                p.1 as i32,
                q.dlo,
                q.dhi,
            );
        }
        if crate::blocks::pattern_at(q.patterns[r], p.0, p.1, q.dlo, q.dhi) {
            assert forall|i: int| 0 <= i < per_rotation implies #[trigger] kernel_entry_passes(
                entries,
                r * per_rotation + i,
                ox,
                oz,
                q.dlo,
                q.dhi,
            ) by {
                assert(crate::blocks::block_satisfied(
                    q.patterns[r][i],
                    p.0,
                    p.1,
                    q.dlo,
                    q.dhi,
                ));
            }
        }
        if kernel_rotation_passes(entries, per_rotation, r, ox, oz, q.dlo, q.dhi) {
            assert forall|i: int| 0 <= i < q.patterns[r].len() implies
                #[trigger] crate::blocks::block_satisfied(
                q.patterns[r][i],
                p.0,
                p.1,
                q.dlo,
                q.dhi,
            ) by {
                assert(kernel_entry_passes(
                    entries,
                    r * per_rotation + i,
                    ox,
                    oz,
                    q.dlo,
                    q.dhi,
                ));
            }
        }
    }
    if kernel_passes(entries, u, c) {
        let r = choose|r: int|
            0 <= r < u.rotation_count && #[trigger] kernel_rotation_passes(
                entries,
                u.blocks_per_rotation as int,
                r,
                ox,
                oz,
                q.dlo,
                q.dhi,
            );
        assert(crate::blocks::pattern_at(q.patterns[r], p.0, p.1, q.dlo, q.dhi));
    }
    if q.hit(k) {
        let r = choose|r: int|
            0 <= r < q.patterns.len() && #[trigger] crate::blocks::pattern_at(
                q.patterns[r],
                p.0,
                p.1,
                q.dlo,
                q.dhi,
            );
        assert(kernel_rotation_passes(entries, per_rotation, r, ox, oz, q.dlo, q.dhi));
    }
}

/// The answer of a kernel that works is the truth about the batch: it names the first chunk that
/// holds a match, or says that none does. It is therefore what the threads of the machine find.
pub proof fn law_kernel_answer_is_truthful(
    entries: Seq<GpuBlock>,
    request: BatchRequest,
    q: crate::search::Query,
    batch_base_group: int,
    num_chunks: int,
    per_rotation: int,
    raw: u32,
)
    requires
        batch_of_query(entries, request, q, batch_base_group, num_chunks, per_rotation),
        kernel_answer(entries, request.uniforms, raw),
    ensures
        q.batch_says(batch_base_group, num_chunks, crate::search::Batch::of(decoded(raw))),
{
    let u = request.uniforms;
    let count = num_chunks * 8192;
    let ci = if raw == NO_HIT {
        num_chunks
    } else {
        raw as int / 8192
    };
    assert forall|i: int| 0 <= i < ci implies !#[trigger] q.chunk_hit(
        batch_base_group + GROUPS_PER_CHUNK * i,
    ) by {
        let base = batch_base_group + GROUPS_PER_CHUNK * i;
        assert forall|k: int| 8 * base <= k < 8 * (base + GROUPS_PER_CHUNK) implies !#[trigger] q.hit(
            k,
        ) by {
            let c = k - 8 * batch_base_group;
            assert(0 <= c < u.candidate_count);
            lemma_candidate_is_hit(
                entries,
                request,
                q,
                batch_base_group,
                num_chunks,
                per_rotation,
                c,
            );
            assert(!kernel_passes(entries, u, c));
        }
    }
    if raw != NO_HIT {
        lemma_candidate_is_hit(
            entries,
            request,
            q,
            batch_base_group,
            num_chunks,
            per_rotation,
            raw as int,
        );
        assert(q.hit(8 * batch_base_group + raw));
        assert(q.chunk_hit(batch_base_group + GROUPS_PER_CHUNK * ci));
    }
}

/// Something said of a batch is the answer of a kernel that works.
pub open spec fn kernel_says(
    entries: Seq<GpuBlock>,
    q: crate::search::Query,
    batch_base_group: int,
    num_chunks: int,
    per_rotation: int,
    b: crate::search::Batch,
) -> bool {
    exists|request: BatchRequest, raw: u32|
        {
            &&& batch_of_query(entries, request, q, batch_base_group, num_chunks, per_rotation)
            &&& #[trigger] kernel_answer(entries, request.uniforms, raw)
            &&& b == crate::search::Batch::of(decoded(raw))
        }
}

/// A search whose batches are examined by a kernel that works is truthful, so it answers what a
/// search on the threads of the machine does.
pub proof fn law_working_kernel_is_truthful<
    C: Fn() -> bool,
    D: Fn(i64, i64) -> crate::search::Batch,
>(
    entries: Seq<GpuBlock>,
    q: crate::search::Query,
    per_rotation: int,
    batch_chunks: int,
    cancelled: C,
    dispatch: D,
)
    requires
        forall|group: i64, chunks: i64, b: crate::search::Batch|
            0 <= group && 1 <= chunks <= batch_chunks && chunks <= q.chunks_left(group as int)
                && #[trigger] call_ensures(dispatch, (group, chunks), b) ==> kernel_says(
                entries,
                q,
                group as int,
                chunks as int,
                per_rotation,
                b,
            ) || (b is Cancelled && call_ensures(cancelled, (), true)),
    ensures
        crate::search::truthful(q, batch_chunks, cancelled, dispatch),
{
    assert forall|group: i64, chunks: i64, b: crate::search::Batch|
        0 <= group && 1 <= chunks <= batch_chunks && chunks <= q.chunks_left(group as int)
            && #[trigger] call_ensures(dispatch, (group, chunks), b) implies q.batch_says(
        group as int,
        chunks as int,
        b,
    ) && (b is Cancelled ==> call_ensures(cancelled, (), true)) by {
        if kernel_says(entries, q, group as int, chunks as int, per_rotation, b) {
            let (request, raw) = choose|request: BatchRequest, raw: u32|
                {
                    &&& batch_of_query(
                        entries,
                        request,
                        q,
                        group as int,
                        chunks as int,
                        per_rotation,
                    )
                    &&& #[trigger] kernel_answer(entries, request.uniforms, raw)
                    &&& b == crate::search::Batch::of(decoded(raw))
                };
            law_kernel_answer_is_truthful(
                entries,
                request,
                q,
                group as int,
                chunks as int,
                per_rotation,
                raw,
            );
        }
    }
}

/// The word that four bytes hold, the lowest byte first.
pub open spec fn little_endian(b: Seq<u8>) -> int {
    b[0] + 0x100 * b[1] + 0x1_0000 * b[2] + 0x100_0000 * b[3]
}

/// The word that four bytes hold, the highest byte first.
pub open spec fn big_endian(b: Seq<u8>) -> int {
    b[3] + 0x100 * b[2] + 0x1_0000 * b[1] + 0x100_0000 * b[0]
}

/// `bytemuck::pod_read_unaligned` reads a word of four bytes in the order of the machine, which is
/// one of two.
#[verifier::external_body]
fn read_word(bytes: &[u8]) -> (w: u32)
    requires
        bytes@.len() == 4,
    ensures
        w == little_endian(bytes@) || w == big_endian(bytes@),
{
    bytemuck::pod_read_unaligned(bytes)
}

/// Reads the four bytes of a batch's answer. Whatever the order of the machine, four bytes of all
/// ones say that nothing matches.
pub fn read_result(bytes: &[u8]) -> (r: Option<i64>)
    requires
        bytes@.len() == 4,
    ensures
        (r is None) == (forall|i: int| 0 <= i < 4 ==> #[trigger] bytes@[i] == 0xFF),
        r matches Some(ci) ==> ci == little_endian(bytes@) / POSITIONS_PER_CHUNK as int || ci
            == big_endian(bytes@) / POSITIONS_PER_CHUNK as int,
{
    let w: u32 = read_word(bytes);
    proof {
        if w == NO_HIT {
            assert forall|i: int| 0 <= i < 4 implies #[trigger] bytes@[i] == 0xFF by {
                assert(i == 0 || i == 1 || i == 2 || i == 3);
            }
        }
    }
    decode_result(w)
}

/// Byte `i` of some words that are stored one after the other, the lowest byte of each first.
pub open spec fn little_endian_byte(words: Seq<u32>, i: int) -> u8 {
    byte_of(words[i / 4], i % 4)
}

/// Byte `i` of some words that are stored one after the other, the highest byte of each first.
pub open spec fn big_endian_byte(words: Seq<u32>, i: int) -> u8 {
    byte_of(words[i / 4], 3 - i % 4)
}

/// Byte `n` of a word, counted from the lowest.
pub open spec fn byte_of(w: u32, n: int) -> u8 {
    if n == 0 {
        (w % 0x100) as u8
    } else if n == 1 {
        (w / 0x100 % 0x100) as u8
    } else if n == 2 {
        (w / 0x1_0000 % 0x100) as u8
    } else {
        (w / 0x100_0000) as u8
    }
}

/// Some bytes hold some words, in one of the two orders.
pub open spec fn holds_words(bytes: Seq<u8>, words: Seq<u32>) -> bool {
    &&& bytes.len() == 4 * words.len()
    &&& {
        ||| forall|i: int|
            0 <= i < bytes.len() ==> #[trigger] bytes[i] == little_endian_byte(words, i)
        ||| forall|i: int| 0 <= i < bytes.len() ==> #[trigger] bytes[i] == big_endian_byte(words, i)
    }
}

/// `bytemuck::cast_slice` shows words as bytes in the order of the machine, which is one of two.
#[verifier::external_body]
fn words_as_bytes(words: &[u32]) -> (bytes: Vec<u8>)
    ensures
        holds_words(bytes@, words@),
{
    bytemuck::cast_slice::<u32, u8>(words).to_vec()
}

/// The words of the parameters of a batch.
pub open spec fn uniform_words(u: SearchUniforms) -> Seq<u32> {
    seq![
        u.dlo_lo,
        u.dlo_hi,
        u.dhi_lo,
        u.dhi_hi,
        u.blocks_per_rotation,
        u.candidate_count,
        u.batch_base_k_lo,
        u.start_x as u32,
        u.start_z as u32,
        u.dispatch_width,
        u.rotation_count,
        u.batch_base_k_hi,
    ]
}

/// The bytes of the parameters of a batch.
pub fn uniform_bytes(u: &SearchUniforms) -> (bytes: Vec<u8>)
    ensures
        holds_words(bytes@, uniform_words(*u)),
        bytes@.len() == 48,
{
    let words: [u32; 12] = [
        u.dlo_lo,
        u.dlo_hi,
        u.dhi_lo,
        u.dhi_hi,
        u.blocks_per_rotation,
        u.candidate_count,
        u.batch_base_k_lo,
        u.start_x as u32,
        u.start_z as u32,
        u.dispatch_width,
        u.rotation_count,
        u.batch_base_k_hi,
    ];
    assert(words@ =~= uniform_words(*u));
    words_as_bytes(words.as_slice())
}

/// Word `n` of a block buffer entry.
pub open spec fn block_word(g: GpuBlock, n: int) -> u32 {
    if n == 0 {
        g.bx_k
    } else if n == 1 {
        g.by as u32
    } else if n == 2 {
        g.bz_k_lo
    } else if n == 3 {
        g.bz_k_hi
    } else if n == 4 {
        g.prob_threshold
    } else if n == 5 {
        g.should_be_bedrock
    } else {
        g._pad@[n - 6]
    }
}

/// The words of a block buffer.
pub open spec fn block_words(blocks: Seq<GpuBlock>) -> Seq<u32> {
    Seq::new(8 * blocks.len(), |i: int| block_word(blocks[i / 8], i % 8))
}

/// The bytes of a block buffer.
pub fn block_bytes(blocks: &Vec<GpuBlock>) -> (bytes: Vec<u8>)
    ensures
        holds_words(bytes@, block_words(blocks@)),
        bytes@.len() == 32 * blocks@.len(),
{
    let mut words: Vec<u32> = Vec::new();
    let mut i: usize = 0;
    while i < blocks.len()
        invariant
            0 <= i <= blocks@.len(),
            words@.len() == 8 * i,
            forall|m: int|
                0 <= m < 8 * i ==> #[trigger] words@[m] == block_word(blocks@[m / 8], m % 8),
        decreases blocks@.len() - i,
    {
        let g: GpuBlock = blocks[i];
        words.push(g.bx_k);
        words.push(g.by as u32);
        words.push(g.bz_k_lo);
        words.push(g.bz_k_hi);
        words.push(g.prob_threshold);
        words.push(g.should_be_bedrock);
        words.push(g._pad[0]);
        words.push(g._pad[1]);
        assert forall|m: int| 0 <= m < 8 * (i + 1) implies #[trigger] words@[m] == block_word(
            blocks@[m / 8],
            m % 8,
        ) by {
            if m >= 8 * i {
                assert(m / 8 == i);
                let n = m - 8 * i;
                assert(n == m % 8);
                assert(n == 0 || n == 1 || n == 2 || n == 3 || n == 4 || n == 5 || n == 6 || n
                    == 7);
            }
        }
        i = i + 1;
    }
    assert(words@ =~= block_words(blocks@));
    words_as_bytes(words.as_slice())
}

/// Reading a signed word as unsigned and back changes nothing.
proof fn lemma_signed_word(x: i32)
    ensures
        (x as u32) as i32 == x,
{
    assert((x as u32) as i32 == x) by (bit_vector);
}

/// The words of a request, each in its place, say all there is to know about a batch: both seeds of
/// the layer, the number of blocks and of rotations, the number of candidates, the index of the
/// first of them, the centre, and the number of threads in a row.
pub proof fn law_request_words_say_the_batch(
    r: BatchRequest,
    batch_base_group: int,
    num_chunks: int,
    start_x: i32,
    start_z: i32,
    dlo: i64,
    dhi: i64,
    block_count: int,
    rotation_count: int,
)
    requires
        is_request(
            r,
            batch_base_group,
            num_chunks,
            start_x,
            start_z,
            dlo,
            dhi,
            block_count,
            rotation_count,
        ),
        1 <= rotation_count,
        block_count % rotation_count == 0,
    ensures
        ({
            let w = uniform_words(r.uniforms);
            &&& w.len() == 12
            &&& w[0] + 0x1_0000_0000 * w[1] == dlo as u64
            &&& w[2] + 0x1_0000_0000 * w[3] == dhi as u64
            &&& w[4] * w[10] == block_count
            &&& w[5] == 8192 * num_chunks
            &&& w[6] + 0x1_0000_0000 * w[11] == 8 * batch_base_group
            &&& w[7] as i32 == start_x
            &&& w[8] as i32 == start_z
            &&& w[9] == 256 * r.dispatch_x
            &&& w[10] == rotation_count
        }),
{
    let u = r.uniforms;
    lemma_signed_word(start_x);
    lemma_signed_word(start_z);
    crate::lanes::lemma_signed(joined(u.dlo_lo, u.dlo_hi));
    crate::lanes::lemma_signed(joined(u.dhi_lo, u.dhi_hi));
    vstd::arithmetic::div_mod::lemma_fundamental_div_mod(block_count, rotation_count);
    assert((block_count / rotation_count) * rotation_count == block_count) by (nonlinear_arith)
        requires
            block_count == rotation_count * (block_count / rotation_count),
    ;
}

/// The words of a block buffer, eight for each block in turn, say of the block where it lies and
/// what it demands. The coordinates are given by their products with the factors of the hash.
pub proof fn law_block_words_say_the_block(entries: Seq<GpuBlock>, i: int, b: Block)
    requires
        0 <= i < entries.len(),
        holds_block(entries[i], b),
        b.prob_threshold < 0x1_0000_0000,
    ensures
        ({
            let w = block_words(entries);
            &&& w.len() == 8 * entries.len()
            &&& (w[8 * i] as i32 - 3_129_871 * b.x) % 0x1_0000_0000 == 0
            &&& w[8 * i + 1] as i32 == b.y
            &&& ((w[8 * i + 2] + 0x1_0000_0000 * w[8 * i + 3]) as u64) as i64 == 116_129_781 * b.z
            &&& w[8 * i + 4] == b.prob_threshold
            &&& w[8 * i + 5] == 1 <==> b.should_be_bedrock
            &&& w[8 * i + 5] == 0 <==> !b.should_be_bedrock
        }),
{
    crate::hash::law_terms_are_products(b.x as int, b.z as int);
    lemma_signed_word(b.y);
    assert forall|n: int| 0 <= n < 8 implies #[trigger] block_words(entries)[8 * i + n]
        == block_word(entries[i], n) by {
        assert((8 * i + n) / 8 == i && (8 * i + n) % 8 == n);
    }
    assert(block_words(entries)[8 * i + 0] == block_word(entries[i], 0));
}

/// An answer that is a candidate means the chunk that holds it, at 8192 candidates per chunk; the
/// largest word means that there is none.
pub proof fn law_answer_means_chunk_of_candidate(raw: u32)
    ensures
        raw == 0xFFFF_FFFF <==> decoded(raw) is None,
        decoded(raw) matches Some(chunk) ==> 8192 * chunk <= raw < 8192 * (chunk + 1),
{
}

} // verus!
