//! Patterns laid out field by field for the search, and the test of a pattern at one position.
use vstd::prelude::*;

use crate::bedrock::Block;
use crate::hash::{is_bedrock_by_terms, position_x_term, position_z_term};

verus! {

/// The pattern `v` lies at position `(x, z)` of a layer with the given seeds: every block of it
/// finds bedrock, or none, as it demands.
pub open spec fn pattern_at(v: Seq<Block>, x: int, z: int, dlo: i64, dhi: i64) -> bool {
    forall|i: int| 0 <= i < v.len() ==> #[trigger] block_satisfied(v[i], x, z, dlo, dhi)
}

/// One block of a pattern at position `(x, z)` finds what it demands.
pub open spec fn block_satisfied(b: Block, x: int, z: int, dlo: i64, dhi: i64) -> bool {
    crate::hash::bedrock_at(x + b.x, b.y, z + b.z, dlo, dhi, b.prob_threshold)
        == b.should_be_bedrock
}

/// The value that all elements of a sequence share, if there is one.
pub open spec fn uniform_of<T>(s: Seq<T>) -> Option<T> {
    if s.len() > 0 && (forall|i: int| 0 <= i < s.len() ==> #[trigger] s[i] == s[0]) {
        Some(s[0])
    } else {
        None
    }
}

/// The blocks of a pattern, one array per field.
///
/// The x and z coordinates are kept as their terms of the position hash.
#[derive(Debug)]
pub struct Blocks {
    pub y: Vec<i32>,
    /// `0x00` where bedrock is demanded, `0xFF` where there must be none. Exclusive or with this
    /// value turns the lanes that hold bedrock into the lanes that pass.
    pub sbb_xor: Vec<u8>,
    pub prob_threshold: Vec<u64>,
    pub bz_hash_term: Vec<i64>,
    pub bx_hash_term: Vec<i32>,
    /// The height of all blocks, where they share one.
    pub uniform_y: Option<i32>,
    /// The threshold of all blocks, where they share one.
    pub uniform_threshold: Option<u64>,
}

impl Blocks {
    /// The number of blocks.
    pub open spec fn count(self) -> nat {
        self.y@.len()
    }

    /// All arrays have one entry per block, and the shared values are those of the arrays.
    pub open spec fn wf(self) -> bool {
        &&& self.sbb_xor@.len() == self.count()
        &&& self.prob_threshold@.len() == self.count()
        &&& self.bz_hash_term@.len() == self.count()
        &&& self.bx_hash_term@.len() == self.count()
        &&& forall|i: int|
            0 <= i < self.count() ==> #[trigger] self.sbb_xor@[i] == 0u8 || self.sbb_xor@[i]
                == 0xFFu8
        &&& self.uniform_y == uniform_of(self.y@)
        &&& self.uniform_threshold == uniform_of(self.prob_threshold@)
    }

    /// These are the blocks of the pattern `v`.
    pub open spec fn encodes(self, v: Seq<Block>) -> bool {
        &&& self.wf()
        &&& self.count() == v.len()
        &&& forall|i: int| 0 <= i < v.len() ==> #[trigger] self.encodes_block(i, v[i])
    }

    /// Entry `i` holds the block `b`.
    pub open spec fn encodes_block(self, i: int, b: Block) -> bool {
        &&& self.y@[i] == b.y
        &&& self.sbb_xor@[i] == if b.should_be_bedrock {
            0u8
        } else {
            0xFFu8
        }
        &&& self.prob_threshold@[i] == b.prob_threshold
        &&& self.bx_hash_term@[i] == crate::hash::x_term(b.x as int)
        &&& self.bz_hash_term@[i] == crate::hash::z_term(b.z as int)
    }

    /// Block `i` finds what it demands at the position with the given terms.
    pub open spec fn block_holds(
        self,
        i: int,
        ox_term: i32,
        oz_term: i64,
        dlo: i64,
        dhi: i64,
    ) -> bool {
        crate::hash::bedrock_by_terms(
            ox_term.wrapping_add(self.bx_hash_term@[i]),
            self.y@[i],
            oz_term.wrapping_add(self.bz_hash_term@[i]),
            dlo,
            dhi,
            self.prob_threshold@[i],
        ) == (self.sbb_xor@[i] == 0)
    }

    /// All blocks find what they demand at the position with the given terms.
    pub open spec fn holds(self, ox_term: i32, oz_term: i64, dlo: i64, dhi: i64) -> bool {
        forall|i: int|
            0 <= i < self.count() ==> #[trigger] self.block_holds(i, ox_term, oz_term, dlo, dhi)
    }

    /// Lays out a pattern field by field.
    pub fn from_vec(v: &Vec<Block>) -> (blocks: Blocks)
        ensures
            blocks.encodes(v@),
    {
        let n: usize = v.len();
        let mut y: Vec<i32> = Vec::with_capacity(n);
        let mut sbb_xor: Vec<u8> = Vec::with_capacity(n);
        let mut prob_threshold: Vec<u64> = Vec::with_capacity(n);
        let mut bz_hash_term: Vec<i64> = Vec::with_capacity(n);
        let mut bx_hash_term: Vec<i32> = Vec::with_capacity(n);
        let mut same_y: bool = true;
        let mut same_threshold: bool = true;
        let mut i: usize = 0;
        while i < n
            invariant
                0 <= i <= n,
                n == v@.len(),
                y@.len() == i,
                sbb_xor@.len() == i,
                prob_threshold@.len() == i,
                bz_hash_term@.len() == i,
                bx_hash_term@.len() == i,
                forall|m: int| 0 <= m < i ==> #[trigger] y@[m] == v@[m].y,
                forall|m: int|
                    0 <= m < i ==> #[trigger] sbb_xor@[m] == if v@[m].should_be_bedrock {
                        0u8
                    } else {
                        0xFFu8
                    },
                forall|m: int| 0 <= m < i ==> #[trigger] prob_threshold@[m] == v@[m].prob_threshold,
                forall|m: int|
                    0 <= m < i ==> #[trigger] bx_hash_term@[m] == crate::hash::x_term(
                        v@[m].x as int,
                    ),
                forall|m: int|
                    0 <= m < i ==> #[trigger] bz_hash_term@[m] == crate::hash::z_term(
                        v@[m].z as int,
                    ),
                same_y == (forall|m: int| 0 <= m < i ==> #[trigger] y@[m] == y@[0]),
                same_threshold == (forall|m: int|
                    0 <= m < i ==> #[trigger] prob_threshold@[m] == prob_threshold@[0]),
            decreases n - i,
        {
            let b: Block = v[i];
            let ghost y_before = y@;
            let ghost t_before = prob_threshold@;
            y.push(b.y);
            sbb_xor.push(
                if b.should_be_bedrock {
                    0x00
                } else {
                    0xFF
                },
            );
            prob_threshold.push(b.prob_threshold);
            bz_hash_term.push(position_z_term(b.z));
            bx_hash_term.push(position_x_term(b.x));
            let first: Block = v[0];
            if b.y != first.y {
                same_y = false;
            }
            if b.prob_threshold != first.prob_threshold {
                same_threshold = false;
            }
            proof {
                assert(forall|m: int| 0 <= m < i ==> y@[m] == y_before[m]);
                assert(forall|m: int| 0 <= m < i ==> prob_threshold@[m] == t_before[m]);
                assert(y@[i as int] == b.y && y@[0] == first.y);
                assert(prob_threshold@[i as int] == b.prob_threshold);
                assert(prob_threshold@[0] == first.prob_threshold);
            }
            i = i + 1;
        }
        let uniform_y: Option<i32> = if n > 0 && same_y {
            Some(v[0].y)
        } else {
            None
        };
        let uniform_threshold: Option<u64> = if n > 0 && same_threshold {
            Some(v[0].prob_threshold)
        } else {
            None
        };
        Blocks {
            y,
            sbb_xor,
            prob_threshold,
            bz_hash_term,
            bx_hash_term,
            uniform_y,
            uniform_threshold,
        }
    }
}

/// Tests a pattern at the position with the given terms.
pub fn check_formation_with_terms(
    ox_term: i32,
    oz_term: i64,
    dlo: i64,
    dhi: i64,
    blocks: &Blocks,
) -> (r: bool)
    requires
        blocks.wf(),
    ensures
        r == blocks.holds(ox_term, oz_term, dlo, dhi),
{
    let n: usize = blocks.y.len();
    let mut i: usize = 0;
    while i < n
        invariant
            0 <= i <= n,
            n == blocks.count(),
            blocks.wf(),
            forall|m: int|
                0 <= m < i ==> #[trigger] blocks.block_holds(m, ox_term, oz_term, dlo, dhi),
        decreases n - i,
    {
        let y: i32 = match blocks.uniform_y {
            Some(y) => y,
            None => blocks.y[i],
        };
        let threshold: u64 = match blocks.uniform_threshold {
            Some(t) => t,
            None => blocks.prob_threshold[i],
        };
        assert(y == blocks.y@[i as int]);
        assert(threshold == blocks.prob_threshold@[i as int]);
        let term_x: i32 = ox_term.wrapping_add(blocks.bx_hash_term[i]);
        let term_z: i64 = oz_term.wrapping_add(blocks.bz_hash_term[i]);
        let is_bed: bool = is_bedrock_by_terms(term_x, y, term_z, dlo, dhi, threshold);
        let sbb: bool = blocks.sbb_xor[i] == 0;
        if sbb != is_bed {
            assert(!blocks.block_holds(i as int, ox_term, oz_term, dlo, dhi));
            return false;
        }
        assert(blocks.block_holds(i as int, ox_term, oz_term, dlo, dhi));
        i = i + 1;
    }
    true
}

/// Testing the terms of a position against a laid out pattern decides whether the pattern lies at
/// that position: adding the terms of position and block, each computed apart, gives the hash of
/// the coordinates' sum.
pub proof fn law_terms_decide_pattern(
    blocks: Blocks,
    v: Seq<Block>,
    x: i32,
    z: i32,
    dlo: i64,
    dhi: i64,
)
    requires
        blocks.encodes(v),
    ensures
        blocks.holds(crate::hash::x_term(x as int), crate::hash::z_term(z as int), dlo, dhi)
            == pattern_at(v, x as int, z as int, dlo, dhi),
{
    let ox = crate::hash::x_term(x as int);
    let oz = crate::hash::z_term(z as int);
    assert forall|i: int| 0 <= i < v.len() implies #[trigger] blocks.block_holds(
        i,
        ox,
        oz,
        dlo,
        dhi,
    ) == block_satisfied(v[i], x as int, z as int, dlo, dhi) by {
        assert(blocks.encodes_block(i, v[i]));
        crate::hash::law_x_terms_add(x as int, v[i].x as int);
        crate::hash::law_z_terms_add(z, v[i].z);
    }
    if blocks.holds(ox, oz, dlo, dhi) {
        assert forall|i: int| 0 <= i < v.len() implies #[trigger] block_satisfied(
            v[i],
            x as int,
            z as int,
            dlo,
            dhi,
        ) by {
            assert(blocks.block_holds(i, ox, oz, dlo, dhi));
        }
    }
    if pattern_at(v, x as int, z as int, dlo, dhi) {
        assert forall|i: int| 0 <= i < blocks.count() implies #[trigger] blocks.block_holds(
            i,
            ox,
            oz,
            dlo,
            dhi,
        ) by {
            assert(block_satisfied(v[i], x as int, z as int, dlo, dhi));
        }
    }
}

} // verus!
