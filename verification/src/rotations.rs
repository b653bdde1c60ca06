//! The rotations of a pattern by quarter turns.
use smallvec::SmallVec;
use vstd::prelude::*;

use crate::bedrock::Block;

verus! {

/// The coordinates of a block after `times` quarter turns clockwise, with x to the east and z to
/// the south.
pub open spec fn turned(x: int, z: int, times: int) -> (int, int) {
    if times % 4 == 0 {
        (x, z)
    } else if times % 4 == 1 {
        (-z, x)
    } else if times % 4 == 2 {
        (-x, -z)
    } else {
        (z, -x)
    }
}

/// The x coordinate of a block after some quarter turns.
pub open spec fn turned_x(b: Block, times: int) -> int {
    turned(b.x as int, b.z as int, times).0
}

/// The z coordinate of a block after some quarter turns.
pub open spec fn turned_z(b: Block, times: int) -> int {
    turned(b.x as int, b.z as int, times).1
}

/// The least number of a sequence, 0 if it is empty.
pub open spec fn least(s: Seq<int>) -> int
    decreases s.len(),
{
    if s.len() == 0 {
        0
    } else if s.len() == 1 {
        s[0]
    } else {
        let rest = least(s.drop_last());
        if s.last() < rest {
            s.last()
        } else {
            rest
        }
    }
}

/// The x coordinates of a pattern after some quarter turns.
pub open spec fn turned_xs(v: Seq<Block>, times: int) -> Seq<int> {
    Seq::new(v.len(), |i: int| turned_x(v[i], times))
}

/// The z coordinates of a pattern after some quarter turns.
pub open spec fn turned_zs(v: Seq<Block>, times: int) -> Seq<int> {
    Seq::new(v.len(), |i: int| turned_z(v[i], times))
}

/// A pattern after some quarter turns, moved so that its least x and its least z are 0.
pub open spec fn rotated(v: Seq<Block>, times: int) -> Seq<Block> {
    let mx = least(turned_xs(v, times));
    let mz = least(turned_zs(v, times));
    Seq::new(
        v.len(),
        |i: int|
            Block {
                x: (turned_x(v[i], times) - mx) as i32,
                z: (turned_z(v[i], times) - mz) as i32,
                ..v[i]
            },
    )
}

/// A number is in the range of `i32`.
pub open spec fn is_i32(n: int) -> bool {
    i32::MIN <= n <= i32::MAX
}

/// All coordinates of a pattern after some quarter turns are in the range of `i32`, before and
/// after it is moved.
pub open spec fn rotation_fits(v: Seq<Block>, times: int) -> bool {
    forall|i: int|
        0 <= i < v.len() ==> {
            &&& is_i32(turned_x(#[trigger] v[i], times))
            &&& is_i32(turned_z(v[i], times))
            &&& is_i32(turned_x(v[i], times) - least(turned_xs(v, times)))
            &&& is_i32(turned_z(v[i], times) - least(turned_zs(v, times)))
        }
}

/// Rotates a pattern by quarter turns clockwise.
pub fn rotate_blocks(blocks: &Vec<Block>, times_cw: u8) -> (r: Vec<Block>)
    requires
        rotation_fits(blocks@, times_cw as int),
    ensures
        r@ == rotated(blocks@, times_cw as int),
{
    let n: usize = blocks.len();
    let ghost t = times_cw as int;
    let ghost xs = turned_xs(blocks@, t);
    let ghost zs = turned_zs(blocks@, t);
    let mut turned_blocks: Vec<Block> = Vec::with_capacity(n);
    let mut min_x: i32 = i32::MAX;
    let mut min_z: i32 = i32::MAX;
    let quarter: u8 = times_cw % 4;
    let mut i: usize = 0;
    while i < n
        invariant
            0 <= i <= n,
            n == blocks@.len(),
            t == times_cw,
            quarter == times_cw % 4,
            rotation_fits(blocks@, t),
            xs == turned_xs(blocks@, t),
            zs == turned_zs(blocks@, t),
            turned_blocks@.len() == i,
            forall|m: int|
                0 <= m < i ==> #[trigger] turned_blocks@[m] == (Block {
                    x: turned_x(blocks@[m], t) as i32,
                    z: turned_z(blocks@[m], t) as i32,
                    ..blocks@[m]
                }),
            i == 0 ==> min_x == i32::MAX && min_z == i32::MAX,
            i > 0 ==> min_x == least(xs.take(i as int)) && min_z == least(zs.take(i as int)),
        decreases n - i,
    {
        let b: Block = blocks[i];
        proof {
            assert(is_i32(turned_x(blocks@[i as int], t)));
            assert(xs.take(i + 1).drop_last() =~= xs.take(i as int));
            assert(zs.take(i + 1).drop_last() =~= zs.take(i as int));
        }
        let (tx, tz): (i32, i32) = if quarter == 0 {
            (b.x, b.z)
        } else if quarter == 1 {
            (-b.z, b.x)
        } else if quarter == 2 {
            (-b.x, -b.z)
        } else {
            (b.z, -b.x)
        };
        if tx < min_x {
            min_x = tx;
        }
        if tz < min_z {
            min_z = tz;
        }
        turned_blocks.push(
            Block {
                x: tx,
                y: b.y,
                z: tz,
                should_be_bedrock: b.should_be_bedrock,
                probability: b.probability,
                prob_threshold: b.prob_threshold,
            },
        );
        i = i + 1;
    }
    proof {
        assert(xs.take(n as int) =~= xs);
        assert(zs.take(n as int) =~= zs);
    }
    let mut result: Vec<Block> = Vec::with_capacity(n);
    let mut i: usize = 0;
    while i < n
        invariant
            0 <= i <= n,
            n == blocks@.len(),
            rotation_fits(blocks@, t),
            xs == turned_xs(blocks@, t),
            zs == turned_zs(blocks@, t),
            turned_blocks@.len() == n,
            forall|m: int|
                0 <= m < n ==> #[trigger] turned_blocks@[m] == (Block {
                    x: turned_x(blocks@[m], t) as i32,
                    z: turned_z(blocks@[m], t) as i32,
                    ..blocks@[m]
                }),
            n > 0 ==> min_x == least(xs) && min_z == least(zs),
            result@.len() == i,
            forall|m: int| 0 <= m < i ==> #[trigger] result@[m] == rotated(blocks@, t)[m],
        decreases n - i,
    {
        let b: Block = turned_blocks[i];
        proof {
            assert(is_i32(turned_x(blocks@[i as int], t)));
        }
        result.push(
            Block {
                x: b.x - min_x,
                y: b.y,
                z: b.z - min_z,
                should_be_bedrock: b.should_be_bedrock,
                probability: b.probability,
                prob_threshold: b.prob_threshold,
            },
        );
        i = i + 1;
    }
    assert(result@ =~= rotated(blocks@, t));
    result
}

/// What tells one block of a pattern from another: its place and its demand.
pub open spec fn block_key(b: Block) -> (i32, i32, i32, bool) {
    (b.x, b.y, b.z, b.should_be_bedrock)
}

/// The keys of the blocks of a pattern, in order.
pub open spec fn block_keys(v: Seq<Block>) -> Seq<(i32, i32, i32, bool)> {
    v.map_values(|b: Block| block_key(b))
}

/// Two patterns demand the same of the same places, in whatever order.
pub open spec fn same_shape(v: Seq<Block>, w: Seq<Block>) -> bool {
    block_keys(v).to_multiset() == block_keys(w).to_multiset()
}

/// The order of keys: by x, then y, then z, then absence before presence of bedrock.
pub open spec fn key_le(a: (i32, i32, i32, bool), b: (i32, i32, i32, bool)) -> bool {
    if a.0 != b.0 {
        a.0 < b.0
    } else if a.1 != b.1 {
        a.1 < b.1
    } else if a.2 != b.2 {
        a.2 < b.2
    } else {
        a.3 ==> b.3
    }
}

/// A sorted list of block keys, held inline up to 64 of them.
#[verifier::external_body]
pub struct Signature {
    items: SmallVec<[(i32, i32, i32, bool); 64]>,
}

/// The keys that a signature holds, in order.
pub uninterp spec fn signature_items(s: Signature) -> Seq<(i32, i32, i32, bool)>;

impl Signature {
    /// `SmallVec::new` gives a list without items.
    #[verifier::external_body]
    fn empty() -> (s: Signature)
        ensures
            signature_items(s) == Seq::<(i32, i32, i32, bool)>::empty(),
    {
        Signature { items: SmallVec::new() }
    }

    /// `SmallVec::push` appends one item and keeps the others.
    #[verifier::external_body]
    fn push(&mut self, key: (i32, i32, i32, bool))
        ensures
            signature_items(*final(self)) == signature_items(*old(self)).push(key),
    {
        self.items.push(key);
    }

    /// Sorting the slice that a `SmallVec` dereferences to, by `sort_unstable`, rearranges the
    /// items in the order of their tuples.
    #[verifier::external_body]
    fn sort(&mut self)
        ensures
            signature_items(*final(self)).to_multiset() == signature_items(
                *old(self),
            ).to_multiset(),
            vstd::relations::sorted_by(
                signature_items(*final(self)),
                |a: (i32, i32, i32, bool), b: (i32, i32, i32, bool)| key_le(a, b),
            ),
    {
        self.items.sort_unstable();
    }

    /// `==` of two `SmallVec`s compares their items one by one.
    #[verifier::external_body]
    fn equals(&self, other: &Signature) -> (r: bool)
        ensures
            r == (signature_items(*self) == signature_items(*other)),
    {
        self.items == other.items
    }
}

/// The keys of a pattern's blocks, sorted.
pub open spec fn is_signature_of(s: Signature, v: Seq<Block>) -> bool {
    &&& signature_items(s).to_multiset() == block_keys(v).to_multiset()
    &&& vstd::relations::sorted_by(
        signature_items(s),
        |a: (i32, i32, i32, bool), b: (i32, i32, i32, bool)| key_le(a, b),
    )
}

/// Lists the keys of a pattern's blocks in sorted order.
pub fn blocks_signature(blocks: &Vec<Block>) -> (s: Signature)
    ensures
        is_signature_of(s, blocks@),
{
    let mut s = Signature::empty();
    let mut i: usize = 0;
    while i < blocks.len()
        invariant
            0 <= i <= blocks@.len(),
            signature_items(s) == block_keys(blocks@).take(i as int),
        decreases blocks@.len() - i,
    {
        let b: Block = blocks[i];
        s.push((b.x, b.y, b.z, b.should_be_bedrock));
        assert(block_keys(blocks@).take(i + 1) =~= block_keys(blocks@).take(i as int).push(
            block_key(b),
        ));
        i = i + 1;
    }
    assert(block_keys(blocks@).take(blocks@.len() as int) =~= block_keys(blocks@));
    s.sort();
    s
}

proof fn lemma_key_order_total()
    ensures
        vstd::relations::total_ordering(
            |a: (i32, i32, i32, bool), b: (i32, i32, i32, bool)| key_le(a, b),
        ),
{
}

/// Two patterns have equal signatures exactly if they are of the same shape.
pub proof fn law_signature_decides_shape(s: Signature, v: Seq<Block>, t: Signature, w: Seq<Block>)
    requires
        is_signature_of(s, v),
        is_signature_of(t, w),
    ensures
        signature_items(s) == signature_items(t) <==> same_shape(v, w),
{
    if same_shape(v, w) {
        lemma_key_order_total();
        vstd::seq_lib::lemma_sorted_unique(
            signature_items(s),
            signature_items(t),
            |a: (i32, i32, i32, bool), b: (i32, i32, i32, bool)| key_le(a, b),
        );
    }
}

/// No smaller number of turns gives the shape that `times` turns give.
pub open spec fn is_new_rotation(v: Seq<Block>, times: int) -> bool {
    forall|i: int| 0 <= i < times ==> !#[trigger] same_shape(rotated(v, i), rotated(v, times))
}

/// The rotations of a pattern by fewer than `n` turns, without those whose shape came before.
pub open spec fn distinct_rotations(v: Seq<Block>, n: int) -> Seq<Seq<Block>>
    decreases n,
{
    if n <= 0 {
        Seq::empty()
    } else if is_new_rotation(v, n - 1) {
        distinct_rotations(v, n - 1).push(rotated(v, n - 1))
    } else {
        distinct_rotations(v, n - 1)
    }
}

/// The patterns in a list of patterns.
pub open spec fn patterns_of(v: Seq<Vec<Block>>) -> Seq<Seq<Block>> {
    v.map_values(|p: Vec<Block>| p@)
}

/// A signature occurs in a list of signatures.
spec fn has_signature(seen: Seq<Signature>, items: Seq<(i32, i32, i32, bool)>) -> bool {
    exists|i: int| 0 <= i < seen.len() && #[trigger] signature_items(seen[i]) == items
}

/// Looks for a signature in a list.
fn contains_signature(seen: &Vec<Signature>, sig: &Signature) -> (r: bool)
    ensures
        r == has_signature(seen@, signature_items(*sig)),
{
    let mut i: usize = 0;
    while i < seen.len()
        invariant
            0 <= i <= seen@.len(),
            forall|m: int|
                0 <= m < i ==> #[trigger] signature_items(seen@[m]) != signature_items(*sig),
        decreases seen@.len() - i,
    {
        if seen[i].equals(sig) {
            return true;
        }
        i = i + 1;
    }
    false
}

/// Some list of `seen` is the signature of a pattern.
spec fn has_signature_of(seen: Seq<Signature>, v: Seq<Block>) -> bool {
    exists|j: int| 0 <= j < seen.len() && #[trigger] is_signature_of(seen[j], v)
}

/// A list is the signature of a rotation by fewer than `n` turns.
spec fn comes_from_rotation(s: Signature, v: Seq<Block>, n: int) -> bool {
    exists|i: int| 0 <= i < n && is_signature_of(s, #[trigger] rotated(v, i))
}

/// `seen` holds the signatures of the rotations by fewer than `n` turns, and no others.
spec fn seen_rotations(seen: Seq<Signature>, v: Seq<Block>, n: int) -> bool {
    &&& forall|i: int| 0 <= i < n ==> #[trigger] has_signature_of(seen, rotated(v, i))
    &&& forall|j: int| 0 <= j < seen.len() ==> #[trigger] comes_from_rotation(seen[j], v, n)
}

proof fn lemma_seen_decides(seen: Seq<Signature>, v: Seq<Block>, n: int, sig: Signature)
    requires
        0 <= n,
        seen_rotations(seen, v, n),
        is_signature_of(sig, rotated(v, n)),
    ensures
        has_signature(seen, signature_items(sig)) == !is_new_rotation(v, n),
{
    if has_signature(seen, signature_items(sig)) {
        let j = choose|j: int|
            0 <= j < seen.len() && #[trigger] signature_items(seen[j]) == signature_items(sig);
        assert(comes_from_rotation(seen[j], v, n));
        let i = choose|i: int|
            0 <= i < n && is_signature_of(seen[j], #[trigger] rotated(v, i));
        law_signature_decides_shape(seen[j], rotated(v, i), sig, rotated(v, n));
        assert(same_shape(rotated(v, i), rotated(v, n)));
    }
    if !is_new_rotation(v, n) {
        let i = choose|i: int|
            0 <= i < n && #[trigger] same_shape(rotated(v, i), rotated(v, n));
        assert(has_signature_of(seen, rotated(v, i)));
        let j = choose|j: int|
            0 <= j < seen.len() && #[trigger] is_signature_of(seen[j], rotated(v, i));
        law_signature_decides_shape(seen[j], rotated(v, i), sig, rotated(v, n));
    }
}

proof fn lemma_comes_from_more(s: Signature, v: Seq<Block>, n: int)
    requires
        comes_from_rotation(s, v, n),
    ensures
        comes_from_rotation(s, v, n + 1),
{
    let i = choose|i: int| 0 <= i < n && is_signature_of(s, #[trigger] rotated(v, i));
    assert(0 <= i < n + 1 && is_signature_of(s, rotated(v, i)));
}

proof fn lemma_seen_new(seen: Seq<Signature>, v: Seq<Block>, n: int, sig: Signature)
    requires
        0 <= n,
        seen_rotations(seen, v, n),
        is_signature_of(sig, rotated(v, n)),
    ensures
        seen_rotations(seen.push(sig), v, n + 1),
{
    let after = seen.push(sig);
    assert(after[seen.len() as int] == sig);
    assert forall|i: int| 0 <= i < n + 1 implies #[trigger] has_signature_of(
        after,
        rotated(v, i),
    ) by {
        if i == n {
            assert(is_signature_of(after[seen.len() as int], rotated(v, i)));
        } else {
            assert(has_signature_of(seen, rotated(v, i)));
            let j = choose|j: int|
                0 <= j < seen.len() && #[trigger] is_signature_of(seen[j], rotated(v, i));
            assert(is_signature_of(after[j], rotated(v, i)));
        }
    }
    assert forall|j: int| 0 <= j < after.len() implies #[trigger] comes_from_rotation(
        after[j],
        v,
        n + 1,
    ) by {
        if j < seen.len() {
            assert(after[j] == seen[j]);
            assert(comes_from_rotation(seen[j], v, n));
            lemma_comes_from_more(seen[j], v, n);
        } else {
            assert(0 <= n < n + 1 && is_signature_of(after[j], rotated(v, n)));
        }
    }
}

proof fn lemma_seen_again(seen: Seq<Signature>, v: Seq<Block>, n: int, sig: Signature)
    requires
        0 <= n,
        seen_rotations(seen, v, n),
        is_signature_of(sig, rotated(v, n)),
        has_signature(seen, signature_items(sig)),
    ensures
        seen_rotations(seen, v, n + 1),
{
    let k = choose|j: int|
        0 <= j < seen.len() && #[trigger] signature_items(seen[j]) == signature_items(sig);
    assert(is_signature_of(seen[k], rotated(v, n)));
    assert forall|i: int| 0 <= i < n + 1 implies #[trigger] has_signature_of(
        seen,
        rotated(v, i),
    ) by {
        if i < n {
            assert(has_signature_of(seen, rotated(v, i)));
        }
    }
    assert forall|j: int| 0 <= j < seen.len() implies #[trigger] comes_from_rotation(
        seen[j],
        v,
        n + 1,
    ) by {
        assert(comes_from_rotation(seen[j], v, n));
        lemma_comes_from_more(seen[j], v, n);
    }
}

/// The distinct rotations of a pattern, in the order of their number of quarter turns. There are
/// up to four, and fewer where the pattern has a rotational symmetry.
pub fn generate_rotations(blocks: Vec<Block>) -> (r: Vec<Vec<Block>>)
    requires
        forall|t: int| 0 <= t < 4 ==> #[trigger] rotation_fits(blocks@, t),
    ensures
        patterns_of(r@) == distinct_rotations(blocks@, 4),
{
    let mut seen: Vec<Signature> = Vec::with_capacity(4);
    let mut rotations: Vec<Vec<Block>> = Vec::with_capacity(4);
    let mut r: u8 = 0;
    assert(patterns_of(rotations@) =~= Seq::empty());
    while r < 4
        invariant
            0 <= r <= 4,
            forall|t: int| 0 <= t < 4 ==> #[trigger] rotation_fits(blocks@, t),
            patterns_of(rotations@) == distinct_rotations(blocks@, r as int),
            seen_rotations(seen@, blocks@, r as int),
        decreases 4 - r,
    {
        let ghost seen_before = seen@;
        assert(rotation_fits(blocks@, r as int));
        let rotated_blocks = rotate_blocks(&blocks, r);
        let sig = blocks_signature(&rotated_blocks);
        proof {
            lemma_seen_decides(seen@, blocks@, r as int, sig);
        }
        if !contains_signature(&seen, &sig) {
            let ghost rotations_before = rotations@;
            seen.push(sig);
            rotations.push(rotated_blocks);
            proof {
                assert(patterns_of(rotations@) =~= patterns_of(rotations_before).push(
                    rotated(blocks@, r as int),
                ));
                assert(seen@ =~= seen_before.push(sig));
                lemma_seen_new(seen_before, blocks@, r as int, sig);
            }
        } else {
            proof {
                lemma_seen_again(seen@, blocks@, r as int, sig);
            }
        }
        r = r + 1;
    }
    rotations
}

/// The least number of a sequence is one of its numbers, and none is less.
pub proof fn lemma_least(s: Seq<int>)
    requires
        s.len() > 0,
    ensures
        forall|i: int| 0 <= i < s.len() ==> least(s) <= #[trigger] s[i],
        exists|i: int| 0 <= i < s.len() && #[trigger] s[i] == least(s),
    decreases s.len(),
{
    if s.len() == 1 {
        assert(s[0] == least(s));
    } else {
        let rest = s.drop_last();
        lemma_least(rest);
        let j = choose|i: int| 0 <= i < rest.len() && #[trigger] rest[i] == least(rest);
        assert(s[j] == least(rest));
        assert(s[s.len() - 1] == s.last());
        assert forall|i: int| 0 <= i < s.len() implies least(s) <= #[trigger] s[i] by {
            if i < s.len() - 1 {
                assert(rest[i] == s[i]);
            }
        }
    }
}

proof fn lemma_least_is(s: Seq<int>, m: int)
    requires
        forall|i: int| 0 <= i < s.len() ==> m <= #[trigger] s[i],
        exists|i: int| 0 <= i < s.len() && #[trigger] s[i] == m,
    ensures
        least(s) == m,
{
    lemma_least(s);
}

/// The least x and the least z of a rotated pattern are both 0.
pub proof fn law_rotated_starts_at_zero(v: Seq<Block>, times: int)
    requires
        v.len() > 0,
        rotation_fits(v, times),
    ensures
        forall|i: int|
            0 <= i < v.len() ==> 0 <= (#[trigger] rotated(v, times)[i]).x && 0 <= rotated(
                v,
                times,
            )[i].z,
        exists|i: int| 0 <= i < v.len() && (#[trigger] rotated(v, times)[i]).x == 0,
        exists|i: int| 0 <= i < v.len() && (#[trigger] rotated(v, times)[i]).z == 0,
{
    let xs = turned_xs(v, times);
    let zs = turned_zs(v, times);
    lemma_least(xs);
    lemma_least(zs);
    let i = choose|i: int| 0 <= i < xs.len() && #[trigger] xs[i] == least(xs);
    let j = choose|j: int| 0 <= j < zs.len() && #[trigger] zs[j] == least(zs);
    assert(rotated(v, times)[i].x == 0);
    assert(rotated(v, times)[j].z == 0);
    assert forall|k: int| 0 <= k < v.len() implies 0 <= (#[trigger] rotated(v, times)[k]).x && 0
        <= rotated(v, times)[k].z by {
        assert(is_i32(turned_x(v[k], times)));
        assert(least(xs) <= xs[k]);
        assert(least(zs) <= zs[k]);
    }
}

proof fn lemma_turn_compose(x: int, z: int, mx: int, mz: int, a: int, b: int)
    requires
        0 <= a,
        0 <= b,
    ensures
        ({
            let p = turned(x, z, a);
            let q = turned(p.0 - mx, p.1 - mz, b);
            let c = turned(mx, mz, b);
            let r = turned(x, z, a + b);
            q == (r.0 - c.0, r.1 - c.1)
        }),
{
}

/// Turning a pattern `a` times and then `b` times is turning it `a + b` times.
pub proof fn law_turns_compose(v: Seq<Block>, a: int, b: int)
    requires
        0 <= a,
        0 <= b,
        rotation_fits(v, a),
        rotation_fits(v, a + b),
    ensures
        rotated(rotated(v, a), b) == rotated(v, a + b),
{
    let w = rotated(v, a);
    let mx = least(turned_xs(v, a));
    let mz = least(turned_zs(v, a));
    let c = turned(mx, mz, b);
    let wx = turned_xs(w, b);
    let wz = turned_zs(w, b);
    let vx = turned_xs(v, a + b);
    let vz = turned_zs(v, a + b);
    assert forall|i: int| 0 <= i < v.len() implies #[trigger] wx[i] == vx[i] - c.0 && wz[i] == vz[i]
        - c.1 by {
        assert(is_i32(turned_x(v[i], a)));
        lemma_turn_compose(v[i].x as int, v[i].z as int, mx, mz, a, b);
    }
    if v.len() > 0 {
        lemma_least(vx);
        lemma_least(vz);
        let i = choose|i: int| 0 <= i < vx.len() && #[trigger] vx[i] == least(vx);
        let j = choose|j: int| 0 <= j < vz.len() && #[trigger] vz[j] == least(vz);
        assert(wx[i] == least(vx) - c.0);
        assert(wx[j] == vx[j] - c.0);
        assert(wz[j] == least(vz) - c.1);
        assert forall|k: int| 0 <= k < wx.len() implies least(vx) - c.0 <= #[trigger] wx[k] by {
            assert(least(vx) <= vx[k]);
        }
        assert forall|k: int| 0 <= k < wz.len() implies least(vz) - c.1 <= #[trigger] wz[k] by {
            assert(least(vz) <= vz[k]);
            assert(wx[k] == vx[k] - c.0);
        }
        lemma_least_is(wx, least(vx) - c.0);
        lemma_least_is(wz, least(vz) - c.1);
    }
    assert forall|i: int| 0 <= i < v.len() implies rotated(w, b)[i] == #[trigger] rotated(
        v,
        a + b,
    )[i] by {
        assert(wx[i] == vx[i] - c.0);
    }
    assert(rotated(w, b) =~= rotated(v, a + b));
}

/// Four quarter turns lead back to the pattern, moved to start at zero.
pub proof fn law_four_turns(v: Seq<Block>)
    requires
        forall|t: int| 0 <= t < 4 ==> #[trigger] rotation_fits(v, t),
    ensures
        rotated(rotated(rotated(rotated(v, 1), 1), 1), 1) == rotated(v, 0),
{
    assert(rotation_fits(v, 0) && rotation_fits(v, 1) && rotation_fits(v, 2) && rotation_fits(v, 3));
    law_turns_compose(v, 1, 1);
    law_turns_compose(v, 2, 1);
    assert(turned_xs(v, 4) =~= turned_xs(v, 0));
    assert(turned_zs(v, 4) =~= turned_zs(v, 0));
    assert forall|i: int| 0 <= i < v.len() implies {
        &&& is_i32(turned_x(#[trigger] v[i], 4))
        &&& is_i32(turned_z(v[i], 4))
        &&& is_i32(turned_x(v[i], 4) - least(turned_xs(v, 4)))
        &&& is_i32(turned_z(v[i], 4) - least(turned_zs(v, 4)))
    } by {
        assert(is_i32(turned_x(v[i], 0)));
    }
    law_turns_compose(v, 3, 1);
    assert(rotated(v, 4) =~= rotated(v, 0));
}

proof fn lemma_map_multiset<A, B>(s: Seq<A>, t: Seq<A>, f: spec_fn(A) -> B)
    requires
        s.to_multiset() == t.to_multiset(),
    ensures
        s.map_values(f).to_multiset() == t.map_values(f).to_multiset(),
    decreases s.len(),
{
    broadcast use vstd::multiset::group_multiset_axioms;
    broadcast use vstd::seq_lib::group_to_multiset_ensures;

    assert(s.len() == s.to_multiset().len() && t.len() == t.to_multiset().len());
    if s.len() == 0 {
        assert(s.map_values(f) =~= t.map_values(f));
    } else {
        let a = s.last();
        assert(s[s.len() - 1] == a);
        assert(s.contains(a));
        assert(t.to_multiset().count(a) > 0);
        let j = choose|j: int| 0 <= j < t.len() && t[j] == a;
        let s1 = s.drop_last();
        let t1 = t.remove(j);
        assert(s.remove(s.len() - 1) =~= s1);
        assert(s1.to_multiset() =~= t1.to_multiset());
        lemma_map_multiset(s1, t1, f);
        assert(s.map_values(f) =~= s1.map_values(f).push(f(a)));
        assert(t.map_values(f) =~= t1.map_values(f).insert(j, f(a)));
        vstd::seq_lib::to_multiset_insert(t1.map_values(f), j, f(a));
        vstd::seq_lib::to_multiset_build(s1.map_values(f), f(a));
    }
}

/// The least number does not depend on the order.
proof fn lemma_least_multiset(s: Seq<int>, t: Seq<int>)
    requires
        s.to_multiset() == t.to_multiset(),
    ensures
        least(s) == least(t),
{
    broadcast use vstd::seq_lib::group_to_multiset_ensures;

    assert(s.len() == s.to_multiset().len() && t.len() == t.to_multiset().len());
    if s.len() > 0 {
        lemma_least(s);
        lemma_least(t);
        let i = choose|i: int| 0 <= i < s.len() && #[trigger] s[i] == least(s);
        let j = choose|j: int| 0 <= j < t.len() && #[trigger] t[j] == least(t);
        assert(s.contains(s[i]) && t.contains(t[j]));
        assert(s.to_multiset().count(s[i]) > 0);
        assert(t.to_multiset().count(t[j]) > 0);
        assert(t.contains(s[i]));
        assert(s.contains(t[j]));
        let p = choose|p: int| 0 <= p < t.len() && t[p] == s[i];
        let q = choose|q: int| 0 <= q < s.len() && s[q] == t[j];
        assert(least(t) <= t[p] && least(s) <= s[q]);
    }
}

/// Turning two patterns of the same shape equally often keeps their shapes the same.
pub proof fn law_same_shape_turns(v: Seq<Block>, w: Seq<Block>, times: int)
    requires
        same_shape(v, w),
    ensures
        same_shape(rotated(v, times), rotated(w, times)),
{
    let kv = block_keys(v);
    let kw = block_keys(w);
    let fx = |k: (i32, i32, i32, bool)| turned(k.0 as int, k.2 as int, times).0;
    let fz = |k: (i32, i32, i32, bool)| turned(k.0 as int, k.2 as int, times).1;
    lemma_map_multiset(kv, kw, fx);
    lemma_map_multiset(kv, kw, fz);
    assert(kv.map_values(fx) =~= turned_xs(v, times));
    assert(kw.map_values(fx) =~= turned_xs(w, times));
    assert(kv.map_values(fz) =~= turned_zs(v, times));
    assert(kw.map_values(fz) =~= turned_zs(w, times));
    lemma_least_multiset(turned_xs(v, times), turned_xs(w, times));
    lemma_least_multiset(turned_zs(v, times), turned_zs(w, times));
    let mx = least(turned_xs(v, times));
    let mz = least(turned_zs(v, times));
    let f = |k: (i32, i32, i32, bool)|
        (
            (turned(k.0 as int, k.2 as int, times).0 - mx) as i32,
            k.1,
            (turned(k.0 as int, k.2 as int, times).1 - mz) as i32,
            k.3,
        );
    lemma_map_multiset(kv, kw, f);
    assert(kv.map_values(f) =~= block_keys(rotated(v, times)));
    assert(kw.map_values(f) =~= block_keys(rotated(w, times)));
}

/// The distinct rotations of a pattern are between one and four.
pub proof fn law_one_to_four_rotations(v: Seq<Block>)
    ensures
        1 <= distinct_rotations(v, 4).len() <= 4,
        distinct_rotations(v, 4)[0] == rotated(v, 0),
{
    reveal_with_fuel(distinct_rotations, 5);
    assert(is_new_rotation(v, 0));
}

/// A pattern is the rotation of another by fewer than `n` turns.
pub open spec fn is_rotation_below(p: Seq<Block>, v: Seq<Block>, n: int) -> bool {
    exists|t: int| 0 <= t < n && p == #[trigger] rotated(v, t)
}

/// A list of patterns holds one of the shape of `p`.
pub open spec fn lists_shape(list: Seq<Seq<Block>>, p: Seq<Block>) -> bool {
    exists|i: int| 0 <= i < list.len() && same_shape(#[trigger] list[i], p)
}

/// Each of the distinct rotations by fewer than `n` turns is a rotation by fewer than `n` turns,
/// no two of them have the same shape, and each rotation by fewer than `n` turns has the shape of
/// one of them.
pub proof fn law_rotations_are_distinct_and_complete(v: Seq<Block>, n: int)
    requires
        0 <= n,
    ensures
        forall|i: int|
            0 <= i < distinct_rotations(v, n).len() ==> is_rotation_below(
                #[trigger] distinct_rotations(v, n)[i],
                v,
                n,
            ),
        forall|i: int, j: int|
            0 <= i < j < distinct_rotations(v, n).len() ==> !same_shape(
                #[trigger] distinct_rotations(v, n)[i],
                #[trigger] distinct_rotations(v, n)[j],
            ),
        forall|t: int|
            0 <= t < n ==> lists_shape(distinct_rotations(v, n), #[trigger] rotated(v, t)),
    decreases n,
{
    if n > 0 {
        law_rotations_are_distinct_and_complete(v, n - 1);
        let before = distinct_rotations(v, n - 1);
        let after = distinct_rotations(v, n);
        assert forall|i: int| 0 <= i < after.len() implies is_rotation_below(
            #[trigger] after[i],
            v,
            n,
        ) by {
            if i < before.len() {
                assert(after[i] == before[i]);
                assert(is_rotation_below(before[i], v, n - 1));
                let t = choose|t: int| 0 <= t < n - 1 && before[i] == #[trigger] rotated(v, t);
                assert(0 <= t < n && after[i] == rotated(v, t));
            } else {
                assert(after[i] == rotated(v, n - 1));
            }
        }
        assert forall|i: int, j: int| 0 <= i < j < after.len() implies !same_shape(
            #[trigger] after[i],
            #[trigger] after[j],
        ) by {
            assert(after[i] == before[i]);
            if j < before.len() {
                assert(after[j] == before[j]);
            } else {
                assert(is_rotation_below(before[i], v, n - 1));
                let t = choose|t: int| 0 <= t < n - 1 && before[i] == #[trigger] rotated(v, t);
                assert(!same_shape(rotated(v, t), rotated(v, n - 1)));
            }
        }
        assert forall|t: int| 0 <= t < n implies lists_shape(after, #[trigger] rotated(v, t)) by {
            if t == n - 1 && is_new_rotation(v, n - 1) {
                assert(same_shape(after[before.len() as int], rotated(v, t)));
            } else {
                let u = if t < n - 1 {
                    t
                } else {
                    choose|u: int|
                        0 <= u < n - 1 && #[trigger] same_shape(rotated(v, u), rotated(v, n - 1))
                };
                assert(same_shape(rotated(v, u), rotated(v, t)));
                assert(lists_shape(before, rotated(v, u)));
                let i = choose|i: int|
                    0 <= i < before.len() && same_shape(#[trigger] before[i], rotated(v, u));
                assert(after[i] == before[i]);
                assert(same_shape(after[i], rotated(v, t)));
            }
        }
    }
}

/// A pattern that half a turn maps onto itself, but a quarter turn does not, has two rotations.
pub proof fn law_half_turn_symmetry(v: Seq<Block>)
    requires
        forall|t: int| 0 <= t < 4 ==> #[trigger] rotation_fits(v, t),
        same_shape(rotated(v, 0), rotated(v, 2)),
        !same_shape(rotated(v, 0), rotated(v, 1)),
    ensures
        distinct_rotations(v, 4) == seq![rotated(v, 0), rotated(v, 1)],
{
    assert(rotation_fits(v, 0) && rotation_fits(v, 1) && rotation_fits(v, 2) && rotation_fits(v, 3));
    law_same_shape_turns(rotated(v, 0), rotated(v, 2), 1);
    law_turns_compose(v, 0, 1);
    law_turns_compose(v, 2, 1);
    assert(is_new_rotation(v, 0));
    assert(is_new_rotation(v, 1));
    assert(!is_new_rotation(v, 2));
    assert(same_shape(rotated(v, 1), rotated(v, 3)));
    assert(!is_new_rotation(v, 3));
    reveal_with_fuel(distinct_rotations, 5);
    assert(distinct_rotations(v, 4) =~= seq![rotated(v, 0), rotated(v, 1)]);
}

/// A pattern that a quarter turn maps onto itself has one rotation.
pub proof fn law_quarter_turn_symmetry(v: Seq<Block>)
    requires
        forall|t: int| 0 <= t < 4 ==> #[trigger] rotation_fits(v, t),
        same_shape(rotated(v, 0), rotated(v, 1)),
    ensures
        distinct_rotations(v, 4) == seq![rotated(v, 0)],
{
    assert(rotation_fits(v, 0) && rotation_fits(v, 1) && rotation_fits(v, 2) && rotation_fits(v, 3));
    law_turns_compose(v, 0, 1);
    law_turns_compose(v, 1, 1);
    law_turns_compose(v, 2, 1);
    law_same_shape_turns(rotated(v, 0), rotated(v, 1), 1);
    law_same_shape_turns(rotated(v, 1), rotated(v, 2), 1);
    assert(is_new_rotation(v, 0));
    assert(!is_new_rotation(v, 1));
    assert(same_shape(rotated(v, 1), rotated(v, 2)));
    assert(!is_new_rotation(v, 2));
    assert(same_shape(rotated(v, 2), rotated(v, 3)));
    assert(!is_new_rotation(v, 3));
    reveal_with_fuel(distinct_rotations, 5);
    assert(distinct_rotations(v, 4) =~= seq![rotated(v, 0)]);
}

/// Computes the least x and the least z of a pattern after some quarter turns.
fn least_turned(blocks: &Vec<Block>, quarter: u8) -> (m: (i64, i64))
    requires
        quarter < 4,
    ensures
        m.0 == least(turned_xs(blocks@, quarter as int)),
        m.1 == least(turned_zs(blocks@, quarter as int)),
        -0x8000_0000 <= m.0 <= 0x8000_0000,
        -0x8000_0000 <= m.1 <= 0x8000_0000,
{
    let ghost xs = turned_xs(blocks@, quarter as int);
    let ghost zs = turned_zs(blocks@, quarter as int);
    let mut mx: i64 = 0;
    let mut mz: i64 = 0;
    let mut i: usize = 0;
    while i < blocks.len()
        invariant
            0 <= i <= blocks@.len(),
            quarter < 4,
            xs == turned_xs(blocks@, quarter as int),
            zs == turned_zs(blocks@, quarter as int),
            mx == least(xs.take(i as int)),
            mz == least(zs.take(i as int)),
            -0x8000_0000 <= mx <= 0x8000_0000,
            -0x8000_0000 <= mz <= 0x8000_0000,
        decreases blocks@.len() - i,
    {
        let (tx, tz) = turned_block(&blocks[i], quarter);
        proof {
            assert(xs.take(i + 1).drop_last() =~= xs.take(i as int));
            assert(zs.take(i + 1).drop_last() =~= zs.take(i as int));
        }
        if i == 0 || tx < mx {
            mx = tx;
        }
        if i == 0 || tz < mz {
            mz = tz;
        }
        i = i + 1;
    }
    assert(xs.take(blocks@.len() as int) =~= xs);
    assert(zs.take(blocks@.len() as int) =~= zs);
    (mx, mz)
}

/// The coordinates of a block after some quarter turns.
fn turned_block(b: &Block, quarter: u8) -> (p: (i64, i64))
    requires
        quarter < 4,
    ensures
        p.0 == turned_x(*b, quarter as int),
        p.1 == turned_z(*b, quarter as int),
        -0x8000_0000 <= p.0 <= 0x8000_0000,
        -0x8000_0000 <= p.1 <= 0x8000_0000,
{
    let x: i64 = b.x as i64;
    let z: i64 = b.z as i64;
    if quarter == 0 {
        (x, z)
    } else if quarter == 1 {
        (-z, x)
    } else if quarter == 2 {
        (-x, -z)
    } else {
        (z, -x)
    }
}

/// Tests whether all four rotations of a pattern have coordinates in the range of `i32`.
pub fn rotations_fit(blocks: &Vec<Block>) -> (r: bool)
    ensures
        r == (forall|t: int| 0 <= t < 4 ==> #[trigger] rotation_fits(blocks@, t)),
{
    let mut quarter: u8 = 0;
    while quarter < 4
        invariant
            0 <= quarter <= 4,
            forall|t: int| 0 <= t < quarter ==> #[trigger] rotation_fits(blocks@, t),
        decreases 4 - quarter,
    {
        let (mx, mz) = least_turned(blocks, quarter);
        let mut i: usize = 0;
        while i < blocks.len()
            invariant
                0 <= i <= blocks@.len(),
                quarter < 4,
                mx == least(turned_xs(blocks@, quarter as int)),
                mz == least(turned_zs(blocks@, quarter as int)),
                -0x8000_0000 <= mx <= 0x8000_0000,
                -0x8000_0000 <= mz <= 0x8000_0000,
                forall|m: int|
                    0 <= m < i ==> {
                        &&& is_i32(turned_x(#[trigger] blocks@[m], quarter as int))
                        &&& is_i32(turned_z(blocks@[m], quarter as int))
                        &&& is_i32(turned_x(blocks@[m], quarter as int) - mx)
                        &&& is_i32(turned_z(blocks@[m], quarter as int) - mz)
                    },
            decreases blocks@.len() - i,
        {
            let (tx, tz) = turned_block(&blocks[i], quarter);
            if !(in_i32(tx) && in_i32(tz) && in_i32(tx - mx) && in_i32(tz - mz)) {
                assert(!rotation_fits(blocks@, quarter as int));
                return false;
            }
            i = i + 1;
        }
        quarter = quarter + 1;
    }
    true
}

/// Tests whether a number is in the range of `i32`.
fn in_i32(n: i64) -> (r: bool)
    ensures
        r == is_i32(n as int),
{
    i32::MIN as i64 <= n && n <= i32::MAX as i64
}

/// A quarter turn clockwise takes what lies to the north to the east: with x to the east and z to
/// the south, `(x, z)` becomes `(-z, x)`. Each further turn does so again, and no turn leaves all
/// as it is.
pub proof fn law_quarter_turn_is_clockwise(x: int, z: int, times: int)
    requires
        0 <= times,
    ensures
        turned(x, z, 0) == (x, z),
        turned(x, z, times + 1) == (-turned(x, z, times).1, turned(x, z, times).0),
{
}

/// Turning a pattern turns the way from each of its blocks to each other, and changes nothing else
/// about them: neither their order, nor their heights, nor what they demand.
pub proof fn law_rotation_turns_distances(v: Seq<Block>, times: int, i: int, j: int)
    requires
        rotation_fits(v, times),
        0 <= times < 4,
        0 <= i < v.len(),
        0 <= j < v.len(),
    ensures
        rotated(v, times).len() == v.len(),
        ({
            let a = rotated(v, times)[i];
            let b = rotated(v, times)[j];
            let dx = v[j].x - v[i].x;
            let dz = v[j].z - v[i].z;
            &&& times == 0 ==> b.x - a.x == dx && b.z - a.z == dz
            &&& times == 1 ==> b.x - a.x == -dz && b.z - a.z == dx
            &&& times == 2 ==> b.x - a.x == -dx && b.z - a.z == -dz
            &&& times == 3 ==> b.x - a.x == dz && b.z - a.z == -dx
            &&& a.y == v[i].y
            &&& a.should_be_bedrock == v[i].should_be_bedrock
            &&& a.probability == v[i].probability
            &&& a.prob_threshold == v[i].prob_threshold
        }),
{
    assert(is_i32(turned_x(v[i], times)));
    assert(is_i32(turned_x(v[j], times)));
}

/// Two blocks count as the same exactly if they demand the same of the same place.
pub proof fn law_blocks_of_same_shape(a: Block, b: Block)
    ensures
        same_shape(seq![a], seq![b]) <==> a.x == b.x && a.y == b.y && a.z == b.z
            && a.should_be_bedrock == b.should_be_bedrock,
{
    broadcast use vstd::multiset::group_multiset_axioms;
    broadcast use vstd::seq_lib::group_to_multiset_ensures;

    let s = block_keys(seq![a]);
    let t = block_keys(seq![b]);
    assert(s =~= seq![block_key(a)]);
    assert(t =~= seq![block_key(b)]);
    if same_shape(seq![a], seq![b]) {
        assert(s.contains(s[0]));
        assert(s.to_multiset().count(block_key(a)) > 0);
        assert(t.contains(block_key(a)));
    }
}

/// The order of its blocks does not change the shape of a pattern.
pub proof fn law_order_keeps_shape(v: Seq<Block>, w: Seq<Block>)
    requires
        v.to_multiset() == w.to_multiset(),
    ensures
        same_shape(v, w),
{
    lemma_map_multiset(v, w, |b: Block| block_key(b));
}

/// Patterns of the same shape have equally many blocks, and whatever one of them demands of a place
/// the other demands too.
pub proof fn law_same_shape_same_demands(v: Seq<Block>, w: Seq<Block>, i: int)
    requires
        same_shape(v, w),
        0 <= i < v.len(),
    ensures
        v.len() == w.len(),
        exists|j: int|
            {
                &&& 0 <= j < w.len()
                &&& (#[trigger] w[j]).x == v[i].x
                &&& w[j].y == v[i].y
                &&& w[j].z == v[i].z
                &&& w[j].should_be_bedrock == v[i].should_be_bedrock
            },
{
    broadcast use vstd::seq_lib::group_to_multiset_ensures;

    let s = block_keys(v);
    let t = block_keys(w);
    assert(s.len() == s.to_multiset().len() && t.len() == t.to_multiset().len());
    assert(s[i] == block_key(v[i]));
    assert(s.contains(s[i]));
    assert(s.to_multiset().count(s[i]) > 0);
    assert(t.contains(s[i]));
    let j = choose|j: int| 0 <= j < t.len() && t[j] == s[i];
    assert(t[j] == block_key(w[j]));
    assert(w[j].x == v[i].x);
}

/// A pattern with coordinates of an ordinary size can be turned as often as one likes.
pub proof fn law_ordinary_patterns_can_be_turned(v: Seq<Block>, times: int)
    requires
        forall|i: int|
            0 <= i < v.len() ==> -0x3FFF_FFFF <= (#[trigger] v[i]).x <= 0x3FFF_FFFF && -0x3FFF_FFFF
                <= v[i].z <= 0x3FFF_FFFF,
    ensures
        rotation_fits(v, times),
{
    let xs = turned_xs(v, times);
    let zs = turned_zs(v, times);
    if v.len() > 0 {
        lemma_least(xs);
        lemma_least(zs);
        let p = choose|p: int| 0 <= p < xs.len() && #[trigger] xs[p] == least(xs);
        let q = choose|q: int| 0 <= q < zs.len() && #[trigger] zs[q] == least(zs);
        assert(-0x3FFF_FFFF <= v[p].x <= 0x3FFF_FFFF);
        assert(-0x3FFF_FFFF <= v[q].x <= 0x3FFF_FFFF);
    }
}

} // verus!
