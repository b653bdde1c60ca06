//! The square spiral along which candidate positions are visited.
//!
//! Starting at the centre the walk goes 1 right, 1 up, 2 left, 2 down, 3 right, 3 up, and so on
//! (right is +x, up is +z). Shell `l` is the ring of the `8 * l` positions at Chebyshev distance
//! `l` from the centre; it occupies the indices `(2l-1)^2 ..= (2l+1)^2 - 1`.
use vstd::prelude::*;

verus! {

/// The outermost shell whose indices all fit in an `i64`.
pub const MAX_SHELL: i64 = 1_518_500_249;

/// The last index of shell `MAX_SHELL`.
pub const MAX_INDEX: i64 = 9_223_372_030_926_249_000;

/// The first index of shell `l`, for `l >= 1`.
pub open spec fn shell_first(l: int) -> int {
    4 * l * l - 4 * l + 1
}

/// The last index of shell `l`.
pub open spec fn shell_last(l: int) -> int {
    4 * l * l + 4 * l
}

/// Index `k` lies in shell `l`. Shell 0 is the centre alone.
pub open spec fn in_shell(k: int, l: int) -> bool {
    &&& 0 <= l
    &&& k <= shell_last(l)
    &&& if l == 0 {
        0 <= k
    } else {
        shell_first(l) <= k
    }
}

/// The shell that index `k` lies in.
pub open spec fn shell_of(k: int) -> int
    decreases k,
{
    if k <= 0 {
        0
    } else {
        let inner = shell_of(k - 1);
        if k > shell_last(inner) {
            inner + 1
        } else {
            inner
        }
    }
}

/// The displacement from the centre at offset `j` of shell `l`: up the right side, left along the
/// top, down the left side and right along the bottom.
pub open spec fn leg_offset(l: int, j: int) -> (int, int) {
    if j < 2 * l - 1 {
        (l, -(l - 1) + j)
    } else if j < 4 * l - 1 {
        (l - (j - (2 * l - 1)), l)
    } else if j < 6 * l - 1 {
        (-l, l - (j - (4 * l - 1)))
    } else {
        (-l + (j - (6 * l - 1)), -l)
    }
}

/// The displacement from the centre at index `k` of the spiral.
pub open spec fn spiral_offset(k: int) -> (int, int) {
    if k <= 0 {
        (0, 0)
    } else {
        leg_offset(shell_of(k), k - shell_first(shell_of(k)))
    }
}

/// The unit step that leads to offset `j` of shell `l` from offset `j - 1`.
pub open spec fn leg_direction(l: int, j: int) -> (int, int) {
    if j <= 2 * l - 1 {
        (0, 1)
    } else if j <= 4 * l - 1 {
        (-1, 0)
    } else if j <= 6 * l - 1 {
        (0, -1)
    } else {
        (1, 0)
    }
}

/// The first offset of shell `l` after `j` that is reached by a step in another direction.
pub open spec fn next_leg(l: int, j: int) -> int {
    if j <= 2 * l - 1 {
        2 * l
    } else if j <= 4 * l - 1 {
        4 * l
    } else if j <= 6 * l - 1 {
        6 * l
    } else {
        8 * l
    }
}

/// The Chebyshev distance of a displacement from the centre.
pub open spec fn chebyshev(p: (int, int)) -> int {
    let ax = if p.0 < 0 {
        -p.0
    } else {
        p.0
    };
    let az = if p.1 < 0 {
        -p.1
    } else {
        p.1
    };
    if ax < az {
        az
    } else {
        ax
    }
}

proof fn lemma_shell_bounds(l: int)
    ensures
        shell_first(l + 1) == shell_last(l) + 1,
        shell_last(l) - shell_first(l) + 1 == 8 * l,
{
    assert(4 * (l + 1) * (l + 1) == 4 * l * l + 8 * l + 4) by (nonlinear_arith);
}

proof fn lemma_shell_monotone(a: int, b: int)
    requires
        0 <= a <= b,
    ensures
        shell_last(a) <= shell_last(b),
        a < b ==> shell_last(a) < shell_first(b),
{
    assert(4 * a * a <= 4 * b * b) by (nonlinear_arith)
        requires
            0 <= a <= b,
    ;
    if a < b {
        lemma_shell_bounds(a);
        assert(4 * (a + 1) * (a + 1) - 4 * (a + 1) <= 4 * b * b - 4 * b) by (nonlinear_arith)
            requires
                0 <= a < b,
        ;
    }
}

/// Every index lies in the shell that `shell_of` gives, and in no other.
pub proof fn lemma_shell_of(k: int)
    requires
        0 <= k,
    ensures
        in_shell(k, shell_of(k)),
        forall|l: int| in_shell(k, l) ==> l == shell_of(k),
    decreases k,
{
    if k > 0 {
        lemma_shell_of(k - 1);
        let inner = shell_of(k - 1);
        lemma_shell_bounds(inner);
        lemma_shell_monotone(inner, inner + 1);
    }
    assert forall|l: int| in_shell(k, l) implies l == shell_of(k) by {
        let s = shell_of(k);
        assert(in_shell(k, s));
        if l < s {
            lemma_shell_monotone(l, s);
        } else if s < l {
            lemma_shell_monotone(s, l);
        }
    }
}

/// The offset within its shell of index `k`, for `k >= 1`.
pub open spec fn shell_offset(k: int) -> int {
    k - shell_first(shell_of(k))
}

/// Consecutive indices of one shell are one step of that shell's leg apart; the first position of
/// a shell lies one to the right of the last position of the shell inside it.
proof fn lemma_step(k: int)
    requires
        0 <= k,
    ensures
        shell_of(k + 1) == shell_of(k) ==> {
            &&& 0 < k
            &&& shell_offset(k + 1) == shell_offset(k) + 1
            &&& shell_offset(k + 1) < 8 * shell_of(k)
            &&& spiral_offset(k + 1).0 == spiral_offset(k).0 + leg_direction(
                shell_of(k),
                shell_offset(k + 1),
            ).0
            &&& spiral_offset(k + 1).1 == spiral_offset(k).1 + leg_direction(
                shell_of(k),
                shell_offset(k + 1),
            ).1
        },
        shell_of(k + 1) != shell_of(k) ==> {
            &&& shell_of(k + 1) == shell_of(k) + 1
            &&& shell_offset(k + 1) == 0
            &&& k > 0 ==> shell_offset(k) == 8 * shell_of(k) - 1
            &&& spiral_offset(k + 1) == (shell_of(k + 1), -(shell_of(k + 1) - 1))
            &&& spiral_offset(k + 1).0 == spiral_offset(k).0 + 1
            &&& spiral_offset(k + 1).1 == spiral_offset(k).1
        },
{
    lemma_shell_of(k);
    lemma_shell_of(k + 1);
    let l = shell_of(k);
    lemma_shell_bounds(l);
    lemma_shell_bounds(l + 1);
}

/// Every step of the spiral leads to a neighbouring position: one coordinate changes by one and
/// the other does not change.
pub proof fn law_steps_are_adjacent(k: int)
    requires
        0 <= k,
    ensures
        ({
            let a = spiral_offset(k);
            let b = spiral_offset(k + 1);
            ||| a.0 == b.0 && (b.1 == a.1 + 1 || b.1 == a.1 - 1)
            ||| a.1 == b.1 && (b.0 == a.0 + 1 || b.0 == a.0 - 1)
        }),
{
    lemma_step(k);
}

/// The runs of the spiral are 1 right, 1 up, 2 left, 2 down, 3 right, 3 up, 4 left, 4 down, and so
/// on: in shell `l` the walk goes up `2l - 1` times, left `2l` times, down `2l` times and then
/// right `2l + 1` times, the last of which opens the next shell.
pub proof fn law_leg_lengths(l: int, j: int)
    requires
        0 <= l,
        0 < j <= 8 * l || (l == 0 && j == 0),
    ensures
        ({
            let k = if l == 0 {
                1
            } else {
                shell_first(l) + j
            };
            let a = spiral_offset(k - 1);
            let b = spiral_offset(k);
            let step = (b.0 - a.0, b.1 - a.1);
            &&& 1 <= j <= 2 * l - 1 ==> step == (0int, 1int)
            &&& 2 * l <= j <= 4 * l - 1 ==> step == (-1int, 0int)
            &&& 4 * l <= j <= 6 * l - 1 ==> step == (0int, -1int)
            &&& 6 * l <= j <= 8 * l ==> step == (1int, 0int)
        }),
{
    if l == 0 {
        lemma_step(0);
        lemma_shell_of(1);
        assert(in_shell(1, 1));
    } else {
        let k = shell_first(l) + j;
        lemma_shell_bounds(l);
        lemma_shell_bounds(l + 1);
        lemma_shell_monotone(0, l);
        assert(in_shell(k - 1, l));
        lemma_shell_of(k - 1);
        lemma_shell_of(k);
        lemma_step(k - 1);
        if j < 8 * l {
            assert(in_shell(k, l));
        } else {
            assert(in_shell(k, l + 1));
        }
    }
}

/// The position at index `k` lies exactly `shell_of(k)` away from the centre.
pub proof fn law_shell_is_distance(k: int)
    requires
        0 <= k,
    ensures
        chebyshev(spiral_offset(k)) == shell_of(k),
{
    lemma_shell_of(k);
    lemma_shell_bounds(shell_of(k));
}

proof fn lemma_shell_of_ordered(a: int, b: int)
    requires
        0 <= a <= b,
    ensures
        shell_of(a) <= shell_of(b),
{
    lemma_shell_of(a);
    lemma_shell_of(b);
    if shell_of(b) < shell_of(a) {
        lemma_shell_monotone(shell_of(b), shell_of(a));
    }
}

/// The spiral never turns back inwards: a later index is at least as far from the centre.
pub proof fn law_spiral_goes_outwards(a: int, b: int)
    requires
        0 <= a <= b,
    ensures
        chebyshev(spiral_offset(a)) <= chebyshev(spiral_offset(b)),
{
    law_shell_is_distance(a);
    law_shell_is_distance(b);
    lemma_shell_of_ordered(a, b);
}

/// No position is visited twice.
pub proof fn law_spiral_is_injective(a: int, b: int)
    requires
        0 <= a,
        0 <= b,
        spiral_offset(a) == spiral_offset(b),
    ensures
        a == b,
{
    law_shell_is_distance(a);
    law_shell_is_distance(b);
    lemma_shell_of(a);
    lemma_shell_of(b);
    lemma_shell_bounds(shell_of(a));
}

/// The index at which the spiral visits the displacement `p`.
pub open spec fn index_of_offset(p: (int, int)) -> int {
    let l = chebyshev(p);
    if l == 0 {
        0
    } else if p.0 == l && p.1 > -l {
        shell_first(l) + p.1 + (l - 1)
    } else if p.1 == l {
        shell_first(l) + (2 * l - 1) + (l - p.0)
    } else if p.0 == -l {
        shell_first(l) + (4 * l - 1) + (l - p.1)
    } else {
        shell_first(l) + (6 * l - 1) + (p.0 + l)
    }
}

/// Every position is visited, at the index that `index_of_offset` gives.
pub proof fn law_spiral_is_surjective(p: (int, int))
    ensures
        0 <= index_of_offset(p),
        spiral_offset(index_of_offset(p)) == p,
{
    let l = chebyshev(p);
    let k = index_of_offset(p);
    if l > 0 {
        lemma_shell_bounds(l);
        lemma_shell_monotone(0, l);
        assert(in_shell(k, l));
        lemma_shell_of(k);
    }
}

/// The position at index `k` of the spiral around a centre.
pub open spec fn spiral_position(start_x: i32, start_z: i32, k: int) -> (int, int) {
    (start_x + spiral_offset(k).0, start_z + spiral_offset(k).1)
}

/// The position at index `k` has coordinates that fit in an `i32`.
pub open spec fn position_fits(start_x: i32, start_z: i32, k: int) -> bool {
    let p = spiral_position(start_x, start_z, k);
    &&& i32::MIN <= p.0 <= i32::MAX
    &&& i32::MIN <= p.1 <= i32::MAX
}

/// The outermost shell around a centre that lies within the `i32` coordinates and whose indices
/// fit in an `i64`.
pub open spec fn outermost_shell(start_x: i32, start_z: i32) -> int {
    let a = i32::MAX - start_x;
    let b = start_x - i32::MIN;
    let c = i32::MAX - start_z;
    let d = start_z - i32::MIN;
    let x = if a < b {
        a
    } else {
        b
    };
    let z = if c < d {
        c
    } else {
        d
    };
    let l = if x < z {
        x
    } else {
        z
    };
    if l < MAX_SHELL {
        l
    } else {
        MAX_SHELL as int
    }
}

/// The last index of the outermost shell around a centre.
pub open spec fn index_limit(start_x: i32, start_z: i32) -> int {
    shell_last(outermost_shell(start_x, start_z))
}

/// Every index up to the limit has a position that fits.
pub proof fn lemma_index_limit(start_x: i32, start_z: i32, k: int)
    requires
        0 <= k <= index_limit(start_x, start_z),
    ensures
        position_fits(start_x, start_z, k),
        shell_of(k) <= outermost_shell(start_x, start_z),
        k <= MAX_INDEX,
{
    let m = outermost_shell(start_x, start_z);
    lemma_shell_of(k);
    law_shell_is_distance(k);
    if m < shell_of(k) {
        lemma_shell_monotone(m, shell_of(k));
    }
    lemma_shell_monotone(m, MAX_SHELL as int);
    assert(shell_last(MAX_SHELL as int) == MAX_INDEX) by (nonlinear_arith);
}

/// Computes [`index_limit`].
pub fn spiral_index_limit(start_x: i32, start_z: i32) -> (limit: i64)
    ensures
        limit == index_limit(start_x, start_z),
        0 <= limit <= MAX_INDEX,
{
    let a: i64 = i32::MAX as i64 - start_x as i64;
    let b: i64 = start_x as i64 - i32::MIN as i64;
    let c: i64 = i32::MAX as i64 - start_z as i64;
    let d: i64 = start_z as i64 - i32::MIN as i64;
    let x: i64 = if a < b {
        a
    } else {
        b
    };
    let z: i64 = if c < d {
        c
    } else {
        d
    };
    let l: i64 = if x < z {
        x
    } else {
        z
    };
    let l: i64 = if l < MAX_SHELL {
        l
    } else {
        MAX_SHELL
    };
    proof {
        lemma_shell_monotone(0, l as int);
        lemma_shell_monotone(l as int, MAX_SHELL as int);
        assert(shell_last(MAX_SHELL as int) == MAX_INDEX) by (nonlinear_arith);
        assert(0 <= 4 * l <= 4 * MAX_SHELL && 0 <= 4 * l * l <= MAX_INDEX) by (nonlinear_arith)
            requires
                0 <= l <= MAX_SHELL,
        ;
    }
    4 * l * l + 4 * l
}

/// The displacement from the centre of offset `j` within shell `l`.
pub fn coords_from_lj(l: i64, j: i64) -> (offset: (i64, i64))
    requires
        1 <= l <= MAX_SHELL,
        0 <= j < 8 * l,
    ensures
        (offset.0 as int, offset.1 as int) == leg_offset(l as int, j as int),
{
    if j < 2 * l - 1 {
        (l, -(l - 1) + j)
    } else if j < 4 * l - 1 {
        let o: i64 = j - (2 * l - 1);
        (l - o, l)
    } else if j < 6 * l - 1 {
        let o: i64 = j - (4 * l - 1);
        (-l, l - o)
    } else {
        let o: i64 = j - (6 * l - 1);
        (-l + o, -l)
    }
}

/// The direction of the step that leads to offset `j` of shell `l`, and the first offset of the
/// next leg.
pub fn leg_state(l: i64, j: i64) -> (leg: (i32, i32, i64))
    requires
        0 <= l <= MAX_SHELL + 1,
    ensures
        (leg.0 as int, leg.1 as int) == leg_direction(l as int, j as int),
        leg.2 == next_leg(l as int, j as int),
{
    if j <= 2 * l - 1 {
        (0, 1, 2 * l)
    } else if j <= 4 * l - 1 {
        (-1, 0, 4 * l)
    } else if j <= 6 * l - 1 {
        (0, -1, 6 * l)
    } else {
        (1, 0, 8 * l)
    }
}

/// The shell that index `k` lies in, which is `floor((1 + sqrt(k)) / 2)`.
pub fn shell_of_index(k: i64) -> (l: i64)
    requires
        0 <= k <= MAX_INDEX,
    ensures
        l == shell_of(k as int),
        0 <= l <= MAX_SHELL,
{
    let mut lo: i64 = 0;
    let mut hi: i64 = MAX_SHELL + 1;
    proof {
        assert(k < shell_first(hi as int)) by (nonlinear_arith)
            requires
                k <= MAX_INDEX,
                hi == MAX_SHELL + 1,
        ;
    }
    while hi - lo > 1
        invariant
            0 <= k <= MAX_INDEX,
            0 <= lo < hi <= MAX_SHELL + 1,
            lo == 0 || shell_first(lo as int) <= k,
            k < shell_first(hi as int),
        decreases hi - lo,
    {
        let mid: i64 = lo + (hi - lo) / 2;
        assert(0 <= 4 * mid <= 4 * MAX_SHELL && 0 <= 4 * mid * mid <= MAX_INDEX)
            by (nonlinear_arith)
            requires
                0 <= mid <= MAX_SHELL,
        ;
        if 4 * mid * mid - 4 * mid + 1 <= k {
            lo = mid;
        } else {
            hi = mid;
        }
    }
    proof {
        lemma_shell_bounds(lo as int);
        assert(in_shell(k as int, lo as int));
        lemma_shell_of(k as int);
    }
    lo
}

/// A place on the spiral: a position, its shell `l` and offset `j` within the shell, the
/// direction of the step that led to it, and the offset at which that direction changes.
///
/// The centre has `l == 0` and `j == -1`, so that the step after it opens shell 1.
#[derive(Clone, Copy, PartialEq, Eq, Debug)]
pub struct SpiralState {
    pub x: i32,
    pub z: i32,
    pub l: i64,
    pub j: i64,
    pub dx: i32,
    pub dz: i32,
    pub next_leg_j: i64,
}

impl SpiralState {
    /// The spiral index of this place.
    pub open spec fn index(self) -> int {
        if self.l == 0 {
            0
        } else {
            shell_first(self.l as int) + self.j
        }
    }

    /// This is the place at `self.index()` of the spiral around the given centre.
    pub open spec fn wf(self, start_x: i32, start_z: i32) -> bool {
        let k = self.index();
        &&& 0 <= self.l <= MAX_SHELL
        &&& 0 <= k <= MAX_INDEX
        &&& self.l == shell_of(k)
        &&& self.l == 0 ==> self.j == -1
        &&& self.l > 0 ==> {
            &&& 0 <= self.j < 8 * self.l
            &&& (self.dx as int, self.dz as int) == leg_direction(self.l as int, self.j as int)
            &&& self.next_leg_j == next_leg(self.l as int, self.j as int)
        }
        &&& (self.x as int, self.z as int) == spiral_position(start_x, start_z, k)
    }
}

/// The place at index `k` of the spiral around a centre.
pub fn spiral_coords_with_state(k: i64, start_x: i32, start_z: i32) -> (state: SpiralState)
    requires
        0 <= k <= MAX_INDEX,
        position_fits(start_x, start_z, k as int),
    ensures
        state.wf(start_x, start_z),
        state.index() == k,
        k == 0 ==> (state.dx, state.dz, state.next_leg_j) == (0i32, 1i32, 0i64),
{
    if k == 0 {
        return SpiralState { x: start_x, z: start_z, l: 0, j: -1, dx: 0, dz: 1, next_leg_j: 0 };
    }
    let l: i64 = shell_of_index(k);
    proof {
        lemma_shell_of(k as int);
        lemma_shell_bounds(l as int);
        assert(0 <= 4 * l <= 4 * MAX_SHELL && 0 <= 4 * l * l <= MAX_INDEX) by (nonlinear_arith)
            requires
                0 <= l <= MAX_SHELL,
        ;
    }
    let j: i64 = k - (4 * l * l - 4 * l + 1);
    let (ox, oz) = coords_from_lj(l, j);
    let (dx, dz, next_leg_j) = leg_state(l, j);
    proof {
        law_shell_is_distance(k as int);
    }
    SpiralState { x: start_x + ox as i32, z: start_z + oz as i32, l, j, dx, dz, next_leg_j }
}

/// Moves to the next place of the spiral.
pub fn advance(state: &mut SpiralState, start_x: i32, start_z: i32)
    requires
        old(state).wf(start_x, start_z),
        old(state).index() + 1 <= MAX_INDEX,
        position_fits(start_x, start_z, old(state).index() + 1),
    ensures
        final(state).wf(start_x, start_z),
        final(state).index() == old(state).index() + 1,
{
    let ghost k = state.index();
    proof {
        lemma_shell_of(k);
        lemma_shell_of(k + 1);
        lemma_step(k);
        lemma_shell_bounds(state.l as int);
        lemma_shell_bounds(state.l + 1);
        law_shell_is_distance(k + 1);
        if shell_of(k + 1) > MAX_SHELL {
            lemma_shell_monotone(MAX_SHELL as int, shell_of(k + 1));
            assert(shell_last(MAX_SHELL as int) == MAX_INDEX) by (nonlinear_arith);
        }
    }
    state.j = state.j + 1;
    if state.j >= 8 * state.l {
        state.l = state.l + 1;
        state.j = 0;
        state.x = start_x + state.l as i32;
        state.z = start_z - (state.l - 1) as i32;
        state.dx = 0;
        state.dz = 1;
        state.next_leg_j = 2 * state.l;
    } else {
        if state.j >= state.next_leg_j {
            let (dx, dz, next_leg_j) = leg_state(state.l, state.j);
            state.dx = dx;
            state.dz = dz;
            state.next_leg_j = next_leg_j;
        }
        state.x = state.x + state.dx;
        state.z = state.z + state.dz;
    }
}

/// The number of positions that are examined together.
pub const GROUP_SIZE: usize = 8;

/// `xs` and `zs` hold the eight positions from index `k` on.
pub open spec fn group_at(
    xs: Seq<i32>,
    zs: Seq<i32>,
    start_x: i32,
    start_z: i32,
    k: int,
) -> bool {
    &&& xs.len() == 8
    &&& zs.len() == 8
    &&& forall|i: int|
        #![trigger xs[i]]
        #![trigger zs[i]]
        0 <= i < 8 ==> (xs[i] as int, zs[i] as int) == spiral_position(start_x, start_z, k + i)
}

/// Fills `xs` and `zs` with the eight positions from `state` on, and moves `state` to the position
/// after them.
pub fn fill_group_from_state(
    state: &mut SpiralState,
    xs: &mut [i32; 8],
    zs: &mut [i32; 8],
    start_x: i32,
    start_z: i32,
)
    requires
        old(state).wf(start_x, start_z),
        old(state).index() + 8 <= MAX_INDEX,
        forall|i: int|
            0 <= i <= 8 ==> #[trigger] position_fits(start_x, start_z, old(state).index() + i),
    ensures
        final(state).wf(start_x, start_z),
        final(state).index() == old(state).index() + 8,
        group_at(final(xs)@, final(zs)@, start_x, start_z, old(state).index()),
{
    let ghost k = state.index();
    assert(forall|i: int| 0 <= i <= 8 ==> #[trigger] position_fits(start_x, start_z, k + i));
    let mut i: usize = 0;
    while i < GROUP_SIZE
        invariant
            0 <= i <= 8,
            k + 8 <= MAX_INDEX,
            forall|i: int| 0 <= i <= 8 ==> #[trigger] position_fits(start_x, start_z, k + i),
            state.wf(start_x, start_z),
            state.index() == k + i,
            xs@.len() == 8,
            zs@.len() == 8,
            forall|m: int|
                #![trigger xs@[m]]
                #![trigger zs@[m]]
                0 <= m < i ==> (xs@[m] as int, zs@[m] as int) == spiral_position(
                    start_x,
                    start_z,
                    k + m,
                ),
        decreases 8 - i,
    {
        xs[i] = state.x;
        zs[i] = state.z;
        assert(position_fits(start_x, start_z, k + (i + 1)));
        advance(state, start_x, start_z);
        i = i + 1;
    }
}

/// From a place on the spiral to the end of its leg every step goes in the same direction.
pub proof fn lemma_leg_is_straight(state: SpiralState, start_x: i32, start_z: i32, m: int)
    requires
        state.wf(start_x, start_z),
        state.l > 0,
        0 <= m,
        state.j + m < state.next_leg_j,
    ensures
        spiral_position(start_x, start_z, state.index() + m) == (
            state.x + m * state.dx,
            state.z + m * state.dz,
        ),
{
    let l = state.l as int;
    let k = state.index();
    lemma_shell_bounds(l);
    lemma_shell_of(k);
    assert(in_shell(k + m, l));
    lemma_shell_of(k + m);
    assert(m * 0 == 0 && m * 1 == m && m * (-1) == -m) by (nonlinear_arith);
}

/// Fills `xs` and `zs` with eight positions one step apart, the first of which is `(x, z)`.
pub fn fill_group_straight(
    x: i32,
    z: i32,
    dx: i32,
    dz: i32,
    xs: &mut [i32; 8],
    zs: &mut [i32; 8],
)
    requires
        forall|i: int| 0 <= i < 8 ==> i32::MIN <= #[trigger] (x + i * dx) <= i32::MAX,
        forall|i: int| 0 <= i < 8 ==> i32::MIN <= #[trigger] (z + i * dz) <= i32::MAX,
        -1 <= dx <= 1,
        -1 <= dz <= 1,
    ensures
        forall|i: int| 0 <= i < 8 ==> #[trigger] final(xs)@[i] == x + i * dx,
        forall|i: int| 0 <= i < 8 ==> #[trigger] final(zs)@[i] == z + i * dz,
{
    let mut i: i32 = 0;
    while i < 8
        invariant
            0 <= i <= 8,
            -1 <= dx <= 1,
            -1 <= dz <= 1,
            xs@.len() == 8,
            zs@.len() == 8,
            forall|i: int| 0 <= i < 8 ==> i32::MIN <= #[trigger] (x + i * dx) <= i32::MAX,
            forall|i: int| 0 <= i < 8 ==> i32::MIN <= #[trigger] (z + i * dz) <= i32::MAX,
            forall|m: int| 0 <= m < i ==> #[trigger] xs@[m] == x + m * dx,
            forall|m: int| 0 <= m < i ==> #[trigger] zs@[m] == z + m * dz,
        decreases 8 - i,
    {
        assert(-8 <= i * dx <= 8 && -8 <= i * dz <= 8) by (nonlinear_arith)
            requires
                0 <= i < 8,
                -1 <= dx <= 1,
                -1 <= dz <= 1,
        ;
        assert(i32::MIN <= x + (i as int) * dx <= i32::MAX);
        assert(i32::MIN <= z + (i as int) * dz <= i32::MAX);
        xs[i as usize] = x + i * dx;
        zs[i as usize] = z + i * dz;
        i = i + 1;
    }
}

/// The walk in numbers: it starts at the centre, and around the square with the side `2l - 1` it
/// goes on, from index `(2l - 1)^2` on, up the right side, left along the top, down the left side
/// and right along the bottom, and one step further right to the next square.
pub proof fn law_walk_goes_round_squares(l: int, j: int)
    requires
        1 <= l,
        0 <= j <= 8 * l,
    ensures
        spiral_offset(0) == (0int, 0int),
        ({
            let p = spiral_offset((2 * l - 1) * (2 * l - 1) + j);
            if j <= 2 * l - 1 {
                p == (l, 1 - l + j)
            } else if j <= 4 * l - 1 {
                p == (3 * l - 1 - j, l)
            } else if j <= 6 * l - 1 {
                p == (-l, 5 * l - 1 - j)
            } else {
                p == (j + 1 - 7 * l, -l)
            }
        }),
{
    let k = shell_first(l) + j;
    assert((2 * l - 1) * (2 * l - 1) == shell_first(l)) by (nonlinear_arith);
    lemma_shell_bounds(l);
    lemma_shell_bounds(l + 1);
    lemma_shell_monotone(0, l);
    lemma_shell_of(k);
    if j < 8 * l {
        assert(in_shell(k, l));
    } else {
        assert(in_shell(k, l + 1));
    }
}

/// Around every centre the walk has the same form.
pub proof fn law_walk_moves_with_centre(start_x: i32, start_z: i32, k: int)
    ensures
        spiral_position(start_x, start_z, k) == (
            start_x + spiral_offset(k).0,
            start_z + spiral_offset(k).1,
        ),
        spiral_position(0, 0, k) == spiral_offset(k),
{
}

/// The square with the side `2l + 1` around a centre has coordinates in the range of `i32`, and the
/// spiral index of its last position fits in an `i64`.
pub open spec fn square_fits(start_x: i32, start_z: i32, l: int) -> bool {
    &&& -0x8000_0000 <= start_x - l
    &&& start_x + l <= 0x7FFF_FFFF
    &&& -0x8000_0000 <= start_z - l
    &&& start_z + l <= 0x7FFF_FFFF
    &&& (2 * l + 1) * (2 * l + 1) - 1 <= 0x7FFF_FFFF_FFFF_FFFF
}

proof fn lemma_square_order(l: int, n: int)
    requires
        0 <= l,
        0 <= n,
    ensures
        shell_last(l) == (2 * l + 1) * (2 * l + 1) - 1,
        l <= n <==> shell_last(l) <= shell_last(n),
{
    assert(4 * l * l + 4 * l == (2 * l + 1) * (2 * l + 1) - 1) by (nonlinear_arith);
    if l <= n {
        lemma_shell_monotone(l, n);
    } else {
        lemma_shell_monotone(n, l);
        lemma_shell_bounds(l);
    }
}

/// A search examines exactly the squares around its centre that fit: the last index it examines is
/// the last one of a square, and it reaches a square exactly if that square fits.
pub proof fn law_search_reaches_every_square_that_fits(start_x: i32, start_z: i32, l: int)
    requires
        0 <= l,
    ensures
        (2 * l + 1) * (2 * l + 1) - 1 <= index_limit(start_x, start_z) <==> square_fits(
            start_x,
            start_z,
            l,
        ),
        exists|n: int|
            0 <= n && index_limit(start_x, start_z) == #[trigger] ((2 * n + 1) * (2 * n + 1)) - 1,
{
    let m = outermost_shell(start_x, start_z);
    lemma_square_order(l, m);
    lemma_square_order(m, m);
    assert(l <= 1_518_500_249 <==> (2 * l + 1) * (2 * l + 1) - 1 <= 0x7FFF_FFFF_FFFF_FFFF) by {
        if l <= 1_518_500_249 {
            assert((2 * l + 1) * (2 * l + 1) - 1 <= 9_223_372_030_926_249_000) by (nonlinear_arith)
                requires
                    0 <= l <= 1_518_500_249,
            ;
        } else {
            assert((2 * l + 1) * (2 * l + 1) - 1 >= 9_223_372_043_074_251_000) by (nonlinear_arith)
                requires
                    1_518_500_250 <= l,
            ;
        }
    }
    assert(index_limit(start_x, start_z) == ((2 * m + 1) * (2 * m + 1)) - 1);
}

/// Every position of a square that fits is examined, at one index and at no other.
pub proof fn law_positions_that_fit_are_examined(start_x: i32, start_z: i32, l: int, x: int, z: int)
    requires
        0 <= l,
        square_fits(start_x, start_z, l),
        -l <= x - start_x <= l,
        -l <= z - start_z <= l,
    ensures
        exists|k: int|
            0 <= k <= index_limit(start_x, start_z) && #[trigger] spiral_position(
                start_x,
                start_z,
                k,
            ) == (x, z),
        forall|k: int, m: int|
            0 <= k && 0 <= m && #[trigger] spiral_position(start_x, start_z, k) == (x, z)
                && #[trigger] spiral_position(start_x, start_z, m) == (x, z) ==> k == m,
{
    let p = (x - start_x, z - start_z);
    let k = index_of_offset(p);
    law_spiral_is_surjective(p);
    law_search_reaches_every_square_that_fits(start_x, start_z, l);
    law_shell_is_distance(k);
    lemma_shell_of(k);
    lemma_square_order(shell_of(k), l);
    lemma_square_order(l, l);
    assert(chebyshev(p) <= l);
    assert(0 <= k <= index_limit(start_x, start_z));
    assert(spiral_position(start_x, start_z, k) == (x, z));
    assert forall|k: int, m: int|
        0 <= k && 0 <= m && #[trigger] spiral_position(start_x, start_z, k) == (x, z)
            && #[trigger] spiral_position(start_x, start_z, m) == (x, z) implies k == m by {
        law_spiral_is_injective(k, m);
    }
}

/// A displacement is less than `d` long in both directions.
pub open spec fn is_nearer_than(d: int, dx: int, dz: int) -> bool {
    -d < dx < d && -d < dz < d
}

/// Whatever is nearer to the centre than the position at an index was examined before it.
pub proof fn law_nearer_positions_come_first(
    start_x: i32,
    start_z: i32,
    k: int,
    d: int,
    x: int,
    z: int,
)
    requires
        0 <= k,
        ({
            let p = spiral_position(start_x, start_z, k);
            !is_nearer_than(d, p.0 - start_x, p.1 - start_z)
        }),
        is_nearer_than(d, x - start_x, z - start_z),
    ensures
        exists|m: int| 0 <= m < k && #[trigger] spiral_position(start_x, start_z, m) == (x, z),
{
    let p = (x - start_x, z - start_z);
    let m = index_of_offset(p);
    law_spiral_is_surjective(p);
    if k <= m {
        law_spiral_goes_outwards(k, m);
    }
    assert(spiral_position(start_x, start_z, m) == (x, z));
}

/// The index at which a position is examined tells how far it is from the centre: it lies in the
/// square with the side `2l + 1`, and not in the one inside it, exactly if the index lies between
/// the areas of the two.
pub proof fn law_index_bounds_distance(k: int, l: int)
    requires
        0 <= k,
        1 <= l,
    ensures
        (2 * l - 1) * (2 * l - 1) <= k < (2 * l + 1) * (2 * l + 1) <==> chebyshev(spiral_offset(k))
            == l,
{
    law_shell_is_distance(k);
    lemma_shell_of(k);
    lemma_square_order(l, l);
    assert((2 * l - 1) * (2 * l - 1) == shell_first(l)) by (nonlinear_arith);
    if shell_first(l) <= k <= shell_last(l) {
        assert(in_shell(k, l));
    }
}

/// The index of a displacement lies within the area of every square that holds the displacement.
pub proof fn lemma_index_in_square(dx: int, dz: int, l: int)
    requires
        0 <= l,
        -l <= dx <= l,
        -l <= dz <= l,
    ensures
        0 <= index_of_offset((dx, dz)) < (2 * l + 1) * (2 * l + 1),
        spiral_offset(index_of_offset((dx, dz))) == (dx, dz),
{
    let k = index_of_offset((dx, dz));
    law_spiral_is_surjective((dx, dz));
    law_shell_is_distance(k);
    lemma_shell_of(k);
    lemma_square_order(shell_of(k), l);
    lemma_square_order(l, l);
    assert(chebyshev((dx, dz)) <= l);
}

} // verus!
