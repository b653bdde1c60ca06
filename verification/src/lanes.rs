//! Lane masks and 64-bit words, shared by the kernels that test several positions at once.
use vstd::prelude::*;

verus! {

/// Lane `i` of a mask is set.
pub open spec fn lane(mask: u8, i: int) -> bool {
    (mask >> (i as u8)) & 1 == 1
}

/// Sets lane `i` of a mask.
pub fn set_lane(mask: u8, i: u8) -> (r: u8)
    requires
        i < 8,
    ensures
        forall|j: int| 0 <= j < 8 ==> #[trigger] lane(r, j) == (j == i || lane(mask, j)),
{
    let r: u8 = mask | (1u8 << i);
    assert forall|j: int| 0 <= j < 8 implies #[trigger] lane(r, j) == (j == i || lane(mask, j)) by {
        let n = j as u8;
        assert(((mask | (1u8 << i)) >> n) & 1 == 1 <==> (n == i || (mask >> n) & 1 == 1))
            by (bit_vector)
            requires
                i < 8,
                n < 8,
        ;
    }
    r
}

/// Lanes of the elementary masks.
pub proof fn lemma_lane_constants()
    ensures
        forall|i: int| 0 <= i < 8 ==> !#[trigger] lane(0, i),
        forall|i: int| 0 <= i < 8 ==> #[trigger] lane(0xFF, i),
        forall|i: int| 0 <= i < 8 ==> #[trigger] lane(0x0F, i) == (i < 4),
{
    assert forall|i: int| 0 <= i < 8 implies !#[trigger] lane(0, i) && lane(0xFF, i) && lane(
        0x0F,
        i,
    ) == (i < 4) by {
        let n = i as u8;
        assert((0u8 >> n) & 1 == 0 && (0xFFu8 >> n) & 1 == 1 && ((0x0Fu8 >> n) & 1 == 1 <==> n < 4))
            by (bit_vector)
            requires
                n < 8,
        ;
    }
    assert forall|i: int| 0 <= i < 8 implies #[trigger] lane(0xFF, i) by {
        assert(!lane(0, i));
    }
    assert forall|i: int| 0 <= i < 8 implies #[trigger] lane(0x0F, i) == (i < 4) by {
        assert(!lane(0, i));
    }
}

/// Lanes of a conjunction, and of an exclusive or with one of the two full masks.
pub proof fn lemma_lane_ops(a: u8, b: u8)
    ensures
        forall|i: int| 0 <= i < 8 ==> #[trigger] lane(a & b, i) == (lane(a, i) && lane(b, i)),
        forall|i: int| 0 <= i < 8 ==> #[trigger] lane(a ^ 0u8, i) == lane(a, i),
        forall|i: int| 0 <= i < 8 ==> #[trigger] lane(a ^ 0xFFu8, i) == !lane(a, i),
{
    assert forall|i: int| 0 <= i < 8 implies #[trigger] lane(a & b, i) == (lane(a, i) && lane(
        b,
        i,
    )) by {
        let n = i as u8;
        assert(((a & b) >> n) & 1 == 1 <==> ((a >> n) & 1 == 1 && (b >> n) & 1 == 1))
            by (bit_vector);
    }
    assert forall|i: int| 0 <= i < 8 implies #[trigger] lane(a ^ 0u8, i) == lane(a, i) by {
        assert(a ^ 0u8 == a) by (bit_vector);
    }
    assert forall|i: int| 0 <= i < 8 implies #[trigger] lane(a ^ 0xFFu8, i) == !lane(a, i) by {
        let n = i as u8;
        assert(((a ^ 0xFFu8) >> n) & 1 == 1 <==> !((a >> n) & 1 == 1)) by (bit_vector)
            requires
                n < 8,
        ;
    }
}

/// A mask is zero exactly if none of its lanes is set.
pub proof fn lemma_mask_zero(mask: u8)
    ensures
        mask == 0 <==> (forall|i: int| 0 <= i < 8 ==> !#[trigger] lane(mask, i)),
{
    lemma_lane_constants();
    if forall|i: int| 0 <= i < 8 ==> !#[trigger] lane(mask, i) {
        assert(!lane(mask, 0) && !lane(mask, 1) && !lane(mask, 2) && !lane(mask, 3));
        assert(!lane(mask, 4) && !lane(mask, 5) && !lane(mask, 6) && !lane(mask, 7));
        assert(mask == 0) by (bit_vector)
            requires
                (mask >> 0u8) & 1 != 1,
                (mask >> 1u8) & 1 != 1,
                (mask >> 2u8) & 1 != 1,
                (mask >> 3u8) & 1 != 1,
                (mask >> 4u8) & 1 != 1,
                (mask >> 5u8) & 1 != 1,
                (mask >> 6u8) & 1 != 1,
                (mask >> 7u8) & 1 != 1,
        ;
    }
}

/// Lanes of two half masks put together.
pub proof fn lemma_lane_join(lo: u8, hi: u8)
    requires
        forall|i: int| 4 <= i < 8 ==> !#[trigger] lane(lo, i),
        forall|i: int| 4 <= i < 8 ==> !#[trigger] lane(hi, i),
    ensures
        forall|i: int|
            0 <= i < 8 ==> #[trigger] lane(lo | (hi << 4), i) == if i < 4 {
                lane(lo, i)
            } else {
                lane(hi, i - 4)
            },
        (lo | hi) == 0 <==> lo | (hi << 4) == 0,
{
    assert(!lane(lo, 4) && !lane(lo, 5) && !lane(lo, 6) && !lane(lo, 7));
    assert(!lane(hi, 4) && !lane(hi, 5) && !lane(hi, 6) && !lane(hi, 7));
    assert(lo <= 0x0F && hi <= 0x0F) by (bit_vector)
        requires
            (lo >> 4u8) & 1 != 1,
            (lo >> 5u8) & 1 != 1,
            (lo >> 6u8) & 1 != 1,
            (lo >> 7u8) & 1 != 1,
            (hi >> 4u8) & 1 != 1,
            (hi >> 5u8) & 1 != 1,
            (hi >> 6u8) & 1 != 1,
            (hi >> 7u8) & 1 != 1,
    ;
    assert((lo | hi) == 0 <==> lo | (hi << 4) == 0) by (bit_vector)
        requires
            lo <= 0x0F && hi <= 0x0F,
    ;
    assert forall|i: int| 0 <= i < 8 implies #[trigger] lane(lo | (hi << 4), i) == if i < 4 {
        lane(lo, i)
    } else {
        lane(hi, i - 4)
    } by {
        let n = i as u8;
        if i < 4 {
            assert(((lo | (hi << 4)) >> n) & 1 == (lo >> n) & 1) by (bit_vector)
                requires
                    n < 4,
            ;
        } else {
            let m = (i - 4) as u8;
            assert(((lo | (hi << 4)) >> n) & 1 == (hi >> m) & 1) by (bit_vector)
                requires
                    4 <= n < 8,
                    m == n - 4,
                    lo <= 0x0F,
            ;
        }
    }
}

/// Reading a signed word as unsigned keeps its value modulo `2^64`.
pub proof fn lemma_unsigned(x: i64)
    ensures
        (x as u64) as int == if x < 0 {
            x + 0x1_0000_0000_0000_0000
        } else {
            x as int
        },
        (x as u64) as i64 == x,
{
    assert((x as u64) as int == if x < 0 {
        x + 0x1_0000_0000_0000_0000
    } else {
        x as int
    }) by (bit_vector);
    assert((x as u64) as i64 == x) by (bit_vector);
}

/// Reading an unsigned word as signed and back changes nothing.
pub proof fn lemma_signed(x: u64)
    ensures
        (x as i64) as u64 == x,
{
    assert((x as i64) as u64 == x) by (bit_vector);
}

/// Wrapping addition and multiplication, and exclusive or, do the same to the bits of signed and
/// of unsigned words.
pub proof fn lemma_unsigned_ops(x: i64, y: i64)
    ensures
        x.wrapping_add(y) as u64 == (x as u64).wrapping_add(y as u64),
        x.wrapping_mul(y) as u64 == (x as u64).wrapping_mul(y as u64),
        (x ^ y) as u64 == (x as u64) ^ (y as u64),
{
    let m = 0x1_0000_0000_0000_0000int;
    lemma_unsigned(x);
    lemma_unsigned(y);
    lemma_unsigned(x.wrapping_add(y));
    lemma_unsigned(x.wrapping_mul(y));
    let xu = (x as u64) as int;
    let yu = (y as u64) as int;
    assert(xu * yu % m == x * y % m) by {
        let a: int = if x < 0 {
            1
        } else {
            0
        };
        let b: int = if y < 0 {
            1
        } else {
            0
        };
        assert(xu == x + a * m && yu == y + b * m);
        assert(xu * yu == x * y + (a * y + b * x + a * b * m) * m) by (nonlinear_arith)
            requires
                xu == x + a * m,
                yu == y + b * m,
        ;
        vstd::arithmetic::div_mod::lemma_mod_multiples_vanish(
            a * y + b * x + a * b * m,
            x * y,
            m,
        );
    }
    assert(0 <= xu * yu) by (nonlinear_arith)
        requires
            0 <= xu,
            0 <= yu,
    ;
    assert((x ^ y) as u64 == (x as u64) ^ (y as u64)) by (bit_vector);
}

} // verus!
