//! Moving a pattern moves its matches: what counts are the places of the blocks in the world.
use vstd::prelude::*;

use crate::bedrock::{BedrockType, Block};
use crate::prepare::SearchError;

verus! {

/// A pattern with every block moved by `(a, b)`.
pub open spec fn moved(v: Seq<Block>, a: int, b: int) -> Seq<Block> {
    Seq::new(v.len(), |i: int| Block { x: (v[i].x + a) as i32, z: (v[i].z + b) as i32, ..v[i] })
}

/// The coordinates of every block moved by `(a, b)` fit.
pub open spec fn move_fits(v: Seq<Block>, a: int, b: int) -> bool {
    forall|i: int|
        0 <= i < v.len() ==> crate::rotations::is_i32((#[trigger] v[i]).x + a)
            && crate::rotations::is_i32(v[i].z + b)
}

/// Every rotation moved by `(a, b)`.
pub open spec fn moved_all(rotations: Seq<Seq<Block>>, a: int, b: int) -> Seq<Seq<Block>> {
    Seq::new(rotations.len(), |i: int| moved(rotations[i], a, b))
}

/// The moved pattern can be looked for exactly where the pattern itself can, and lies everywhere
/// exactly where the pattern itself does.
proof fn lemma_moved_alike(v: Seq<Block>, a: int, b: int)
    ensures
        crate::prepare::first_error(moved(v, a, b)) is Some <==> crate::prepare::first_error(
            v,
        ) is Some,
        crate::prepare::searchable(moved(v, a, b)).len() == crate::prepare::searchable(v).len(),
{
    let w = moved(v, a, b);
    crate::prepare::lemma_first_error(v);
    crate::prepare::lemma_first_error(w);
    if crate::prepare::first_error(v) is Some {
        let i = choose|i: int|
            0 <= i < v.len() && crate::prepare::block_error(#[trigger] v[i]) is Some;
        assert(crate::prepare::block_error(w[i]) is Some);
    }
    if crate::prepare::first_error(w) is Some {
        let i = choose|i: int|
            0 <= i < w.len() && crate::prepare::block_error(#[trigger] w[i]) is Some;
        assert(crate::prepare::block_error(v[i]) is Some);
    }
    crate::prepare::lemma_searchable_len_by_index(v, w);
}

/// The moved pattern lies where the pattern itself does, moved the other way.
proof fn lemma_moved_lies(v: Seq<Block>, a: int, b: int, x: int, z: int, dlo: i64, dhi: i64)
    requires
        move_fits(v, a, b),
    ensures
        crate::blocks::pattern_at(
            crate::prepare::searchable(moved(v, a, b)),
            x - a,
            z - b,
            dlo,
            dhi,
        ) <==> crate::blocks::pattern_at(crate::prepare::searchable(v), x, z, dlo, dhi),
{
    let w = moved(v, a, b);
    crate::prepare::law_searchable_decides_pattern(v, x, z, dlo, dhi);
    crate::prepare::law_searchable_decides_pattern(w, x - a, z - b, dlo, dhi);
    assert forall|i: int| 0 <= i < v.len() implies crate::prepare::is_uncertain(#[trigger] v[i])
        == crate::prepare::is_uncertain(w[i]) && crate::blocks::block_satisfied(
        v[i],
        x,
        z,
        dlo,
        dhi,
    ) == crate::blocks::block_satisfied(w[i], x - a, z - b, dlo, dhi) by {
        assert(crate::rotations::is_i32(v[i].x + a));
        assert((x - a) + w[i].x == x + v[i].x);
        assert((z - b) + w[i].z == z + v[i].z);
    }
    if crate::blocks::pattern_at(crate::prepare::searchable(v), x, z, dlo, dhi) {
        assert forall|i: int|
            0 <= i < w.len() && crate::prepare::is_uncertain(#[trigger] w[i]) implies
            crate::blocks::block_satisfied(w[i], x - a, z - b, dlo, dhi) by {
            assert(crate::prepare::is_uncertain(v[i]));
        }
    }
    if crate::blocks::pattern_at(crate::prepare::searchable(w), x - a, z - b, dlo, dhi) {
        assert forall|i: int|
            0 <= i < v.len() && crate::prepare::is_uncertain(#[trigger] v[i]) implies
            crate::blocks::block_satisfied(v[i], x, z, dlo, dhi) by {
            assert(crate::prepare::is_uncertain(w[i]));
        }
    }
}

/// A match of the moved rotations around the moved centre lies at the same index of the spiral.
proof fn lemma_moved_hit(
    q: crate::search::Query,
    w: crate::search::Query,
    rotations: Seq<Seq<Block>>,
    a: int,
    b: int,
    k: int,
)
    requires
        w.start_x == q.start_x - a,
        w.start_z == q.start_z - b,
        w.dlo == q.dlo,
        w.dhi == q.dhi,
        q.patterns.len() == rotations.len(),
        w.patterns.len() == rotations.len(),
        forall|i: int|
            0 <= i < rotations.len() ==> move_fits(#[trigger] rotations[i], a, b) && q.patterns[i]
                == crate::prepare::searchable(rotations[i]) && w.patterns[i]
                == crate::prepare::searchable(moved(rotations[i], a, b)),
    ensures
        w.hit(k) <==> q.hit(k),
{
    let p = crate::spiral::spiral_position(q.start_x, q.start_z, k);
    assert(crate::spiral::spiral_position(w.start_x, w.start_z, k) == (p.0 - a, p.1 - b));
    assert forall|r: int| 0 <= r < rotations.len() implies (#[trigger] crate::blocks::pattern_at(
        q.patterns[r],
        p.0,
        p.1,
        q.dlo,
        q.dhi,
    ) <==> crate::blocks::pattern_at(w.patterns[r], p.0 - a, p.1 - b, w.dlo, w.dhi)) by {
        assert(move_fits(rotations[r], a, b));
        lemma_moved_lies(rotations[r], a, b, p.0, p.1, q.dlo, q.dhi);
    }
    if q.hit(k) {
        let r = choose|r: int|
            0 <= r < q.patterns.len() && #[trigger] crate::blocks::pattern_at(
                q.patterns[r],
                p.0,
                p.1,
                q.dlo,
                q.dhi,
            );
        assert(crate::blocks::pattern_at(w.patterns[r], p.0 - a, p.1 - b, w.dlo, w.dhi));
    }
    if w.hit(k) {
        let r = choose|r: int|
            0 <= r < w.patterns.len() && #[trigger] crate::blocks::pattern_at(
                w.patterns[r],
                p.0 - a,
                p.1 - b,
                w.dlo,
                w.dhi,
            );
        assert(crate::blocks::pattern_at(q.patterns[r], p.0, p.1, q.dlo, q.dhi));
    }
}

/// The moved rotations are prepared as the rotations themselves are.
proof fn lemma_moved_preparation(rotations: Seq<Seq<Block>>, a: int, b: int)
    ensures
        ({
            let r = crate::prepare::search_preparation(rotations);
            let s = crate::prepare::search_preparation(moved_all(rotations, a, b));
            &&& r is Err <==> s is Err
            &&& (r matches Ok(None)) <==> (s matches Ok(None))
        }),
{
    let other = moved_all(rotations, a, b);
    assert forall|i: int| 0 <= i < rotations.len() implies (crate::prepare::first_error(
        #[trigger] rotations[i],
    ) is Some <==> crate::prepare::first_error(other[i]) is Some) && crate::prepare::searchable(
        rotations[i],
    ).len() == crate::prepare::searchable(other[i]).len() by {
        lemma_moved_alike(rotations[i], a, b);
    }
    crate::prepare::lemma_prepared_alike(rotations, other);
}

/// Where there is something to look for, the moved query has its matches at the same indices.
proof fn lemma_moved_query(
    q: crate::search::Query,
    w: crate::search::Query,
    rotations: Seq<Seq<Block>>,
    a: int,
    b: int,
)
    requires
        w.start_x == q.start_x - a,
        w.start_z == q.start_z - b,
        w.dlo == q.dlo,
        w.dhi == q.dhi,
        crate::prepare::search_preparation(rotations) == Ok::<
            Option<Seq<Seq<Block>>>,
            SearchError,
        >(Some(q.patterns)),
        crate::prepare::search_preparation(moved_all(rotations, a, b)) == Ok::<
            Option<Seq<Seq<Block>>>,
            SearchError,
        >(Some(w.patterns)),
        forall|i: int| 0 <= i < rotations.len() ==> move_fits(#[trigger] rotations[i], a, b),
    ensures
        forall|k: int| w.hit(k) <==> #[trigger] q.hit(k),
{
    let other = moved_all(rotations, a, b);
    crate::prepare::lemma_prepared_patterns(rotations);
    crate::prepare::lemma_prepared_patterns(other);
    assert forall|i: int| 0 <= i < rotations.len() implies move_fits(#[trigger] rotations[i], a, b)
        && q.patterns[i] == crate::prepare::searchable(rotations[i]) && w.patterns[i]
        == crate::prepare::searchable(moved(rotations[i], a, b)) by {
        assert(other[i] == moved(rotations[i], a, b));
        assert(w.patterns[i] == crate::prepare::searchable(other[i]));
    }
    assert forall|k: int| w.hit(k) <==> #[trigger] q.hit(k) by {
        lemma_moved_hit(q, w, rotations, a, b, k);
    }
}

/// Queries with matches at the same indices around centres that lie `(a, b)` apart give matches
/// that lie `(a, b)` apart.
proof fn lemma_moved_answer(
    q: crate::search::Query,
    w: crate::search::Query,
    start_group: int,
    found: (i32, i32, i64),
    a: int,
    b: int,
    r: Result<Option<(i32, i32, i64)>, SearchError>,
)
    requires
        w.start_x == q.start_x - a,
        w.start_z == q.start_z - b,
        0 <= start_group,
        q.found(start_group, found.0 as int, found.1 as int, found.2 as int),
        crate::spiral::index_of_offset((found.0 - q.start_x, found.1 - q.start_z)) <= w.limit(),
        forall|k: int| w.hit(k) <==> #[trigger] q.hit(k),
        w.answered(start_group, r),
        r != Ok::<Option<(i32, i32, i64)>, SearchError>(None),
    ensures
        r matches Ok(Some((x, z, resume))) && x == found.0 - a && z == found.1 - b && resume
            == found.2,
{
    let k = choose|k: int|
        {
            &&& #[trigger] q.first_hit(8 * start_group, k)
            &&& k <= q.limit()
            &&& (found.0 as int, found.1 as int) == crate::spiral::spiral_position(
                q.start_x,
                q.start_z,
                k,
            )
            &&& found.2 == k / 8 + 1
        };
    let offset = (found.0 - q.start_x, found.1 - q.start_z);
    crate::spiral::law_spiral_is_surjective(offset);
    crate::spiral::law_spiral_is_injective(k, crate::spiral::index_of_offset(offset));
    crate::spiral::lemma_index_limit(w.start_x, w.start_z, k);
    let there = ((found.0 - a) as i32, (found.1 - b) as i32, found.2);
    assert(w.first_hit(8 * start_group, k)) by {
        assert(w.hit(k) <==> q.hit(k));
        assert forall|m: int| 8 * start_group <= m < k implies !#[trigger] w.hit(m) by {
            assert(w.hit(m) <==> q.hit(m));
        }
    }
    assert(w.found(start_group, there.0 as int, there.1 as int, there.2 as int));
    crate::search::law_answers_agree(
        w,
        start_group,
        r,
        Ok::<Option<(i32, i32, i64)>, SearchError>(Some(there)),
    );
}

/// Moving all blocks one way and the centre the other way moves the match with the centre, as long
/// as the coordinates fit and the match does not come to lie beyond the last index around the new
/// centre.
pub proof fn law_moved_pattern_moves_match(
    seed: i64,
    start_x: i32,
    start_z: i32,
    bt: BedrockType,
    rotations: Seq<Seq<Block>>,
    start_group: i64,
    found: (i32, i32, i64),
    a: int,
    b: int,
    new_x: i32,
    new_z: i32,
    r: Result<Option<(i32, i32, i64)>, SearchError>,
)
    requires
        0 <= start_group,
        crate::search::search_answer(
            seed,
            start_x,
            start_z,
            bt,
            rotations,
            start_group,
            Ok::<Option<(i32, i32, i64)>, SearchError>(Some(found)),
        ),
        new_x == start_x - a,
        new_z == start_z - b,
        forall|i: int| 0 <= i < rotations.len() ==> move_fits(#[trigger] rotations[i], a, b),
        crate::spiral::index_of_offset((found.0 - start_x, found.1 - start_z))
            <= crate::spiral::index_limit(new_x, new_z),
        crate::search::search_answer(
            seed,
            new_x,
            new_z,
            bt,
            moved_all(rotations, a, b),
            start_group,
            r,
        ),
        r != Ok::<Option<(i32, i32, i64)>, SearchError>(None),
    ensures
        r matches Ok(Some((x, z, resume))) && x == found.0 - a && z == found.1 - b && resume
            == found.2,
{
    let other = moved_all(rotations, a, b);
    lemma_moved_preparation(rotations, a, b);
    match crate::prepare::search_preparation(rotations) {
        Ok(Some(patterns)) => {
            let q = crate::search::query_for(seed, start_x, start_z, bt, patterns);
            let moved_patterns = crate::prepare::search_preparation(other)->Ok_0->Some_0;
            let w = crate::search::query_for(seed, new_x, new_z, bt, moved_patterns);
            lemma_moved_query(q, w, rotations, a, b);
            lemma_moved_answer(q, w, start_group as int, found, a, b, r);
        },
        _ => {
            let offset = crate::spiral::spiral_offset(8 * start_group as int);
            assert((found.0 - start_x, found.1 - start_z) == offset);
            crate::spiral::law_spiral_is_surjective(offset);
            crate::spiral::law_spiral_is_injective(
                8 * start_group as int,
                crate::spiral::index_of_offset(offset),
            );
        },
    }
}

} // verus!
