//! Preparing the rotations of a pattern for the search: impossible demands are refused, the rarest
//! blocks are put first, and blocks that every position satisfies are dropped.
use vstd::prelude::*;
use vstd::string::StringExecFns;

use crate::bedrock::{clamp01, Block, Probability};
use crate::text::push_signed;

verus! {

/// Why a search finds nothing.
#[derive(Clone, Copy, PartialEq, Eq, Debug, Structural)]
pub enum SearchError {
    /// A block that is always bedrock must not be bedrock.
    AlwaysBedrock { x: i32, y: i32, z: i32 },
    /// A block that is never bedrock must be bedrock.
    NeverBedrock { x: i32, y: i32, z: i32 },
    /// The spiral has reached the edge of the coordinates or indices without a match.
    SpaceExhausted,
    /// A match was claimed in a chunk that holds none.
    Unconfirmed { chunk: i64 },
}

/// What an error says.
pub open spec fn error_text(e: SearchError) -> Seq<char> {
    match e {
        SearchError::AlwaysBedrock { x, y, z } => block_text(x, y, z)
            + " is always bedrock but declared as air. No solution exists."@,
        SearchError::NeverBedrock { x, y, z } => block_text(x, y, z)
            + " is never bedrock but declared as bedrock. No solution exists."@,
        SearchError::SpaceExhausted => "The spiral has reached the edge of the world."@,
        SearchError::Unconfirmed { chunk } => "A match was claimed in chunk "@
            + crate::text::signed_decimal(chunk as int) + ", which holds none."@,
    }
}

/// The name of a block in an error.
pub open spec fn block_text(x: i32, y: i32, z: i32) -> Seq<char> {
    "Block ("@ + crate::text::signed_decimal(x as int) + ","@ + crate::text::signed_decimal(
        y as int,
    ) + ","@ + crate::text::signed_decimal(z as int) + ")"@
}

fn push_block(s: &mut String, x: i32, y: i32, z: i32)
    ensures
        final(s)@ == old(s)@ + block_text(x, y, z),
{
    let ghost before = s@;
    s.append("Block (");
    push_signed(s, x as i64);
    s.append(",");
    push_signed(s, y as i64);
    s.append(",");
    push_signed(s, z as i64);
    s.append(")");
    assert(s@ =~= before + block_text(x, y, z));
}

impl SearchError {
    /// The error in words.
    pub fn message(&self) -> (s: String)
        ensures
            s@ == error_text(*self),
    {
        let mut s: String = String::new();
        match *self {
            SearchError::AlwaysBedrock { x, y, z } => {
                push_block(&mut s, x, y, z);
                s.append(" is always bedrock but declared as air. No solution exists.");
            },
            SearchError::NeverBedrock { x, y, z } => {
                push_block(&mut s, x, y, z);
                s.append(" is never bedrock but declared as bedrock. No solution exists.");
            },
            SearchError::SpaceExhausted => {
                s.append("The spiral has reached the edge of the world.");
            },
            SearchError::Unconfirmed { chunk } => {
                s.append("A match was claimed in chunk ");
                push_signed(&mut s, chunk);
                s.append(", which holds none.");
            },
        }
        assert(s@ =~= error_text(*self));
        s
    }
}

/// What is impossible about a block's demand, if anything is.
pub open spec fn block_error(b: Block) -> Option<SearchError> {
    if b.probability.fifths >= 5 && !b.should_be_bedrock {
        Some(SearchError::AlwaysBedrock { x: b.x, y: b.y, z: b.z })
    } else if b.probability.fifths <= 0 && b.should_be_bedrock {
        Some(SearchError::NeverBedrock { x: b.x, y: b.y, z: b.z })
    } else {
        None
    }
}

/// What is impossible about the first block of a pattern that demands the impossible.
pub open spec fn first_error(v: Seq<Block>) -> Option<SearchError>
    decreases v.len(),
{
    if v.len() == 0 {
        None
    } else if block_error(v[0]) is Some {
        block_error(v[0])
    } else {
        first_error(v.drop_first())
    }
}

/// Looks for a block that demands the impossible.
pub fn find_error(v: &Vec<Block>) -> (r: Option<SearchError>)
    ensures
        r == first_error(v@),
{
    let mut i: usize = 0;
    assert(v@.skip(0) =~= v@);
    while i < v.len()
        invariant
            0 <= i <= v@.len(),
            first_error(v@) == first_error(v@.skip(i as int)),
        decreases v@.len() - i,
    {
        let b: Block = v[i];
        assert(v@.skip(i as int)[0] == b);
        assert(v@.skip(i as int).drop_first() =~= v@.skip(i + 1));
        if b.probability.fifths >= 5 && !b.should_be_bedrock {
            return Some(SearchError::AlwaysBedrock { x: b.x, y: b.y, z: b.z });
        }
        if b.probability.fifths <= 0 && b.should_be_bedrock {
            return Some(SearchError::NeverBedrock { x: b.x, y: b.y, z: b.z });
        }
        i = i + 1;
    }
    None
}

/// How likely a position is to fail a block's demand, in fifths.
pub open spec fn rarity(b: Block) -> int {
    let p = crate::bedrock::clamped_fifths(b.probability.fifths as int);
    if b.should_be_bedrock {
        5 - p
    } else {
        p
    }
}

/// Computes the rarity of a block.
fn block_rarity(b: &Block) -> (r: i32)
    ensures
        r == rarity(*b),
        0 <= r <= 5,
{
    let p: Probability = clamp01(b.probability);
    if b.should_be_bedrock {
        5 - p.fifths
    } else {
        p.fifths
    }
}

/// The blocks of one rarity, in the order in which they stand in a pattern.
pub open spec fn with_rarity(v: Seq<Block>, k: int) -> Seq<Block> {
    v.filter(|b: Block| rarity(b) == k)
}

/// The blocks of a pattern from rarity `top` down to rarity `low`.
pub open spec fn rarest_first(v: Seq<Block>, top: int, low: int) -> Seq<Block>
    decreases top - low + 1,
{
    if top < low {
        Seq::empty()
    } else {
        rarest_first(v, top, low + 1) + with_rarity(v, low)
    }
}

/// Not every position satisfies the block.
pub open spec fn is_uncertain(b: Block) -> bool {
    let p = crate::bedrock::clamped_fifths(b.probability.fifths as int);
    if b.should_be_bedrock {
        p < 5
    } else {
        0 < p
    }
}

/// A pattern as the search tests it: the rarest blocks first and, among equally rare ones, in the
/// order given; blocks that every position satisfies are left out.
pub open spec fn searchable(v: Seq<Block>) -> Seq<Block> {
    rarest_first(v, 5, 0).filter(|b: Block| is_uncertain(b))
}

/// Sorts the blocks of a pattern by rarity, the rarest first. Equally rare blocks keep their order.
pub fn sort_by_rarity(v: &Vec<Block>) -> (r: Vec<Block>)
    ensures
        r@ == rarest_first(v@, 5, 0),
{
    let mut r: Vec<Block> = Vec::with_capacity(v.len());
    let mut k: i32 = 5;
    while k >= 0
        invariant
            -1 <= k <= 5,
            r@ == rarest_first(v@, 5, k + 1),
        decreases k + 1,
    {
        let ghost before = r@;
        let ghost of_rarity = |b: Block| rarity(b) == k;
        let mut i: usize = 0;
        assert(v@.take(0).filter(of_rarity) =~= Seq::empty()) by {
            reveal(Seq::filter);
        }
        while i < v.len()
            invariant
                0 <= k <= 5,
                0 <= i <= v@.len(),
                of_rarity == (|b: Block| rarity(b) == k),
                r@ == before + v@.take(i as int).filter(of_rarity),
            decreases v@.len() - i,
        {
            let b: Block = v[i];
            proof {
                assert(v@.take(i + 1).drop_last() =~= v@.take(i as int));
                assert(v@.take(i + 1).last() == b);
                reveal(Seq::filter);
            }
            if block_rarity(&b) == k {
                r.push(b);
            }
            assert(r@ =~= before + v@.take(i + 1).filter(of_rarity));
            i = i + 1;
        }
        assert(v@.take(v@.len() as int) =~= v@);
        k = k - 1;
    }
    r
}

/// Leaves out the blocks that every position satisfies.
pub fn drop_certain(v: &Vec<Block>) -> (r: Vec<Block>)
    ensures
        r@ == v@.filter(|b: Block| is_uncertain(b)),
{
    let mut r: Vec<Block> = Vec::new();
    let ghost uncertain = |b: Block| is_uncertain(b);
    let mut i: usize = 0;
    assert(v@.take(0).filter(uncertain) =~= Seq::empty()) by {
        reveal(Seq::filter);
    }
    while i < v.len()
        invariant
            0 <= i <= v@.len(),
            uncertain == (|b: Block| is_uncertain(b)),
            r@ == v@.take(i as int).filter(uncertain),
        decreases v@.len() - i,
    {
        let b: Block = v[i];
        proof {
            assert(v@.take(i + 1).drop_last() =~= v@.take(i as int));
            assert(v@.take(i + 1).last() == b);
            reveal(Seq::filter);
        }
        let p: Probability = clamp01(b.probability);
        let keep: bool = if b.should_be_bedrock {
            p.fifths < 5
        } else {
            p.fifths > 0
        };
        if keep {
            r.push(b);
        }
        assert(r@ =~= v@.take(i + 1).filter(uncertain));
        i = i + 1;
    }
    assert(v@.take(v@.len() as int) =~= v@);
    r
}

/// What is left to search for of the rotations of a pattern.
pub enum Preparation {
    /// Some rotation lies at every position.
    Everywhere,
    /// The rotations to look for.
    Patterns(Vec<Vec<Block>>),
}

/// What is left of some rotations: `None` where one of them is satisfied at every position, and an
/// error where one demands the impossible. The first rotation for which either holds decides.
pub open spec fn prepared(rotations: Seq<Seq<Block>>) -> Result<
    Option<Seq<Seq<Block>>>,
    SearchError,
>
    decreases rotations.len(),
{
    if rotations.len() == 0 {
        Ok(Some(Seq::empty()))
    } else {
        match prepared(rotations.drop_last()) {
            Ok(Some(before)) => match first_error(rotations.last()) {
                Some(e) => Err(e),
                None => if searchable(rotations.last()).len() == 0 {
                    Ok(None)
                } else {
                    Ok(Some(before.push(searchable(rotations.last()))))
                },
            },
            stopped => stopped,
        }
    }
}

/// What is left of the rotations of a search. No rotations at all are satisfied everywhere.
pub open spec fn search_preparation(rotations: Seq<Seq<Block>>) -> Result<
    Option<Seq<Seq<Block>>>,
    SearchError,
> {
    if rotations.len() == 0 {
        Ok(None)
    } else {
        prepared(rotations)
    }
}

/// Where one of the first rotations decides, the further ones make no difference.
pub proof fn lemma_stop_decides(rotations: Seq<Seq<Block>>, n: int)
    requires
        0 <= n <= rotations.len(),
        !(prepared(rotations.take(n)) matches Ok(Some(_))),
    ensures
        prepared(rotations) == prepared(rotations.take(n)),
    decreases rotations.len() - n,
{
    if n == rotations.len() {
        assert(rotations.take(n) =~= rotations);
    } else {
        assert(rotations.take(n + 1).drop_last() =~= rotations.take(n));
        lemma_stop_decides(rotations, n + 1);
    }
}

/// Prepares the rotations of a pattern for the search.
pub fn prepare_rotations(rotations: &Vec<Vec<Block>>) -> (r: Result<Preparation, SearchError>)
    ensures
        match r {
            Ok(Preparation::Patterns(p)) => search_preparation(
                crate::rotations::patterns_of(rotations@),
            ) == Ok::<_, SearchError>(Some(crate::rotations::patterns_of(p@))),
            Ok(Preparation::Everywhere) => search_preparation(
                crate::rotations::patterns_of(rotations@),
            ) == Ok::<Option<Seq<Seq<Block>>>, SearchError>(None),
            Err(e) => search_preparation(crate::rotations::patterns_of(rotations@)) == Err::<
                Option<Seq<Seq<Block>>>,
                SearchError,
            >(e),
        },
{
    if rotations.len() == 0 {
        return Ok(Preparation::Everywhere);
    }
    let ghost all = crate::rotations::patterns_of(rotations@);
    let mut patterns: Vec<Vec<Block>> = Vec::with_capacity(rotations.len());
    let mut i: usize = 0;
    assert(all.take(0) =~= Seq::empty());
    assert(crate::rotations::patterns_of(patterns@) =~= Seq::empty());
    while i < rotations.len()
        invariant
            0 <= i <= rotations@.len(),
            rotations@.len() > 0,
            all == crate::rotations::patterns_of(rotations@),
            prepared(all.take(i as int)) == Ok::<_, SearchError>(
                Some(crate::rotations::patterns_of(patterns@)),
            ),
        decreases rotations@.len() - i,
    {
        proof {
            assert(all.take(i + 1).drop_last() =~= all.take(i as int));
            assert(all.take(i + 1).last() == rotations@[i as int]@);
        }
        match find_error(&rotations[i]) {
            Some(e) => {
                proof {
                    lemma_stop_decides(all, i + 1);
                }
                return Err(e);
            },
            None => {},
        }
        let sorted = sort_by_rarity(&rotations[i]);
        let blocks = drop_certain(&sorted);
        if blocks.len() == 0 {
            proof {
                lemma_stop_decides(all, i + 1);
            }
            return Ok(Preparation::Everywhere);
        }
        let ghost before = patterns@;
        patterns.push(blocks);
        assert(crate::rotations::patterns_of(patterns@) =~= crate::rotations::patterns_of(
            before,
        ).push(searchable(all[i as int])));
        i = i + 1;
    }
    assert(all.take(rotations@.len() as int) =~= all);
    Ok(Preparation::Patterns(patterns))
}

proof fn lemma_filter_count(v: Seq<Block>, p: spec_fn(Block) -> bool, b: Block)
    ensures
        v.filter(p).to_multiset().count(b) == if p(b) {
            v.to_multiset().count(b)
        } else {
            0
        },
    decreases v.len(),
{
    broadcast use vstd::multiset::group_multiset_axioms;
    broadcast use vstd::seq_lib::group_to_multiset_ensures;

    reveal(Seq::filter);
    if v.len() > 0 {
        lemma_filter_count(v.drop_last(), p, b);
        assert(v =~= v.drop_last().push(v.last()));
        vstd::seq_lib::to_multiset_build(v.drop_last(), v.last());
        vstd::seq_lib::to_multiset_build(v.drop_last().filter(p), v.last());
    }
}

proof fn lemma_rarest_first_count(v: Seq<Block>, top: int, low: int, b: Block)
    ensures
        rarest_first(v, top, low).to_multiset().count(b) == if low <= rarity(b) <= top {
            v.to_multiset().count(b)
        } else {
            0
        },
    decreases top - low + 1,
{
    broadcast use vstd::multiset::group_multiset_axioms;

    if top < low {
        broadcast use vstd::seq_lib::group_to_multiset_ensures;

        assert(!rarest_first(v, top, low).contains(b));
    } else {
        lemma_rarest_first_count(v, top, low + 1, b);
        lemma_filter_count(v, |c: Block| rarity(c) == low, b);
        vstd::seq_lib::lemma_multiset_commutative(
            rarest_first(v, top, low + 1),
            with_rarity(v, low),
        );
    }
}

/// Preparing a pattern neither adds nor loses a block that some position fails.
pub proof fn law_searchable_keeps_uncertain_blocks(v: Seq<Block>)
    ensures
        searchable(v).to_multiset() == v.filter(|b: Block| is_uncertain(b)).to_multiset(),
{
    broadcast use vstd::multiset::group_multiset_axioms;

    let p = |b: Block| is_uncertain(b);
    assert forall|b: Block| searchable(v).to_multiset().count(b) == #[trigger] v.filter(
        p,
    ).to_multiset().count(b) by {
        lemma_filter_count(rarest_first(v, 5, 0), p, b);
        lemma_filter_count(v, p, b);
        lemma_rarest_first_count(v, 5, 0, b);
    }
    assert(searchable(v).to_multiset() =~= v.filter(p).to_multiset());
}

/// Looking for a prepared pattern is looking for the pattern: a position matches exactly if it
/// satisfies every block that is not satisfied everywhere.
pub proof fn law_searchable_decides_pattern(v: Seq<Block>, x: int, z: int, dlo: i64, dhi: i64)
    ensures
        crate::blocks::pattern_at(searchable(v), x, z, dlo, dhi) <==> (forall|i: int|
            0 <= i < v.len() && is_uncertain(#[trigger] v[i]) ==> crate::blocks::block_satisfied(
                v[i],
                x,
                z,
                dlo,
                dhi,
            )),
{
    broadcast use vstd::seq_lib::group_to_multiset_ensures;

    let p = |b: Block| is_uncertain(b);
    let s = searchable(v);
    assert forall|b: Block| #[trigger] s.contains(b) <==> v.contains(b) && is_uncertain(b) by {
        lemma_filter_count(rarest_first(v, 5, 0), p, b);
        lemma_rarest_first_count(v, 5, 0, b);
        assert(s.contains(b) <==> s.to_multiset().count(b) > 0);
        assert(v.contains(b) <==> v.to_multiset().count(b) > 0);
    }
    if crate::blocks::pattern_at(s, x, z, dlo, dhi) {
        assert forall|i: int| 0 <= i < v.len() && is_uncertain(#[trigger] v[i]) implies
            crate::blocks::block_satisfied(v[i], x, z, dlo, dhi) by {
            assert(v.contains(v[i]));
            assert(s.contains(v[i]));
            let j = choose|j: int| 0 <= j < s.len() && s[j] == v[i];
            assert(crate::blocks::block_satisfied(s[j], x, z, dlo, dhi));
        }
    }
    if forall|i: int|
        0 <= i < v.len() && is_uncertain(#[trigger] v[i]) ==> crate::blocks::block_satisfied(
            v[i],
            x,
            z,
            dlo,
            dhi,
        ) {
        assert forall|j: int| 0 <= j < s.len() implies #[trigger] crate::blocks::block_satisfied(
            s[j],
            x,
            z,
            dlo,
            dhi,
        ) by {
            assert(s.contains(s[j]));
            assert(v.contains(s[j]));
            let i = choose|i: int| 0 <= i < v.len() && v[i] == s[j];
            assert(is_uncertain(v[i]));
        }
    }
}

proof fn lemma_rarest_first_bounds(v: Seq<Block>, top: int, low: int)
    ensures
        forall|i: int|
            0 <= i < rarest_first(v, top, low).len() ==> low <= rarity(
                #[trigger] rarest_first(v, top, low)[i],
            ) <= top,
        forall|i: int, j: int|
            0 <= i < j < rarest_first(v, top, low).len() ==> rarity(
                #[trigger] rarest_first(v, top, low)[i],
            ) >= rarity(#[trigger] rarest_first(v, top, low)[j]),
    decreases top - low + 1,
{
    if top >= low {
        lemma_rarest_first_bounds(v, top, low + 1);
        let a = rarest_first(v, top, low + 1);
        let p = |b: Block| rarity(b) == low;
        let b = with_rarity(v, low);
        let s = rarest_first(v, top, low);
        assert forall|i: int| 0 <= i < b.len() implies rarity(#[trigger] b[i]) == low by {
            v.lemma_filter_pred(p, i);
        }
        assert forall|i: int| 0 <= i < s.len() implies low <= rarity(#[trigger] s[i]) <= top by {
            if i < a.len() {
                assert(s[i] == a[i]);
            } else {
                assert(s[i] == b[i - a.len()]);
            }
        }
        assert forall|i: int, j: int| 0 <= i < j < s.len() implies rarity(#[trigger] s[i])
            >= rarity(#[trigger] s[j]) by {
            if j < a.len() {
                assert(s[i] == a[i] && s[j] == a[j]);
            } else {
                assert(s[j] == b[j - a.len()]);
            }
        }
    }
}

/// Sorting by rarity puts the rarest blocks first, and keeps the order of equally rare ones.
pub proof fn law_rarest_first_is_stable_sort(v: Seq<Block>, k: int)
    ensures
        forall|i: int, j: int|
            0 <= i < j < rarest_first(v, 5, 0).len() ==> rarity(
                #[trigger] rarest_first(v, 5, 0)[i],
            ) >= rarity(#[trigger] rarest_first(v, 5, 0)[j]),
        rarest_first(v, 5, 0).to_multiset() == v.to_multiset(),
        with_rarity(rarest_first(v, 5, 0), k) == with_rarity(v, k),
{
    broadcast use vstd::multiset::group_multiset_axioms;

    lemma_rarest_first_bounds(v, 5, 0);
    assert forall|b: Block| rarest_first(v, 5, 0).to_multiset().count(b)
        == #[trigger] v.to_multiset().count(b) by {
        lemma_rarest_first_count(v, 5, 0, b);
    }
    assert(rarest_first(v, 5, 0).to_multiset() =~= v.to_multiset());
    lemma_rarest_first_group(v, 5, 0, k);
    if !(0 <= k <= 5) {
        v.lemma_all_neg_filter_empty(|b: Block| rarity(b) == k);
    }
}

proof fn lemma_rarest_first_group(v: Seq<Block>, top: int, low: int, k: int)
    ensures
        with_rarity(rarest_first(v, top, low), k) == if low <= k <= top {
            with_rarity(v, k)
        } else {
            Seq::empty()
        },
    decreases top - low + 1,
{
    let p = |b: Block| rarity(b) == k;
    if top < low {
        rarest_first(v, top, low).lemma_all_neg_filter_empty(p);
    } else {
        lemma_rarest_first_group(v, top, low + 1, k);
        let a = rarest_first(v, top, low + 1);
        let q = |b: Block| rarity(b) == low;
        let b = with_rarity(v, low);
        Seq::filter_distributes_over_add(a, b, p);
        if k == low {
            lemma_filter_twice(v, q);
            assert(p =~= q);
        } else {
            assert forall|i: int| 0 <= i < b.len() implies !p(#[trigger] b[i]) by {
                v.lemma_filter_pred(q, i);
            }
            b.lemma_all_neg_filter_empty(p);
        }
        assert(with_rarity(rarest_first(v, top, low), k) =~= if low <= k <= top {
            with_rarity(v, k)
        } else {
            Seq::empty()
        });
    }
}

proof fn lemma_filter_twice(v: Seq<Block>, p: spec_fn(Block) -> bool)
    ensures
        v.filter(p).filter(p) == v.filter(p),
    decreases v.len(),
{
    reveal(Seq::filter);
    if v.len() > 0 {
        let w = v.drop_last();
        lemma_filter_twice(w, p);
        if p(v.last()) {
            assert(w.filter(p).push(v.last()).drop_last() =~= w.filter(p));
        }
    }
}

/// A pattern whose blocks are all satisfied everywhere lies everywhere. So does a pattern without
/// blocks.
pub proof fn law_certain_pattern_lies_everywhere(v: Seq<Block>)
    requires
        first_error(v) is None,
        forall|i: int| 0 <= i < v.len() ==> !is_uncertain(#[trigger] v[i]),
    ensures
        search_preparation(seq![v]) == Ok::<Option<Seq<Seq<Block>>>, SearchError>(None),
{
    broadcast use vstd::seq_lib::group_to_multiset_ensures;

    let p = |b: Block| is_uncertain(b);
    v.lemma_all_neg_filter_empty(p);
    law_searchable_keeps_uncertain_blocks(v);
    assert(searchable(v).len() == searchable(v).to_multiset().len());
    assert(v.filter(p).len() == v.filter(p).to_multiset().len());
    reveal_with_fuel(prepared, 2);
    assert(seq![v].drop_last() =~= Seq::empty());
    assert(seq![v].last() == v);
}

proof fn lemma_filter_len_by_index(v: Seq<Block>, w: Seq<Block>)
    requires
        v.len() == w.len(),
        forall|i: int| 0 <= i < v.len() ==> is_uncertain(#[trigger] v[i]) == is_uncertain(w[i]),
    ensures
        v.filter(|b: Block| is_uncertain(b)).len() == w.filter(|b: Block| is_uncertain(b)).len(),
    decreases v.len(),
{
    reveal(Seq::filter);
    if v.len() > 0 {
        assert(is_uncertain(v[v.len() - 1]) == is_uncertain(w[w.len() - 1]));
        assert forall|i: int| 0 <= i < v.drop_last().len() implies is_uncertain(
            #[trigger] v.drop_last()[i],
        ) == is_uncertain(w.drop_last()[i]) by {
            assert(is_uncertain(v[i]) == is_uncertain(w[i]));
        }
        lemma_filter_len_by_index(v.drop_last(), w.drop_last());
    }
}

/// Two patterns whose blocks are uncertain alike have equally many blocks to look for.
pub proof fn lemma_searchable_len_by_index(v: Seq<Block>, w: Seq<Block>)
    requires
        v.len() == w.len(),
        forall|i: int| 0 <= i < v.len() ==> is_uncertain(#[trigger] v[i]) == is_uncertain(w[i]),
    ensures
        searchable(v).len() == searchable(w).len(),
{
    broadcast use vstd::seq_lib::group_to_multiset_ensures;

    let p = |b: Block| is_uncertain(b);
    law_searchable_keeps_uncertain_blocks(v);
    law_searchable_keeps_uncertain_blocks(w);
    assert(searchable(v).len() == searchable(v).to_multiset().len());
    assert(searchable(w).len() == searchable(w).to_multiset().len());
    assert(v.filter(p).len() == v.filter(p).to_multiset().len());
    assert(w.filter(p).len() == w.filter(p).to_multiset().len());
    lemma_filter_len_by_index(v, w);
}

/// The patterns that are left of some rotations, one by one.
pub proof fn lemma_prepared_patterns(rotations: Seq<Seq<Block>>)
    ensures
        prepared(rotations) matches Ok(Some(patterns)) ==> {
            &&& patterns.len() == rotations.len()
            &&& forall|i: int|
                0 <= i < rotations.len() ==> patterns[i] == searchable(#[trigger] rotations[i])
        },
    decreases rotations.len(),
{
    if rotations.len() > 0 {
        lemma_prepared_patterns(rotations.drop_last());
        if let Ok(Some(patterns)) = prepared(rotations) {
            assert forall|i: int| 0 <= i < rotations.len() implies patterns[i] == searchable(
                #[trigger] rotations[i],
            ) by {
                if i < rotations.len() - 1 {
                    assert(rotations.drop_last()[i] == rotations[i]);
                }
            }
        }
    }
}

/// Rotations that are alike one by one, as to what is impossible and what lies everywhere, are
/// alike as a whole.
pub proof fn lemma_prepared_alike(r: Seq<Seq<Block>>, s: Seq<Seq<Block>>)
    requires
        r.len() == s.len(),
        forall|i: int|
            0 <= i < r.len() ==> (first_error(#[trigger] r[i]) is Some <==> first_error(
                s[i],
            ) is Some) && searchable(r[i]).len() == searchable(s[i]).len(),
    ensures
        prepared(r) is Err <==> prepared(s) is Err,
        (prepared(r) matches Ok(None)) <==> (prepared(s) matches Ok(None)),
    decreases r.len(),
{
    if r.len() > 0 {
        let a = r.drop_last();
        let b = s.drop_last();
        assert forall|i: int| 0 <= i < a.len() implies (first_error(#[trigger] a[i]) is Some
            <==> first_error(b[i]) is Some) && searchable(a[i]).len() == searchable(
            b[i],
        ).len() by {
            assert(a[i] == r[i] && b[i] == s[i]);
        }
        lemma_prepared_alike(a, b);
        assert(r.last() == r[r.len() - 1] && s.last() == s[s.len() - 1]);
    }
}

/// All rotations of a pattern have equally many blocks to look for.
pub proof fn law_rotations_have_equal_length(v: Seq<Block>, times: int)
    ensures
        searchable(crate::rotations::rotated(v, times)).len() == searchable(v).len(),
{
    lemma_searchable_len_by_index(v, crate::rotations::rotated(v, times));
}

/// A rotation demands the impossible exactly if the pattern itself does.
pub proof fn law_rotations_share_impossibility(v: Seq<Block>, times: int)
    ensures
        first_error(crate::rotations::rotated(v, times)) is Some <==> first_error(v) is Some,
{
    lemma_first_error(v);
    let w = crate::rotations::rotated(v, times);
    lemma_first_error(w);
    assert forall|i: int| 0 <= i < v.len() implies (block_error(#[trigger] v[i]) is Some
        <==> block_error(w[i]) is Some) by {}
    if first_error(v) is Some {
        let i = choose|i: int| 0 <= i < v.len() && block_error(#[trigger] v[i]) is Some;
        assert(block_error(w[i]) is Some);
    }
    if first_error(w) is Some {
        let i = choose|i: int| 0 <= i < w.len() && block_error(#[trigger] w[i]) is Some;
        assert(block_error(v[i]) is Some);
    }
}

/// A pattern demands the impossible exactly if one of its blocks does.
pub proof fn lemma_first_error(v: Seq<Block>)
    ensures
        first_error(v) is Some <==> (exists|i: int|
            0 <= i < v.len() && block_error(#[trigger] v[i]) is Some),
    decreases v.len(),
{
    if v.len() > 0 {
        let w = v.drop_first();
        lemma_first_error(w);
        if exists|i: int| 0 <= i < v.len() && block_error(#[trigger] v[i]) is Some {
            let i = choose|i: int| 0 <= i < v.len() && block_error(#[trigger] v[i]) is Some;
            if i > 0 {
                assert(w[i - 1] == v[i]);
            }
        }
        if exists|i: int| 0 <= i < w.len() && block_error(#[trigger] w[i]) is Some {
            let i = choose|i: int| 0 <= i < w.len() && block_error(#[trigger] w[i]) is Some;
            assert(v[i + 1] == w[i]);
        }
    }
}

/// Patterns are left of some rotations exactly if none of these demands the impossible and none is
/// satisfied everywhere.
pub proof fn lemma_prepared_each(rotations: Seq<Seq<Block>>)
    ensures
        (prepared(rotations) matches Ok(Some(_))) <==> (forall|i: int|
            0 <= i < rotations.len() ==> first_error(#[trigger] rotations[i]) is None
                && searchable(rotations[i]).len() > 0),
    decreases rotations.len(),
{
    if rotations.len() > 0 {
        let before = rotations.drop_last();
        lemma_prepared_each(before);
        assert(rotations.last() == rotations[rotations.len() - 1]);
        assert forall|i: int| 0 <= i < before.len() implies #[trigger] before[i]
            == rotations[i] by {}
        if forall|i: int|
            0 <= i < before.len() ==> first_error(#[trigger] before[i]) is None && searchable(
                before[i],
            ).len() > 0 {
            assert forall|i: int| 0 <= i < rotations.len() - 1 implies first_error(
                #[trigger] rotations[i],
            ) is None && searchable(rotations[i]).len() > 0 by {
                assert(before[i] == rotations[i]);
            }
        }
    }
}

/// Two patterns with the same blocks, in whatever order, demand the impossible alike, have equally
/// many blocks to look for and lie at the same positions.
pub proof fn lemma_same_blocks(v: Seq<Block>, w: Seq<Block>, x: int, z: int, dlo: i64, dhi: i64)
    requires
        v.to_multiset() == w.to_multiset(),
    ensures
        first_error(v) is Some <==> first_error(w) is Some,
        searchable(v).len() == searchable(w).len(),
        crate::blocks::pattern_at(searchable(v), x, z, dlo, dhi) <==> crate::blocks::pattern_at(
            searchable(w),
            x,
            z,
            dlo,
            dhi,
        ),
{
    broadcast use vstd::seq_lib::group_to_multiset_ensures;
    broadcast use vstd::multiset::group_multiset_axioms;

    let p = |b: Block| is_uncertain(b);
    law_searchable_keeps_uncertain_blocks(v);
    law_searchable_keeps_uncertain_blocks(w);
    assert forall|b: Block| #[trigger] v.filter(p).to_multiset().count(b) == w.filter(
        p,
    ).to_multiset().count(b) by {
        lemma_filter_count(v, p, b);
        lemma_filter_count(w, p, b);
    }
    assert(searchable(v).to_multiset() =~= searchable(w).to_multiset());
    assert(searchable(v).len() == searchable(v).to_multiset().len());
    assert(searchable(w).len() == searchable(w).to_multiset().len());
    lemma_blocks_shared(v, w);
    lemma_blocks_shared(w, v);
    lemma_first_error(v);
    lemma_first_error(w);
    lemma_blocks_shared(searchable(v), searchable(w));
    lemma_blocks_shared(searchable(w), searchable(v));
    assert forall|i: int|
        0 <= i < searchable(v).len() && crate::blocks::pattern_at(
            searchable(w),
            x,
            z,
            dlo,
            dhi,
        ) implies #[trigger] crate::blocks::block_satisfied(searchable(v)[i], x, z, dlo, dhi) by {
        let j = choose|j: int|
            0 <= j < searchable(w).len() && searchable(w)[j] == searchable(v)[i];
        assert(crate::blocks::block_satisfied(searchable(w)[j], x, z, dlo, dhi));
    }
    assert forall|i: int|
        0 <= i < searchable(w).len() && crate::blocks::pattern_at(
            searchable(v),
            x,
            z,
            dlo,
            dhi,
        ) implies #[trigger] crate::blocks::block_satisfied(searchable(w)[i], x, z, dlo, dhi) by {
        let j = choose|j: int|
            0 <= j < searchable(v).len() && searchable(v)[j] == searchable(w)[i];
        assert(crate::blocks::block_satisfied(searchable(v)[j], x, z, dlo, dhi));
    }
}

proof fn lemma_blocks_shared(v: Seq<Block>, w: Seq<Block>)
    requires
        v.to_multiset() == w.to_multiset(),
    ensures
        forall|i: int| 0 <= i < v.len() ==> w.contains(#[trigger] v[i]),
{
    broadcast use vstd::seq_lib::group_to_multiset_ensures;

    assert forall|i: int| 0 <= i < v.len() implies w.contains(#[trigger] v[i]) by {
        assert(v.contains(v[i]));
        assert(v.to_multiset().count(v[i]) > 0);
    }
}

/// What is impossible about a pattern is what is impossible about one of its blocks, and about none
/// before it.
pub proof fn lemma_first_error_block(v: Seq<Block>)
    requires
        first_error(v) is Some,
    ensures
        exists|i: int|
            {
                &&& 0 <= i < v.len()
                &&& block_error(#[trigger] v[i]) == first_error(v)
                &&& forall|j: int| 0 <= j < i ==> block_error(#[trigger] v[j]) is None
            },
    decreases v.len(),
{
    if block_error(v[0]) is None {
        let w = v.drop_first();
        lemma_first_error_block(w);
        let i = choose|i: int|
            {
                &&& 0 <= i < w.len()
                &&& block_error(#[trigger] w[i]) == first_error(w)
                &&& forall|j: int| 0 <= j < i ==> block_error(#[trigger] w[j]) is None
            };
        assert(v[i + 1] == w[i]);
        assert forall|j: int| 0 <= j < i + 1 implies block_error(#[trigger] v[j]) is None by {
            if j > 0 {
                assert(w[j - 1] == v[j]);
            }
        }
    }
}

/// How likely a position is to meet a block's demand, in fifths between impossible and certain: as
/// likely as bedrock where bedrock is demanded, and as its absence where it is not.
pub open spec fn likely_met(b: Block) -> int {
    let p: int = if b.probability.fifths <= 0 {
        0
    } else if b.probability.fifths >= 5 {
        5
    } else {
        b.probability.fifths as int
    };
    if b.should_be_bedrock {
        p
    } else {
        5 - p
    }
}

/// The search looks first at the blocks whose demands are least likely to be met, so that it can
/// tell early that a pattern does not lie at a position.
pub proof fn law_least_likely_blocks_come_first(v: Seq<Block>, i: int, j: int)
    requires
        0 <= i < j < rarest_first(v, 5, 0).len(),
    ensures
        likely_met(rarest_first(v, 5, 0)[i]) <= likely_met(rarest_first(v, 5, 0)[j]),
{
    lemma_rarest_first_bounds(v, 5, 0);
}

/// Left out are exactly the blocks whose demands are met everywhere.
pub proof fn law_certain_blocks_are_left_out(b: Block)
    ensures
        is_uncertain(b) <==> likely_met(b) < 5,
        block_error(b) is Some <==> likely_met(b) == 0,
{
}

/// What an error on a block says: where the block lies, and what is impossible about it.
pub proof fn law_error_text_names_block(x: i32, y: i32, z: i32)
    ensures
        ({
            let place = "Block ("@ + crate::text::signed_decimal(x as int) + ","@
                + crate::text::signed_decimal(y as int) + ","@ + crate::text::signed_decimal(
                z as int,
            ) + ")"@;
            &&& error_text(SearchError::AlwaysBedrock { x, y, z }) == place
                + " is always bedrock but declared as air. No solution exists."@
            &&& error_text(SearchError::NeverBedrock { x, y, z }) == place
                + " is never bedrock but declared as bedrock. No solution exists."@
        }),
{
}

} // verus!
