//! Collecting several matches of a pattern, one search after the other.
use vstd::prelude::*;

use crate::bedrock::{BedrockType, Block};
use crate::prepare::SearchError;
use crate::search::{compute_super_batch_chunks, Batch, Begin, Query, Search, SimdLevel};

verus! {

impl Query {
    /// Each of the results is the match that the search from one of the groups on finds, and the
    /// next group is where that search goes on.
    pub open spec fn chain(self, groups: Seq<int>, results: Seq<(i32, i32)>) -> bool {
        &&& groups.len() == results.len() + 1
        &&& groups[0] == 0
        &&& forall|i: int|
            0 <= i < results.len() ==> self.leads(groups[i], #[trigger] results[i], groups[i + 1])
    }

    /// The search from group `from` on finds the given match and goes on at group `to`.
    pub open spec fn leads(self, from: int, found: (i32, i32), to: int) -> bool {
        self.found(from, found.0 as int, found.1 as int, to)
    }

    /// The results are those of successive searches.
    pub open spec fn collected(self, results: Seq<(i32, i32)>) -> bool {
        exists|groups: Seq<int>| #[trigger] self.chain(groups, results)
    }

    /// The results are those of successive searches, and nothing more can be found after them.
    pub open spec fn all_found(self, results: Seq<(i32, i32)>) -> bool {
        exists|groups: Seq<int>| #[trigger]
            self.chain(groups, results) && self.exhausted(groups.last())
    }

    /// Successive searches lead to a group.
    pub open spec fn reached(self, group: int) -> bool {
        exists|groups: Seq<int>, results: Seq<(i32, i32)>| #[trigger]
            self.chain(groups, results) && groups.last() == group
    }

    /// Successive searches lead to a match.
    pub open spec fn collectable(self, x: i32, z: i32) -> bool {
        exists|results: Seq<(i32, i32)>| #[trigger]
            self.collected(results) && results.len() > 0 && results.last() == (x, z)
    }
}

/// The search from group `from` on finds the given match and goes on at group `to`, and its batches
/// that end before the group of the match were reported.
pub open spec fn lead_reported<P: Fn(i64)>(
    q: Query,
    batch_chunks: int,
    from: int,
    found: (i32, i32),
    to: int,
    progress_cb: P,
) -> bool {
    &&& q.leads(from, found, to)
    &&& crate::search::reported_until(q, from, batch_chunks, 8 * (to - 1), progress_cb)
}

/// The reports that successive searches owe on the way to each of the results were made.
pub open spec fn chain_reported<P: Fn(i64)>(
    q: Query,
    batch_chunks: int,
    groups: Seq<int>,
    results: Seq<(i32, i32)>,
    progress_cb: P,
) -> bool {
    &&& q.chain(groups, results)
    &&& forall|i: int|
        0 <= i < results.len() ==> lead_reported(
            q,
            batch_chunks,
            groups[i],
            #[trigger] results[i],
            groups[i + 1],
            progress_cb,
        )
}

/// The reports that successive searches owe were made: those on the way to each of the results,
/// and, where nothing more was found after them, those on all the batches of the last search.
pub open spec fn searches_reported<P: Fn(i64)>(
    q: Query,
    batch_chunks: int,
    results: Seq<(i32, i32)>,
    ended: bool,
    progress_cb: P,
) -> bool {
    exists|groups: Seq<int>|
        {
            &&& #[trigger] chain_reported(q, batch_chunks, groups, results, progress_cb)
            &&& ended ==> crate::search::reported_to_the_end(
                q,
                groups.last(),
                batch_chunks,
                progress_cb,
            )
        }
}

/// The reports that a collection owes were made.
pub open spec fn collection_reported<P: Fn(i64)>(
    q: Query,
    batch_chunks: int,
    target: int,
    r: Result<(Vec<(i32, i32)>, bool), SearchError>,
    progress_cb: P,
) -> bool {
    r matches Ok((results, cancelled)) ==> searches_reported(
        q,
        batch_chunks,
        results@,
        !cancelled && !enough(results@.len() as int, target),
        progress_cb,
    )
}

/// The matches collected so far.
pub struct Collector {
    /// The matches, in the order in which they were found.
    pub results: Vec<(i32, i32)>,
    /// Where the next search begins.
    pub start_group: i64,
    /// How many matches are wanted; 0 stands for no limit.
    pub target: usize,
}

/// As many matches are there as are wanted.
pub open spec fn enough(found: int, target: int) -> bool {
    target != 0 && found >= target
}

impl Collector {
    /// Begins to collect the given number of matches, 0 for no limit.
    pub fn new(target: usize) -> (r: Collector)
        ensures
            r.results@ == Seq::<(i32, i32)>::empty(),
            r.start_group == 0,
            r.target == target,
    {
        Collector { results: Vec::new(), start_group: 0, target }
    }

    /// Takes up a match. Tells whether there are enough now.
    pub fn record(&mut self, x: i32, z: i32, next_group: i64) -> (done: bool)
        ensures
            final(self).results@ == old(self).results@.push((x, z)),
            final(self).start_group == next_group,
            final(self).target == old(self).target,
            done == enough(final(self).results@.len() as int, old(self).target as int),
    {
        self.results.push((x, z));
        self.start_group = next_group;
        self.target != 0 && self.results.len() >= self.target
    }
}

/// What collecting the matches of a query gives, where the batches are examined truthfully and
/// `cancelled` tells whether the observer may say yes.
pub open spec fn collection_answer(
    q: Query,
    target: int,
    cancelled: bool,
    r: Result<(Vec<(i32, i32)>, bool), SearchError>,
) -> bool {
    match r {
        Ok((results, true)) => {
            &&& cancelled
            &&& q.collected(results@)
            &&& !enough(results@.len() as int, target)
        },
        Ok((results, false)) => {
            ||| target != 0 && results@.len() == target && q.collected(results@)
            ||| q.all_found(results@) && !enough(results@.len() as int, target)
        },
        Err(_) => false,
    }
}

impl Search {
    /// Searches again and again, each time from just past the last match on, until enough matches
    /// are collected, nothing more can be found or `cancelled` says yes. `dispatch` examines the
    /// batches. Hands every match to `found_cb` as it is found. Gives the matches, and whether the
    /// collecting was cancelled.
    pub fn collect<
        C: Fn() -> bool,
        P: Fn(i64),
        F: Fn(i32, i32),
        D: Fn(i64, i64) -> Batch,
    >(
        &self,
        target: usize,
        batch_chunks: i64,
        cancelled: &C,
        progress_cb: &P,
        found_cb: &F,
        dispatch: &D,
    ) -> (r: Result<(Vec<(i32, i32)>, bool), SearchError>)
        requires
            self.wf(),
            1 <= batch_chunks,
            call_requires(*cancelled, ()),
            forall|group: i64, chunks: i64|
                0 <= group && 1 <= chunks <= batch_chunks && chunks <= self.query().chunks_left(
                    group as int,
                ) ==> #[trigger] call_requires(*dispatch, (group, chunks)),
            forall|group: i64, n: int, k: i64|
                0 <= group && (crate::search::truthful(
                    self.query(),
                    batch_chunks as int,
                    *cancelled,
                    *dispatch,
                )
                    ==> self.query().reached(group as int)) && #[trigger] self.query().may_report(
                    group as int,
                    batch_chunks as int,
                    n,
                    k as int,
                    crate::search::truthful(
                        self.query(),
                        batch_chunks as int,
                        *cancelled,
                        *dispatch,
                    ),
                    call_ensures(*cancelled, (), true),
                ) ==> call_requires(*progress_cb, (k,)),
            forall|x: i32, z: i32|
                self.query().matches(x as int, z as int) && (crate::search::truthful(
                    self.query(),
                    batch_chunks as int,
                    *cancelled,
                    *dispatch,
                )
                    ==> self.query().collectable(x, z)) ==> #[trigger] call_requires(
                    *found_cb,
                    (x, z),
                ),
        ensures
            match r {
                Ok((results, _)) => forall|i: int|
                    0 <= i < results@.len() ==> self.query().matches(
                        (#[trigger] results@[i]).0 as int,
                        results@[i].1 as int,
                    ),
                Err(e) => e is Unconfirmed,
            },
            crate::search::truthful(self.query(), batch_chunks as int, *cancelled, *dispatch)
                ==> collection_answer(
                self.query(),
                target as int,
                call_ensures(*cancelled, (), true),
                r,
            ),
            r matches Ok((results, _)) ==> forall|i: int|
                0 <= i < results@.len() ==> call_ensures(*found_cb, #[trigger] results@[i], ()),
            crate::search::truthful(self.query(), batch_chunks as int, *cancelled, *dispatch)
                ==> collection_reported(
                self.query(),
                batch_chunks as int,
                target as int,
                r,
                *progress_cb,
            ),
            crate::search::only_yes(*cancelled) ==> (r matches Ok((results, true))
                && results@.len() == 0),
    {
        let ghost q = self.query();
        let ghost honest = crate::search::truthful(q, batch_chunks as int, *cancelled, *dispatch);
        let mut collector = Collector::new(target);
        let ghost mut groups: Seq<int> = seq![0int];
        loop
            invariant
                self.wf(),
                q == self.query(),
                honest == crate::search::truthful(q, batch_chunks as int, *cancelled, *dispatch),
                1 <= batch_chunks,
                call_requires(*cancelled, ()),
                forall|group: i64, chunks: i64|
                    0 <= group && 1 <= chunks <= batch_chunks && chunks <= q.chunks_left(
                        group as int,
                    ) ==> #[trigger] call_requires(*dispatch, (group, chunks)),
                forall|group: i64, n: int, k: i64|
                    0 <= group && (honest ==> q.reached(group as int)) && #[trigger] q.may_report(
                        group as int,
                        batch_chunks as int,
                        n,
                        k as int,
                        honest,
                        call_ensures(*cancelled, (), true),
                    ) ==> call_requires(*progress_cb, (k,)),
                forall|x: i32, z: i32|
                    q.matches(x as int, z as int) && (honest ==> q.collectable(x, z))
                        ==> #[trigger] call_requires(*found_cb, (x, z)),
                collector.target == target,
                0 <= collector.start_group,
                honest ==> groups.last() == collector.start_group && chain_reported(
                    q,
                    batch_chunks as int,
                    groups,
                    collector.results@,
                    *progress_cb,
                ),
                forall|i: int|
                    0 <= i < collector.results@.len() ==> call_ensures(
                        *found_cb,
                        #[trigger] collector.results@[i],
                        (),
                    ),
                forall|i: int|
                    0 <= i < collector.results@.len() ==> q.matches(
                        (#[trigger] collector.results@[i]).0 as int,
                        collector.results@[i].1 as int,
                    ),
                !enough(collector.results@.len() as int, target as int),
                crate::search::only_yes(*cancelled) ==> collector.results@.len() == 0,
            decreases i64::MAX - collector.start_group,
        {
            if cancelled() {
                return Ok((collector.results, true));
            }
            let start_group: i64 = collector.start_group;
            let outcome = self.run_with(
                start_group,
                batch_chunks,
                cancelled,
                progress_cb,
                dispatch,
            );
            match outcome {
                Ok(Some((x, z, next_group))) => {
                    assert(start_group < next_group && q.matches(x as int, z as int)) by {
                        let k = choose|k: int|
                            {
                                &&& 8 * start_group <= k <= q.limit()
                                &&& #[trigger] q.hit(k)
                                &&& (x as int, z as int) == crate::spiral::spiral_position(
                                    q.start_x,
                                    q.start_z,
                                    k,
                                )
                                &&& next_group == k / 8 + 1
                            };
                        assert(q.hit(k));
                    }
                    let ghost longer = groups.push(next_group as int);
                    let ghost results = collector.results@;
                    let done = collector.record(x, z, next_group);
                    proof {
                        if honest {
                            assert forall|i: int|
                                0 <= i < collector.results@.len() implies lead_reported(
                                q,
                                batch_chunks as int,
                                longer[i],
                                #[trigger] collector.results@[i],
                                longer[i + 1],
                                *progress_cb,
                            ) by {
                                if i < results.len() {
                                    assert(results[i] == collector.results@[i]);
                                }
                            }
                            assert(chain_reported(
                                q,
                                batch_chunks as int,
                                longer,
                                collector.results@,
                                *progress_cb,
                            ));
                            assert(q.collected(collector.results@));
                            assert(q.collectable(x, z));
                        }
                        groups = longer;
                    }
                    found_cb(x, z);
                    if done {
                        return Ok((collector.results, false));
                    }
                },
                Ok(None) => {
                    return Ok((collector.results, true));
                },
                Err(SearchError::SpaceExhausted) => {
                    return Ok((collector.results, false));
                },
                Err(e) => {
                    return Err(e);
                },
            }
        }
    }
}

/// Collects the matches of the rotations of a pattern, examining batches on all threads of this
/// machine. Hands every match to `found_cb` as it is found. Gives the matches, and whether the
/// collecting was cancelled.
pub fn collect_matches<C: Fn() -> bool + Sync + Send, P: Fn(i64), F: Fn(i32, i32)>(
    seed: i64,
    start_x: i32,
    start_z: i32,
    bt: BedrockType,
    rotations: &Vec<Vec<Block>>,
    cancelled: &C,
    progress_cb: &P,
    found_cb: &F,
    simd: SimdLevel,
    target: usize,
) -> (r: Result<(Vec<(i32, i32)>, bool), SearchError>)
    requires
        call_requires(*cancelled, ()),
        forall|group: i64, batch_chunks: int, n: int, k: i64|
            0 <= group && crate::search::is_batch_size(batch_chunks) && crate::search::hunted(
                seed,
                start_x,
                start_z,
                bt,
                crate::rotations::patterns_of(rotations@),
            ).reached(group as int) && #[trigger] crate::search::hunted(
                seed,
                start_x,
                start_z,
                bt,
                crate::rotations::patterns_of(rotations@),
            ).may_report(
                group as int,
                batch_chunks,
                n,
                k as int,
                true,
                call_ensures(*cancelled, (), true),
            ) ==> call_requires(*progress_cb, (k,)),
        forall|x: i32, z: i32|
            crate::search::hunted(
                seed,
                start_x,
                start_z,
                bt,
                crate::rotations::patterns_of(rotations@),
            ).collectable(x, z) ==> #[trigger] call_requires(*found_cb, (x, z)),
    ensures
        match crate::prepare::search_preparation(crate::rotations::patterns_of(rotations@)) {
            Err(e) => {
                ||| r == Err::<(Vec<(i32, i32)>, bool), SearchError>(e)
                ||| call_ensures(*cancelled, (), true) && (r matches Ok((results, true))
                    && results@.len() == 0)
            },
            Ok(_) => collection_answer(
                crate::search::hunted(
                    seed,
                    start_x,
                    start_z,
                    bt,
                    crate::rotations::patterns_of(rotations@),
                ),
                target as int,
                call_ensures(*cancelled, (), true),
                r,
            ),
        },
        r matches Ok((results, _)) ==> forall|i: int|
            0 <= i < results@.len() ==> call_ensures(*found_cb, #[trigger] results@[i], ()),
        exists|batch_chunks: int|
            crate::search::is_batch_size(batch_chunks) && #[trigger] collection_reported(
                crate::search::hunted(
                    seed,
                    start_x,
                    start_z,
                    bt,
                    crate::rotations::patterns_of(rotations@),
                ),
                batch_chunks,
                target as int,
                r,
                *progress_cb,
            ),
        crate::search::only_yes(*cancelled) ==> (r matches Ok((results, true)) && results@.len()
            == 0),
{
    let ghost q = crate::search::hunted(
        seed,
        start_x,
        start_z,
        bt,
        crate::rotations::patterns_of(rotations@),
    );
    proof {
        vstd::arithmetic::power2::lemma2_to64();
        assert(vstd::arithmetic::power2::pow2(11) == 2048);
        assert(crate::search::is_batch_size(2048));
    }
    if cancelled() {
        let none: Vec<(i32, i32)> = Vec::new();
        assert(q.chain(seq![0int], none@));
        assert(chain_reported(q, 2048, seq![0int], none@, *progress_cb));
        assert(searches_reported(q, 2048, none@, false, *progress_cb));
        assert(collection_reported(
            q,
            2048,
            target as int,
            Ok::<(Vec<(i32, i32)>, bool), SearchError>((none, true)),
            *progress_cb,
        ));
        return Ok((none, true));
    }
    let search: Search = match Search::begin(seed, start_x, start_z, bt, rotations, simd) {
        Err(e) => {
            assert(collection_reported(
                q,
                2048,
                target as int,
                Err::<(Vec<(i32, i32)>, bool), SearchError>(e),
                *progress_cb,
            ));
            return Err(e);
        },
        Ok(Begin::Everywhere(search)) => search,
        Ok(Begin::Search(search)) => search,
    };
    let dispatch = |group: i64, chunks: i64| -> (b: Batch)
        requires
            0 <= group,
            1 <= chunks <= search.query().chunks_left(group as int),
        ensures
            search.query().batch_says(group as int, chunks as int, b),
            b is Cancelled ==> call_ensures(*cancelled, (), true),
        { search.run_chunk_batch(group, chunks, cancelled) };
    let batch_chunks: i64 = compute_super_batch_chunks();
    assert(crate::search::truthful(q, batch_chunks as int, *cancelled, dispatch));
    search.collect(
        target,
        batch_chunks,
        cancelled,
        progress_cb,
        found_cb,
        &dispatch,
    )
}

/// What a search finds from a group on, and where it goes on, is settled.
proof fn lemma_leads_once(q: Query, from: int, a: (i32, i32), s: int, b: (i32, i32), t: int)
    requires
        q.leads(from, a, s),
        q.leads(from, b, t),
    ensures
        a == b,
        s == t,
{
    crate::search::law_found_match_is_unique(
        q,
        from,
        (a.0 as int, a.1 as int, s),
        (b.0 as int, b.1 as int, t),
    );
}

/// Two collections of matches of the same pattern begin alike, whenever they ended: the shorter one
/// is the beginning of the longer one.
pub proof fn law_collections_agree(q: Query, r: Seq<(i32, i32)>, s: Seq<(i32, i32)>)
    requires
        q.collected(r),
        q.collected(s),
        r.len() <= s.len(),
    ensures
        r == s.take(r.len() as int),
{
    let a = choose|g: Seq<int>| #[trigger] q.chain(g, r);
    let b = choose|g: Seq<int>| #[trigger] q.chain(g, s);
    lemma_chains_agree(q, a, r, b, s, r.len() as int);
    assert(r =~= s.take(r.len() as int));
}

proof fn lemma_chains_agree(
    q: Query,
    a: Seq<int>,
    r: Seq<(i32, i32)>,
    b: Seq<int>,
    s: Seq<(i32, i32)>,
    n: int,
)
    requires
        q.chain(a, r),
        q.chain(b, s),
        0 <= n <= r.len() <= s.len(),
    ensures
        a[n] == b[n],
        forall|i: int| 0 <= i < n ==> #[trigger] r[i] == s[i],
    decreases n,
{
    if n > 0 {
        lemma_chains_agree(q, a, r, b, s, n - 1);
        assert(q.leads(a[n - 1], r[n - 1], a[n - 1 + 1]));
        assert(q.leads(b[n - 1], s[n - 1], b[n - 1 + 1]));
        lemma_leads_once(q, a[n - 1], r[n - 1], a[n], s[n - 1], b[n]);
    }
}

proof fn lemma_chain_grows(
    q: Query,
    groups: Seq<int>,
    results: Seq<(i32, i32)>,
    i: int,
    j: int,
)
    requires
        q.chain(groups, results),
        0 <= i <= j < groups.len(),
    ensures
        0 <= groups[i] <= groups[j],
    decreases j,
{
    if 0 < j {
        if i < j {
            lemma_chain_grows(q, groups, results, i, j - 1);
        } else {
            lemma_chain_grows(q, groups, results, j - 1, j - 1);
        }
        assert(q.leads(groups[j - 1], results[j - 1], groups[j - 1 + 1]));
    }
}

/// The matches that are collected of a pattern are distinct, and they go outwards: none is nearer
/// to the centre than one before it.
pub proof fn law_collected_matches_go_outwards(q: Query, r: Seq<(i32, i32)>, i: int, j: int)
    requires
        q.collected(r),
        0 <= i < j < r.len(),
    ensures
        r[i] != r[j],
        crate::spiral::chebyshev((r[i].0 - q.start_x, r[i].1 - q.start_z))
            <= crate::spiral::chebyshev((r[j].0 - q.start_x, r[j].1 - q.start_z)),
{
    let g = choose|g: Seq<int>| #[trigger] q.chain(g, r);
    lemma_chain_grows(q, g, r, 0, i);
    lemma_chain_grows(q, g, r, i + 1, j);
    assert(q.leads(g[i], r[i], g[i + 1]));
    assert(q.leads(g[j], r[j], g[j + 1]));
    let k = choose|k: int|
        {
            &&& #[trigger] q.first_hit(8 * g[i], k)
            &&& k <= q.limit()
            &&& (r[i].0 as int, r[i].1 as int) == crate::spiral::spiral_position(
                q.start_x,
                q.start_z,
                k,
            )
            &&& g[i + 1] == k / 8 + 1
        };
    let m = choose|m: int|
        {
            &&& #[trigger] q.first_hit(8 * g[j], m)
            &&& m <= q.limit()
            &&& (r[j].0 as int, r[j].1 as int) == crate::spiral::spiral_position(
                q.start_x,
                q.start_z,
                m,
            )
            &&& g[j + 1] == m / 8 + 1
        };
    assert(k < m);
    crate::spiral::law_spiral_goes_outwards(k, m);
    if crate::spiral::spiral_offset(k) == crate::spiral::spiral_offset(m) {
        crate::spiral::law_spiral_is_injective(k, m);
    }
}

/// A collection that is not cancelled has exactly as many matches as are wanted, if there are that
/// many, and otherwise all there are. However many matches successive searches can give, the
/// collection is the beginning of these.
pub proof fn law_collection_has_what_is_wanted(
    q: Query,
    target: usize,
    cancelled: bool,
    results: Vec<(i32, i32)>,
    more: Seq<(i32, i32)>,
)
    requires
        collection_answer(
            q,
            target as int,
            cancelled,
            Ok::<(Vec<(i32, i32)>, bool), SearchError>((results, false)),
        ),
        q.collected(more),
    ensures
        target > 0 && more.len() >= target ==> results@ == more.take(target as int),
        target == 0 || results@.len() < target ==> more.len() <= results@.len(),
        target > 0 ==> results@.len() <= target,
{
    if q.all_found(results@) && !enough(results@.len() as int, target as int) {
        lemma_all_found_is_longest(q, results@, more);
    } else {
        if more.len() >= target {
            law_collections_agree(q, results@, more);
        }
    }
}

proof fn lemma_all_found_is_longest(q: Query, r: Seq<(i32, i32)>, s: Seq<(i32, i32)>)
    requires
        q.all_found(r),
        q.collected(s),
    ensures
        s.len() <= r.len(),
{
    let a = choose|g: Seq<int>| #[trigger] q.chain(g, r) && q.exhausted(g.last());
    let b = choose|g: Seq<int>| #[trigger] q.chain(g, s);
    if r.len() < s.len() {
        lemma_chains_agree(q, a, r, b, s, r.len() as int);
        let n = r.len() as int;
        assert(q.leads(b[n], s[n], b[n + 1]));
        let k = choose|k: int|
            {
                &&& #[trigger] q.first_hit(8 * b[n], k)
                &&& k <= q.limit()
                &&& (s[n].0 as int, s[n].1 as int) == crate::spiral::spiral_position(
                    q.start_x,
                    q.start_z,
                    k,
                )
                &&& b[n + 1] == k / 8 + 1
            };
        assert(q.hit(k));
        assert(a.last() == a[n]);
        assert(!q.hit(k));
    }
}

/// The first match that is collected is the one that a search from the centre gives, and each
/// further one is the one that a search gives which goes on after the one before.
pub proof fn law_collected_matches_follow_each_other(q: Query, r: Seq<(i32, i32)>, i: int)
    requires
        q.collected(r),
        0 <= i < r.len(),
    ensures
        i == 0 ==> exists|resume: int| #[trigger]
            q.found(0, r[i].0 as int, r[i].1 as int, resume),
        i > 0 ==> exists|start: int, resume: int, next: int| #[trigger]
            q.found(start, r[i - 1].0 as int, r[i - 1].1 as int, resume) && #[trigger] q.found(
                resume,
                r[i].0 as int,
                r[i].1 as int,
                next,
            ),
{
    let g = choose|g: Seq<int>| #[trigger] q.chain(g, r);
    assert(q.leads(g[i], r[i], g[i + 1]));
    assert(q.found(g[i], r[i].0 as int, r[i].1 as int, g[i + 1]));
    if i > 0 {
        assert(q.leads(g[i - 1], r[i - 1], g[i - 1 + 1]));
        assert(q.found(g[i - 1], r[i - 1].0 as int, r[i - 1].1 as int, g[i]));
    }
}

/// As many matches are there as are wanted exactly if their number has reached the one that is
/// wanted; where none is given there are never enough.
pub proof fn law_enough_is_what_is_wanted(found: int, target: int)
    requires
        0 <= found,
        0 <= target,
    ensures
        target == 0 ==> !enough(found, target),
        target > 0 && found < target ==> !enough(found, target),
        target > 0 && found >= target ==> enough(found, target),
{
}

/// At each match that is collected one of the rotations lies in the world.
pub proof fn law_collected_matches_lie_in_world(
    seed: i64,
    start_x: i32,
    start_z: i32,
    bt: BedrockType,
    rotations: Seq<Seq<Block>>,
    results: Seq<(i32, i32)>,
    i: int,
)
    requires
        crate::prepare::search_preparation(rotations) is Ok,
        rotations.len() > 0,
        crate::search::hunted(seed, start_x, start_z, bt, rotations).collected(results),
        0 <= i < results.len(),
    ensures
        crate::search::one_lies_in_world(
            rotations,
            seed,
            bt,
            results[i].0 as int,
            results[i].1 as int,
        ),
{
    let q = crate::search::hunted(seed, start_x, start_z, bt, rotations);
    let g = choose|g: Seq<int>| #[trigger] q.chain(g, results);
    let (x, z) = (results[i].0 as int, results[i].1 as int);
    assert(q.leads(g[i], results[i], g[i + 1]));
    let k = choose|k: int|
        {
            &&& #[trigger] q.first_hit(8 * g[i], k)
            &&& k <= q.limit()
            &&& (x, z) == crate::spiral::spiral_position(q.start_x, q.start_z, k)
            &&& g[i + 1] == k / 8 + 1
        };
    assert(q.hit(k));
    crate::search::lemma_hunted_in_world(seed, start_x, start_z, bt, rotations, x, z);
}

/// Collecting is cancelled only if it may be, and then it has fewer matches than are wanted. What
/// was found until then is kept.
pub proof fn law_cancelled_collection_keeps_matches(
    q: Query,
    target: usize,
    cancelled: bool,
    results: Vec<(i32, i32)>,
    more: Seq<(i32, i32)>,
)
    requires
        collection_answer(
            q,
            target as int,
            cancelled,
            Ok::<(Vec<(i32, i32)>, bool), SearchError>((results, true)),
        ),
        q.collected(more),
        results@.len() <= more.len(),
    ensures
        cancelled,
        target > 0 ==> results@.len() < target,
        results@ == more.take(results@.len() as int),
{
    law_collections_agree(q, results@, more);
}

/// Match `i` of a collection lies at an index of the group that holds index `k`.
pub open spec fn shares_group(q: Query, r: Seq<(i32, i32)>, i: int, k: int) -> bool {
    exists|m: int|
        #[trigger] crate::spiral::spiral_position(q.start_x, q.start_z, m) == (
            r[i].0 as int,
            r[i].1 as int,
        ) && 8 * (k / 8) <= m <= k
}

proof fn lemma_passed_match(q: Query, g: Seq<int>, r: Seq<(i32, i32)>, n: int, k: int)
    requires
        q.chain(g, r),
        0 <= n <= r.len(),
        0 <= k < 8 * g[n],
        q.hit(k),
    ensures
        exists|i: int| 0 <= i < n && #[trigger] shares_group(q, r, i, k),
    decreases n,
{
    if n > 0 {
        if k < 8 * g[n - 1] {
            lemma_passed_match(q, g, r, n - 1, k);
            let i = choose|i: int| 0 <= i < n - 1 && #[trigger] shares_group(q, r, i, k);
            assert(shares_group(q, r, i, k));
        } else {
            assert(q.leads(g[n - 1], r[n - 1], g[n - 1 + 1]));
            let m = choose|m: int|
                {
                    &&& #[trigger] q.first_hit(8 * g[n - 1], m)
                    &&& m <= q.limit()
                    &&& (r[n - 1].0 as int, r[n - 1].1 as int) == crate::spiral::spiral_position(
                        q.start_x,
                        q.start_z,
                        m,
                    )
                    &&& g[n] == m / 8 + 1
                };
            if k < m {
                assert(!q.hit(k));
            }
            assert(crate::spiral::spiral_position(q.start_x, q.start_z, m) == (
                r[n - 1].0 as int,
                r[n - 1].1 as int,
            ));
            assert(shares_group(q, r, n - 1, k));
        }
    }
}

/// A collection passes over no match but those that come after a collected one in the same group of
/// eight positions. So it is for all matches as far as the last one collected, and for all in reach
/// where nothing more was found.
pub proof fn law_collection_passes_over_only_neighbours(q: Query, r: Seq<(i32, i32)>, k: int)
    requires
        q.collected(r),
        0 <= k,
        q.hit(k),
        (q.all_found(r) && k <= q.limit()) || (r.len() > 0 && exists|m: int|
            k <= m && #[trigger] crate::spiral::spiral_position(q.start_x, q.start_z, m) == (
                r.last().0 as int,
                r.last().1 as int,
            )),
    ensures
        exists|i: int| 0 <= i < r.len() && #[trigger] shares_group(q, r, i, k),
{
    if q.all_found(r) && k <= q.limit() {
        let g = choose|g: Seq<int>| #[trigger] q.chain(g, r) && q.exhausted(g.last());
        if 8 * g.last() <= k {
            assert(!q.hit(k));
        }
        lemma_passed_match(q, g, r, r.len() as int, k);
    } else {
        let g = choose|g: Seq<int>| #[trigger] q.chain(g, r);
        let n = r.len() as int;
        let m = choose|m: int|
            k <= m && #[trigger] crate::spiral::spiral_position(q.start_x, q.start_z, m) == (
                r.last().0 as int,
                r.last().1 as int,
            );
        lemma_chain_grows(q, g, r, 0, n - 1);
        assert(q.leads(g[n - 1], r[n - 1], g[n - 1 + 1]));
        let f = choose|f: int|
            {
                &&& #[trigger] q.first_hit(8 * g[n - 1], f)
                &&& f <= q.limit()
                &&& (r[n - 1].0 as int, r[n - 1].1 as int) == crate::spiral::spiral_position(
                    q.start_x,
                    q.start_z,
                    f,
                )
                &&& g[n] == f / 8 + 1
            };
        crate::spiral::law_spiral_is_injective(f, m);
        lemma_passed_match(q, g, r, n, k);
    }
}

} // verus!
