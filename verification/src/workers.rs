//! How the chunks of a list are shared out among workers.
//!
//! Workers claim the chunks of a list one after the other. Who claims a chunk is up to the
//! scheduler, so it is an argument here: `claims[c]` is the worker that claims chunk `c`. Every
//! run of the workers is one such sequence, since each chunk is claimed once, and the chunks in
//! order.
use vstd::multiset::Multiset;
use vstd::prelude::*;

use crate::chunks::{chunk_end, chunk_total, lemma_chunk_starts, lemma_chunks_cover};
use crate::config::SortStrategy;
use crate::k_merge::{k_merge_matches, pool, views};
use crate::matcher::{hits, is_arranged, lemma_hits_ascend, lemma_hits_of_parts};
use crate::matches::{is_ranked, lemma_ranked_is_unique, reverse_matches, Match};
use crate::pattern::Rule;
use crate::sort::{
    is_sorted_by_score, lemma_sort_keeps_matches, lemma_sort_ranks, radix_sort_matches,
};

verus! {

/// The texts of chunk `c`.
pub open spec fn chunk_texts(
    texts: Seq<Option<Seq<u8>>>,
    size: int,
    c: int,
) -> Seq<Option<Seq<u8>>> {
    texts.subrange(c * size, chunk_end(texts.len() as int, size, c))
}

/// The matches of the chunks that a worker has claimed.
pub open spec fn worker_hits(
    rules: Seq<Rule>,
    texts: Seq<Option<Seq<u8>>>,
    size: int,
    claims: Seq<usize>,
    worker: int,
) -> Seq<Match>
    decreases claims.len(),
{
    if claims.len() == 0 {
        Seq::empty()
    } else {
        let c = claims.len() - 1;
        let rest = worker_hits(rules, texts, size, claims.drop_last(), worker);
        if claims.last() == worker {
            rest + hits(rules, chunk_texts(texts, size, c), c * size)
        } else {
            rest
        }
    }
}

/// The matches of each of the workers.
pub open spec fn worker_lists(
    rules: Seq<Rule>,
    texts: Seq<Option<Seq<u8>>>,
    size: int,
    claims: Seq<usize>,
    threads: nat,
) -> Seq<Seq<Match>> {
    Seq::new(threads, |worker: int| worker_hits(rules, texts, size, claims, worker))
}

/// Every chunk is claimed by one of the workers.
pub open spec fn are_claims(claims: Seq<usize>, chunks: int, threads: int) -> bool {
    &&& claims.len() == chunks
    &&& forall|c: int| 0 <= c < claims.len() ==> #[trigger] claims[c] < threads
}

/// What the workers come to together. Where the matches are sorted by score, that is the ranked
/// list of all matches, whoever claimed what. Else the lists of the workers come one after the
/// other, or are turned round as one.
pub open spec fn is_merged(
    rules: Seq<Rule>,
    texts: Seq<Option<Seq<u8>>>,
    sort: SortStrategy,
    lists: Seq<Seq<Match>>,
    out: Seq<Match>,
) -> bool {
    match sort {
        SortStrategy::ScoreThenIndexAsc => is_ranked(out) && out.to_multiset() == hits(
            rules,
            texts,
            0,
        ).to_multiset(),
        SortStrategy::IndexAsc => out == lists.flatten_alt(),
        SortStrategy::IndexDesc => out == lists.flatten_alt().reverse(),
    }
}

/// Appends a list to another.
pub fn append_matches(out: &mut Vec<Match>, more: &Vec<Match>)
    ensures
        final(out)@ == old(out)@ + more@,
{
    let ghost before = out@;
    for k in 0..more.len()
        invariant
            out@ == before + more@.take(k as int),
    {
        out.push(more[k]);
        assert(more@.take(k + 1) =~= more@.take(k as int).push(more@[k as int]));
    }
    assert(more@.take(more@.len() as int) =~= more@);
}

/// Lists one after the other.
pub fn concatenate(lists: &Vec<Vec<Match>>) -> (out: Vec<Match>)
    ensures
        out@ == views(lists@).flatten_alt(),
{
    let ghost all = views(lists@);
    let mut out: Vec<Match> = Vec::new();
    for k in 0..lists.len()
        invariant
            all == views(lists@),
            out@ == all.take(k as int).flatten_alt(),
    {
        append_matches(&mut out, &lists[k]);
        proof {
            assert(all.take(k + 1).drop_last() =~= all.take(k as int));
            assert(all.take(k + 1).last() == lists@[k as int]@);
        }
    }
    assert(all.take(all.len() as int) =~= all);
    out
}

/// What each worker does at its end: it sorts its matches where the whole is sorted by score.
pub open spec fn are_finished(
    sort: SortStrategy,
    before: Seq<Seq<Match>>,
    after: Seq<Seq<Match>>,
) -> bool {
    &&& after.len() == before.len()
    &&& forall|worker: int|
        0 <= worker < after.len() ==> if sort is ScoreThenIndexAsc {
            is_sorted_by_score(before[worker], #[trigger] after[worker])
        } else {
            after[worker] == before[worker]
        }
}

/// Finishes the list of a worker.
pub fn finish_worker(matches: &mut Vec<Match>, sort: SortStrategy)
    ensures
        if sort is ScoreThenIndexAsc {
            is_sorted_by_score(old(matches)@, final(matches)@)
        } else {
            final(matches)@ == old(matches)@
        },
{
    if sort.is_by_score() {
        radix_sort_matches(matches);
    }
}

/// Finishes the lists of all workers.
pub fn finish_workers(lists: &mut Vec<Vec<Match>>, sort: SortStrategy)
    ensures
        are_finished(sort, views(old(lists)@), views(final(lists)@)),
{
    let ghost before = lists@;
    let n = lists.len();
    for worker in 0..n
        invariant
            n == before.len(),
            lists@.len() == n,
            forall|w: int| worker <= w < n ==> #[trigger] lists@[w] == before[w],
            forall|w: int|
                0 <= w < worker ==> if sort is ScoreThenIndexAsc {
                    is_sorted_by_score(before[w]@, (#[trigger] lists@[w])@)
                } else {
                    lists@[w]@ == before[w]@
                },
    {
        finish_worker(&mut lists[worker], sort);
    }
    assert forall|w: int| 0 <= w < n implies if sort is ScoreThenIndexAsc {
        is_sorted_by_score(views(before)[w], #[trigger] views(lists@)[w])
    } else {
        views(lists@)[w] == views(before)[w]
    } by {
        assert(views(lists@)[w] == lists@[w]@);
    }
}

/// Merges the finished lists of all workers.
pub fn merge_workers(lists: Vec<Vec<Match>>, sort: SortStrategy) -> (out: Vec<Match>)
    requires
        sort is ScoreThenIndexAsc ==> forall|k: int|
            0 <= k < lists@.len() ==> is_ranked((#[trigger] lists@[k])@),
    ensures
        match sort {
            SortStrategy::ScoreThenIndexAsc => is_ranked(out@) && out@.to_multiset() == pool(
                views(lists@),
            ),
            SortStrategy::IndexAsc => out@ == views(lists@).flatten_alt(),
            SortStrategy::IndexDesc => out@ == views(lists@).flatten_alt().reverse(),
        },
{
    if sort.is_by_score() {
        return k_merge_matches(lists);
    }
    let mut out = concatenate(&lists);
    if sort.is_reversed() {
        reverse_matches(&mut out);
    }
    out
}

// ---------------------------------------------------------------------------------------------
// One more chunk.
// ---------------------------------------------------------------------------------------------
/// A chunk of the front of a list is a chunk of the list.
proof fn lemma_chunk_of_front(
    texts: Seq<Option<Seq<u8>>>,
    front: int,
    size: int,
    c: int,
)
    requires
        0 < size,
        0 <= c,
        0 <= front <= texts.len(),
        (c + 1) * size <= front || (front == texts.len() && c * size <= front),
    ensures
        chunk_texts(texts.take(front), size, c) == chunk_texts(texts, size, c),
{
    assert((c + 1) * size == c * size + size && 0 <= c * size) by (nonlinear_arith)
        requires
            0 <= c,
            0 < size,
    ;
    assert(chunk_texts(texts.take(front), size, c) =~= chunk_texts(texts, size, c));
}

/// What a worker has claimed so far depends only on the texts of the chunks that are claimed.
pub(crate) proof fn lemma_worker_hits_of_front(
    rules: Seq<Rule>,
    texts: Seq<Option<Seq<u8>>>,
    front: int,
    size: int,
    claims: Seq<usize>,
    worker: int,
)
    requires
        0 < size,
        0 <= front <= texts.len(),
        claims.len() * size <= front,
    ensures
        worker_hits(rules, texts.take(front), size, claims, worker) == worker_hits(
            rules,
            texts,
            size,
            claims,
            worker,
        ),
    decreases claims.len(),
{
    if claims.len() > 0 {
        let c = claims.len() - 1;
        assert((c + 1) * size == c * size + size) by (nonlinear_arith);
        lemma_worker_hits_of_front(rules, texts, front, size, claims.drop_last(), worker);
        lemma_chunk_of_front(texts, front, size, c);
    }
}

/// A list that grows by some matches adds them to the pool.
proof fn lemma_pool_grows(lists: Seq<Seq<Match>>, worker: int, more: Seq<Match>)
    requires
        0 <= worker < lists.len(),
    ensures
        pool(lists.update(worker, lists[worker] + more)) =~= pool(lists).add(more.to_multiset()),
    decreases lists.len(),
{
    let grown = lists.update(worker, lists[worker] + more);
    let last = lists.len() - 1;
    if worker == last {
        assert(grown.drop_last() =~= lists.drop_last());
        vstd::seq_lib::lemma_multiset_commutative(lists[worker], more);
    } else {
        lemma_pool_grows(lists.drop_last(), worker, more);
        assert(grown.drop_last() =~= lists.drop_last().update(
            worker,
            lists.drop_last()[worker] + more,
        ));
    }
}

proof fn lemma_empty_pool(threads: nat)
    ensures
        pool(Seq::new(threads, |worker: int| Seq::<Match>::empty())) =~= Multiset::empty(),
    decreases threads,
{
    broadcast use vstd::seq_lib::group_to_multiset_ensures;

    let lists = Seq::new(threads, |worker: int| Seq::<Match>::empty());
    if threads > 0 {
        lemma_empty_pool((threads - 1) as nat);
        assert(lists.drop_last() =~= Seq::new(
            (threads - 1) as nat,
            |worker: int| Seq::<Match>::empty(),
        ));
        assert(Seq::<Match>::empty().to_multiset() =~= Multiset::empty());
    }
}

/// The matches of the chunks that have been claimed are those of the front of the list.
proof fn lemma_claimed_front(
    rules: Seq<Rule>,
    texts: Seq<Option<Seq<u8>>>,
    size: int,
    claims: Seq<usize>,
    threads: nat,
)
    requires
        0 < size,
        claims.len() <= chunk_total(texts.len() as int, size),
        forall|c: int| 0 <= c < claims.len() ==> #[trigger] claims[c] < threads,
    ensures
        pool(worker_lists(rules, texts, size, claims, threads)) =~= hits(
            rules,
            texts.take(
                if claims.len() == 0 {
                    0
                } else {
                    chunk_end(texts.len() as int, size, claims.len() - 1)
                },
            ),
            0,
        ).to_multiset(),
    decreases claims.len(),
{
    broadcast use vstd::seq_lib::group_to_multiset_ensures;

    let lists = worker_lists(rules, texts, size, claims, threads);
    let len = texts.len() as int;
    if claims.len() == 0 {
        lemma_empty_pool(threads);
        assert(lists =~= Seq::new(threads, |worker: int| Seq::<Match>::empty()));
        assert(hits(rules, texts.take(0), 0).to_multiset() =~= Multiset::empty());
    } else {
        let front = claims.drop_last();
        let c = claims.len() - 1;
        let worker = claims[c] as int;
        let before = worker_lists(rules, texts, size, front, threads);
        let more = hits(rules, chunk_texts(texts, size, c), c * size);
        lemma_claimed_front(rules, texts, size, front, threads);
        lemma_chunk_starts(len, size, c);
        if c > 0 {
            assert((c - 1 + 1) * size == c * size);
        } else {
            assert(0 * size == 0) by (nonlinear_arith);
        }
        lemma_pool_grows(before, worker, more);
        assert(lists =~= before.update(worker, before[worker] + more));
        let end = chunk_end(len, size, c);
        lemma_hits_of_parts(rules, texts.take(c * size), chunk_texts(texts, size, c), 0);
        assert(texts.take(end) =~= texts.take(c * size) + chunk_texts(texts, size, c));
        vstd::seq_lib::lemma_multiset_commutative(hits(rules, texts.take(c * size), 0), more);
    }
}

/// The indices of a worker's matches ascend, and are those of chunks that have been claimed.
pub proof fn lemma_worker_ascends(
    rules: Seq<Rule>,
    texts: Seq<Option<Seq<u8>>>,
    size: int,
    claims: Seq<usize>,
    worker: int,
)
    requires
        0 < size,
        texts.len() <= u32::MAX,
        claims.len() <= chunk_total(texts.len() as int, size),
    ensures
        ({
            let found = worker_hits(rules, texts, size, claims, worker);
            &&& forall|i: int|
                0 <= i < found.len() ==> (#[trigger] found[i]).index < claims.len() * size
            &&& forall|i: int, j: int|
                0 <= i < j < found.len() ==> #[trigger] found[i].index < #[trigger] found[j].index
        }),
    decreases claims.len(),
{
    if claims.len() > 0 {
        let c = claims.len() - 1;
        let rest = worker_hits(rules, texts, size, claims.drop_last(), worker);
        let found = worker_hits(rules, texts, size, claims, worker);
        lemma_worker_ascends(rules, texts, size, claims.drop_last(), worker);
        lemma_chunk_starts(texts.len() as int, size, c);
        let more = hits(rules, chunk_texts(texts, size, c), c * size);
        lemma_hits_ascend(rules, chunk_texts(texts, size, c), c * size);
        assert forall|i: int| 0 <= i < found.len() implies (#[trigger] found[i]).index
            < claims.len() * size by {
            if i < rest.len() {
                assert(found[i] == rest[i]);
            } else {
                assert(found[i] == more[i - rest.len()]);
            }
        }
        assert forall|i: int, j: int| 0 <= i < j < found.len() implies #[trigger] found[i].index
            < #[trigger] found[j].index by {
            if i < rest.len() {
                assert(found[i] == rest[i]);
            } else {
                assert(found[i] == more[i - rest.len()]);
            }
            if j < rest.len() {
                assert(found[j] == rest[j]);
            } else {
                assert(found[j] == more[j - rest.len()]);
            }
        }
    }
}

// ---------------------------------------------------------------------------------------------
// Laws.
// ---------------------------------------------------------------------------------------------
/// The workers find what a run over the whole list finds, whoever claims what.
pub proof fn lemma_workers_find_all(
    rules: Seq<Rule>,
    texts: Seq<Option<Seq<u8>>>,
    size: int,
    claims: Seq<usize>,
    threads: nat,
)
    requires
        0 < size,
        are_claims(claims, chunk_total(texts.len() as int, size), threads as int),
    ensures
        pool(worker_lists(rules, texts, size, claims, threads)) == hits(
            rules,
            texts,
            0,
        ).to_multiset(),
{
    let len = texts.len() as int;
    lemma_claimed_front(rules, texts, size, claims, threads);
    lemma_chunks_cover(len, size);
    assert(texts.take(len) =~= texts);
}

proof fn lemma_same_pool(before: Seq<Seq<Match>>, after: Seq<Seq<Match>>)
    requires
        before.len() == after.len(),
        forall|w: int|
            0 <= w < after.len() ==> (#[trigger] after[w]).to_multiset() == before[w].to_multiset(),
    ensures
        pool(after) == pool(before),
    decreases after.len(),
{
    if after.len() > 0 {
        let some = after.drop_last();
        assert forall|w: int| 0 <= w < some.len() implies (#[trigger] some[w]).to_multiset()
            == before.drop_last()[w].to_multiset() by {
            assert(some[w] == after[w]);
        }
        lemma_same_pool(before.drop_last(), some);
        assert(after[after.len() - 1].to_multiset() == before[after.len() - 1].to_multiset());
    }
}

/// What the workers have finished can be merged.
pub(crate) proof fn lemma_finished(
    rules: Seq<Rule>,
    texts: Seq<Option<Seq<u8>>>,
    sort: SortStrategy,
    size: int,
    claims: Seq<usize>,
    threads: nat,
    after: Seq<Seq<Match>>,
)
    requires
        0 < size,
        texts.len() <= u32::MAX,
        are_claims(claims, chunk_total(texts.len() as int, size), threads as int),
        are_finished(sort, worker_lists(rules, texts, size, claims, threads), after),
    ensures
        sort is ScoreThenIndexAsc ==> {
            &&& pool(after) == hits(rules, texts, 0).to_multiset()
            &&& forall|w: int| 0 <= w < after.len() ==> is_ranked(#[trigger] after[w])
        },
        !(sort is ScoreThenIndexAsc) ==> after == worker_lists(
            rules,
            texts,
            size,
            claims,
            threads,
        ),
{
    let before = worker_lists(rules, texts, size, claims, threads);
    if sort is ScoreThenIndexAsc {
        assert forall|w: int| 0 <= w < after.len() implies is_ranked(#[trigger] after[w])
            && after[w].to_multiset() == before[w].to_multiset() by {
            lemma_worker_ascends(rules, texts, size, claims, w);
            lemma_sort_ranks(before[w], after[w]);
            lemma_sort_keeps_matches(before[w], after[w]);
        }
        lemma_same_pool(before, after);
        lemma_workers_find_all(rules, texts, size, claims, threads);
    } else {
        assert(after =~= before);
    }
}

/// What the lists hold together is what they hold one after the other.
pub proof fn lemma_flattened_pool(lists: Seq<Seq<Match>>)
    ensures
        lists.flatten_alt().to_multiset() =~= pool(lists),
    decreases lists.len(),
{
    broadcast use vstd::seq_lib::group_to_multiset_ensures;

    if lists.len() == 0 {
        assert(lists.flatten_alt().to_multiset() =~= Multiset::empty());
    } else {
        lemma_flattened_pool(lists.drop_last());
        vstd::seq_lib::lemma_multiset_commutative(lists.drop_last().flatten_alt(), lists.last());
    }
}

/// Sorted by score, the workers return what a run over the whole list returns, whoever claims
/// what.
pub proof fn lemma_workers_agree_with_one(
    rules: Seq<Rule>,
    texts: Seq<Option<Seq<u8>>>,
    lists: Seq<Seq<Match>>,
    merged: Seq<Match>,
    sequential: Seq<Match>,
)
    requires
        texts.len() <= u32::MAX,
        is_merged(rules, texts, SortStrategy::ScoreThenIndexAsc, lists, merged),
        is_arranged(hits(rules, texts, 0), SortStrategy::ScoreThenIndexAsc, true, sequential),
    ensures
        merged == sequential,
{
    let found = hits(rules, texts, 0);
    lemma_hits_ascend(rules, texts, 0);
    lemma_sort_ranks(found, sequential);
    lemma_sort_keeps_matches(found, sequential);
    lemma_ranked_is_unique(merged, sequential);
}

/// In whatever order, the workers return the matches of the whole list, each as often as it is
/// there.
pub proof fn lemma_workers_lose_nothing(
    rules: Seq<Rule>,
    texts: Seq<Option<Seq<u8>>>,
    sort: SortStrategy,
    size: int,
    claims: Seq<usize>,
    threads: nat,
    merged: Seq<Match>,
)
    requires
        0 < size,
        are_claims(claims, chunk_total(texts.len() as int, size), threads as int),
        is_merged(rules, texts, sort, worker_lists(rules, texts, size, claims, threads), merged),
    ensures
        merged.to_multiset() == hits(rules, texts, 0).to_multiset(),
{
    let lists = worker_lists(rules, texts, size, claims, threads);
    lemma_workers_find_all(rules, texts, size, claims, threads);
    lemma_flattened_pool(lists);
    lists.flatten_alt().lemma_reverse_to_multiset();
}

proof fn lemma_one_worker_front(
    rules: Seq<Rule>,
    texts: Seq<Option<Seq<u8>>>,
    size: int,
    claims: Seq<usize>,
)
    requires
        0 < size,
        claims.len() <= chunk_total(texts.len() as int, size),
        forall|c: int| 0 <= c < claims.len() ==> #[trigger] claims[c] == 0,
    ensures
        worker_hits(rules, texts, size, claims, 0) == hits(
            rules,
            texts.take(
                if claims.len() == 0 {
                    0
                } else {
                    chunk_end(texts.len() as int, size, claims.len() - 1)
                },
            ),
            0,
        ),
    decreases claims.len(),
{
    let len = texts.len() as int;
    if claims.len() == 0 {
        assert(hits(rules, texts.take(0), 0) =~= Seq::empty());
    } else {
        let front = claims.drop_last();
        let c = claims.len() - 1;
        assert forall|k: int| 0 <= k < front.len() implies #[trigger] front[k] == 0 by {
            assert(claims[k] == 0);
        }
        assert(claims[c] == 0);
        lemma_one_worker_front(rules, texts, size, front);
        lemma_chunk_starts(len, size, c);
        if c > 0 {
            assert((c - 1 + 1) * size == c * size);
        } else {
            assert(0 * size == 0) by (nonlinear_arith);
        }
        let end = chunk_end(len, size, c);
        lemma_hits_of_parts(rules, texts.take(c * size), chunk_texts(texts, size, c), 0);
        assert(texts.take(end) =~= texts.take(c * size) + chunk_texts(texts, size, c));
    }
}

/// One worker that claims every chunk returns what a run over the whole list returns, in whatever
/// order.
pub proof fn lemma_one_worker_is_a_run(
    rules: Seq<Rule>,
    texts: Seq<Option<Seq<u8>>>,
    sort: SortStrategy,
    size: int,
    claims: Seq<usize>,
    merged: Seq<Match>,
    sequential: Seq<Match>,
)
    requires
        0 < size,
        texts.len() <= u32::MAX,
        are_claims(claims, chunk_total(texts.len() as int, size), 1),
        is_merged(rules, texts, sort, worker_lists(rules, texts, size, claims, 1), merged),
        is_arranged(hits(rules, texts, 0), sort, true, sequential),
    ensures
        merged == sequential,
{
    let len = texts.len() as int;
    let lists = worker_lists(rules, texts, size, claims, 1);
    assert forall|c: int| 0 <= c < claims.len() implies #[trigger] claims[c] == 0 by {
        assert(claims[c] < 1);
    }
    lemma_chunks_cover(len, size);
    lemma_one_worker_front(rules, texts, size, claims);
    assert(texts.take(len) =~= texts);
    assert(lists.drop_last() =~= Seq::<Seq<Match>>::empty());
    assert(lists.last() == worker_hits(rules, texts, size, claims, 0));
    assert(lists.drop_last().flatten_alt() =~= Seq::<Match>::empty());
    assert(lists.flatten_alt() =~= hits(rules, texts, 0));
    if sort is ScoreThenIndexAsc {
        lemma_workers_agree_with_one(rules, texts, lists, merged, sequential);
    }
}

proof fn lemma_flattened_parts(first: Seq<Seq<Match>>, second: Seq<Seq<Match>>)
    ensures
        (first + second).flatten_alt() == first.flatten_alt() + second.flatten_alt(),
    decreases second.len(),
{
    if second.len() == 0 {
        assert(first + second =~= first);
        assert(first.flatten_alt() + second.flatten_alt() =~= first.flatten_alt());
    } else {
        lemma_flattened_parts(first, second.drop_last());
        assert((first + second).drop_last() =~= first + second.drop_last());
        assert((first + second).flatten_alt() =~= first.flatten_alt() + second.flatten_alt());
    }
}

/// Where the matches are not sorted by score, workers come one after the other: what some of them
/// return stands before what those behind them return, and after it where the list is turned
/// round. Turned round, it is the same list from its end.
pub proof fn lemma_workers_come_in_turn(
    rules: Seq<Rule>,
    texts: Seq<Option<Seq<u8>>>,
    first: Seq<Seq<Match>>,
    second: Seq<Seq<Match>>,
    up: (Seq<Match>, Seq<Match>, Seq<Match>),
    down: Seq<Match>,
)
    requires
        is_merged(rules, texts, SortStrategy::IndexAsc, first, up.0),
        is_merged(rules, texts, SortStrategy::IndexAsc, second, up.1),
        is_merged(rules, texts, SortStrategy::IndexAsc, first + second, up.2),
        is_merged(rules, texts, SortStrategy::IndexDesc, first + second, down),
    ensures
        up.2 == up.0 + up.1,
        down.len() == up.2.len(),
        forall|k: int| 0 <= k < down.len() ==> #[trigger] down[k] == up.2[down.len() - 1 - k],
{
    lemma_flattened_parts(first, second);
}

/// A worker returns the matches of the chunks that it has claimed, and no others.
pub proof fn lemma_worker_returns_its_claims(
    rules: Seq<Rule>,
    texts: Seq<Option<Seq<u8>>>,
    size: int,
    claims: Seq<usize>,
    worker: int,
    k: int,
)
    requires
        0 < size,
        texts.len() <= u32::MAX,
        claims.len() <= chunk_total(texts.len() as int, size),
        0 <= k < worker_hits(rules, texts, size, claims, worker).len(),
    ensures
        ({
            let found = worker_hits(rules, texts, size, claims, worker)[k];
            &&& found.index as int / size < claims.len()
            &&& claims[found.index as int / size] == worker
        }),
    decreases claims.len(),
{
    let found = worker_hits(rules, texts, size, claims, worker)[k];
    let front = claims.drop_last();
    let c = claims.len() - 1;
    let rest = worker_hits(rules, texts, size, front, worker);
    if k < rest.len() {
        lemma_worker_returns_its_claims(rules, texts, size, front, worker, k);
    } else {
        lemma_chunk_starts(texts.len() as int, size, c);
        let part = chunk_texts(texts, size, c);
        let more = hits(rules, part, c * size);
        lemma_hits_ascend(rules, part, c * size);
        assert(found == more[k - rest.len()]);
        assert(c * size <= found.index < c * size + size);
        assert(size * c == c * size) by (nonlinear_arith);
        vstd::arithmetic::div_mod::lemma_fundamental_div_mod_converse(
            found.index as int,
            size,
            c,
            found.index - c * size,
        );
    }
}

} // verus!
