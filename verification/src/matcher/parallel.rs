//! Matching of a list by several workers.
//!
//! Each worker claims chunks of the list until there are none left, and sorts what it has found.
//! The lists of the workers are merged at the end. What a worker does with a chunk, and how the
//! lists are merged, is here. Which worker claims which chunk is up to whoever runs them.
use vstd::prelude::*;

use super::{
    are_resolved, chunked_texts, hits, is_arranged, is_read, is_resolver, is_steady,
    lemma_arranged_is_permutation, lemma_permuted_indices_are_distinct,
    lemma_steady_texts_are_unique, may_resolve, MatchableChunked, Matcher, ResolvedChunks,
};
use crate::chunks::{
    chunk_end, chunk_total, claimed_chunk, lemma_chunk_starts, lemma_chunks_cover,
};
use crate::config::SortStrategy;
use crate::k_merge::views;
use crate::matchable::{texts_of, Matchable};
use crate::matches::{is_ranked, Match};
use crate::pattern::Rule;
use crate::workers::{
    are_claims, chunk_texts, finish_workers, is_merged, lemma_finished, lemma_worker_hits_of_front,
    lemma_workers_lose_nothing, merge_workers, worker_hits, worker_lists,
};

verus! {

/// The number of items of a chunk. Smaller chunks are shared out more evenly, and claimed more
/// often.
pub const PARALLEL_CHUNK: usize = 2048;

/// Whether a list is shared out among the workers.
pub open spec fn is_shared_out(len: int, rules: Seq<Rule>, threads: nat) -> bool {
    len > 0 && rules.len() > 0 && threads != 1
}

/// What several workers return, of which `claims[c]` claims chunk `c`.
pub open spec fn is_parallel_result(
    rules: Seq<Rule>,
    texts: Seq<Option<Seq<u8>>>,
    sort: SortStrategy,
    claims: Seq<usize>,
    threads: nat,
    out: Seq<Match>,
) -> bool {
    if is_shared_out(texts.len() as int, rules, threads) {
        is_merged(
            rules,
            texts,
            sort,
            worker_lists(rules, texts, PARALLEL_CHUNK as int, claims, threads),
            out,
        )
    } else {
        is_arranged(hits(rules, texts, 0), sort, rules.len() > 0, out)
    }
}

impl Matcher {
    /// Matches the chunk that a worker has claimed, and appends the matches. Without such a
    /// chunk there is nothing left to do.
    pub fn match_chunk_into<S: Matchable>(
        &mut self,
        haystacks: &[S],
        chunk_idx: usize,
        chunk_size: usize,
        matches: &mut Vec<Match>,
    ) -> (out: bool)
        requires
            old(self).wf(),
            chunk_size > 0,
            haystacks@.len() <= u32::MAX,
        ensures
            final(self).wf(),
            final(self).rules() == old(self).rules(),
            final(self).configuration() == old(self).configuration(),
            out == (chunk_idx < chunk_total(haystacks@.len() as int, chunk_size as int)),
            final(matches)@ == if out {
                old(matches)@ + hits(
                    old(self).rules(),
                    chunk_texts(texts_of(haystacks@), chunk_size as int, chunk_idx as int),
                    chunk_idx * chunk_size,
                )
            } else {
                old(matches)@
            },
    {
        match claimed_chunk(chunk_idx, haystacks.len(), chunk_size) {
            Some((start, end)) => {
                let chunk = vstd::slice::slice_subrange(haystacks, start, end);
                assert(texts_of(chunk@) =~= chunk_texts(
                    texts_of(haystacks@),
                    chunk_size as int,
                    chunk_idx as int,
                ));
                self.match_list_into(chunk, start as u32, matches);
                true
            },
            None => false,
        }
    }

    /// Matches the chunk that a worker has claimed, its haystacks resolved by a callback, and
    /// appends the matches. Without such a chunk there is nothing left to do.
    pub fn match_chunk_resolved_into<
        T,
        F: Fn(&T) -> Option<ResolvedChunks<N>>,
        const N: usize,
    >(
        &mut self,
        items: &[T],
        resolve: &F,
        chunk_idx: usize,
        chunk_size: usize,
        matches: &mut Vec<Match>,
    ) -> (out: bool)
        requires
            old(self).wf(),
            chunk_size > 0,
            items@.len() <= u32::MAX,
            is_resolver(items@, *resolve, old(self).rules()),
        ensures
            final(self).wf(),
            final(self).rules() == old(self).rules(),
            final(self).configuration() == old(self).configuration(),
            out == (chunk_idx < chunk_total(items@.len() as int, chunk_size as int)),
            !out ==> final(matches)@ == old(matches)@,
            out ==> exists|texts: Seq<Option<Seq<u8>>>|
                #[trigger] are_resolved(
                    items@.subrange(
                        chunk_idx * chunk_size,
                        chunk_end(items@.len() as int, chunk_size as int, chunk_idx as int),
                    ),
                    *resolve,
                    texts,
                ) && final(matches)@ == old(matches)@ + hits(
                    old(self).rules(),
                    texts,
                    chunk_idx * chunk_size,
                ),
    {
        match claimed_chunk(chunk_idx, items.len(), chunk_size) {
            Some((start, end)) => {
                let chunk = vstd::slice::slice_subrange(items, start, end);
                assert forall|i: int| 0 <= i < chunk@.len() implies {
                    &&& call_requires(*resolve, (&#[trigger] chunk@[i],))
                    &&& forall|resolved: Option<ResolvedChunks<N>>|
                        call_ensures(*resolve, (&chunk@[i],), resolved) ==> (resolved is Some
                            && is_read(self.rules(), resolved->0) ==> resolved->0.wf())
                } by {
                    assert(chunk@[i] == items@[start + i]);
                }
                self.match_list_resolved_into(chunk, start as u32, resolve, matches);
                true
            },
            None => false,
        }
    }

    /// The lists of all workers, before they are finished.
    pub(crate) fn run_workers<S: Matchable>(
        &mut self,
        haystacks: &[S],
        chunk_size: usize,
        threads: usize,
        claims: &[usize],
    ) -> (out: Vec<Vec<Match>>)
        requires
            old(self).wf(),
            chunk_size > 0,
            haystacks@.len() <= u32::MAX,
            are_claims(
                claims@,
                chunk_total(haystacks@.len() as int, chunk_size as int),
                threads as int,
            ),
        ensures
            final(self).wf(),
            final(self).rules() == old(self).rules(),
            final(self).configuration() == old(self).configuration(),
            views(out@) == worker_lists(
                old(self).rules(),
                texts_of(haystacks@),
                chunk_size as int,
                claims@,
                threads as nat,
            ),
    {
        let ghost rules = self.rules();
        let ghost texts = texts_of(haystacks@);
        let ghost size = chunk_size as int;
        let mut lists = empty_lists(threads);
        for c in 0..claims.len()
            invariant
                self.wf(),
                chunk_size > 0,
                size == chunk_size,
                haystacks@.len() <= u32::MAX,
                are_claims(claims@, chunk_total(texts.len() as int, size), threads as int),
                self.rules() == rules,
                rules == old(self).rules(),
                self.configuration() == old(self).configuration(),
                texts == texts_of(haystacks@),
                lists@.len() == threads,
                forall|w: int|
                    0 <= w < threads ==> (#[trigger] lists@[w])@ == worker_hits(
                        rules,
                        texts,
                        size,
                        claims@.take(c as int),
                        w,
                    ),
        {
            let worker = claims[c];
            assert(claims@[c as int] < threads);
            proof {
                assert(claims@.take(c + 1).drop_last() =~= claims@.take(c as int));
                assert(claims@.take(c + 1).last() == worker);
            }
            self.match_chunk_into(haystacks, c, chunk_size, &mut lists[worker]);
        }
        assert(claims@.take(claims@.len() as int) =~= claims@);
        assert(views(lists@) =~= worker_lists(rules, texts, size, claims@, threads as nat));
        lists
    }

    /// The lists of all workers, before they are finished, the haystacks in chunks of their own.
    pub(crate) fn run_chunked_workers<C: MatchableChunked>(
        &mut self,
        haystacks: &[C],
        ctx: &C::Ctx,
        chunk_size: usize,
        threads: usize,
        claims: &[usize],
    ) -> (out: Vec<Vec<Match>>)
        requires
            old(self).wf(),
            chunk_size > 0,
            haystacks@.len() <= u32::MAX,
            are_claims(
                claims@,
                chunk_total(haystacks@.len() as int, chunk_size as int),
                threads as int,
            ),
        ensures
            final(self).wf(),
            final(self).rules() == old(self).rules(),
            final(self).configuration() == old(self).configuration(),
            views(out@) == worker_lists(
                old(self).rules(),
                chunked_texts(haystacks@, *ctx),
                chunk_size as int,
                claims@,
                threads as nat,
            ),
    {
        let ghost rules = self.rules();
        let ghost texts = chunked_texts(haystacks@, *ctx);
        let ghost size = chunk_size as int;
        let mut lists = empty_lists(threads);
        for c in 0..claims.len()
            invariant
                self.wf(),
                chunk_size > 0,
                size == chunk_size,
                haystacks@.len() <= u32::MAX,
                are_claims(claims@, chunk_total(texts.len() as int, size), threads as int),
                self.rules() == rules,
                rules == old(self).rules(),
                self.configuration() == old(self).configuration(),
                texts == chunked_texts(haystacks@, *ctx),
                lists@.len() == threads,
                forall|w: int|
                    0 <= w < threads ==> (#[trigger] lists@[w])@ == worker_hits(
                        rules,
                        texts,
                        size,
                        claims@.take(c as int),
                        w,
                    ),
        {
            let worker = claims[c];
            assert(claims@[c as int] < threads);
            proof {
                assert(claims@.take(c + 1).drop_last() =~= claims@.take(c as int));
                assert(claims@.take(c + 1).last() == worker);
            }
            self.match_chunk_chunked_into(haystacks, ctx, c, chunk_size, &mut lists[worker]);
        }
        assert(claims@.take(claims@.len() as int) =~= claims@);
        assert(views(lists@) =~= worker_lists(rules, texts, size, claims@, threads as nat));
        lists
    }

    /// The lists of all workers, before they are finished, the haystacks resolved by a callback.
    pub(crate) fn run_resolved_workers<
        T,
        F: Fn(&T) -> Option<ResolvedChunks<N>>,
        const N: usize,
    >(
        &mut self,
        items: &[T],
        resolve: &F,
        chunk_size: usize,
        threads: usize,
        claims: &[usize],
    ) -> (out: Vec<Vec<Match>>)
        requires
            old(self).wf(),
            chunk_size > 0,
            0 < items@.len() <= u32::MAX,
            is_resolver(items@, *resolve, old(self).rules()),
            are_claims(
                claims@,
                chunk_total(items@.len() as int, chunk_size as int),
                threads as int,
            ),
        ensures
            final(self).wf(),
            final(self).rules() == old(self).rules(),
            final(self).configuration() == old(self).configuration(),
            exists|texts: Seq<Option<Seq<u8>>>|
                #[trigger] are_resolved(items@, *resolve, texts) && views(out@) == worker_lists(
                    old(self).rules(),
                    texts,
                    chunk_size as int,
                    claims@,
                    threads as nat,
                ),
    {
        let ghost rules = self.rules();
        let ghost size = chunk_size as int;
        let ghost len = items@.len() as int;
        let ghost mut texts: Seq<Option<Seq<u8>>> = Seq::empty();
        let mut lists = empty_lists(threads);
        proof {
            assert(0 * size == 0) by (nonlinear_arith);
            lemma_chunks_cover(len, size);
        }
        for c in 0..claims.len()
            invariant
                self.wf(),
                chunk_size > 0,
                size == chunk_size,
                len == items@.len(),
                0 < items@.len() <= u32::MAX,
                is_resolver(items@, *resolve, rules),
                are_claims(claims@, chunk_total(len, size), threads as int),
                self.rules() == rules,
                rules == old(self).rules(),
                self.configuration() == old(self).configuration(),
                texts.len() == if c == 0 {
                    0
                } else {
                    chunk_end(len, size, c - 1)
                },
                forall|k: int|
                    0 <= k < texts.len() ==> may_resolve(items@[k], *resolve, #[trigger] texts[k]),
                lists@.len() == threads,
                forall|w: int|
                    0 <= w < threads ==> (#[trigger] lists@[w])@ == worker_hits(
                        rules,
                        texts,
                        size,
                        claims@.take(c as int),
                        w,
                    ),
        {
            let worker = claims[c];
            assert(claims@[c as int] < threads);
            let ghost end = chunk_end(len, size, c as int);
            let ghost before = lists@;
            proof {
                assert(claims@.take(c + 1).drop_last() =~= claims@.take(c as int));
                assert(claims@.take(c + 1).last() == worker);
                lemma_chunk_starts(len, size, c as int);
                if c > 0 {
                    assert((c - 1 + 1) * size == c * size);
                } else {
                    assert(0 * size == 0) by (nonlinear_arith);
                }
                assert(texts.len() == c * size);
            }
            self.match_chunk_resolved_into(items, resolve, c, chunk_size, &mut lists[worker]);
            proof {
                let chunk = items@.subrange(c * size, end);
                let more = choose|more: Seq<Option<Seq<u8>>>|
                    #[trigger] are_resolved(chunk, *resolve, more) && lists@[worker as int]@
                        == before[worker as int]@ + hits(rules, more, c * size);
                let front = texts;
                texts = front + more;
                assert(texts.take(c * size) =~= front);
                assert(chunk_texts(texts, size, c as int) =~= more);
                assert forall|w: int| 0 <= w < threads implies (#[trigger] lists@[w])@
                    == worker_hits(rules, texts, size, claims@.take(c + 1), w) by {
                    assert(before[w]@ == worker_hits(
                        rules,
                        front,
                        size,
                        claims@.take(c as int),
                        w,
                    ));
                    lemma_worker_hits_of_front(
                        rules,
                        texts,
                        c * size,
                        size,
                        claims@.take(c as int),
                        w,
                    );
                }
                assert forall|k: int| 0 <= k < texts.len() implies may_resolve(
                    items@[k],
                    *resolve,
                    #[trigger] texts[k],
                ) by {
                    if k < front.len() {
                        assert(texts[k] == front[k]);
                    } else {
                        assert(texts[k] == more[k - front.len()]);
                        assert(items@[k] == chunk[k - front.len()]);
                    }
                }
            }
        }
        assert(claims@.take(claims@.len() as int) =~= claims@);
        assert(texts.len() == len);
        assert(are_resolved(items@, *resolve, texts));
        assert(views(lists@) =~= worker_lists(rules, texts, size, claims@, threads as nat));
        lists
    }

    /// The matches of a list that is not shared out: there is nothing to share, nothing to find,
    /// or nobody to share it with.
    pub fn match_list_alone<S: Matchable>(
        &mut self,
        haystacks: &[S],
        threads: usize,
    ) -> (out: Option<Vec<Match>>)
        requires
            old(self).wf(),
            haystacks@.len() <= u32::MAX,
        ensures
            final(self).wf(),
            final(self).rules() == old(self).rules(),
            final(self).configuration() == old(self).configuration(),
            out is None <==> is_shared_out(
                haystacks@.len() as int,
                old(self).rules(),
                threads as nat,
            ),
            out matches Some(matches) ==> is_arranged(
                hits(old(self).rules(), texts_of(haystacks@), 0),
                old(self).configuration().sort,
                old(self).rules().len() > 0,
                matches@,
            ),
    {
        if haystacks.len() > 0 && !self.is_empty() && threads != 1 {
            return None;
        }
        Some(self.match_list(haystacks))
    }

    /// The matches of items that are not shared out, their haystacks resolved by a callback.
    pub fn match_list_resolved_alone<
        T,
        F: Fn(&T) -> Option<ResolvedChunks<N>>,
        const N: usize,
    >(&mut self, items: &[T], resolve: &F, threads: usize) -> (out: Option<Vec<Match>>)
        requires
            old(self).wf(),
            items@.len() <= u32::MAX,
            is_resolver(items@, *resolve, old(self).rules()),
        ensures
            final(self).wf(),
            final(self).rules() == old(self).rules(),
            final(self).configuration() == old(self).configuration(),
            out is None <==> is_shared_out(items@.len() as int, old(self).rules(), threads as nat),
            out matches Some(matches) ==> exists|texts: Seq<Option<Seq<u8>>>|
                #[trigger] are_resolved(items@, *resolve, texts) && is_arranged(
                    hits(old(self).rules(), texts, 0),
                    old(self).configuration().sort,
                    old(self).rules().len() > 0,
                    matches@,
                ),
    {
        if items.len() > 0 && !self.is_empty() && threads != 1 {
            return None;
        }
        Some(self.match_list_resolved(items, resolve))
    }

    /// Matches a list with `threads` workers, of which `claims[c]` claims chunk `c`. The chunks
    /// have [`PARALLEL_CHUNK`] items.
    ///
    /// Sorted by score, the matches are those of `match_list`, whoever claims what. Else those of
    /// a worker come together, in the order of the list.
    pub fn match_list_parallel<S: Matchable>(
        &mut self,
        haystacks: &[S],
        threads: usize,
        claims: &[usize],
    ) -> (out: Vec<Match>)
        requires
            old(self).wf(),
            threads > 0,
            haystacks@.len() <= u32::MAX,
            are_claims(
                claims@,
                chunk_total(haystacks@.len() as int, PARALLEL_CHUNK as int),
                threads as int,
            ),
        ensures
            final(self).wf(),
            final(self).rules() == old(self).rules(),
            final(self).configuration() == old(self).configuration(),
            is_parallel_result(
                old(self).rules(),
                texts_of(haystacks@),
                old(self).configuration().sort,
                claims@,
                threads as nat,
                out@,
            ),
    {
        if let Some(matches) = self.match_list_alone(haystacks, threads) {
            return matches;
        }
        let ghost rules = self.rules();
        let ghost texts = texts_of(haystacks@);
        let sort = self.config.sort;
        let mut lists = self.run_workers(haystacks, PARALLEL_CHUNK, threads, claims);
        finish_workers(&mut lists, sort);
        proof {
            lemma_finished(
                rules,
                texts,
                sort,
                PARALLEL_CHUNK as int,
                claims@,
                threads as nat,
                views(lists@),
            );
            assert forall|k: int| 0 <= k < lists@.len() && sort is ScoreThenIndexAsc implies
                is_ranked((#[trigger] lists@[k])@) by {
                assert(views(lists@)[k] == lists@[k]@);
            }
        }
        merge_workers(lists, sort)
    }

    /// Matches items whose haystacks are resolved by a callback, with `threads` workers, of which
    /// `claims[c]` claims chunk `c`. The chunks have [`PARALLEL_CHUNK`] items.
    ///
    /// Sorted by score, the matches are those of `match_list_resolved`, whoever claims what. Else
    /// those of a worker come together, in the order of the items.
    pub fn match_list_parallel_resolved<
        T,
        F: Fn(&T) -> Option<ResolvedChunks<N>>,
        const N: usize,
    >(
        &mut self,
        items: &[T],
        resolve: &F,
        threads: usize,
        claims: &[usize],
    ) -> (out: Vec<Match>)
        requires
            old(self).wf(),
            threads > 0,
            items@.len() <= u32::MAX,
            is_resolver(items@, *resolve, old(self).rules()),
            are_claims(
                claims@,
                chunk_total(items@.len() as int, PARALLEL_CHUNK as int),
                threads as int,
            ),
        ensures
            final(self).wf(),
            final(self).rules() == old(self).rules(),
            final(self).configuration() == old(self).configuration(),
            exists|texts: Seq<Option<Seq<u8>>>|
                #[trigger] are_resolved(items@, *resolve, texts) && is_parallel_result(
                    old(self).rules(),
                    texts,
                    old(self).configuration().sort,
                    claims@,
                    threads as nat,
                    out@,
                ),
    {
        if let Some(matches) = self.match_list_resolved_alone(items, resolve, threads) {
            return matches;
        }
        let ghost rules = self.rules();
        let sort = self.config.sort;
        let mut lists = self.run_resolved_workers(items, resolve, PARALLEL_CHUNK, threads, claims);
        let ghost texts = choose|texts: Seq<Option<Seq<u8>>>|
            #[trigger] are_resolved(items@, *resolve, texts) && views(lists@) == worker_lists(
                rules,
                texts,
                PARALLEL_CHUNK as int,
                claims@,
                threads as nat,
            );
        finish_workers(&mut lists, sort);
        proof {
            lemma_finished(
                rules,
                texts,
                sort,
                PARALLEL_CHUNK as int,
                claims@,
                threads as nat,
                views(lists@),
            );
            assert forall|k: int| 0 <= k < lists@.len() && sort is ScoreThenIndexAsc implies
                is_ranked((#[trigger] lists@[k])@) by {
                assert(views(lists@)[k] == lists@[k]@);
            }
        }
        let out = merge_workers(lists, sort);
        assert(are_resolved(items@, *resolve, texts));
        out
    }
}

/// An empty list for each worker.
fn empty_lists(threads: usize) -> (out: Vec<Vec<Match>>)
    ensures
        out@.len() == threads,
        forall|w: int| 0 <= w < threads ==> (#[trigger] out@[w])@ == Seq::<Match>::empty(),
{
    let mut lists: Vec<Vec<Match>> = Vec::new();
    for worker in 0..threads
        invariant
            lists@.len() == worker,
            forall|w: int| 0 <= w < worker ==> (#[trigger] lists@[w])@ == Seq::<Match>::empty(),
    {
        lists.push(Vec::new());
    }
    lists
}

// ---------------------------------------------------------------------------------------------
// Laws.
// ---------------------------------------------------------------------------------------------
/// Several workers return the matches of the whole list, in whatever order: none is lost, and no
/// item is matched twice.
pub proof fn lemma_parallel_is_permutation(
    rules: Seq<Rule>,
    texts: Seq<Option<Seq<u8>>>,
    sort: SortStrategy,
    claims: Seq<usize>,
    threads: nat,
    out: Seq<Match>,
)
    requires
        texts.len() <= u32::MAX,
        are_claims(claims, chunk_total(texts.len() as int, PARALLEL_CHUNK as int), threads as int),
        is_parallel_result(rules, texts, sort, claims, threads, out),
    ensures
        out.to_multiset() == hits(rules, texts, 0).to_multiset(),
        forall|i: int, j: int|
            0 <= i < j < out.len() ==> #[trigger] out[i].index != #[trigger] out[j].index,
{
    if is_shared_out(texts.len() as int, rules, threads) {
        lemma_workers_lose_nothing(
            rules,
            texts,
            sort,
            PARALLEL_CHUNK as int,
            claims,
            threads,
            out,
        );
    } else {
        lemma_arranged_is_permutation(hits(rules, texts, 0), sort, rules.len() > 0, out);
    }
    lemma_permuted_indices_are_distinct(rules, texts, out);
}

/// With a steady callback, several workers return a permutation of what one run over the items
/// appends to an empty list, and no item is matched twice.
pub proof fn lemma_parallel_resolved_is_permutation<
    T,
    F: Fn(&T) -> Option<ResolvedChunks<N>>,
    const N: usize,
>(
    rules: Seq<Rule>,
    items: Seq<T>,
    resolve: F,
    sort: SortStrategy,
    claims: Seq<usize>,
    threads: nat,
    parallel: Seq<Match>,
    sequential: Seq<Match>,
)
    requires
        items.len() <= u32::MAX,
        is_steady(items, resolve),
        are_claims(claims, chunk_total(items.len() as int, PARALLEL_CHUNK as int), threads as int),
        exists|texts: Seq<Option<Seq<u8>>>| #[trigger]
            are_resolved(items, resolve, texts) && is_parallel_result(
                rules,
                texts,
                sort,
                claims,
                threads,
                parallel,
            ),
        exists|texts: Seq<Option<Seq<u8>>>| #[trigger]
            are_resolved(items, resolve, texts) && sequential == hits(rules, texts, 0),
    ensures
        parallel.to_multiset() == sequential.to_multiset(),
        forall|i: int, j: int|
            0 <= i < j < parallel.len() ==> #[trigger] parallel[i].index
                != #[trigger] parallel[j].index,
{
    let texts = choose|texts: Seq<Option<Seq<u8>>>| #[trigger]
        are_resolved(items, resolve, texts) && is_parallel_result(
            rules,
            texts,
            sort,
            claims,
            threads,
            parallel,
        );
    let others = choose|texts: Seq<Option<Seq<u8>>>| #[trigger]
        are_resolved(items, resolve, texts) && sequential == hits(rules, texts, 0);
    lemma_steady_texts_are_unique(items, resolve, texts, others);
    lemma_parallel_is_permutation(rules, texts, sort, claims, threads, parallel);
}

} // verus!
