//! Matching of a list with a needle that is used once.
use vstd::prelude::*;

use crate::chunks::chunk_total;
use crate::config::{Config, SortStrategy};
use crate::k_merge::{merge_by_keys, pool, views};
use crate::matchable::{texts_of, Matchable};
use crate::matcher::{
    are_resolved, chunked_texts, hits, is_arranged, is_resolver,
    lemma_permuted_indices_are_distinct, lemma_what_is_listed, MatchableChunked, Matcher,
    ResolvedChunks,
};
use crate::matches::{is_ranked, reverse_matches, Match};
use crate::pattern::{hit_by_all, needle_rules, Rule};
use crate::sort::lemma_sort_keeps_matches;
use crate::workers::{
    are_claims, concatenate, finish_workers, is_merged, lemma_finished,
    lemma_workers_agree_with_one, lemma_workers_lose_nothing, worker_lists,
};

verus! {

/// The number of items of a chunk. Smaller chunks are shared out more evenly, and claimed more
/// often.
pub const ONE_SHOT_CHUNK: usize = 512;

/// What several workers return, whoever claims what. An empty needle matches every item that has
/// a text, and leaves them in order.
pub open spec fn is_one_shot_result(
    rules: Seq<Rule>,
    texts: Seq<Option<Seq<u8>>>,
    sort: SortStrategy,
    claims: Seq<usize>,
    threads: nat,
    out: Seq<Match>,
) -> bool {
    if rules.len() == 0 {
        out == hits(rules, texts, 0)
    } else if texts.len() == 0 {
        out == Seq::<Match>::empty()
    } else {
        is_merged(
            rules,
            texts,
            sort,
            worker_lists(rules, texts, ONE_SHOT_CHUNK as int, claims, threads),
            out,
        )
    }
}

/// Matches a list. The matches come in the order of the configuration.
pub fn match_list<S: Matchable>(needle: &str, haystacks: &[S], config: &Config) -> (out: Vec<Match>)
    requires
        haystacks@.len() <= u32::MAX,
    ensures
        is_arranged(
            hits(needle_rules(needle@, *config), texts_of(haystacks@), 0),
            config.sort,
            needle@.len() > 0,
            out@,
        ),
{
    let mut matcher = Matcher::new(needle, config);
    matcher.match_list(haystacks)
}

/// Merges the finished lists of all workers.
pub fn merge_lists(lists: Vec<Vec<Match>>, sort: SortStrategy) -> (out: Vec<Match>)
    requires
        sort is ScoreThenIndexAsc ==> forall|k: int|
            0 <= k < lists@.len() ==> is_ranked((#[trigger] lists@[k])@),
    ensures
        match sort {
            SortStrategy::ScoreThenIndexAsc => is_ranked(out@) && out@.to_multiset() == pool(
                views(lists@),
            ),
            SortStrategy::IndexAsc => out@ == views(lists@).flatten_alt(),
            SortStrategy::IndexDesc => out@ == views(lists@).flatten_alt().reverse(),
        },
{
    if sort.is_by_score() {
        return merge_by_keys(lists);
    }
    let mut out = concatenate(&lists);
    if sort.is_reversed() {
        reverse_matches(&mut out);
    }
    out
}

/// Finishes the lists of the workers and merges them.
fn merge_finished(
    lists: Vec<Vec<Match>>,
    sort: SortStrategy,
    Ghost(rules): Ghost<Seq<Rule>>,
    Ghost(texts): Ghost<Seq<Option<Seq<u8>>>>,
    Ghost(claims): Ghost<Seq<usize>>,
) -> (out: Vec<Match>)
    requires
        texts.len() <= u32::MAX,
        are_claims(claims, chunk_total(texts.len() as int, ONE_SHOT_CHUNK as int), lists@.len() as int),
        views(lists@) == worker_lists(rules, texts, ONE_SHOT_CHUNK as int, claims, lists@.len()),
    ensures
        is_merged(rules, texts, sort, views(lists@), out@),
{
    let ghost before = views(lists@);
    let mut lists = lists;
    finish_workers(&mut lists, sort);
    proof {
        lemma_finished(
            rules,
            texts,
            sort,
            ONE_SHOT_CHUNK as int,
            claims,
            before.len(),
            views(lists@),
        );
        assert forall|k: int| 0 <= k < lists@.len() && sort is ScoreThenIndexAsc implies is_ranked(
            (#[trigger] lists@[k])@,
        ) by {
            assert(views(lists@)[k] == lists@[k]@);
        }
    }
    merge_lists(lists, sort)
}

/// The matches of a list that is not shared out: there is nothing to share, or nothing to find.
pub fn match_list_alone<S: Matchable>(
    matcher: &mut Matcher,
    haystacks: &[S],
) -> (out: Option<Vec<Match>>)
    requires
        old(matcher).wf(),
        haystacks@.len() <= u32::MAX,
    ensures
        final(matcher).wf(),
        final(matcher).rules() == old(matcher).rules(),
        final(matcher).configuration() == old(matcher).configuration(),
        out is None <==> haystacks@.len() > 0 && old(matcher).rules().len() > 0,
        out matches Some(matches) ==> matches@ == hits(
            old(matcher).rules(),
            texts_of(haystacks@),
            0,
        ),
{
    if haystacks.len() > 0 && !matcher.is_empty() {
        return None;
    }
    let mut out: Vec<Match> = Vec::new();
    matcher.match_list_into(haystacks, 0, &mut out);
    assert(out@ =~= hits(matcher.rules(), texts_of(haystacks@), 0));
    Some(out)
}

/// The matches of items that are not shared out, their haystacks resolved by a callback.
pub fn match_list_resolved_alone<T, F: Fn(&T) -> Option<ResolvedChunks<N>>, const N: usize>(
    matcher: &mut Matcher,
    items: &[T],
    resolve: &F,
) -> (out: Option<Vec<Match>>)
    requires
        old(matcher).wf(),
        items@.len() <= u32::MAX,
        is_resolver(items@, *resolve, old(matcher).rules()),
    ensures
        final(matcher).wf(),
        final(matcher).rules() == old(matcher).rules(),
        final(matcher).configuration() == old(matcher).configuration(),
        out is None <==> items@.len() > 0 && old(matcher).rules().len() > 0,
        out matches Some(matches) ==> exists|texts: Seq<Option<Seq<u8>>>|
            #[trigger] are_resolved(items@, *resolve, texts) && matches@ == hits(
                old(matcher).rules(),
                texts,
                0,
            ),
{
    if items.len() > 0 && !matcher.is_empty() {
        return None;
    }
    let mut out: Vec<Match> = Vec::new();
    matcher.match_list_resolved_into(items, 0, resolve, &mut out);
    proof {
        let texts = choose|texts: Seq<Option<Seq<u8>>>|
            #[trigger] are_resolved(items@, *resolve, texts) && out@ == Seq::<Match>::empty()
                + hits(matcher.rules(), texts, 0);
        assert(out@ =~= hits(matcher.rules(), texts, 0));
    }
    Some(out)
}

/// The matches of items that are not shared out and lie in chunks.
pub fn match_list_chunked_alone<C: MatchableChunked>(
    matcher: &mut Matcher,
    haystacks: &[C],
    ctx: &C::Ctx,
) -> (out: Option<Vec<Match>>)
    requires
        old(matcher).wf(),
        haystacks@.len() <= u32::MAX,
    ensures
        final(matcher).wf(),
        final(matcher).rules() == old(matcher).rules(),
        final(matcher).configuration() == old(matcher).configuration(),
        out is None <==> haystacks@.len() > 0 && old(matcher).rules().len() > 0,
        out matches Some(matches) ==> matches@ == hits(
            old(matcher).rules(),
            chunked_texts(haystacks@, *ctx),
            0,
        ),
{
    if haystacks.len() > 0 && !matcher.is_empty() {
        return None;
    }
    let mut out: Vec<Match> = Vec::new();
    matcher.match_list_chunked_into(haystacks, ctx, 0, &mut out);
    assert(out@ =~= hits(matcher.rules(), chunked_texts(haystacks@, *ctx), 0));
    Some(out)
}

/// Matches a list with `threads` workers, of which `claims[c]` claims chunk `c`. The chunks have
/// [`ONE_SHOT_CHUNK`] items.
pub fn match_list_parallel<S: Matchable>(
    needle: &str,
    haystacks: &[S],
    config: &Config,
    threads: usize,
    claims: &[usize],
) -> (out: Vec<Match>)
    requires
        threads > 0,
        haystacks@.len() < u32::MAX,
        are_claims(
            claims@,
            chunk_total(haystacks@.len() as int, ONE_SHOT_CHUNK as int),
            threads as int,
        ),
    ensures
        is_one_shot_result(
            needle_rules(needle@, *config),
            texts_of(haystacks@),
            config.sort,
            claims@,
            threads as nat,
            out@,
        ),
{
    let mut matcher = Matcher::new(needle, config);
    let ghost rules = matcher.rules();
    let ghost texts = texts_of(haystacks@);
    if let Some(matches) = match_list_alone(&mut matcher, haystacks) {
        return matches;
    }
    let lists = matcher.run_workers(haystacks, ONE_SHOT_CHUNK, threads, claims);
    assert(views(lists@).len() == threads);
    merge_finished(lists, config.sort, Ghost(rules), Ghost(texts), Ghost(claims@))
}

/// Matches items whose haystacks are resolved by a callback, with `threads` workers, of which
/// `claims[c]` claims chunk `c`. The chunks have [`ONE_SHOT_CHUNK`] items.
///
/// For each item the callback returns the chunks of its haystack, or nothing to skip it.
pub fn match_list_parallel_resolved<T, F: Fn(&T) -> Option<ResolvedChunks<N>>, const N: usize>(
    needle: &str,
    items: &[T],
    resolve: &F,
    config: &Config,
    threads: usize,
    claims: &[usize],
) -> (out: Vec<Match>)
    requires
        threads > 0,
        items@.len() < u32::MAX,
        is_resolver(items@, *resolve, needle_rules(needle@, *config)),
        are_claims(
            claims@,
            chunk_total(items@.len() as int, ONE_SHOT_CHUNK as int),
            threads as int,
        ),
    ensures
        exists|texts: Seq<Option<Seq<u8>>>|
            #[trigger] are_resolved(items@, *resolve, texts) && is_one_shot_result(
                needle_rules(needle@, *config),
                texts,
                config.sort,
                claims@,
                threads as nat,
                out@,
            ),
{
    let mut matcher = Matcher::new(needle, config);
    let ghost rules = matcher.rules();
    if let Some(matches) = match_list_resolved_alone(&mut matcher, items, resolve) {
        return matches;
    }
    let lists = matcher.run_resolved_workers(items, resolve, ONE_SHOT_CHUNK, threads, claims);
    let ghost texts = choose|texts: Seq<Option<Seq<u8>>>|
        #[trigger] are_resolved(items@, *resolve, texts) && views(lists@) == worker_lists(
            rules,
            texts,
            ONE_SHOT_CHUNK as int,
            claims@,
            threads as nat,
        );
    assert(views(lists@).len() == threads);
    assert(are_resolved(items@, *resolve, texts));
    merge_finished(lists, config.sort, Ghost(rules), Ghost(texts), Ghost(claims@))
}

/// Matches items that lie in chunks, with `threads` workers, of which `claims[c]` claims chunk
/// `c` of the list. The chunks of the list have [`ONE_SHOT_CHUNK`] items.
pub fn match_list_parallel_chunked<C: MatchableChunked>(
    needle: &str,
    haystacks: &[C],
    ctx: &C::Ctx,
    config: &Config,
    threads: usize,
    claims: &[usize],
) -> (out: Vec<Match>)
    requires
        threads > 0,
        haystacks@.len() < u32::MAX,
        are_claims(
            claims@,
            chunk_total(haystacks@.len() as int, ONE_SHOT_CHUNK as int),
            threads as int,
        ),
    ensures
        is_one_shot_result(
            needle_rules(needle@, *config),
            chunked_texts(haystacks@, *ctx),
            config.sort,
            claims@,
            threads as nat,
            out@,
        ),
{
    let mut matcher = Matcher::new(needle, config);
    let ghost rules = matcher.rules();
    let ghost texts = chunked_texts(haystacks@, *ctx);
    if let Some(matches) = match_list_chunked_alone(&mut matcher, haystacks, ctx) {
        return matches;
    }
    let lists = matcher.run_chunked_workers(haystacks, ctx, ONE_SHOT_CHUNK, threads, claims);
    assert(views(lists@).len() == threads);
    merge_finished(lists, config.sort, Ghost(rules), Ghost(texts), Ghost(claims@))
}

// ---------------------------------------------------------------------------------------------
// Laws.
// ---------------------------------------------------------------------------------------------
/// Sorted by score, several workers return what one run over the list returns, whoever claims
/// what.
pub proof fn lemma_parallel_agrees_with_sequential(
    rules: Seq<Rule>,
    texts: Seq<Option<Seq<u8>>>,
    claims: Seq<usize>,
    threads: nat,
    parallel: Seq<Match>,
    sequential: Seq<Match>,
)
    requires
        texts.len() <= u32::MAX,
        is_one_shot_result(
            rules,
            texts,
            SortStrategy::ScoreThenIndexAsc,
            claims,
            threads,
            parallel,
        ),
        is_arranged(
            hits(rules, texts, 0),
            SortStrategy::ScoreThenIndexAsc,
            rules.len() > 0,
            sequential,
        ),
    ensures
        parallel == sequential,
{
    if rules.len() > 0 {
        if texts.len() == 0 {
            lemma_sort_keeps_matches(hits(rules, texts, 0), sequential);
            assert(sequential =~= parallel);
        } else {
            let lists = worker_lists(rules, texts, ONE_SHOT_CHUNK as int, claims, threads);
            lemma_workers_agree_with_one(rules, texts, lists, parallel, sequential);
        }
    }
}

/// Several workers return the matches of the whole list, in whatever order: none is lost, and no
/// item is matched twice.
pub proof fn lemma_one_shot_is_permutation(
    rules: Seq<Rule>,
    texts: Seq<Option<Seq<u8>>>,
    sort: SortStrategy,
    claims: Seq<usize>,
    threads: nat,
    out: Seq<Match>,
)
    requires
        texts.len() <= u32::MAX,
        are_claims(claims, chunk_total(texts.len() as int, ONE_SHOT_CHUNK as int), threads as int),
        is_one_shot_result(rules, texts, sort, claims, threads, out),
    ensures
        out.to_multiset() == hits(rules, texts, 0).to_multiset(),
        forall|i: int, j: int|
            0 <= i < j < out.len() ==> #[trigger] out[i].index != #[trigger] out[j].index,
{
    if rules.len() > 0 && texts.len() > 0 {
        lemma_workers_lose_nothing(
            rules,
            texts,
            sort,
            ONE_SHOT_CHUNK as int,
            claims,
            threads,
            out,
        );
    }
    lemma_permuted_indices_are_distinct(rules, texts, out);
}

/// Without a needle every item that has a text is returned, in the order of the list and with no
/// score, whatever the strategy.
pub proof fn lemma_no_needle_returns_all(
    texts: Seq<Option<Seq<u8>>>,
    sort: SortStrategy,
    claims: Seq<usize>,
    threads: nat,
    out: Seq<Match>,
)
    requires
        texts.len() <= u32::MAX,
        is_one_shot_result(Seq::empty(), texts, sort, claims, threads, out),
    ensures
        forall|k: int|
            0 <= k < out.len() ==> {
                &&& (#[trigger] out[k]).index < texts.len()
                &&& texts[out[k].index as int] is Some
                &&& out[k].score == 0
                &&& !out[k].exact
            },
        forall|a: int, b: int|
            0 <= a < b < out.len() ==> #[trigger] out[a].index < #[trigger] out[b].index,
        forall|i: int|
            0 <= i < texts.len() && (#[trigger] texts[i]) is Some ==> exists|k: int|
                0 <= k < out.len() && (#[trigger] out[k]).index == 0 + i,
{
    lemma_what_is_listed(Seq::empty(), texts, 0);
    assert forall|i: int| 0 <= i < texts.len() && (#[trigger] texts[i]) is Some implies exists|
        k: int,
    | 0 <= k < out.len() && (#[trigger] out[k]).index == 0 + i by {
        assert(hit_by_all(Seq::empty(), texts[i]->0) is Some);
    }
}

} // verus!
