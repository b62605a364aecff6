//! Matching of haystacks whose bytes do not lie next to each other, for example in an arena of
//! chunks.
//!
//! A callback resolves each item to chunks of [`SIMD_CHUNK_BYTES`] bytes. The chunks are gathered
//! into one buffer, some items at a time, and matched there like any other list. So the same
//! patterns match the same haystacks, wherever these lie.
use vstd::prelude::*;
use vstd::utf8::{decode_utf8, encode_utf8, valid_utf8};

use super::{
    hits, is_arranged, lemma_arranged_is_unique, lemma_hits_ascend, lemma_hits_of_parts, match_at,
    Matcher,
};
use crate::chunks::chunk_total;
use crate::config::{Config, SortStrategy};
use crate::matchable::{texts_of, Matchable};
use crate::matches::Match;
use crate::pattern::{
    hit_by_all, lemma_found_is_long_enough, lemma_patterns_become_rules, rules_of, Pattern, Rule,
};

verus! {

/// The size of a chunk.
pub const SIMD_CHUNK_BYTES: usize = 16;

/// The number of items that are gathered at a time.
const GATHER_BATCH: usize = 64;

/// The chunks of a haystack: the first `chunk_count` of `chunks`, the last of which is padded.
#[derive(Debug, Clone, Copy)]
pub struct ResolvedChunks<const N: usize> {
    pub chunks: [[u8; SIMD_CHUNK_BYTES]; N],
    pub chunk_count: usize,
    pub byte_len: u16,
}

impl<const N: usize> ResolvedChunks<N> {
    /// There are as many chunks as the haystack takes.
    pub open spec fn wf(self) -> bool {
        &&& self.chunk_count == chunk_total(self.byte_len as int, SIMD_CHUNK_BYTES as int)
        &&& self.chunk_count <= N
    }

    /// The haystack.
    pub open spec fn text(self) -> Seq<u8> {
        Seq::new(
            self.byte_len as nat,
            |i: int| self.chunks@[i / SIMD_CHUNK_BYTES as int]@[i % SIMD_CHUNK_BYTES as int],
        )
    }
}

/// The text of an item, or nothing where the item is to be skipped.
pub open spec fn resolved_text<const N: usize>(
    resolved: Option<ResolvedChunks<N>>,
) -> Option<Seq<u8>> {
    match resolved {
        Some(chunks) => Some(chunks.text()),
        None => None,
    }
}

/// Whether the chunks of an item are read. Without a pattern none are, and those of an item that
/// is too short to match are not either.
pub open spec fn is_read<const N: usize>(rules: Seq<Rule>, chunks: ResolvedChunks<N>) -> bool {
    rules.len() > 0 && chunks.byte_len >= min_haystack_len(rules)
}

/// A callback that resolves every item, and to as many chunks as it takes where they are read.
pub open spec fn is_resolver<T, F: Fn(&T) -> Option<ResolvedChunks<N>>, const N: usize>(
    items: Seq<T>,
    resolve: F,
    rules: Seq<Rule>,
) -> bool {
    forall|i: int|
        0 <= i < items.len() ==> {
            &&& call_requires(resolve, (&#[trigger] items[i],))
            &&& forall|resolved: Option<ResolvedChunks<N>>|
                call_ensures(resolve, (&items[i],), resolved) ==> (resolved is Some && is_read(
                    rules,
                    resolved->0,
                ) ==> resolved->0.wf())
        }
}

/// A callback that resolves an item to the same text whenever it is asked.
pub open spec fn is_steady<T, F: Fn(&T) -> Option<ResolvedChunks<N>>, const N: usize>(
    items: Seq<T>,
    resolve: F,
) -> bool {
    forall|i: int, a: Option<ResolvedChunks<N>>, b: Option<ResolvedChunks<N>>|
        0 <= i < items.len() && #[trigger] call_ensures(resolve, (&items[i],), a)
            && #[trigger] call_ensures(resolve, (&items[i],), b) ==> resolved_text(a)
            == resolved_text(b)
}

/// Texts to which a callback may resolve an item.
pub open spec fn may_resolve<T, F: Fn(&T) -> Option<ResolvedChunks<N>>, const N: usize>(
    item: T,
    resolve: F,
    text: Option<Seq<u8>>,
) -> bool {
    exists|resolved: Option<ResolvedChunks<N>>|
        #[trigger] call_ensures(resolve, (&item,), resolved) && text == resolved_text(resolved)
}

/// Texts to which a callback may resolve some items.
pub open spec fn are_resolved<T, F: Fn(&T) -> Option<ResolvedChunks<N>>, const N: usize>(
    items: Seq<T>,
    resolve: F,
    texts: Seq<Option<Seq<u8>>>,
) -> bool {
    &&& texts.len() == items.len()
    &&& forall|i: int|
        0 <= i < items.len() ==> may_resolve(items[i], resolve, #[trigger] texts[i])
}

/// The least length of a haystack that one pattern can match: the number of characters of its
/// needle less its typos. No bound is known of several patterns, of a negated one, or where the
/// typos have no limit.
pub open spec fn min_haystack_len(rules: Seq<Rule>) -> int {
    if rules.len() == 1 && !rules[0].negated && rules[0].max_typos is Some {
        let chars = decode_utf8(rules[0].needle).len();
        let typos = rules[0].max_typos->0;
        if chars >= typos {
            chars - typos
        } else {
            0
        }
    } else {
        0
    }
}

/// The buffers of a run over some items, kept for the next.
pub(super) struct ResolvedScratch {
    /// The gathered haystacks of a batch.
    bytes: Vec<u8>,
    /// For each gathered haystack the index of its item, and where it begins and how long it is.
    spans: Vec<(u32, u32, u32)>,
    hits: Vec<Match>,
}

impl ResolvedScratch {
    /// Nothing is gathered and nothing is found.
    pub(super) closed spec fn is_empty(self) -> bool {
        &&& self.bytes@ == Seq::<u8>::empty()
        &&& self.spans@ == Seq::<(u32, u32, u32)>::empty()
        &&& self.hits@ == Seq::<Match>::empty()
    }

    /// Empty buffers.
    pub(super) fn new() -> (out: Self)
        ensures
            out.is_empty(),
    {
        ResolvedScratch { bytes: Vec::new(), spans: Vec::new(), hits: Vec::new() }
    }
}

/// A gathered haystack.
spec fn span_text(bytes: Seq<u8>, span: (u32, u32, u32)) -> Seq<u8> {
    bytes.subrange(span.1 as int, span.1 + span.2)
}

spec fn are_spans(bytes: Seq<u8>, spans: Seq<(u32, u32, u32)>) -> bool {
    forall|k: int|
        0 <= k < spans.len() ==> (#[trigger] spans[k]).1 + spans[k].2 <= bytes.len()
}

/// The matches of the gathered haystacks, with the indices of their items.
spec fn span_hits(rules: Seq<Rule>, bytes: Seq<u8>, spans: Seq<(u32, u32, u32)>) -> Seq<Match>
    decreases spans.len(),
{
    if spans.len() == 0 {
        Seq::empty()
    } else {
        let rest = span_hits(rules, bytes, spans.drop_last());
        let last = spans.last();
        match match_at(rules, Some(span_text(bytes, last)), last.0 as int) {
            Some(found) => rest.push(found),
            None => rest,
        }
    }
}

/// What is gathered later does not change the haystacks that are there.
proof fn lemma_span_hits_keep(
    rules: Seq<Rule>,
    bytes: Seq<u8>,
    longer: Seq<u8>,
    spans: Seq<(u32, u32, u32)>,
)
    requires
        are_spans(bytes, spans),
        bytes.len() <= longer.len(),
        longer.take(bytes.len() as int) == bytes,
    ensures
        span_hits(rules, bytes, spans) == span_hits(rules, longer, spans),
    decreases spans.len(),
{
    if spans.len() > 0 {
        let front = spans.drop_last();
        assert forall|k: int| 0 <= k < front.len() implies (#[trigger] front[k]).1 + front[k].2
            <= bytes.len() by {
            assert(front[k] == spans[k]);
        }
        lemma_span_hits_keep(rules, bytes, longer, front);
        let last = spans[spans.len() - 1];
        assert forall|i: int| 0 <= i < bytes.len() implies bytes[i] == longer[i] by {
            assert(longer.take(bytes.len() as int)[i] == longer[i]);
        }
        assert(span_text(bytes, last) =~= span_text(longer, last));
    }
}

/// A match with the index of the item whose haystack was gathered.
spec fn mapped(spans: Seq<(u32, u32, u32)>, found: Match) -> Match {
    Match { index: spans[found.index as int].0, ..found }
}

/// The matches of the gathered haystacks, once their indices are mapped, are those of the items.
proof fn lemma_mapped_hits(
    rules: Seq<Rule>,
    bytes: Seq<u8>,
    spans: Seq<(u32, u32, u32)>,
    texts: Seq<Option<Seq<u8>>>,
)
    requires
        texts.len() == spans.len() <= u32::MAX,
        forall|k: int| 0 <= k < spans.len() ==> #[trigger] texts[k] == Some(span_text(bytes, spans[k])),
    ensures
        hits(rules, texts, 0).map_values(|found: Match| mapped(spans, found)) == span_hits(
            rules,
            bytes,
            spans,
        ),
    decreases spans.len(),
{
    let all = hits(rules, texts, 0);
    if spans.len() > 0 {
        let front = spans.drop_last();
        let some = texts.drop_last();
        assert forall|k: int| 0 <= k < front.len() implies #[trigger] some[k] == Some(
            span_text(bytes, front[k]),
        ) by {
            assert(some[k] == texts[k]);
        }
        lemma_mapped_hits(rules, bytes, front, some);
        lemma_hits_ascend(rules, some, 0);
        let rest = hits(rules, some, 0);
        assert(rest.map_values(|found: Match| mapped(front, found)) =~= rest.map_values(
            |found: Match| mapped(spans, found),
        )) by {
            assert forall|i: int| 0 <= i < rest.len() implies mapped(front, rest[i]) == mapped(
                spans,
                rest[i],
            ) by {
                assert(front[rest[i].index as int] == spans[rest[i].index as int]);
            }
        }
        assert(texts[texts.len() - 1] == Some(span_text(bytes, spans[spans.len() - 1])));
        assert(all.map_values(|found: Match| mapped(spans, found)) =~= span_hits(
            rules,
            bytes,
            spans,
        ));
    } else {
        assert(all.map_values(|found: Match| mapped(spans, found)) =~= Seq::empty());
    }
}

/// Appends the haystack of some chunks to the gathered bytes.
fn gather<const N: usize>(bytes: &mut Vec<u8>, resolved: &ResolvedChunks<N>)
    requires
        resolved.wf(),
        old(bytes)@.len() + 0x1_0000 <= usize::MAX,
    ensures
        final(bytes)@ == old(bytes)@ + resolved.text(),
{
    let start = bytes.len();
    let ghost before = bytes@;
    for c in 0..resolved.chunk_count
        invariant
            resolved.wf(),
            start == before.len(),
            bytes@.len() == start + c * SIMD_CHUNK_BYTES,
            forall|i: int| 0 <= i < start ==> #[trigger] bytes@[i] == before[i],
            forall|i: int|
                0 <= i < c * SIMD_CHUNK_BYTES ==> #[trigger] bytes@[start + i] == resolved.chunks@[i
                    / SIMD_CHUNK_BYTES as int]@[i % SIMD_CHUNK_BYTES as int],
    {
        for k in 0..SIMD_CHUNK_BYTES
            invariant
                resolved.wf(),
                c < resolved.chunk_count,
                start == before.len(),
                bytes@.len() == start + c * SIMD_CHUNK_BYTES + k,
                forall|i: int| 0 <= i < start ==> #[trigger] bytes@[i] == before[i],
                forall|i: int|
                    0 <= i < c * SIMD_CHUNK_BYTES + k ==> #[trigger] bytes@[start + i]
                        == resolved.chunks@[i / SIMD_CHUNK_BYTES as int]@[i
                        % SIMD_CHUNK_BYTES as int],
        {
            let chunk = &resolved.chunks[c];
            bytes.push(chunk[k]);
        }
    }
    let ghost whole = bytes@;
    bytes.truncate(start + resolved.byte_len as usize);
    proof {
        let text = resolved.text();
        assert forall|i: int| 0 <= i < bytes@.len() implies bytes@[i] == (before + text)[i] by {
            if i < start {
                assert(whole[i] == before[i]);
            } else {
                assert(whole[start + (i - start)] == text[i - start]);
            }
        }
        assert(bytes@ =~= before + text);
    }
}

impl Matcher {
    /// The matches of some items whose haystacks are resolved by a callback, in the order of the
    /// configuration.
    ///
    /// For each item the callback returns the chunks of its haystack, or nothing to skip it.
    pub fn match_list_resolved<T, F: Fn(&T) -> Option<ResolvedChunks<N>>, const N: usize>(
        &mut self,
        items: &[T],
        resolve: &F,
    ) -> (out: Vec<Match>)
        requires
            old(self).wf(),
            items@.len() <= u32::MAX,
            is_resolver(items@, *resolve, old(self).rules()),
        ensures
            final(self).wf(),
            final(self).rules() == old(self).rules(),
            final(self).configuration() == old(self).configuration(),
            exists|texts: Seq<Option<Seq<u8>>>|
                #[trigger] are_resolved(items@, *resolve, texts) && is_arranged(
                    hits(old(self).rules(), texts, 0),
                    old(self).configuration().sort,
                    old(self).rules().len() > 0,
                    out@,
                ),
    {
        let mut matches: Vec<Match> = Vec::new();
        self.match_list_resolved_into(items, 0, resolve, &mut matches);
        let ghost texts = choose|texts: Seq<Option<Seq<u8>>>|
            #[trigger] are_resolved(items@, *resolve, texts) && matches@ == Seq::<
                Match,
            >::empty() + hits(self.rules(), texts, 0);
        assert(matches@ =~= hits(self.rules(), texts, 0));
        self.arrange(&mut matches);
        matches
    }

    /// Appends the matches of some items whose haystacks are resolved by a callback, in the
    /// order of the items. The first item has the index `item_index_offset`.
    pub fn match_list_resolved_into<T, F: Fn(&T) -> Option<ResolvedChunks<N>>, const N: usize>(
        &mut self,
        items: &[T],
        item_index_offset: u32,
        resolve: &F,
        matches: &mut Vec<Match>,
    )
        requires
            old(self).wf(),
            items@.len() + item_index_offset <= u32::MAX,
            is_resolver(items@, *resolve, old(self).rules()),
        ensures
            final(self).wf(),
            final(self).rules() == old(self).rules(),
            final(self).configuration() == old(self).configuration(),
            exists|texts: Seq<Option<Seq<u8>>>|
                #[trigger] are_resolved(items@, *resolve, texts) && final(matches)@ == old(
                    matches,
                )@ + hits(old(self).rules(), texts, item_index_offset as int),
    {
        let mut scratch = ResolvedScratch::new();
        self.match_list_resolved_into_with(
            items,
            item_index_offset,
            resolve,
            matches,
            &mut scratch,
        );
    }

    /// The least length of a haystack that can match.
    pub fn resolved_min_haystack_len(&self) -> (out: usize)
        requires
            self.wf(),
        ensures
            out == min_haystack_len(self.rules()),
    {
        if self.patterns.len() == 1 && !self.patterns[0].is_negated() {
            if let Some(max) = self.patterns[0].max_typos() {
                let chars = self.raw_patterns[0].needle.as_str().unicode_len();
                proof {
                    let chars = self.raw_patterns@[0].needle@;
                    assert(self.rules()[0] == self.patterns@[0].rule());
                    vstd::utf8::encode_utf8_decode_utf8(chars);
                }
                return if chars >= max as usize {
                    chars - max as usize
                } else {
                    0
                };
            }
        }
        assert(self.patterns@.len() == 1 ==> self.rules()[0] == self.patterns@[0].rule());
        0
    }

    /// Appends the matches of some gathered haystacks, with the indices of their items.
    fn match_spans_into(&mut self, scratch: &mut ResolvedScratch, matches: &mut Vec<Match>)
        requires
            old(self).wf(),
            old(scratch).spans@.len() <= GATHER_BATCH,
            are_spans(old(scratch).bytes@, old(scratch).spans@),
            forall|k: int|
                0 <= k < old(scratch).spans@.len() ==> (#[trigger] old(scratch).spans@[k]).2
                    <= u16::MAX,
        ensures
            final(self).wf(),
            final(self).rules() == old(self).rules(),
            final(self).configuration() == old(self).configuration(),
            final(matches)@ == old(matches)@ + span_hits(
                old(self).rules(),
                old(scratch).bytes@,
                old(scratch).spans@,
            ),
    {
        let ghost rules = self.rules();
        let ghost bytes = scratch.bytes@;
        let ghost spans = scratch.spans@;
        let ghost texts = Seq::new(spans.len(), |k: int| Some(span_text(bytes, spans[k])));
        scratch.hits.clear();
        assert(hits(rules, texts.take(0), 0) =~= Seq::empty());
        let n = scratch.spans.len();
        for k in 0..n
            invariant
                n == spans.len(),
                self.wf(),
                self.rules() == rules,
                rules == old(self).rules(),
                self.configuration() == old(self).configuration(),
                scratch.bytes@ == bytes,
                scratch.spans@ == spans,
                are_spans(bytes, spans),
                spans.len() <= GATHER_BATCH,
                forall|k: int| 0 <= k < spans.len() ==> (#[trigger] spans[k]).2 <= u16::MAX,
                texts == Seq::new(spans.len(), |k: int| Some(span_text(bytes, spans[k]))),
                scratch.hits@ == hits(rules, texts.take(k as int), 0),
        {
            let span = scratch.spans[k];
            assert(spans[k as int].1 + spans[k as int].2 <= bytes.len());
            let len = scratch.bytes.len();
            let haystack = vstd::slice::slice_subrange(
                scratch.bytes.as_slice(),
                span.1 as usize,
                span.1 as usize + span.2 as usize,
            );
            proof {
                assert(texts.take(k + 1).drop_last() =~= texts.take(k as int));
                assert(texts.take(k + 1).last() == texts[k as int]);
                assert(haystack@ == span_text(bytes, spans[k as int]));
            }
            let hit = self.match_one(haystack);
            if let Some((score, exact)) = hit {
                scratch.hits.push(Match { index: k as u32, score, exact });
            }
        }
        let ghost all = scratch.hits@;
        proof {
            assert(texts.take(spans.len() as int) =~= texts);
            lemma_mapped_hits(rules, bytes, spans, texts);
            lemma_hits_ascend(rules, texts, 0);
        }
        let ghost done = matches@;
        let n = scratch.hits.len();
        for k in 0..n
            invariant
                n == all.len(),
                all == scratch.hits@,
                all == hits(rules, texts, 0),
                scratch.spans@ == spans,
                texts.len() == spans.len(),
                forall|k: int| 0 <= k < all.len() ==> (#[trigger] all[k]).index < texts.len(),
                matches@ == done + all.take(k as int).map_values(
                    |found: Match| mapped(spans, found),
                ),
        {
            let found = scratch.hits[k];
            let span = scratch.spans[found.index as usize];
            matches.push(Match { index: span.0, score: found.score, exact: found.exact });
            assert(all.take(k + 1).map_values(|found: Match| mapped(spans, found)) =~= all.take(
                k as int,
            ).map_values(|found: Match| mapped(spans, found)).push(mapped(spans, found)));
        }
        assert(all.take(all.len() as int) =~= all);
    }

    /// As `match_list_resolved_into`, in given buffers.
    pub(super) fn match_list_resolved_into_with<
        T,
        F: Fn(&T) -> Option<ResolvedChunks<N>>,
        const N: usize,
    >(
        &mut self,
        items: &[T],
        item_index_offset: u32,
        resolve: &F,
        matches: &mut Vec<Match>,
        scratch: &mut ResolvedScratch,
    )
        requires
            old(self).wf(),
            items@.len() + item_index_offset <= u32::MAX,
            is_resolver(items@, *resolve, old(self).rules()),
        ensures
            final(self).wf(),
            final(self).rules() == old(self).rules(),
            final(self).configuration() == old(self).configuration(),
            exists|texts: Seq<Option<Seq<u8>>>|
                #[trigger] are_resolved(items@, *resolve, texts) && final(matches)@ == old(
                    matches,
                )@ + hits(old(self).rules(), texts, item_index_offset as int),
    {
        let ghost rules = self.rules();
        let ghost offset = item_index_offset as int;
        let ghost mut texts: Seq<Option<Seq<u8>>> = Seq::empty();
        let len = items.len();
        if self.is_empty() {
            for i in 0..len
                invariant
                    len == items@.len(),
                    len + item_index_offset <= u32::MAX,
                    offset == item_index_offset,
                    is_resolver(items@, *resolve, rules),
                    rules.len() == 0,
                    texts.len() == i,
                    forall|k: int|
                        0 <= k < i ==> may_resolve(items@[k], *resolve, #[trigger] texts[k]),
                    matches@ == old(matches)@ + hits(rules, texts, offset),
            {
                assert(call_requires(*resolve, (&items@[i as int],)));
                let resolved = resolve(&items[i]);
                let ghost before = texts;
                proof {
                    texts = texts.push(resolved_text(resolved));
                    assert(texts.drop_last() =~= before);
                    assert(may_resolve(items@[i as int], *resolve, texts[i as int]));
                }
                if resolved.is_some() {
                    matches.push(Match::from_index(i + item_index_offset as usize));
                }
                assert(matches@ =~= old(matches)@ + hits(rules, texts, offset));
            }
            assert(are_resolved(items@, *resolve, texts));
            return;
        }
        let min_haystack_len = self.resolved_min_haystack_len();
        proof {
            self.lemma_needles_are_text();
        }
        let mut base: usize = 0;
        assert(matches@ =~= old(matches)@ + hits(rules, texts, offset));
        while base < len
            invariant
                len == items@.len(),
                len + item_index_offset <= u32::MAX,
                offset == item_index_offset,
                is_resolver(items@, *resolve, rules),
                self.wf(),
                self.rules() == rules,
                rules == old(self).rules(),
                rules.len() > 0,
                self.configuration() == old(self).configuration(),
                min_haystack_len == self::min_haystack_len(rules),
                forall|k: int| 0 <= k < rules.len() ==> valid_utf8((#[trigger] rules[k]).needle),
                base <= len,
                texts.len() == base,
                forall|k: int|
                    0 <= k < base ==> may_resolve(items@[k], *resolve, #[trigger] texts[k]),
                matches@ == old(matches)@ + hits(rules, texts, offset),
            decreases len - base,
        {
            let end = if len - base < GATHER_BATCH {
                len
            } else {
                base + GATHER_BATCH
            };
            scratch.bytes.clear();
            scratch.spans.clear();
            let ghost first = texts;
            let ghost mut batch: Seq<Option<Seq<u8>>> = Seq::empty();
            for i in base..end
                invariant
                    base < end <= len,
                    end <= base + GATHER_BATCH,
                    len == items@.len(),
                    len + item_index_offset <= u32::MAX,
                    offset == item_index_offset,
                    is_resolver(items@, *resolve, rules),
                    self.wf(),
                    self.rules() == rules,
                    rules.len() > 0,
                    min_haystack_len == self::min_haystack_len(rules),
                    forall|k: int|
                        0 <= k < rules.len() ==> valid_utf8((#[trigger] rules[k]).needle),
                    batch.len() == i - base,
                    forall|k: int|
                        0 <= k < batch.len() ==> may_resolve(
                            items@[base + k],
                            *resolve,
                            #[trigger] batch[k],
                        ),
                    scratch.spans@.len() <= i - base,
                    scratch.bytes@.len() <= 0x1_0000 * (i - base),
                    are_spans(scratch.bytes@, scratch.spans@),
                    forall|k: int|
                        0 <= k < scratch.spans@.len() ==> (#[trigger] scratch.spans@[k]).2
                            <= u16::MAX,
                    span_hits(rules, scratch.bytes@, scratch.spans@) == hits(
                        rules,
                        batch,
                        offset + base,
                    ),
            {
                assert(call_requires(*resolve, (&items@[i as int],)));
                let resolved = resolve(&items[i]);
                let ghost before = batch;
                proof {
                    batch = batch.push(resolved_text(resolved));
                    assert(batch.drop_last() =~= before);
                    assert(may_resolve(items@[i as int], *resolve, batch[i - base]));
                    assert(items@[i as int] == items@[base + (i - base)]);
                }
                if let Some(chunks) = resolved {
                    if chunks.byte_len as usize >= min_haystack_len {
                        let ghost bytes = scratch.bytes@;
                        let ghost spans = scratch.spans@;
                        let start = scratch.bytes.len();
                        gather(&mut scratch.bytes, &chunks);
                        scratch.spans.push(
                            (item_index_offset + i as u32, start as u32, chunks.byte_len as u32),
                        );
                        proof {
                            let span = scratch.spans@[spans.len() as int];
                            assert(scratch.bytes@.take(bytes.len() as int) =~= bytes);
                            lemma_span_hits_keep(rules, bytes, scratch.bytes@, spans);
                            assert(span_text(scratch.bytes@, span) =~= chunks.text());
                            assert(scratch.spans@.drop_last() =~= spans);
                            assert forall|k: int| 0 <= k < scratch.spans@.len() implies (
                            #[trigger] scratch.spans@[k]).1 + scratch.spans@[k].2
                                <= scratch.bytes@.len() by {
                                if k < spans.len() {
                                    assert(scratch.spans@[k] == spans[k]);
                                }
                            }
                        }
                    } else {
                        proof {
                            lemma_short_haystack_misses(rules, chunks.text());
                        }
                    }
                }
            }
            self.match_spans_into(scratch, matches);
            proof {
                lemma_hits_of_parts(rules, first, batch, offset);
                texts = first + batch;
                assert forall|k: int| 0 <= k < end implies may_resolve(
                    items@[k],
                    *resolve,
                    #[trigger] texts[k],
                ) by {
                    if k < base {
                        assert(texts[k] == first[k]);
                    } else {
                        assert(texts[k] == batch[k - base]);
                        assert(items@[k] == items@[base + (k - base)]);
                    }
                }
                assert(matches@ =~= old(matches)@ + hits(rules, texts, offset));
            }
            base = end;
        }
        assert(are_resolved(items@, *resolve, texts));
    }
}

proof fn lemma_chars_take_bytes(chars: Seq<char>)
    ensures
        chars.len() <= encode_utf8(chars).len(),
    decreases chars.len(),
{
    if chars.len() > 0 {
        lemma_chars_take_bytes(chars.drop_first());
    }
}

// ---------------------------------------------------------------------------------------------
// Laws.
// ---------------------------------------------------------------------------------------------
/// No haystack shorter than the least length matches.
pub proof fn lemma_short_haystack_misses(rules: Seq<Rule>, haystack: Seq<u8>)
    requires
        forall|k: int| 0 <= k < rules.len() ==> valid_utf8((#[trigger] rules[k]).needle),
        haystack.len() < min_haystack_len(rules),
    ensures
        hit_by_all(rules, haystack) is None,
{
    let rule = rules[0];
    let chars = decode_utf8(rule.needle);
    vstd::utf8::decode_utf8_encode_utf8(rule.needle);
    lemma_chars_take_bytes(chars);
    assert(rules.last() == rule);
    if rule.found(haystack) is Some {
        lemma_found_is_long_enough(rule, haystack);
    }
}

/// An item that is too short to match is as good as one that is skipped.
pub proof fn lemma_short_item_is_skipped(
    rules: Seq<Rule>,
    texts: Seq<Option<Seq<u8>>>,
    offset: int,
    i: int,
)
    requires
        forall|k: int| 0 <= k < rules.len() ==> valid_utf8((#[trigger] rules[k]).needle),
        0 <= i < texts.len(),
        texts[i] is Some,
        texts[i]->0.len() < min_haystack_len(rules),
    ensures
        hits(rules, texts, offset) == hits(rules, texts.update(i, None), offset),
    decreases texts.len(),
{
    let skipped = texts.update(i, None);
    if i == texts.len() - 1 {
        assert(skipped.drop_last() =~= texts.drop_last());
        lemma_short_haystack_misses(rules, texts[i]->0);
    } else {
        assert(skipped.drop_last() =~= texts.drop_last().update(i, None));
        lemma_short_item_is_skipped(rules, texts.drop_last(), offset, i);
    }
}

/// Two callbacks that agree on every item but one, which the first resolves to a haystack that is
/// too short to match and the second skips, lead to the same matches.
pub proof fn lemma_short_item_resolves_to_nothing<
    T,
    F: Fn(&T) -> Option<ResolvedChunks<N>>,
    G: Fn(&T) -> Option<ResolvedChunks<N>>,
    const N: usize,
>(
    rules: Seq<Rule>,
    items: Seq<T>,
    offset: int,
    i: int,
    short: F,
    skipping: G,
    short_texts: Seq<Option<Seq<u8>>>,
    skipping_texts: Seq<Option<Seq<u8>>>,
)
    requires
        forall|k: int| 0 <= k < rules.len() ==> valid_utf8((#[trigger] rules[k]).needle),
        0 <= i < items.len(),
        forall|k: int, a: Option<ResolvedChunks<N>>, b: Option<ResolvedChunks<N>>|
            0 <= k < items.len() && k != i && #[trigger] call_ensures(short, (&items[k],), a)
                && #[trigger] call_ensures(skipping, (&items[k],), b) ==> resolved_text(a)
                == resolved_text(b),
        forall|a: Option<ResolvedChunks<N>>| #[trigger]
            call_ensures(short, (&items[i],), a) ==> a is Some && a->0.byte_len < min_haystack_len(
                rules,
            ),
        forall|b: Option<ResolvedChunks<N>>| #[trigger]
            call_ensures(skipping, (&items[i],), b) ==> b is None,
        are_resolved(items, short, short_texts),
        are_resolved(items, skipping, skipping_texts),
    ensures
        hits(rules, short_texts, offset) == hits(rules, skipping_texts, offset),
{
    assert(may_resolve(items[i], short, short_texts[i]));
    lemma_short_item_is_skipped(rules, short_texts, offset, i);
    assert forall|k: int| 0 <= k < items.len() implies #[trigger] skipping_texts[k]
        == short_texts.update(i, None)[k] by {
        assert(may_resolve(items[k], short, short_texts[k]));
        assert(may_resolve(items[k], skipping, skipping_texts[k]));
    }
    assert(skipping_texts =~= short_texts.update(i, None));
}

/// A steady callback leaves one choice of texts.
pub proof fn lemma_steady_texts_are_unique<
    T,
    F: Fn(&T) -> Option<ResolvedChunks<N>>,
    const N: usize,
>(items: Seq<T>, resolve: F, a: Seq<Option<Seq<u8>>>, b: Seq<Option<Seq<u8>>>)
    requires
        is_steady(items, resolve),
        are_resolved(items, resolve, a),
        are_resolved(items, resolve, b),
    ensures
        a == b,
{
    assert forall|i: int| 0 <= i < items.len() implies a[i] == b[i] by {
        assert(may_resolve(items[i], resolve, a[i]));
        assert(may_resolve(items[i], resolve, b[i]));
    }
    assert(a =~= b);
}

/// Two calls on the same items, with the same patterns and a steady callback, append the same
/// matches, in whatever buffers they run: nothing that an earlier call left there shows. `first`
/// and `second` are what the two calls make of `before`.
pub proof fn lemma_buffers_leave_no_trace<
    T,
    F: Fn(&T) -> Option<ResolvedChunks<N>>,
    const N: usize,
>(
    rules: Seq<Rule>,
    items: Seq<T>,
    offset: int,
    resolve: F,
    before: Seq<Match>,
    first: Seq<Match>,
    second: Seq<Match>,
)
    requires
        is_steady(items, resolve),
        exists|texts: Seq<Option<Seq<u8>>>| #[trigger]
            are_resolved(items, resolve, texts) && first == before + hits(rules, texts, offset),
        exists|texts: Seq<Option<Seq<u8>>>| #[trigger]
            are_resolved(items, resolve, texts) && second == before + hits(rules, texts, offset),
    ensures
        first == second,
{
    let a = choose|texts: Seq<Option<Seq<u8>>>| #[trigger]
        are_resolved(items, resolve, texts) && first == before + hits(rules, texts, offset);
    let b = choose|texts: Seq<Option<Seq<u8>>>| #[trigger]
        are_resolved(items, resolve, texts) && second == before + hits(rules, texts, offset);
    lemma_steady_texts_are_unique(items, resolve, a, b);
}

/// Resolved matching returns what contiguous matching returns: where the callback resolves every
/// item to the text of a haystack, the matches of the items are those of the haystacks, whatever
/// the patterns, the typos and the order.
pub proof fn lemma_resolved_agrees_with_contiguous<
    S: Matchable,
    T,
    F: Fn(&T) -> Option<ResolvedChunks<N>>,
    const N: usize,
>(
    rules: Seq<Rule>,
    sort: SortStrategy,
    haystacks: Seq<S>,
    items: Seq<T>,
    resolve: F,
    texts: Seq<Option<Seq<u8>>>,
    contiguous: Seq<Match>,
    resolved: Seq<Match>,
)
    requires
        haystacks.len() == items.len() <= u32::MAX,
        forall|i: int, chunks: Option<ResolvedChunks<N>>|
            0 <= i < items.len() && #[trigger] call_ensures(resolve, (&items[i],), chunks)
                ==> resolved_text(chunks) == haystacks[i].text(),
        is_arranged(hits(rules, texts_of(haystacks), 0), sort, rules.len() > 0, contiguous),
        are_resolved(items, resolve, texts),
        is_arranged(hits(rules, texts, 0), sort, rules.len() > 0, resolved),
    ensures
        resolved == contiguous,
{
    assert forall|i: int| 0 <= i < texts.len() implies texts[i] == texts_of(haystacks)[i] by {
        assert(may_resolve(items[i], resolve, texts[i]));
    }
    assert(texts =~= texts_of(haystacks));
    lemma_arranged_is_unique(rules, texts, sort, rules.len() > 0, resolved, contiguous);
}

/// Chunks that were cut from a haystack hold it: where chunk `c` has the bytes of the haystack from
/// place `16 * c` on, as far as they go, the text of the chunks is the haystack, whatever its bytes
/// are and whatever the padding.
pub proof fn lemma_chunks_hold_haystack<const N: usize>(
    chunks: ResolvedChunks<N>,
    haystack: Seq<u8>,
)
    requires
        chunks.byte_len == haystack.len(),
        forall|c: int, k: int|
            #![trigger chunks.chunks@[c]@[k]]
            0 <= c && 0 <= k < 16 && 16 * c + k < haystack.len() ==> chunks.chunks@[c]@[k]
                == haystack[16 * c + k],
    ensures
        chunks.text() == haystack,
        resolved_text(Some(chunks)) == Some(haystack),
{
    assert forall|i: int| 0 <= i < haystack.len() implies #[trigger] chunks.text()[i]
        == haystack[i] by {
        assert(chunks.chunks@[i / 16]@[i % 16] == haystack[16 * (i / 16) + i % 16]);
    }
    assert(chunks.text() =~= haystack);
}

/// Chunks hold no haystack but the one that they were cut from.
pub proof fn lemma_haystack_is_cut_in_chunks<const N: usize>(
    chunks: ResolvedChunks<N>,
    c: int,
    k: int,
)
    requires
        0 <= c,
        0 <= k < 16,
        16 * c + k < chunks.byte_len,
    ensures
        chunks.text().len() == chunks.byte_len,
        chunks.text()[16 * c + k] == chunks.chunks@[c]@[k],
{
    assert((16 * c + k) / 16 == c && (16 * c + k) % 16 == k);
}

/// Matching does not depend on where a haystack lies: whatever its bytes, an item that is resolved
/// to the chunks that were cut from a haystack is matched as the haystack is that lies in one
/// piece.
pub proof fn lemma_cut_haystacks_match_alike<
    S: Matchable,
    T,
    F: Fn(&T) -> Option<ResolvedChunks<N>>,
    const N: usize,
>(
    rules: Seq<Rule>,
    sort: SortStrategy,
    haystacks: Seq<S>,
    items: Seq<T>,
    resolve: F,
    texts: Seq<Option<Seq<u8>>>,
    contiguous: Seq<Match>,
    resolved: Seq<Match>,
)
    requires
        haystacks.len() == items.len() <= u32::MAX,
        forall|i: int, chunks: Option<ResolvedChunks<N>>|
            0 <= i < items.len() && #[trigger] call_ensures(resolve, (&items[i],), chunks) ==> {
                &&& chunks is Some <==> haystacks[i].text() is Some
                &&& chunks is Some ==> chunks->0.byte_len == haystacks[i].text()->0.len()
                &&& chunks is Some ==> forall|c: int, k: int|
                    #![trigger chunks->0.chunks@[c]@[k]]
                    0 <= c && 0 <= k < 16 && 16 * c + k < chunks->0.byte_len
                        ==> chunks->0.chunks@[c]@[k] == haystacks[i].text()->0[16 * c + k]
            },
        is_arranged(hits(rules, texts_of(haystacks), 0), sort, rules.len() > 0, contiguous),
        are_resolved(items, resolve, texts),
        is_arranged(hits(rules, texts, 0), sort, rules.len() > 0, resolved),
    ensures
        resolved == contiguous,
{
    assert forall|i: int, chunks: Option<ResolvedChunks<N>>|
        0 <= i < items.len() && #[trigger] call_ensures(
            resolve,
            (&items[i],),
            chunks,
        ) implies resolved_text(chunks) == haystacks[i].text() by {
        if chunks is Some {
            lemma_chunks_hold_haystack(chunks->0, haystacks[i].text()->0);
        }
    }
    lemma_resolved_agrees_with_contiguous(
        rules,
        sort,
        haystacks,
        items,
        resolve,
        texts,
        contiguous,
        resolved,
    );
}

/// The least length of a haystack that a pattern can match is the number of the characters of its
/// needle less the typos.
pub proof fn lemma_least_length_counts_characters(pattern: Pattern, config: Config)
    requires
        pattern.needle@.len() > 0,
        !pattern.negated,
        config.max_typos is Some,
    ensures
        ({
            let least = min_haystack_len(rules_of(seq![pattern], config));
            let chars = pattern.needle@.len() as int;
            let typos = config.max_typos->0 as int;
            &&& least >= 0
            &&& least >= chars - typos
            &&& least == 0 || least + typos == chars
        }),
{
    vstd::utf8::encode_utf8_decode_utf8(pattern.needle@);
    vstd::utf8::encode_utf8_valid_utf8(pattern.needle@);
    lemma_patterns_become_rules(Seq::empty(), pattern, Seq::empty(), config);
}

} // verus!
