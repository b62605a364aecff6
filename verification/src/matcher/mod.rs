//! The matcher of lists.
use vstd::prelude::*;
use vstd::utf8::valid_utf8;

mod chunked;
mod parallel;
mod resolved;

pub use self::chunked::{
    chunked_text, chunked_texts, lemma_chunked_item_holds_haystack,
    lemma_chunked_items_match_alike, lemma_own_chunks_hold_haystack, MatchableChunked,
};
pub use self::parallel::{
    is_parallel_result, is_shared_out, lemma_parallel_is_permutation,
    lemma_parallel_resolved_is_permutation, PARALLEL_CHUNK,
};
pub use self::resolved::{
    are_resolved, is_read, is_resolver, is_steady, lemma_buffers_leave_no_trace,
    lemma_chunks_hold_haystack, lemma_cut_haystacks_match_alike, lemma_haystack_is_cut_in_chunks,
    lemma_least_length_counts_characters, lemma_resolved_agrees_with_contiguous, lemma_short_haystack_misses,
    lemma_short_item_is_skipped, lemma_short_item_resolves_to_nothing,
    lemma_steady_texts_are_unique, may_resolve, min_haystack_len, resolved_text, ResolvedChunks,
    SIMD_CHUNK_BYTES,
};

use crate::config::{Config, SortStrategy};
use crate::matchable::{texts_of, Matchable};
use crate::matches::{is_ranked, lemma_ranked_is_unique, reverse_matches, Match};
use crate::pattern::{
    hit_by_all, needle_rules, rule_of, rules_of, CompiledPattern, Pattern, Rule,
};
use crate::sort::{
    is_sorted_by_score, lemma_sort_keeps_matches, lemma_sort_ranks, radix_sort_matches,
};

verus! {

// ---------------------------------------------------------------------------------------------
// The matches of a list.
// ---------------------------------------------------------------------------------------------
/// The match of a text that stands at `index`.
pub open spec fn match_at(rules: Seq<Rule>, text: Option<Seq<u8>>, index: int) -> Option<Match> {
    match text {
        Some(haystack) => match hit_by_all(rules, haystack) {
            Some((score, exact)) => Some(Match { index: index as u32, score, exact }),
            None => None,
        },
        None => None,
    }
}

/// The matches of a list of texts, the first of which has the index `offset`, in the order of the
/// list. An item without a text is skipped.
pub open spec fn hits(rules: Seq<Rule>, texts: Seq<Option<Seq<u8>>>, offset: int) -> Seq<Match>
    decreases texts.len(),
{
    if texts.len() == 0 {
        Seq::empty()
    } else {
        let rest = hits(rules, texts.drop_last(), offset);
        match match_at(rules, texts.last(), offset + texts.len() - 1) {
            Some(found) => rest.push(found),
            None => rest,
        }
    }
}

/// How the matches of a list are returned. Without a pattern there are no scores to sort by.
pub open spec fn is_arranged(
    found: Seq<Match>,
    sort: SortStrategy,
    scored: bool,
    out: Seq<Match>,
) -> bool {
    let listed = if sort is IndexDesc {
        found.reverse()
    } else {
        found
    };
    if scored && sort is ScoreThenIndexAsc {
        is_sorted_by_score(listed, out)
    } else {
        out == listed
    }
}

// ---------------------------------------------------------------------------------------------
// The matcher.
// ---------------------------------------------------------------------------------------------
/// Patterns under a configuration, ready to be matched.
pub struct Matcher {
    patterns: Vec<CompiledPattern>,
    raw_patterns: Vec<Pattern>,
    config: Config,
}

spec fn rules_in(patterns: Seq<CompiledPattern>) -> Seq<Rule> {
    patterns.map_values(|pattern: CompiledPattern| pattern.rule())
}

impl Clone for Matcher {
    /// A matcher of the same patterns under the same configuration, for another worker.
    fn clone(&self) -> (out: Self)
        ensures
            self.wf() ==> out.wf(),
            out.rules() == self.rules(),
            out.configuration() == self.configuration(),
    {
        let mut patterns: Vec<CompiledPattern> = Vec::new();
        for k in 0..self.patterns.len()
            invariant
                patterns@.len() == k,
                forall|j: int|
                    0 <= j < k ==> {
                        &&& (#[trigger] patterns@[j]).rule() == self.patterns@[j].rule()
                        &&& self.patterns@[j].wf() ==> patterns@[j].wf()
                    },
        {
            patterns.push(self.patterns[k].clone());
        }
        let mut raw_patterns: Vec<Pattern> = Vec::new();
        for k in 0..self.raw_patterns.len()
            invariant
                raw_patterns@.len() == k,
                forall|j: int|
                    0 <= j < k ==> {
                        let raw = self.raw_patterns@[j];
                        &&& (#[trigger] raw_patterns@[j]).needle@ == raw.needle@
                        &&& raw_patterns@[j].matching == raw.matching
                        &&& raw_patterns@[j].negated == raw.negated
                    },
        {
            raw_patterns.push(self.raw_patterns[k].clone());
        }
        let out = Matcher { patterns, raw_patterns, config: self.config };
        assert(out.rules() =~= self.rules());
        out
    }
}

impl Matcher {
    /// The patterns that have a needle, under the configuration.
    pub closed spec fn rules(self) -> Seq<Rule> {
        rules_in(self.patterns@)
    }

    pub closed spec fn configuration(self) -> Config {
        self.config
    }

    pub closed spec fn wf(self) -> bool {
        &&& self.raw_patterns@.len() == self.patterns@.len()
        &&& forall|k: int|
            0 <= k < self.patterns@.len() ==> {
                &&& (#[trigger] self.patterns@[k]).wf()
                &&& self.patterns@[k].rule() == rule_of(self.raw_patterns@[k], self.config)
                &&& self.raw_patterns@[k].needle@.len() > 0
            }
    }

    /// Every needle is text.
    pub proof fn lemma_needles_are_text(self)
        requires
            self.wf(),
        ensures
            forall|k: int|
                0 <= k < self.rules().len() ==> valid_utf8((#[trigger] self.rules()[k]).needle),
    {
        assert forall|k: int| 0 <= k < self.rules().len() implies valid_utf8(
            (#[trigger] self.rules()[k]).needle,
        ) by {
            assert(self.rules()[k] == self.patterns@[k].rule());
            vstd::utf8::encode_utf8_valid_utf8(self.raw_patterns@[k].needle@);
        }
    }

    /// A matcher for one needle, matched in the way of the configuration.
    pub fn new(needle: &str, config: &Config) -> (out: Self)
        ensures
            out.wf(),
            out.configuration() == *config,
            out.rules() == needle_rules(needle@, *config),
    {
        let mut patterns: Vec<Pattern> = Vec::new();
        patterns.push(Pattern::new(needle, config.matching, false));
        proof {
            assert(patterns@.drop_last() =~= Seq::empty());
            reveal_with_fuel(rules_of, 2);
        }
        Self::from_patterns(patterns.as_slice(), config)
    }

    /// A matcher for some patterns, all of which have to match. One with an empty needle is left
    /// out.
    pub fn from_patterns(patterns: &[Pattern], config: &Config) -> (out: Self)
        ensures
            out.wf(),
            out.configuration() == *config,
            out.rules() == rules_of(patterns@, *config),
    {
        let mut compiled: Vec<CompiledPattern> = Vec::new();
        let mut raw: Vec<Pattern> = Vec::new();
        for i in 0..patterns.len()
            invariant
                compiled@.len() == raw@.len(),
                forall|k: int|
                    0 <= k < compiled@.len() ==> {
                        &&& (#[trigger] compiled@[k]).wf()
                        &&& compiled@[k].rule() == rule_of(raw@[k], *config)
                        &&& raw@[k].needle@.len() > 0
                    },
                rules_in(compiled@) == rules_of(patterns@.take(i as int), *config),
        {
            let pattern = &patterns[i];
            let ghost before = compiled@;
            proof {
                assert(patterns@.take(i + 1).drop_last() =~= patterns@.take(i as int));
            }
            if !pattern.needle.as_str().is_empty() {
                compiled.push(CompiledPattern::new(pattern, config));
                raw.push(pattern.clone());
                assert(rules_in(compiled@) =~= rules_in(before).push(
                    rule_of(patterns@[i as int], *config),
                ));
            }
        }
        assert(patterns@.take(patterns@.len() as int) =~= patterns@);
        Matcher { patterns: compiled, raw_patterns: raw, config: *config }
    }

    /// The order of the configuration.
    pub fn sort(&self) -> (out: SortStrategy)
        ensures
            out == self.configuration().sort,
    {
        self.config.sort
    }

    /// Whether there is no pattern, so that everything matches.
    pub fn is_empty(&self) -> (out: bool)
        ensures
            out == (self.rules().len() == 0),
    {
        self.patterns.len() == 0
    }

    /// The score of a haystack that matches all patterns, and whether it is one of the needles.
    fn match_one(&mut self, haystack: &[u8]) -> (out: Option<(u16, bool)>)
        requires
            old(self).wf(),
        ensures
            final(self).wf(),
            final(self).rules() == old(self).rules(),
            final(self).configuration() == old(self).configuration(),
            out == hit_by_all(old(self).rules(), haystack@),
    {
        let mut sum: u16 = 0;
        let mut exact = false;
        let n = self.patterns.len();
        let ghost rules = self.rules();
        for k in 0..n
            invariant
                n == rules.len(),
                    self.wf(),
                self.rules() == rules,
                rules == old(self).rules(),
                self.configuration() == old(self).configuration(),
                hit_by_all(rules.take(k as int), haystack@) == Some((sum, exact)),
        {
            let ghost before = self.patterns@;
            let hit = self.patterns[k].hit(haystack);
            proof {
                assert(self.patterns@ == before.update(k as int, self.patterns@[k as int]));
                assert(rules[k as int] == before[k as int].rule());
                assert(rules_in(self.patterns@) =~= rules);
                assert(rules.take(k + 1).drop_last() =~= rules.take(k as int));
                assert(rules.take(k + 1).last() == rules[k as int]);
            }
            match hit {
                Some((score, is_needle)) => {
                    sum = sum.saturating_add(score);
                    exact = exact || is_needle;
                },
                None => {
                    proof {
                        lemma_one_miss(rules, haystack@, k + 1);
                    }
                    return None;
                },
            }
        }
        assert(rules.take(n as int) =~= rules);
        Some((sum, exact))
    }

    /// Matches a list and appends the matches in the order of the list. The first haystack has
    /// the index `offset`.
    pub fn match_list_into<S: Matchable>(
        &mut self,
        haystacks: &[S],
        offset: u32,
        matches: &mut Vec<Match>,
    )
        requires
            old(self).wf(),
            haystacks@.len() + offset <= u32::MAX,
        ensures
            final(self).wf(),
            final(self).rules() == old(self).rules(),
            final(self).configuration() == old(self).configuration(),
            final(matches)@ == old(matches)@ + hits(
                old(self).rules(),
                texts_of(haystacks@),
                offset as int,
            ),
    {
        let ghost texts = texts_of(haystacks@);
        let ghost rules = self.rules();
        assert(hits(rules, texts.take(0), offset as int) =~= Seq::empty());
        for i in 0..haystacks.len()
            invariant
                self.wf(),
                haystacks@.len() + offset <= u32::MAX,
                self.rules() == rules,
                rules == old(self).rules(),
                texts == texts_of(haystacks@),
                self.configuration() == old(self).configuration(),
                matches@ == old(matches)@ + hits(rules, texts.take(i as int), offset as int),
        {
            proof {
                assert(texts.take(i + 1).drop_last() =~= texts.take(i as int));
                assert(texts.take(i + 1).last() == haystacks@[i as int].text());
            }
            let ghost before = matches@;
            if let Some(text) = haystacks[i].match_str() {
                if let Some((score, exact)) = self.match_one(text.as_bytes()) {
                    matches.push(Match { index: offset + i as u32, score, exact });
                }
            }
            assert(matches@ =~= old(matches)@ + hits(rules, texts.take(i + 1), offset as int));
        }
        assert(texts.take(haystacks@.len() as int) =~= texts);
    }

    /// Puts the matches of a list in the order of the configuration.
    fn arrange(&self, matches: &mut Vec<Match>)
        ensures
            is_arranged(
                old(matches)@,
                self.configuration().sort,
                self.rules().len() > 0,
                final(matches)@,
            ),
    {
        if self.config.sort.is_reversed() {
            reverse_matches(matches);
        }
        if !self.is_empty() && self.config.sort.is_by_score() {
            radix_sort_matches(matches);
        }
    }

    /// Matches a list. The matches come in the order of the configuration.
    pub fn match_list<S: Matchable>(&mut self, haystacks: &[S]) -> (out: Vec<Match>)
        requires
            old(self).wf(),
            haystacks@.len() <= u32::MAX,
        ensures
            final(self).wf(),
            final(self).rules() == old(self).rules(),
            final(self).configuration() == old(self).configuration(),
            is_arranged(
                hits(old(self).rules(), texts_of(haystacks@), 0),
                old(self).configuration().sort,
                old(self).rules().len() > 0,
                out@,
            ),
    {
        let mut matches: Vec<Match> = Vec::new();
        self.match_list_into(haystacks, 0, &mut matches);
        assert(matches@ =~= hits(self.rules(), texts_of(haystacks@), 0));
        self.arrange(&mut matches);
        matches
    }
}

/// A haystack that one pattern does not match is not matched by all.
proof fn lemma_one_miss(rules: Seq<Rule>, haystack: Seq<u8>, k: int)
    requires
        0 < k <= rules.len(),
        hit_by_all(rules.take(k), haystack) is None,
    ensures
        hit_by_all(rules, haystack) is None,
    decreases rules.len() - k,
{
    if k < rules.len() {
        assert(rules.take(k + 1).drop_last() =~= rules.take(k));
        lemma_one_miss(rules, haystack, k + 1);
    } else {
        assert(rules.take(k) =~= rules);
    }
}

// ---------------------------------------------------------------------------------------------
// Laws.
// ---------------------------------------------------------------------------------------------
/// The matches of a list are those of its parts, one part after the other.
pub proof fn lemma_hits_of_parts(
    rules: Seq<Rule>,
    a: Seq<Option<Seq<u8>>>,
    b: Seq<Option<Seq<u8>>>,
    offset: int,
)
    ensures
        hits(rules, a + b, offset) == hits(rules, a, offset) + hits(rules, b, offset + a.len()),
    decreases b.len(),
{
    if b.len() == 0 {
        assert(a + b =~= a);
        assert(hits(rules, b, offset + a.len()) =~= Seq::empty());
    } else {
        lemma_hits_of_parts(rules, a, b.drop_last(), offset);
        assert((a + b).drop_last() =~= a + b.drop_last());
        assert((a + b).last() == b.last());
    }
}

/// Every match has the index of the text that matches, and the indices ascend.
pub proof fn lemma_hits_ascend(rules: Seq<Rule>, texts: Seq<Option<Seq<u8>>>, offset: int)
    requires
        0 <= offset,
        offset + texts.len() <= u32::MAX + 1,
    ensures
        ({
            let found = hits(rules, texts, offset);
            &&& forall|i: int|
                0 <= i < found.len() ==> {
                    &&& offset <= (#[trigger] found[i]).index < offset + texts.len()
                    &&& match_at(
                        rules,
                        texts[found[i].index - offset],
                        found[i].index as int,
                    ) == Some(found[i])
                }
            &&& forall|i: int, j: int|
                0 <= i < j < found.len() ==> #[trigger] found[i].index < #[trigger] found[j].index
        }),
    decreases texts.len(),
{
    if texts.len() > 0 {
        let front = texts.drop_last();
        lemma_hits_ascend(rules, front, offset);
        let rest = hits(rules, front, offset);
        let found = hits(rules, texts, offset);
        assert forall|i: int| 0 <= i < found.len() implies {
            &&& offset <= (#[trigger] found[i]).index < offset + texts.len()
            &&& match_at(rules, texts[found[i].index - offset], found[i].index as int) == Some(
                found[i],
            )
        } by {
            if i < rest.len() {
                assert(found[i] == rest[i]);
                assert(front[rest[i].index - offset] == texts[rest[i].index - offset]);
            }
        }
        assert forall|i: int, j: int| 0 <= i < j < found.len() implies #[trigger] found[i].index
            < #[trigger] found[j].index by {
            assert(found[i] == rest[i]);
            if j < rest.len() {
                assert(found[j] == rest[j]);
            }
        }
    }
}

/// Matches that are sorted by score come ranked: the best score first, and of equal scores the
/// smaller index.
pub proof fn lemma_sorted_list_is_ranked(
    rules: Seq<Rule>,
    texts: Seq<Option<Seq<u8>>>,
    out: Seq<Match>,
)
    requires
        texts.len() <= u32::MAX,
        rules.len() > 0,
        is_arranged(hits(rules, texts, 0), SortStrategy::ScoreThenIndexAsc, true, out),
    ensures
        is_ranked(out),
{
    lemma_hits_ascend(rules, texts, 0);
    lemma_sort_ranks(hits(rules, texts, 0), out);
}

/// An offset moves the indices of the matches, and nothing else.
pub proof fn lemma_offset_moves_indices(
    rules: Seq<Rule>,
    texts: Seq<Option<Seq<u8>>>,
    offset: int,
)
    requires
        0 <= offset,
        offset + texts.len() <= u32::MAX,
    ensures
        hits(rules, texts, offset) == hits(rules, texts, 0).map_values(
            |found: Match| Match { index: (found.index + offset) as u32, ..found },
        ),
    decreases texts.len(),
{
    let moved = hits(rules, texts, 0).map_values(
        |found: Match| Match { index: (found.index + offset) as u32, ..found },
    );
    if texts.len() > 0 {
        lemma_offset_moves_indices(rules, texts.drop_last(), offset);
    }
    assert(hits(rules, texts, offset) =~= moved);
}

/// The order of the configuration leaves no choice: what is returned is determined by what
/// matches.
pub proof fn lemma_arranged_is_unique(
    rules: Seq<Rule>,
    texts: Seq<Option<Seq<u8>>>,
    sort: SortStrategy,
    scored: bool,
    a: Seq<Match>,
    b: Seq<Match>,
)
    requires
        texts.len() <= u32::MAX,
        is_arranged(hits(rules, texts, 0), sort, scored, a),
        is_arranged(hits(rules, texts, 0), sort, scored, b),
    ensures
        a == b,
{
    let found = hits(rules, texts, 0);
    if scored && sort is ScoreThenIndexAsc {
        lemma_hits_ascend(rules, texts, 0);
        lemma_sort_ranks(found, a);
        lemma_sort_ranks(found, b);
        lemma_sort_keeps_matches(found, a);
        lemma_sort_keeps_matches(found, b);
        lemma_ranked_is_unique(a, b);
    }
}

/// Whatever their order, the matches of a list are returned each as often as it is there.
pub proof fn lemma_arranged_is_permutation(
    found: Seq<Match>,
    sort: SortStrategy,
    scored: bool,
    out: Seq<Match>,
)
    requires
        is_arranged(found, sort, scored, out),
    ensures
        out.to_multiset() == found.to_multiset(),
{
    found.lemma_reverse_to_multiset();
    if scored && sort is ScoreThenIndexAsc {
        lemma_sort_keeps_matches(found, out);
    }
}

/// A permutation of the matches of a list has no index twice.
pub proof fn lemma_permuted_indices_are_distinct(
    rules: Seq<Rule>,
    texts: Seq<Option<Seq<u8>>>,
    out: Seq<Match>,
)
    requires
        texts.len() <= u32::MAX,
        out.to_multiset() == hits(rules, texts, 0).to_multiset(),
    ensures
        forall|i: int, j: int|
            0 <= i < j < out.len() ==> #[trigger] out[i].index != #[trigger] out[j].index,
{
    broadcast use vstd::seq_lib::group_to_multiset_ensures;

    let found = hits(rules, texts, 0);
    lemma_hits_ascend(rules, texts, 0);
    assert(found.no_duplicates()) by {
        assert forall|i: int, j: int|
            0 <= i < found.len() && 0 <= j < found.len() && i != j implies found[i]
            != found[j] by {
            assert(found[i].index != found[j].index);
        }
    }
    found.lemma_multiset_has_no_duplicates();
    assert forall|i: int, j: int| 0 <= i < j < out.len() implies #[trigger] out[i].index
        != #[trigger] out[j].index by {
        if out[i].index == out[j].index {
            assert(out.contains(out[i]) && out.contains(out[j]));
            assert(found.to_multiset().count(out[i]) > 0);
            assert(found.to_multiset().count(out[j]) > 0);
            assert(found.contains(out[i]) && found.contains(out[j]));
            let a = choose|a: int| 0 <= a < found.len() && found[a] == out[i];
            let b = choose|b: int| 0 <= b < found.len() && found[b] == out[j];
            assert(found[a].index == found[b].index);
            assert(a == b);
            lemma_repeated_count(out, i, j);
        }
    }
}

proof fn lemma_repeated_count(matches: Seq<Match>, i: int, j: int)
    requires
        0 <= i < j < matches.len(),
        matches[i] == matches[j],
    ensures
        matches.to_multiset().count(matches[i]) >= 2,
{
    broadcast use vstd::seq_lib::group_to_multiset_ensures;

    let rest = matches.remove(j);
    assert(rest[i] == matches[i]);
    assert(rest.contains(matches[i]));
    assert(rest.to_multiset().count(matches[i]) > 0);
    assert(matches.contains(matches[j]));
    assert(matches.to_multiset().count(matches[j]) > 0);
    assert(rest.to_multiset() =~= matches.to_multiset().remove(matches[j]));
}

/// Without a pattern every item that has a text matches.
pub proof fn lemma_no_pattern_matches_all(texts: Seq<Option<Seq<u8>>>, offset: int, i: int)
    requires
        0 <= i < texts.len(),
    ensures
        match_at(Seq::empty(), texts[i], offset + i) == if texts[i] is Some {
            Some(Match::unscored(offset + i))
        } else {
            None
        },
        texts[i] is Some ==> hit_by_all(Seq::empty(), texts[i]->0) == Some((0u16, false)),
{
}

/// Every text that matches is listed, with its place in the list for an index and with its score,
/// and nothing else is. The indices ascend.
pub proof fn lemma_what_is_listed(rules: Seq<Rule>, texts: Seq<Option<Seq<u8>>>, offset: int)
    requires
        0 <= offset,
        offset + texts.len() <= u32::MAX + 1,
    ensures
        forall|i: int|
            0 <= i < texts.len() && (#[trigger] texts[i]) is Some && hit_by_all(
                rules,
                texts[i]->0,
            ) is Some ==> exists|k: int|
                {
                    &&& 0 <= k < hits(rules, texts, offset).len()
                    &&& (#[trigger] hits(rules, texts, offset)[k]).index == offset + i
                },
        forall|k: int|
            0 <= k < hits(rules, texts, offset).len() ==> {
                let found = #[trigger] hits(rules, texts, offset)[k];
                &&& offset <= found.index < offset + texts.len()
                &&& texts[found.index - offset] is Some
                &&& hit_by_all(rules, texts[found.index - offset]->0) == Some(
                    (found.score, found.exact),
                )
            },
        forall|a: int, b: int|
            0 <= a < b < hits(rules, texts, offset).len() ==> #[trigger] hits(
                rules,
                texts,
                offset,
            )[a].index < #[trigger] hits(rules, texts, offset)[b].index,
    decreases texts.len(),
{
    lemma_hits_ascend(rules, texts, offset);
    let found = hits(rules, texts, offset);
    if texts.len() > 0 {
        let front = texts.drop_last();
        let rest = hits(rules, front, offset);
        let last = texts.len() - 1;
        lemma_what_is_listed(rules, front, offset);
        assert forall|i: int|
            0 <= i < texts.len() && (#[trigger] texts[i]) is Some && hit_by_all(
                rules,
                texts[i]->0,
            ) is Some implies exists|k: int|
            0 <= k < found.len() && (#[trigger] found[k]).index == offset + i by {
            if i < last {
                assert(front[i] == texts[i]);
                let k = choose|k: int|
                    0 <= k < rest.len() && (#[trigger] rest[k]).index == offset + i;
                assert(found[k] == rest[k]);
            } else {
                assert(found[rest.len() as int].index == offset + i);
            }
        }
    }
}

/// The order in which a list is returned: by score the best first, and of equal scores the smaller
/// index; otherwise by index, up or down. Without a pattern there are no scores to sort by, and
/// the indices ascend.
pub proof fn lemma_order_of_list(
    rules: Seq<Rule>,
    texts: Seq<Option<Seq<u8>>>,
    sort: SortStrategy,
    out: Seq<Match>,
    a: int,
    b: int,
)
    requires
        texts.len() <= u32::MAX,
        is_arranged(hits(rules, texts, 0), sort, rules.len() > 0, out),
        0 <= a < b < out.len(),
    ensures
        sort is IndexAsc ==> out[a].index < out[b].index,
        sort is IndexDesc ==> out[a].index > out[b].index,
        sort is ScoreThenIndexAsc ==> {
            ||| out[a].score > out[b].score
            ||| out[a].score == out[b].score && out[a].index < out[b].index
        },
{
    let found = hits(rules, texts, 0);
    lemma_hits_ascend(rules, texts, 0);
    if sort is ScoreThenIndexAsc && rules.len() > 0 {
        lemma_sort_ranks(found, out);
        lemma_sort_keeps_matches(found, out);
        lemma_permuted_indices_are_distinct(rules, texts, out);
        assert(out[a].index != out[b].index);
        assert(crate::matches::ranks(out[a], out[b]));
    } else if sort is ScoreThenIndexAsc {
        lemma_unscored(rules, texts, a);
        lemma_unscored(rules, texts, b);
    } else if sort is IndexDesc {
        assert(out[a] == found[found.len() - 1 - a]);
        assert(out[b] == found[found.len() - 1 - b]);
    }
}

proof fn lemma_unscored(rules: Seq<Rule>, texts: Seq<Option<Seq<u8>>>, k: int)
    requires
        texts.len() <= u32::MAX,
        rules.len() == 0,
        0 <= k < hits(rules, texts, 0).len(),
    ensures
        hits(rules, texts, 0)[k].score == 0,
{
    lemma_hits_ascend(rules, texts, 0);
    assert(0 <= hits(rules, texts, 0)[k].index);
}

/// What a list returns does not depend on its order: a text that matches is returned with its place
/// in the list and its score, whatever the strategy.
pub proof fn lemma_every_match_is_returned(
    rules: Seq<Rule>,
    texts: Seq<Option<Seq<u8>>>,
    sort: SortStrategy,
    out: Seq<Match>,
    i: int,
)
    requires
        texts.len() <= u32::MAX,
        is_arranged(hits(rules, texts, 0), sort, rules.len() > 0, out),
        0 <= i < texts.len(),
    ensures
        texts[i] is Some && hit_by_all(rules, texts[i]->0) is Some ==> exists|k: int|
            {
                &&& 0 <= k < out.len()
                &&& (#[trigger] out[k]).index == i
                &&& hit_by_all(rules, texts[i]->0) == Some((out[k].score, out[k].exact))
            },
        texts[i] is None || hit_by_all(rules, texts[i]->0) is None ==> forall|k: int|
            0 <= k < out.len() ==> (#[trigger] out[k]).index != i,
{
    broadcast use vstd::seq_lib::group_to_multiset_ensures;

    let found = hits(rules, texts, 0);
    lemma_what_is_listed(rules, texts, 0);
    lemma_arranged_is_permutation(found, sort, rules.len() > 0, out);
    if texts[i] is Some && hit_by_all(rules, texts[i]->0) is Some {
        let k = choose|k: int| 0 <= k < found.len() && (#[trigger] found[k]).index == 0 + i;
        assert(found.contains(found[k]));
        assert(found.to_multiset().count(found[k]) > 0);
        assert(out.to_multiset().count(found[k]) > 0);
        assert(out.contains(found[k]));
        let at = choose|at: int| 0 <= at < out.len() && out[at] == found[k];
        assert(out[at].index == i);
    } else {
        assert forall|k: int| 0 <= k < out.len() implies (#[trigger] out[k]).index != i by {
            assert(out.contains(out[k]));
            assert(out.to_multiset().count(out[k]) > 0);
            assert(found.to_multiset().count(out[k]) > 0);
            assert(found.contains(out[k]));
            let at = choose|at: int| 0 <= at < found.len() && found[at] == out[k];
            assert(0 <= found[at].index);
        }
    }
}

} // verus!
