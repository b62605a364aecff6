//! Patterns: a needle, and what it takes to match it.
use vstd::arithmetic::power2::{lemma2_to64, pow2};
use vstd::prelude::*;
use vstd::slice::slice_to_vec;
use vstd::utf8::encode_utf8;

use crate::backend::Backend;
use crate::chunks::lemma_chunks_cover;
use crate::config::{Config, Matching};
use crate::gaps::gap_stages;
use crate::prefilter::{
    accepts, case_needle, cased, deletions, lemma_accepted_haystack_is_long_enough, same, Kernel,
    PrefilterScalar,
};
use crate::scalar::BackendScalar8;
use crate::scoring::{Problem, Scoring};
use crate::smith_waterman::{
    is_plain, is_route, lemma_prefilter_accepts_matches, lemma_score_is_accounted_for,
    lemma_score_is_not_beaten, lemma_whole_needle_is_matched, route_columns, route_worth,
    scores_fit, SmithWaterman, Step,
};

verus! {

/// A needle with its own way of matching.
#[derive(Debug)]
pub struct Pattern {
    pub needle: String,
    pub matching: Matching,
    /// Whether a haystack matches that does not match the needle.
    pub negated: bool,
}

impl Clone for Pattern {
    fn clone(&self) -> (out: Self)
        ensures
            out.needle@ == self.needle@,
            out.matching == self.matching,
            out.negated == self.negated,
    {
        Pattern { needle: self.needle.clone(), matching: self.matching, negated: self.negated }
    }
}

impl Pattern {
    pub fn new(needle: &str, matching: Matching, negated: bool) -> (out: Self)
        ensures
            out.needle@ == needle@,
            out.matching == matching,
            out.negated == negated,
    {
        Pattern { needle: needle.to_owned(), matching, negated }
    }
}

// ---------------------------------------------------------------------------------------------
// What matches.
// ---------------------------------------------------------------------------------------------
/// The needle stands in the haystack at `at`.
pub open spec fn stands_at(needle: Seq<(u8, u8)>, haystack: Seq<u8>, at: int) -> bool {
    &&& 0 <= at
    &&& at + needle.len() <= haystack.len()
    &&& forall|i: int| 0 <= i < needle.len() ==> same(#[trigger] needle[i], haystack[at + i])
}

/// A sum of scores, as far as a score can hold it.
pub open spec fn saturated(sum: int) -> u16 {
    if sum > u16::MAX {
        u16::MAX
    } else {
        sum as u16
    }
}

/// A pattern under a configuration.
pub struct Rule {
    pub needle: Seq<u8>,
    pub matching: Matching,
    pub negated: bool,
    pub max_typos: Option<u16>,
    pub case_sensitive: bool,
    pub scoring: Scoring,
}

impl Rule {
    pub open spec fn pairs(self) -> Seq<(u8, u8)> {
        cased(self.needle, self.case_sensitive)
    }

    /// The needle aligned with a haystack.
    pub open spec fn problem(self, haystack: Seq<u8>) -> Problem {
        Problem {
            needle: self.pairs(),
            haystack,
            scoring: self.scoring,
            lanes: 8,
            lane_max: 0xffff,
        }
    }

    /// The score of the needle, if it is found in a haystack.
    pub open spec fn found(self, haystack: Seq<u8>) -> Option<u16> {
        let pairs = self.pairs();
        let stands = match self.matching {
            Matching::Fuzzy => self.max_typos is None || accepts(
                pairs,
                haystack,
                self.max_typos->0 as nat,
            ),
            Matching::Exact => pairs.len() == haystack.len() && stands_at(pairs, haystack, 0),
            Matching::Prefix => stands_at(pairs, haystack, 0),
            Matching::Suffix => stands_at(pairs, haystack, haystack.len() - pairs.len()),
            Matching::Substring => exists|at: int| stands_at(pairs, haystack, at),
        };
        if !stands {
            None
        } else if self.matching is Fuzzy {
            self.problem(haystack).matched(self.max_typos)
        } else {
            Some(self.problem(haystack).score())
        }
    }

    /// The score of a haystack that matches, and whether it is the needle. What a negated
    /// pattern matches has no score.
    pub open spec fn hit(self, haystack: Seq<u8>) -> Option<(u16, bool)> {
        match self.found(haystack) {
            Some(score) => if self.negated {
                None
            } else if haystack == self.needle {
                Some((saturated(score + self.scoring.exact_match_bonus), true))
            } else {
                Some((score, false))
            },
            None => if self.negated {
                Some((0, false))
            } else {
                None
            },
        }
    }
}

/// A haystack matches a list of patterns if it matches each of them. Their scores add up.
pub open spec fn hit_by_all(rules: Seq<Rule>, haystack: Seq<u8>) -> Option<(u16, bool)>
    decreases rules.len(),
{
    if rules.len() == 0 {
        Some((0, false))
    } else {
        match (hit_by_all(rules.drop_last(), haystack), rules.last().hit(haystack)) {
            (Some((sum, exact)), Some((score, is_needle))) => Some(
                (saturated(sum + score), exact || is_needle),
            ),
            _ => None,
        }
    }
}

/// A pattern under a configuration.
pub open spec fn rule_of(pattern: Pattern, config: Config) -> Rule {
    Rule {
        needle: encode_utf8(pattern.needle@),
        matching: pattern.matching,
        negated: pattern.negated,
        max_typos: config.max_typos,
        case_sensitive: config.case_sensitive,
        scoring: config.scoring,
    }
}

/// The patterns that have a needle.
pub open spec fn rules_of(patterns: Seq<Pattern>, config: Config) -> Seq<Rule>
    decreases patterns.len(),
{
    if patterns.len() == 0 {
        Seq::empty()
    } else {
        let rest = rules_of(patterns.drop_last(), config);
        if patterns.last().needle@.len() == 0 {
            rest
        } else {
            rest.push(rule_of(patterns.last(), config))
        }
    }
}

/// One needle, matched in the way of the configuration. An empty needle is none.
pub open spec fn needle_rules(needle: Seq<char>, config: Config) -> Seq<Rule> {
    if needle.len() == 0 {
        Seq::empty()
    } else {
        seq![
            Rule {
                needle: encode_utf8(needle),
                matching: config.matching,
                negated: false,
                max_typos: config.max_typos,
                case_sensitive: config.case_sensitive,
                scoring: config.scoring,
            },
        ]
    }
}

// ---------------------------------------------------------------------------------------------
// Literal matching.
// ---------------------------------------------------------------------------------------------
/// Whether the needle stands in the haystack at `at`.
fn is_at(needle: &[(u8, u8)], haystack: &[u8], at: usize) -> (out: bool)
    ensures
        out == stands_at(needle@, haystack@, at as int),
{
    if at > haystack.len() || needle.len() > haystack.len() - at {
        return false;
    }
    let len = haystack.len();
    for i in 0..needle.len()
        invariant
            at + needle@.len() <= len == haystack@.len(),
            forall|k: int| 0 <= k < i ==> same(#[trigger] needle@[k], haystack@[at + k]),
    {
        let pair = needle[i];
        let byte = haystack[at + i];
        if byte != pair.0 && byte != pair.1 {
            assert(!same(needle@[i as int], haystack@[at + i]));
            return false;
        }
    }
    true
}

/// Whether the needle stands somewhere in the haystack.
fn is_somewhere(needle: &[(u8, u8)], haystack: &[u8]) -> (out: bool)
    ensures
        out == exists|at: int| stands_at(needle@, haystack@, at),
{
    if needle.len() > haystack.len() {
        return false;
    }
    let last = haystack.len() - needle.len();
    let mut at: usize = 0;
    loop
        invariant
            at <= last,
            last == haystack@.len() - needle@.len(),
            forall|k: int| 0 <= k < at ==> !stands_at(needle@, haystack@, k),
        decreases last - at,
    {
        if is_at(needle, haystack, at) {
            return true;
        }
        if at == last {
            assert forall|k: int| !stands_at(needle@, haystack@, k) by {
                if 0 <= k <= last {
                    assert(k < at || k == at);
                }
            }
            return false;
        }
        at = at + 1;
    }
}

/// Whether two byte strings are the same.
fn is_same(a: &[u8], b: &[u8]) -> (out: bool)
    ensures
        out == (a@ == b@),
{
    if a.len() != b.len() {
        return false;
    }
    for i in 0..a.len()
        invariant
            a@.len() == b@.len(),
            forall|k: int| 0 <= k < i ==> #[trigger] a@[k] == b@[k],
    {
        if a[i] != b[i] {
            assert(a@[i as int] != b@[i as int]);
            return false;
        }
    }
    assert(a@ =~= b@);
    true
}

// ---------------------------------------------------------------------------------------------
// Compiled patterns.
// ---------------------------------------------------------------------------------------------
/// A pattern with what it takes to match it.
pub struct CompiledPattern {
    needle: Vec<u8>,
    pairs: Vec<(u8, u8)>,
    matching: Matching,
    negated: bool,
    max_typos: Option<u16>,
    case_sensitive: Ghost<bool>,
    scoring: Scoring,
    prefilter: PrefilterScalar,
    smith_waterman: SmithWaterman<BackendScalar8>,
}

impl Clone for CompiledPattern {
    fn clone(&self) -> (out: Self)
        ensures
            self.wf() ==> out.wf(),
            out.rule() == self.rule(),
    {
        CompiledPattern {
            needle: slice_to_vec(self.needle.as_slice()),
            pairs: slice_to_vec(self.pairs.as_slice()),
            matching: self.matching,
            negated: self.negated,
            max_typos: self.max_typos,
            case_sensitive: self.case_sensitive,
            scoring: self.scoring,
            prefilter: self.prefilter.clone(),
            smith_waterman: self.smith_waterman.clone(),
        }
    }
}

impl CompiledPattern {
    /// The pattern under its configuration.
    pub closed spec fn rule(self) -> Rule {
        Rule {
            needle: self.needle@,
            matching: self.matching,
            negated: self.negated,
            max_typos: self.max_typos,
            case_sensitive: self.case_sensitive@,
            scoring: self.scoring,
        }
    }

    pub closed spec fn wf(self) -> bool {
        &&& self.pairs@ == self.rule().pairs()
        &&& self.prefilter.pairs() == self.rule().pairs()
        &&& self.smith_waterman.wf()
        &&& self.smith_waterman.pairs() == self.rule().pairs()
        &&& self.smith_waterman.weights() == self.scoring
    }

    pub fn new(pattern: &Pattern, config: &Config) -> (out: Self)
        ensures
            out.wf(),
            out.rule() == rule_of(*pattern, *config),
    {
        let bytes = pattern.needle.as_str().as_bytes();
        let needle = slice_to_vec(bytes);
        let smith_waterman = SmithWaterman::<BackendScalar8>::new(
            bytes,
            &config.scoring,
            config.case_sensitive,
        );
        CompiledPattern {
            pairs: case_needle(bytes, config.case_sensitive),
            needle,
            matching: pattern.matching,
            negated: pattern.negated,
            max_typos: config.max_typos,
            case_sensitive: Ghost(config.case_sensitive),
            scoring: config.scoring,
            prefilter: PrefilterScalar::new(bytes, config.case_sensitive),
            smith_waterman,
        }
    }

    pub fn is_negated(&self) -> (out: bool)
        ensures
            out == self.rule().negated,
    {
        self.negated
    }

    pub fn max_typos(&self) -> (out: Option<u16>)
        ensures
            out == self.rule().max_typos,
    {
        self.max_typos
    }

    /// The prefilter, at the number of typos that are allowed.
    fn passes(&mut self, haystack: &[u8], max_typos: u16) -> (out: bool)
        requires
            old(self).wf(),
        ensures
            final(self).wf(),
            final(self).rule() == old(self).rule(),
            out == accepts(old(self).rule().pairs(), haystack@, max_typos as nat),
    {
        let window = if max_typos == 0 {
            self.prefilter.match_haystack(haystack)
        } else if max_typos == 1 {
            self.prefilter.match_haystack_1_typo(haystack)
        } else if max_typos == 2 {
            self.prefilter.match_haystack_2_typos(haystack)
        } else {
            self.prefilter.match_haystack_many_typos(haystack, max_typos)
        };
        window.0
    }

    /// The score of the needle, if it is found in a haystack.
    fn find(&mut self, haystack: &[u8]) -> (out: Option<u16>)
        requires
            old(self).wf(),
        ensures
            final(self).wf(),
            final(self).rule() == old(self).rule(),
            out == old(self).rule().found(haystack@),
    {
        let ghost rule = self.rule();
        let ghost problem = self.smith_waterman.problem_for(haystack@);
        proof {
            BackendScalar8::lemma_widths();
            assert(problem == rule.problem(haystack@));
        }
        let stands = match self.matching {
            Matching::Fuzzy => {
                if let Some(max) = self.max_typos {
                    if !self.passes(haystack, max) {
                        return None;
                    }
                }
                return self.smith_waterman.match_haystack(haystack, self.max_typos);
            },
            Matching::Exact => self.pairs.len() == haystack.len() && is_at(
                self.pairs.as_slice(),
                haystack,
                0,
            ),
            Matching::Prefix => is_at(self.pairs.as_slice(), haystack, 0),
            Matching::Suffix => self.pairs.len() <= haystack.len() && is_at(
                self.pairs.as_slice(),
                haystack,
                haystack.len() - self.pairs.len(),
            ),
            Matching::Substring => is_somewhere(self.pairs.as_slice(), haystack),
        };
        if stands {
            Some(self.smith_waterman.score_haystack(haystack))
        } else {
            None
        }
    }

    /// The score of a haystack that matches, and whether it is the needle.
    pub fn hit(&mut self, haystack: &[u8]) -> (out: Option<(u16, bool)>)
        requires
            old(self).wf(),
        ensures
            final(self).wf(),
            final(self).rule() == old(self).rule(),
            out == old(self).rule().hit(haystack@),
    {
        match self.find(haystack) {
            Some(score) => {
                if self.negated {
                    None
                } else if is_same(haystack, self.needle.as_slice()) {
                    Some((score.saturating_add(self.scoring.exact_match_bonus), true))
                } else {
                    Some((score, false))
                }
            },
            None => if self.negated {
                Some((0, false))
            } else {
                None
            },
        }
    }
}

// ---------------------------------------------------------------------------------------------
// Laws.
// ---------------------------------------------------------------------------------------------
/// The prefilter changes no outcome: it turns away nothing that the alignment would accept, so
/// that what a needle without zero bytes matches is up to the alignment alone.
pub proof fn lemma_prefilter_changes_nothing(rule: Rule, haystack: Seq<u8>)
    requires
        rule.matching is Fuzzy,
        !rule.needle.contains(0),
    ensures
        rule.found(haystack) == rule.problem(haystack).matched(rule.max_typos),
{
    let problem = rule.problem(haystack);
    if let Some(max_typos) = rule.max_typos {
        if problem.matched(Some(max_typos)) is Some {
            assert forall|k: int| 0 <= k < problem.needle.len() implies !same(
                #[trigger] problem.needle[k],
                0,
            ) by {
                assert(rule.needle.contains(rule.needle[k]));
            }
            lemma_prefilter_accepts_matches(problem, max_typos);
        }
    }
}

/// Nothing shorter than the needle less its typos is found, in whatever way.
pub proof fn lemma_found_is_long_enough(rule: Rule, haystack: Seq<u8>)
    requires
        rule.found(haystack) is Some,
        rule.max_typos is Some || !(rule.matching is Fuzzy),
    ensures
        haystack.len() + rule.max_typos.unwrap_or(0) >= rule.needle.len(),
{
    let pairs = rule.pairs();
    if rule.matching is Fuzzy {
        lemma_accepted_haystack_is_long_enough(pairs, haystack, rule.max_typos->0 as nat);
    } else if rule.matching is Substring {
        let at = choose|at: int| stands_at(pairs, haystack, at);
        assert(at + pairs.len() <= haystack.len());
    }
}

/// Bytes that spell a needle: as many as it has, each of them the byte of the needle at its place
/// or, where case is ignored, the same letter in the other case.
pub open spec fn spells(bytes: Seq<u8>, needle: Seq<u8>, case_sensitive: bool) -> bool {
    &&& bytes.len() == needle.len()
    &&& forall|i: int|
        0 <= i < bytes.len() ==> {
            ||| #[trigger] bytes[i] == needle[i]
            ||| !case_sensitive && 0x61 <= bytes[i] <= 0x7a && needle[i] == bytes[i] - 0x20
            ||| !case_sensitive && 0x61 <= needle[i] <= 0x7a && bytes[i] == needle[i] - 0x20
        }
}

proof fn lemma_spelled_stands(rule: Rule, before: Seq<u8>, bytes: Seq<u8>, after: Seq<u8>)
    requires
        bytes.len() == rule.needle.len(),
    ensures
        stands_at(rule.pairs(), before + bytes + after, before.len() as int) <==> spells(
            bytes,
            rule.needle,
            rule.case_sensitive,
        ),
{
    let haystack = before + bytes + after;
    let at = before.len() as int;
    let pairs = rule.pairs();
    if spells(bytes, rule.needle, rule.case_sensitive) {
        assert forall|i: int| 0 <= i < pairs.len() implies same(
            #[trigger] pairs[i],
            haystack[at + i],
        ) by {
            assert(haystack[at + i] == bytes[i]);
        }
    }
    if stands_at(pairs, haystack, at) {
        assert forall|i: int| 0 <= i < bytes.len() implies {
            ||| #[trigger] bytes[i] == rule.needle[i]
            ||| !rule.case_sensitive && 0x61 <= bytes[i] <= 0x7a && rule.needle[i] == bytes[i]
                - 0x20
            ||| !rule.case_sensitive && 0x61 <= rule.needle[i] <= 0x7a && bytes[i]
                == rule.needle[i] - 0x20
        } by {
            assert(haystack[at + i] == bytes[i]);
            assert(same(pairs[i], haystack[at + i]));
        }
    }
}

/// A needle that is looked for literally is found wherever it is spelled, whatever stands before
/// and after it: a substring between any bytes, a prefix before any, a suffix behind any, and the
/// whole haystack alone.
pub proof fn lemma_spelled_needle_is_found(
    rule: Rule,
    before: Seq<u8>,
    bytes: Seq<u8>,
    after: Seq<u8>,
)
    requires
        spells(bytes, rule.needle, rule.case_sensitive),
    ensures
        rule.matching is Substring ==> rule.found(before + bytes + after) is Some,
        rule.matching is Prefix ==> rule.found(bytes + after) is Some,
        rule.matching is Suffix ==> rule.found(before + bytes) is Some,
        rule.matching is Exact ==> rule.found(bytes) is Some,
{
    let none = Seq::<u8>::empty();
    lemma_spelled_stands(rule, before, bytes, after);
    lemma_spelled_stands(rule, none, bytes, after);
    assert(none + bytes + after =~= bytes + after);
    lemma_spelled_stands(rule, before, bytes, none);
    assert(before + bytes + none =~= before + bytes);
    lemma_spelled_stands(rule, none, bytes, none);
    assert(none + bytes + none =~= bytes);
}

/// A needle that is looked for literally is found nowhere else: the haystack is then made of bytes
/// that spell it, and of what may stand before and after them.
pub proof fn lemma_found_needle_is_spelled(rule: Rule, haystack: Seq<u8>)
    requires
        !(rule.matching is Fuzzy),
        rule.found(haystack) is Some,
    ensures
        exists|before: Seq<u8>, bytes: Seq<u8>, after: Seq<u8>|
            #![trigger before + bytes + after]
            {
                &&& haystack == before + bytes + after
                &&& spells(bytes, rule.needle, rule.case_sensitive)
                &&& rule.matching is Prefix || rule.matching is Exact ==> before.len() == 0
                &&& rule.matching is Suffix || rule.matching is Exact ==> after.len() == 0
            },
{
    let pairs = rule.pairs();
    let n = rule.needle.len() as int;
    let at = if rule.matching is Substring {
        choose|at: int| stands_at(pairs, haystack, at)
    } else if rule.matching is Suffix {
        haystack.len() - pairs.len()
    } else {
        0
    };
    assert(stands_at(pairs, haystack, at));
    let before = haystack.subrange(0, at);
    let bytes = haystack.subrange(at, at + n);
    let after = haystack.subrange(at + n, haystack.len() as int);
    assert(haystack =~= before + bytes + after);
    lemma_spelled_stands(rule, before, bytes, after);
}

/// A literal needle that is found has the score of its best alignment: what counts is where it
/// stands in the haystack, not where it was looked for.
pub proof fn lemma_found_needle_scores(rule: Rule, haystack: Seq<u8>)
    requires
        !(rule.matching is Fuzzy),
        rule.found(haystack) is Some,
    ensures
        rule.found(haystack)->0 == (Problem {
            needle: cased(rule.needle, rule.case_sensitive),
            haystack,
            scoring: rule.scoring,
            lanes: 8,
            lane_max: 0xffff,
        }).score(),
{
}

/// Of two rules that differ in their negation alone, every haystack is matched by exactly one, and
/// the negated one gives it no score.
pub proof fn lemma_negation_is_complement(rule: Rule, haystack: Seq<u8>)
    ensures
        ({
            let plain = Rule { negated: false, ..rule };
            let negated = Rule { negated: true, ..rule };
            &&& plain.hit(haystack) is Some <==> negated.hit(haystack) is None
            &&& negated.hit(haystack) is Some ==> negated.hit(haystack) == Some((0u16, false))
            &&& plain.hit(haystack) is Some <==> plain.found(haystack) is Some
        }),
{
}

/// The needle itself is the one haystack that is told to be exact. It scores more than the
/// alignment by the bonus for that, as far as a score can hold it; no other haystack does.
pub proof fn lemma_exact_is_the_needle(rule: Rule, haystack: Seq<u8>)
    requires
        !rule.negated,
        rule.hit(haystack) is Some,
    ensures
        ({
            let (score, exact) = rule.hit(haystack)->0;
            let plain = rule.found(haystack)->0;
            &&& exact <==> haystack == rule.needle
            &&& !exact ==> score == plain
            &&& exact ==> plain <= score && score - plain <= rule.scoring.exact_match_bonus
            &&& exact && score < u16::MAX ==> score - plain == rule.scoring.exact_match_bonus
        }),
{
}

/// A haystack matches several rules exactly if it matches each of them. It is the needle of one of
/// them exactly if it is told to be exact, and it scores no less than under any of them.
pub proof fn lemma_each_rule_must_hit(rules: Seq<Rule>, haystack: Seq<u8>)
    ensures
        hit_by_all(rules, haystack) is Some <==> forall|k: int|
            0 <= k < rules.len() ==> (#[trigger] rules[k]).hit(haystack) is Some,
        hit_by_all(rules, haystack) is Some ==> {
            let (score, exact) = hit_by_all(rules, haystack)->0;
            &&& exact <==> exists|k: int|
                0 <= k < rules.len() && !(#[trigger] rules[k]).negated && rules[k].needle
                    == haystack
            &&& forall|k: int|
                0 <= k < rules.len() ==> ((#[trigger] rules[k]).hit(haystack)->0).0 <= score
        },
    decreases rules.len(),
{
    if rules.len() > 0 {
        let front = rules.drop_last();
        let last = rules.len() - 1;
        lemma_each_rule_must_hit(front, haystack);
        assert forall|k: int| 0 <= k < last implies #[trigger] front[k] == rules[k] by {}
        if hit_by_all(rules, haystack) is Some {
            assert forall|k: int| 0 <= k < rules.len() implies (#[trigger] rules[k]).hit(
                haystack,
            ) is Some && (rules[k].hit(haystack)->0).0 <= (hit_by_all(rules, haystack)->0).0 by {
                if k < last {
                    assert(front[k] == rules[k]);
                }
            }
            if exists|k: int|
                0 <= k < rules.len() && !(#[trigger] rules[k]).negated && rules[k].needle
                    == haystack {
                let k = choose|k: int|
                    0 <= k < rules.len() && !(#[trigger] rules[k]).negated && rules[k].needle
                        == haystack;
                if k < last {
                    assert(front[k] == rules[k]);
                } else {
                    assert(rules[last].hit(haystack) is Some);
                }
            }
            if (hit_by_all(rules, haystack)->0).1 {
                if (hit_by_all(front, haystack)->0).1 {
                    let k = choose|k: int|
                        0 <= k < front.len() && !(#[trigger] front[k]).negated && front[k].needle
                            == haystack;
                    assert(rules[k] == front[k]);
                } else {
                    assert(rules[last].needle == haystack);
                }
            }
        }
        if forall|k: int| 0 <= k < rules.len() ==> (#[trigger] rules[k]).hit(haystack) is Some {
            assert forall|k: int| 0 <= k < front.len() implies (#[trigger] front[k]).hit(
                haystack,
            ) is Some by {
                assert(rules[k].hit(haystack) is Some);
            }
            assert(rules[last].hit(haystack) is Some);
        }
    }
}

/// Without a rule every haystack matches, with no score. One rule matches what it hits. The scores
/// of two lists of rules add up in their concatenation, as far as a score can hold the sum.
pub proof fn lemma_scores_of_rules_add_up(first: Seq<Rule>, second: Seq<Rule>, haystack: Seq<u8>)
    ensures
        first.len() == 0 ==> hit_by_all(first, haystack) == Some((0u16, false)),
        first.len() == 1 ==> hit_by_all(first, haystack) == first[0].hit(haystack),
        hit_by_all(first + second, haystack) is Some <==> hit_by_all(first, haystack) is Some
            && hit_by_all(second, haystack) is Some,
        hit_by_all(first + second, haystack) is Some ==> {
            let sum = (hit_by_all(first, haystack)->0).0 + (hit_by_all(second, haystack)->0).0;
            &&& sum <= u16::MAX ==> (hit_by_all(first + second, haystack)->0).0 == sum
            &&& sum > u16::MAX ==> (hit_by_all(first + second, haystack)->0).0 == u16::MAX
        },
    decreases second.len(),
{
    reveal_with_fuel(hit_by_all, 2);
    if first.len() == 1 {
        assert(first.drop_last() =~= Seq::<Rule>::empty());
    }
    if second.len() == 0 {
        assert(first + second =~= first);
    } else {
        lemma_scores_of_rules_add_up(first, second.drop_last(), haystack);
        assert((first + second).drop_last() =~= first + second.drop_last());
    }
}

/// Every pattern with a needle becomes one rule that says of it what the pattern and the
/// configuration say, in the order of the patterns; one without becomes none. A needle alone is
/// as good as the one pattern that is matched in the way of the configuration.
pub proof fn lemma_patterns_become_rules(
    first: Seq<Pattern>,
    pattern: Pattern,
    second: Seq<Pattern>,
    config: Config,
)
    ensures
        rules_of(first + second, config) == rules_of(first, config) + rules_of(second, config),
        pattern.needle@.len() == 0 ==> rules_of(seq![pattern], config).len() == 0,
        pattern.needle@.len() > 0 ==> {
            let rules = rules_of(seq![pattern], config);
            &&& rules.len() == 1
            &&& rules[0].needle == encode_utf8(pattern.needle@)
            &&& rules[0].matching == pattern.matching
            &&& rules[0].negated == pattern.negated
            &&& rules[0].max_typos == config.max_typos
            &&& rules[0].case_sensitive == config.case_sensitive
            &&& rules[0].scoring == config.scoring
        },
        !pattern.negated && pattern.matching == config.matching ==> needle_rules(
            pattern.needle@,
            config,
        ) == rules_of(seq![pattern], config),
    decreases second.len(),
{
    reveal_with_fuel(rules_of, 2);
    let one = seq![pattern];
    assert(one.drop_last() =~= Seq::<Pattern>::empty());
    if pattern.needle@.len() > 0 {
        assert(rules_of(one, config) =~= seq![rule_of(pattern, config)]);
    }
    if second.len() == 0 {
        assert(first + second =~= first);
        assert(rules_of(first, config) + rules_of(second, config) =~= rules_of(first, config));
    } else {
        lemma_patterns_become_rules(first, pattern, second.drop_last(), config);
        assert((first + second).drop_last() =~= first + second.drop_last());
        assert(rules_of(first + second, config) =~= rules_of(first, config) + rules_of(
            second,
            config,
        ));
    }
}

/// The score of a needle that is found fuzzily is accounted for by one alignment: a route through
/// the haystack whose steps add up to it, and that leaves no more bytes of the needle unmatched
/// than may be.
pub proof fn lemma_found_score_is_accounted_for(rule: Rule, haystack: Seq<u8>)
    requires
        rule.matching is Fuzzy,
        rule.needle.len() > 0,
        scores_fit(rule.problem(haystack)),
        rule.found(haystack) is Some,
    ensures
        exists|steps: Seq<Step>, j: int|
            #![trigger route_columns(steps, j)]
            {
                let p = rule.problem(haystack);
                let n = rule.needle.len() as int;
                &&& is_route(p, steps, n - 1, j)
                &&& route_worth(p, steps, n - 1, j) == rule.found(haystack)->0
                &&& rule.max_typos is Some ==> n - route_columns(steps, j).len()
                    <= rule.max_typos->0
            },
{
    let p = rule.problem(haystack);
    let n = rule.needle.len() as int;
    lemma_score_is_accounted_for(p, 0);
    let (steps, j) = choose|steps: Seq<Step>, j: int|
        #![trigger route_columns(steps, j)]
        {
            &&& is_route(p, steps, n - 1, j)
            &&& route_worth(p, steps, n - 1, j) == p.score()
            &&& deletions(p.alignment(n, p.score())) == n - route_columns(steps, j).len()
        };
    assert(route_columns(steps, j).len() >= 0);
}

/// A needle that can only be found whole is found without typos: where every route that is worth
/// the score matches every byte of it, and none of its bytes is zero.
pub proof fn lemma_whole_needle_is_found(rule: Rule, haystack: Seq<u8>)
    requires
        rule.matching is Fuzzy,
        rule.needle.len() > 0,
        !rule.needle.contains(0),
        scores_fit(rule.problem(haystack)),
        forall|steps: Seq<Step>, j: int|
            is_route(rule.problem(haystack), steps, rule.needle.len() - 1, j) && route_worth(
                rule.problem(haystack),
                steps,
                rule.needle.len() - 1,
                j,
            ) == rule.problem(haystack).score() ==> (#[trigger] route_columns(steps, j)).len()
                == rule.needle.len(),
    ensures
        rule.found(haystack) == Some(rule.problem(haystack).score()),
{
    lemma_prefilter_changes_nothing(rule, haystack);
    lemma_whole_needle_is_matched(rule.problem(haystack));
}

/// No plain route through a haystack that a needle is found in is worth more than its score.
pub proof fn lemma_found_score_is_not_beaten(
    rule: Rule,
    haystack: Seq<u8>,
    steps: Seq<Step>,
    j: int,
)
    requires
        rule.needle.len() > 0,
        scores_fit(rule.problem(haystack)),
        rule.found(haystack) is Some,
        j < haystack.len(),
        is_route(rule.problem(haystack), steps, rule.needle.len() - 1, j),
        is_plain(rule.problem(haystack), steps, rule.needle.len() - 1, j),
    ensures
        route_worth(rule.problem(haystack), steps, rule.needle.len() - 1, j)
            <= rule.found(haystack)->0,
{
    let p = rule.problem(haystack);
    assert(p.lanes == pow2(gap_stages(p.lanes))) by {
        reveal_with_fuel(gap_stages, 4);
        lemma2_to64();
    }
    lemma_chunks_cover(haystack.len() as int, 8);
    lemma_score_is_not_beaten(p, steps, j);
}

} // verus!
