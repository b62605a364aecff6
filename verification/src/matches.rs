//! Matches and their ranking.
use core::cmp::Ordering;
use vstd::prelude::*;
use vstd::relations::total_ordering;
use vstd::std_specs::cmp::PartialOrdSpecImpl;

verus! {

/// A haystack that matches.
#[derive(Debug, Clone, Copy, PartialEq, Eq, Structural)]
pub struct Match {
    /// Where the haystack stands in the list.
    pub index: u32,
    pub score: u16,
    /// Whether the haystack is the needle.
    pub exact: bool,
}

/// The better score comes first, and of equal scores the smaller index.
pub open spec fn ranks(a: Match, b: Match) -> bool {
    ||| a.score > b.score
    ||| a.score == b.score && a.index < b.index
    ||| a.score == b.score && a.index == b.index && (a.exact ==> b.exact)
}

/// [`ranks`] as a relation.
pub open spec fn ranking() -> spec_fn(Match, Match) -> bool {
    |a: Match, b: Match| ranks(a, b)
}

/// A list in which the matches are ranked.
pub open spec fn is_ranked(matches: Seq<Match>) -> bool {
    forall|i: int, j: int|
        0 <= i < j < matches.len() ==> ranks(#[trigger] matches[i], #[trigger] matches[j])
}

/// The ranking is a total order.
pub proof fn lemma_ranking_is_total()
    ensures
        total_ordering(ranking()),
{
}

/// A list has one ranking: two ranked lists of the same matches are the same.
pub proof fn lemma_ranked_is_unique(a: Seq<Match>, b: Seq<Match>)
    requires
        is_ranked(a),
        is_ranked(b),
        a.to_multiset() == b.to_multiset(),
    ensures
        a == b,
{
    lemma_ranking_is_total();
    assert forall|i: int, j: int| 0 <= i < j < a.len() implies #[trigger] ranking()(a[i], a[j]) by {
        assert(ranks(a[i], a[j]));
    }
    assert forall|i: int, j: int| 0 <= i < j < b.len() implies #[trigger] ranking()(b[i], b[j]) by {
        assert(ranks(b[i], b[j]));
    }
    vstd::seq_lib::lemma_sorted_unique(a, b, ranking());
}

impl Match {
    /// A match without a score.
    pub open spec fn unscored(index: int) -> Match {
        Match { index: index as u32, score: 0, exact: false }
    }

    /// The match of a needle that matches everything.
    pub fn from_index(index: usize) -> (out: Self)
        requires
            index <= u32::MAX,
        ensures
            out == Match::unscored(index as int),
            out.index == index,
            out.score == 0,
            !out.exact,
    {
        Match { index: index as u32, score: 0, exact: false }
    }

    /// Whether this match ranks no later than another.
    pub fn ranks_before(&self, other: &Match) -> (out: bool)
        ensures
            out == ranks(*self, *other),
    {
        self.score > other.score || (self.score == other.score && (self.index < other.index || (
        self.index == other.index && (!self.exact || other.exact))))
    }
}

/// Turns a list round.
pub fn reverse_matches(matches: &mut Vec<Match>)
    ensures
        final(matches)@ == old(matches)@.reverse(),
{
    let ghost before = matches@;
    let mut out: Vec<Match> = Vec::new();
    let mut left: usize = matches.len();
    while left > 0
        invariant
            left <= matches@.len(),
            matches@ == before,
            out@ == before.reverse().take(before.len() - left),
        decreases left,
    {
        left = left - 1;
        out.push(matches[left]);
        assert(before.reverse().take(before.len() - left) =~= before.reverse().take(
            before.len() - left - 1,
        ).push(before[left as int]));
    }
    assert(before.reverse().take(before.len() as int) =~= before.reverse());
    *matches = out;
}

impl PartialOrdSpecImpl for Match {
    open spec fn obeys_partial_cmp_spec() -> bool {
        true
    }

    open spec fn partial_cmp_spec(&self, other: &Match) -> Option<Ordering> {
        if *self == *other {
            Some(Ordering::Equal)
        } else if ranks(*self, *other) {
            Some(Ordering::Less)
        } else {
            Some(Ordering::Greater)
        }
    }
}

impl PartialOrd for Match {
    /// Compares by rank: the match that comes first is the lesser.
    fn partial_cmp(&self, other: &Match) -> (out: Option<Ordering>) {
        if *self == *other {
            Some(Ordering::Equal)
        } else if self.ranks_before(other) {
            Some(Ordering::Less)
        } else {
            Some(Ordering::Greater)
        }
    }
}

/// The better score ranks first, and of equal scores the smaller index.
pub proof fn lemma_better_match_ranks_first(a: Match, b: Match)
    ensures
        a.score > b.score ==> ranks(a, b) && !ranks(b, a),
        a.score == b.score && a.index < b.index ==> ranks(a, b) && !ranks(b, a),
        ranks(a, b) ==> a.score >= b.score,
        ranks(a, b) && a.score == b.score ==> a.index <= b.index,
{
}

/// In a ranked list the scores descend, and the indices of one score ascend.
pub proof fn lemma_ranked_by_score_then_index(matches: Seq<Match>, i: int, j: int)
    requires
        is_ranked(matches),
        0 <= i < j < matches.len(),
    ensures
        matches[i].score >= matches[j].score,
        matches[i].score == matches[j].score ==> matches[i].index <= matches[j].index,
{
    assert(ranks(matches[i], matches[j]));
}

} // verus!
