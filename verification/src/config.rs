//! How a list is matched and in what order the matches are returned.
use vstd::prelude::*;

use crate::scoring::{default_scoring, Scoring};

verus! {

/// The order of the matches.
///
/// The orders by index are those of one run over the list. Several workers return their lists one
/// after the other, each in the order of its items, and for [`SortStrategy::IndexDesc`] all of
/// that turned round.
#[derive(Debug, Clone, Copy, PartialEq, Eq, Structural)]
pub enum SortStrategy {
    /// The best score first, and of equal scores the smaller index.
    ScoreThenIndexAsc,
    /// As the haystacks stand in the list, worker by worker where there are several.
    IndexAsc,
    /// As for [`SortStrategy::IndexAsc`], turned round: one run over the list returns the last
    /// haystack first.
    IndexDesc,
}

impl SortStrategy {
    pub fn is_by_score(self) -> (out: bool)
        ensures
            out == (self is ScoreThenIndexAsc),
    {
        matches!(self, SortStrategy::ScoreThenIndexAsc)
    }

    pub fn is_reversed(self) -> (out: bool)
        ensures
            out == (self is IndexDesc),
    {
        matches!(self, SortStrategy::IndexDesc)
    }
}

/// What it takes for a haystack to match a needle.
#[derive(Debug, Clone, Copy, PartialEq, Eq, Structural)]
pub enum Matching {
    /// The bytes of the needle are found in order, but for some typos.
    Fuzzy,
    /// The haystack is the needle.
    Exact,
    /// The haystack begins with the needle.
    Prefix,
    /// The haystack ends with the needle.
    Suffix,
    /// The needle is found in the haystack as it is.
    Substring,
}

#[derive(Debug, Clone, Copy)]
pub struct Config {
    /// How many bytes of the needle may go unmatched. Without a limit every haystack matches,
    /// whatever it scores. The literal ways of matching ignore it.
    pub max_typos: Option<u16>,
    pub sort: SortStrategy,
    pub matching: Matching,
    /// Whether the case of ASCII letters matters.
    pub case_sensitive: bool,
    pub scoring: Scoring,
}

impl Default for Config {
    fn default() -> (out: Self)
        ensures
            out == (Config {
                max_typos: Some(0),
                sort: SortStrategy::ScoreThenIndexAsc,
                matching: Matching::Fuzzy,
                case_sensitive: false,
                scoring: default_scoring(),
            }),
    {
        Config {
            max_typos: Some(0),
            sort: SortStrategy::ScoreThenIndexAsc,
            matching: Matching::Fuzzy,
            case_sensitive: false,
            scoring: Scoring::default(),
        }
    }
}

impl Config {
    pub fn max_typos(self, max_typos: Option<u16>) -> (out: Self)
        ensures
            out == (Config { max_typos, ..self }),
    {
        Config { max_typos, ..self }
    }

    pub fn sort(self, sort: SortStrategy) -> (out: Self)
        ensures
            out == (Config { sort, ..self }),
    {
        Config { sort, ..self }
    }

    pub fn matching(self, matching: Matching) -> (out: Self)
        ensures
            out == (Config { matching, ..self }),
    {
        Config { matching, ..self }
    }

    pub fn case_sensitive(self, case_sensitive: bool) -> (out: Self)
        ensures
            out == (Config { case_sensitive, ..self }),
    {
        Config { case_sensitive, ..self }
    }
}

} // verus!
