//! Fuzzy matching of a needle against a list of haystacks.
//!
//! A haystack matches if the bytes of the needle are found in it in order, but for a limited
//! number of typos. It is scored by a Smith-Waterman alignment, which is written once for vector
//! backends of several widths. Most haystacks never get that far: an ordered prefilter turns away
//! what cannot match, and nothing that can.
//!
//! - [`matcher`] matches lists, whose haystacks may lie in one piece or in chunks, and shares them
//!   out among several workers; [`one_shot`] does so for a needle that is used once.
//! - [`pattern`] says what a needle matches; [`config`] holds what can be chosen.
//! - [`prefilter`], [`smith_waterman`], [`scoring`], [`gaps`], [`backend`] and [`scalar`] find and
//!   score the alignment.
//! - [`matches`], [`sort`], [`k_merge`], [`chunks`] and [`workers`] rank the matches, share out a
//!   list, and merge the lists of the workers.
pub mod backend;
pub mod chunks;
pub mod config;
pub mod gaps;
pub mod k_merge;
pub mod matchable;
pub mod matcher;
pub mod matches;
pub mod one_shot;
pub mod pattern;
pub mod prefilter;
pub mod scalar;
pub mod scoring;
pub mod smith_waterman;
pub mod sort;
pub mod workers;

pub use crate::config::{Config, Matching, SortStrategy};
pub use crate::matchable::Matchable;
pub use crate::matcher::{MatchableChunked, Matcher, ResolvedChunks, SIMD_CHUNK_BYTES};
pub use crate::matches::Match;
pub use crate::one_shot::{
    match_list, match_list_parallel, match_list_parallel_chunked, match_list_parallel_resolved,
};
pub use crate::pattern::Pattern;
pub use crate::scoring::Scoring;
