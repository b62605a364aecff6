# frizbee

Fuzzy matching of a needle against a list of haystacks, written and verified in
[Verus](https://github.com/verus-lang/verus).

A haystack matches if the bytes of the needle are found in it in order, but for a limited number of
typos. Matches are scored by a Smith-Waterman alignment and returned in a chosen order. Lists can be
matched in one go, or shared out among several workers whose results are merged.

## Layout

- `src/` is the library. The contract of a function says what it returns; only whether a backend is
  available is left to the machine.
  - `backend.rs`, `scalar.rs`, `gaps.rs`: vectors, lane by lane, and the propagation of gaps.
  - `scoring.rs`: the score matrix as a mathematical object.
  - `smith_waterman/`: the kernel that fills the matrix, the path of the alignment, bounds of scores.
  - `prefilter.rs`: a fast test that turns away most haystacks.
  - `pattern.rs`, `config.rs`, `matchable.rs`: what matches what.
  - `matcher/`, `one_shot.rs`: matching of lists, with haystacks in one piece or in chunks.
  - `matches.rs`, `sort.rs`, `k_merge.rs`, `chunks.rs`, `workers.rs`: ranking, sorting, sharing out
    and merging.
- `app/` runs the workers on real threads, and reads haystacks from behind raw pointers.
- `tests/` runs the library.

## What is proved

Besides the contracts, the library states its laws as public proof functions. Among them:

- The prefilter turns away nothing that the alignment would accept
  (`pattern::lemma_prefilter_changes_nothing`), and its window holds every alignment
  (`prefilter::lemma_window_is_conservative`).
- The indices of a match are positions of the haystack, in reverse order
  (`smith_waterman::lemma_indices_are_valid`).
- Scores that fit in eight bits are the same in lanes of eight and of sixteen bits
  (`smith_waterman::lemma_narrow_match_is_wide_match`).
- Haystacks in chunks match like haystacks in one piece
  (`matcher::lemma_resolved_agrees_with_contiguous`), and too short ones can be skipped
  (`matcher::lemma_short_haystack_misses`).
- Of haystacks in chunks, one that is too short is as good as one that is skipped
  (`matcher::lemma_short_item_is_skipped`), and the buffers of an earlier run leave no trace
  (`matcher::lemma_buffers_leave_no_trace`).
- Several workers lose no match and match no item twice
  (`matcher::lemma_parallel_resolved_is_permutation`).
- Sorted by score, several workers return what one run over the list returns, whichever worker
  takes which part (`workers::lemma_workers_agree_with_one`).

One thing is trusted: that `Itertools::kmerge` merges ascending lists into one (`k_merge.rs`).
