//! The Smith-Waterman kernel, generic over the backend.
use vstd::prelude::*;
use vstd::slice::slice_to_vec;

mod alignment;
mod bounds;
mod routes;

pub use self::alignment::{
    bytes_of, lemma_indices_are_valid, lemma_path_is_alignment, lemma_prefilter_accepts_matches,
    AlignmentPathIter,
};
pub use self::bounds::{
    best_byte, best_score, lemma_best_score_grows, lemma_literal_match_scores, lemma_narrow_match_is_wide_match,
    lemma_narrow_rows_are_wide_rows, lemma_narrow_score_is_wide_score, lemma_score_bound,
    prices_fit_in_u8, score_fits_in_u8,
};
pub use self::routes::{
    is_plain, is_route, lemma_absent_score_aligns_nothing, lemma_cell_is_accounted_for,
    lemma_cell_is_not_beaten, lemma_high_score_has_few_typos, lemma_more_typos_match_more,
    lemma_route_is_bounded,
    lemma_score_is_accounted_for, lemma_score_is_not_beaten, lemma_whole_needle_is_matched, opening,
    route_columns, route_worth, scores_fit, Step,
};

use crate::backend::{narrowed, padded_chunk, shifted, Backend, BytesVec, MaskVec, ScoreVec};
use crate::chunks::{lemma_chunks_cover, num_chunks};
use crate::gaps::less;
use crate::prefilter::{case_needle, cased};
use crate::scoring::{highest, is_capital, is_delimiter, is_small_letter, Problem, Scoring};

verus! {

// ---------------------------------------------------------------------------------------------
// Lanes.
// ---------------------------------------------------------------------------------------------
proof fn lemma_narrowed(a: int, b: int, lane_max: u16)
    requires
        lane_max == 0xff || lane_max == 0xffff,
        a >= 0,
        b >= 0,
    ensures
        narrowed(a, lane_max) <= lane_max,
        narrowed(narrowed(a, lane_max) + narrowed(b, lane_max), lane_max) == narrowed(
            a + b,
            lane_max,
        ),
        narrowed(narrowed(a, lane_max) as int, lane_max) == narrowed(a, lane_max),
        a <= lane_max ==> narrowed(a, lane_max) == a,
{
    let m: int = if lane_max == 0xff {
        0x100
    } else {
        0x1_0000
    };
    vstd::arithmetic::div_mod::lemma_add_mod_noop(a, b, m);
    vstd::arithmetic::div_mod::lemma_mod_twice(a, m);
    vstd::arithmetic::div_mod::lemma_mod_bound(a, m);
    vstd::arithmetic::div_mod::lemma_mod_bound(b, m);
    vstd::arithmetic::div_mod::lemma_mod_bound(a + b, m);
    if a <= lane_max {
        vstd::arithmetic::div_mod::lemma_small_mod(a as nat, m as nat);
    }
    assert(narrowed(a, lane_max) == a % m);
    assert(narrowed(b, lane_max) == b % m);
}

proof fn lemma_masked(value: u16, lane_max: u16)
    requires
        lane_max == 0xff || lane_max == 0xffff,
        value <= lane_max,
    ensures
        value & lane_max == value,
        value & 0u16 == 0u16,
{
    assert(value & 0u16 == 0u16) by (bit_vector);
    assert(value & lane_max == value) by (bit_vector)
        requires
            lane_max == 0xffu16 || lane_max == 0xffffu16,
            value <= lane_max,
    ;
}

/// Adds `value` to the lanes in which the mask holds.
fn add_where<B: Backend>(scores: B::Score, mask: B::Mask, value: u16) -> (out: B::Score)
    ensures
        out.lanes() == Seq::new(
            B::LANES as nat,
            |l: int|
                narrowed(
                    scores.lanes()[l] + if mask.lanes()[l] {
                        value
                    } else {
                        0
                    },
                    B::Score::lane_max(),
                ),
        ),
{
    let wide = B::widen_mask(mask);
    let every = B::Score::splat(value);
    let some = every.and(wide);
    let out = scores.add(some);
    proof {
        B::lemma_widths();
        scores.lemma_lanes();
        let lane_max = B::Score::lane_max();
        let want = Seq::new(
            B::LANES as nat,
            |l: int|
                narrowed(
                    scores.lanes()[l] + if mask.lanes()[l] {
                        value
                    } else {
                        0
                    },
                    lane_max,
                ),
        );
        assert forall|l: int| 0 <= l < B::LANES implies #[trigger] out.lanes()[l] == want[l] by {
            let low = narrowed(value as int, lane_max);
            lemma_narrowed(scores.lanes()[l] as int, value as int, lane_max);
            lemma_masked(low, lane_max);
            assert(wide.lanes()[l] == if mask.lanes()[l] {
                lane_max
            } else {
                0
            });
            assert(some.lanes()[l] == low & wide.lanes()[l]);
        }
        assert(out.lanes() =~= want);
    }
    out
}

/// Holds where the byte is a capital letter.
fn capitals<B: Backend>(bytes: B::Bytes) -> (out: B::Mask)
    ensures
        out.lanes() == Seq::new(B::LANES as nat, |l: int| is_capital(bytes.lanes()[l])),
{
    proof {
        B::lemma_widths();
    }
    let low = bytes.gt(B::Bytes::splat(0x40));
    let out = low.and(bytes.lt(B::Bytes::splat(0x5b)));
    assert(out.lanes() =~= Seq::new(B::LANES as nat, |l: int| is_capital(bytes.lanes()[l])));
    out
}

/// Holds where the byte is a small letter.
fn small_letters<B: Backend>(bytes: B::Bytes) -> (out: B::Mask)
    ensures
        out.lanes() == Seq::new(B::LANES as nat, |l: int| is_small_letter(bytes.lanes()[l])),
{
    proof {
        B::lemma_widths();
    }
    let low = bytes.gt(B::Bytes::splat(0x60));
    let out = low.and(bytes.lt(B::Bytes::splat(0x7b)));
    assert(out.lanes() =~= Seq::new(B::LANES as nat, |l: int| is_small_letter(bytes.lanes()[l])));
    out
}

/// Holds where the byte is a delimiter.
fn delimiters<B: Backend>(bytes: B::Bytes) -> (out: B::Mask)
    ensures
        out.lanes() == Seq::new(B::LANES as nat, |l: int| is_delimiter(bytes.lanes()[l])),
{
    proof {
        B::lemma_widths();
    }
    let out = bytes.eq(B::Bytes::splat(0x20));
    let out = out.or(bytes.eq(B::Bytes::splat(0x2f)));
    let out = out.or(bytes.eq(B::Bytes::splat(0x2e)));
    let out = out.or(bytes.eq(B::Bytes::splat(0x2c)));
    let out = out.or(bytes.eq(B::Bytes::splat(0x5f)));
    let out = out.or(bytes.eq(B::Bytes::splat(0x2d)));
    let out = out.or(bytes.eq(B::Bytes::splat(0x3a)));
    assert(out.lanes() =~= Seq::new(B::LANES as nat, |l: int| is_delimiter(bytes.lanes()[l])));
    out
}

// ---------------------------------------------------------------------------------------------
// The score matrix.
// ---------------------------------------------------------------------------------------------
proof fn lemma_narrowed_sum(a: int, b: int, lane_max: u16)
    requires
        lane_max == 0xff || lane_max == 0xffff,
        a >= 0,
        b >= 0,
    ensures
        narrowed(narrowed(a, lane_max) + b, lane_max) == narrowed(a + b, lane_max),
        narrowed(a + narrowed(b, lane_max), lane_max) == narrowed(a + b, lane_max),
{
    let na = narrowed(a, lane_max) as int;
    let nb = narrowed(b, lane_max) as int;
    lemma_narrowed(a, b, lane_max);
    lemma_narrowed(b, a, lane_max);
    lemma_narrowed(na, b, lane_max);
    lemma_narrowed(a, nb, lane_max);
}

/// A needle, and the score matrix of the haystack that it was last aligned with.
pub struct SmithWaterman<B: Backend> {
    needle: Vec<(u8, u8)>,
    scoring: Scoring,
    /// Row by row, each row chunk by chunk.
    score_matrix: Vec<B::Score>,
    /// Where the bytes of the needle match, laid out as the scores.
    match_masks: Vec<B::Mask>,
    /// The ways into the cells from up and to the left, laid out as the scores.
    along_matrix: Vec<B::Score>,
    haystack_chunks: usize,
    haystack: Ghost<Seq<u8>>,
}

impl<B: Backend> SmithWaterman<B> {
    /// The needle, each byte with the byte that is taken for it besides.
    pub closed spec fn pairs(self) -> Seq<(u8, u8)> {
        self.needle@
    }

    pub closed spec fn weights(self) -> Scoring {
        self.scoring
    }

    /// The haystack that the score matrix belongs to.
    pub closed spec fn aligned(self) -> Seq<u8> {
        self.haystack@
    }

    /// The needle with a haystack, on this backend.
    pub open spec fn problem_for(self, haystack: Seq<u8>) -> Problem {
        Problem {
            needle: self.pairs(),
            haystack,
            scoring: self.weights(),
            lanes: B::LANES as nat,
            lane_max: B::Score::lane_max(),
        }
    }

    /// The needle with the haystack that the score matrix belongs to.
    pub open spec fn problem(self) -> Problem {
        self.problem_for(self.aligned())
    }

    /// The score matrix holds what it should.
    pub closed spec fn wf(self) -> bool {
        let p = self.problem();
        &&& self.haystack_chunks == p.chunks()
        &&& self.score_matrix@.len() == self.needle@.len() * p.chunks()
        &&& self.match_masks@.len() == self.score_matrix@.len()
        &&& self.along_matrix@.len() == self.score_matrix@.len()
        &&& matrix_holds::<B>(
            self.score_matrix@,
            self.match_masks@,
            self.along_matrix@,
            p,
            self.haystack_chunks as int,
        )
    }
}

/// Matrices, row by row, that hold the scores and the matches of a problem, and the ways into its
/// cells from up and to the left, as far as they go.
spec fn matrix_holds<B: Backend>(
    scores: Seq<B::Score>,
    masks: Seq<B::Mask>,
    alongs: Seq<B::Score>,
    p: Problem,
    chunks: int,
) -> bool {
    forall|i: int, c: int|
        #![trigger p.row(i, c)]
        0 <= i && 0 <= c < chunks && i * chunks + c < scores.len() ==> {
            &&& scores[i * chunks + c].lanes() == p.row(i, c)
            &&& masks[i * chunks + c].lanes() == match_lanes(p, i, c)
            &&& alongs[i * chunks + c].lanes() == p.along_row(i, c)
        }
}

/// The matches of row `i` in chunk `c`.
spec fn match_lanes(p: Problem, i: int, c: int) -> Seq<bool> {
    Seq::new(p.lanes, |l: int| c >= 0 && p.matches_at(i, c * p.lanes + l))
}

/// The chunks of a haystack, as vectors.
fn load_chunks<B: Backend>(haystack: &[u8], chunks: usize) -> (out: Vec<B::Bytes>)
    requires
        chunks * B::LANES < haystack@.len() + B::LANES,
    ensures
        out@.len() == chunks,
        forall|c: int|
            0 <= c < chunks ==> #[trigger] out@[c].lanes() == padded_chunk(
                haystack@,
                c * B::LANES,
                B::LANES as nat,
            ),
{
    proof {
        B::lemma_widths();
    }
    let mut out: Vec<B::Bytes> = Vec::new();
    let lanes = B::lanes();
    let len = haystack.len();
    for c in 0..chunks
        invariant
            len == haystack@.len(),
            lanes == B::LANES,
            B::Bytes::lane_count() == B::LANES,
            0 < B::LANES <= 64,
            chunks * B::LANES < haystack@.len() + B::LANES,
            out@.len() == c,
            forall|k: int|
                0 <= k < c ==> #[trigger] out@[k].lanes() == padded_chunk(
                    haystack@,
                    k * B::LANES,
                    B::LANES as nat,
                ),
    {
        assert(0 <= c * lanes && c * lanes + lanes <= chunks * lanes) by (nonlinear_arith)
            requires
                0 <= c,
                c + 1 <= chunks,
                lanes >= 0,
        ;
        out.push(B::Bytes::load_partial(haystack, c * lanes));
    }
    out
}

/// What a match is worth by its column alone, for every column.
fn column_worths<B: Backend>(
    bytes: &Vec<B::Bytes>,
    scoring: &Scoring,
    Ghost(p): Ghost<Problem>,
) -> (out: Vec<B::Score>)
    requires
        p.lanes == B::LANES,
        p.lane_max == B::Score::lane_max(),
        p.scoring == *scoring,
        forall|c: int|
            0 <= c < bytes@.len() ==> #[trigger] bytes@[c].lanes() == padded_chunk(
                p.haystack,
                c * B::LANES,
                B::LANES as nat,
            ),
    ensures
        out@.len() == bytes@.len(),
        forall|c: int|
            0 <= c < bytes@.len() ==> #[trigger] out@[c].lanes() == Seq::new(
                p.lanes,
                |l: int|
                    narrowed(
                        scoring.match_score + p.column_bonus(c * B::LANES + l),
                        B::Score::lane_max(),
                    ),
            ),
{
    proof {
        B::lemma_widths();
    }
    let mut out: Vec<B::Score> = Vec::new();
    let mut prev_small = B::Mask::zero();
    let mut prev_delimiter = B::Mask::zero();
    for c in 0..bytes.len()
        invariant
            0 < B::LANES <= 64,
            B::Mask::lane_count() == B::LANES,
            B::Bytes::lane_count() == B::LANES,
            B::Score::lane_count() == B::LANES,
            B::Score::lane_max() == 0xff || B::Score::lane_max() == 0xffff,
            p.lanes == B::LANES,
            p.lane_max == B::Score::lane_max(),
            p.scoring == *scoring,
            forall|k: int|
                0 <= k < bytes@.len() ==> #[trigger] bytes@[k].lanes() == padded_chunk(
                    p.haystack,
                    k * B::LANES,
                    B::LANES as nat,
                ),
            prev_small.lanes() == Seq::new(
                p.lanes,
                |l: int| c > 0 && is_small_letter(p.byte((c - 1) * B::LANES + l)),
            ),
            prev_delimiter.lanes() == Seq::new(
                p.lanes,
                |l: int| c > 0 && is_delimiter(p.byte((c - 1) * B::LANES + l)),
            ),
            out@.len() == c,
            forall|k: int|
                0 <= k < c ==> #[trigger] out@[k].lanes() == Seq::new(
                    p.lanes,
                    |l: int|
                        narrowed(
                            scoring.match_score + p.column_bonus(k * B::LANES + l),
                            B::Score::lane_max(),
                        ),
                ),
    {
        let chunk = bytes[c];
        let small = small_letters::<B>(chunk);
        let delimiter = delimiters::<B>(chunk);
        let capital = capitals::<B>(chunk);
        let after_small = capital.and(small.shift_right_padded_1(prev_small));
        let after_delimiter = delimiter.not().and(delimiter.shift_right_padded_1(prev_delimiter));
        let worth0 = B::Score::splat(scoring.match_score);
        let worth1 = add_where::<B>(worth0, after_small, scoring.capitalization_bonus);
        let worth2 = add_where::<B>(worth1, after_delimiter, scoring.delimiter_bonus);
        let start = if c == 0 {
            scoring.prefix_bonus
        } else {
            0
        };
        let worth3 = worth2.add(B::Score::first_lane(start));
        proof {
            let lane_max = B::Score::lane_max();
            let want = Seq::new(
                p.lanes,
                |l: int|
                    narrowed(
                        scoring.match_score + p.column_bonus(c * B::LANES + l),
                        B::Score::lane_max(),
                    ),
            );
            small.lemma_lanes();
            delimiter.lemma_lanes();
            worth3.lemma_lanes();
            assert(bytes@[c as int].lanes() == padded_chunk(
                p.haystack,
                c * B::LANES,
                B::LANES as nat,
            ));
            let here = c * B::LANES;
            let before = (c - 1) * B::LANES;
            assert(here == before + B::LANES) by (nonlinear_arith)
                requires
                    here == c * B::LANES,
                    before == (c - 1) * B::LANES,
            ;
            assert(here >= 0) by (nonlinear_arith)
                requires
                    here == c * B::LANES,
                    c >= 0,
                    B::LANES >= 0,
            ;
            if c > 0 {
                assert(here > 0) by (nonlinear_arith)
                    requires
                        here == c * B::LANES,
                        c > 0,
                        B::LANES > 0,
                ;
            }
            assert forall|l: int| 0 <= l < p.lanes implies #[trigger] chunk.lanes()[l] == p.byte(
                here + l,
            ) by {}
            assert forall|l: int| 0 <= l < p.lanes implies #[trigger] worth3.lanes()[l] == want[l] by {
                let j = here + l;
                let a = scoring.match_score as int;
                let cap = if after_small.lanes()[l] {
                    scoring.capitalization_bonus as int
                } else {
                    0
                };
                let del = if after_delimiter.lanes()[l] {
                    scoring.delimiter_bonus as int
                } else {
                    0
                };
                let pre = if l == 0 {
                    start as int
                } else {
                    0
                };
                if l == 0 && c > 0 {
                    assert(p.byte(j - 1) == p.byte(before + (B::LANES - 1)));
                }
                if l > 0 {
                    assert(chunk.lanes()[l - 1] == p.byte(here + (l - 1)));
                }
                assert(chunk.lanes()[l] == p.byte(j));
                assert(after_small.lanes()[l] == (j > 0 && is_capital(p.byte(j)) && is_small_letter(
                    p.byte(j - 1),
                )));
                assert(after_delimiter.lanes()[l] == (j > 0 && is_delimiter(p.byte(j - 1))
                    && !is_delimiter(p.byte(j))));
                lemma_narrowed_sum(a, cap, lane_max);
                lemma_narrowed_sum(a + cap, del, lane_max);
                lemma_narrowed_sum(a + cap + del, pre, lane_max);
                lemma_narrowed(a + cap + del, pre, lane_max);
                lemma_narrowed(0, 0, lane_max);
                assert(worth1.lanes()[l] == narrowed(a + cap, lane_max));
                assert(worth2.lanes()[l] == narrowed(a + cap + del, lane_max));
                assert(worth3.lanes()[l] == narrowed(a + cap + del + pre, lane_max));
                assert(p.column_bonus(j) == cap + del + pre);
            }
            assert(worth3.lanes() =~= want);
            assert(small.lanes() =~= Seq::new(
                p.lanes,
                |l: int| c + 1 > 0 && is_small_letter(p.byte((c + 1 - 1) * B::LANES + l)),
            ));
            assert(delimiter.lanes() =~= Seq::new(
                p.lanes,
                |l: int| c + 1 > 0 && is_delimiter(p.byte((c + 1 - 1) * B::LANES + l)),
            ));
        }
        out.push(worth3);
        prev_small = small;
        prev_delimiter = delimiter;
    }
    out
}

/// Row `i` of the score matrix in chunk `c`, from its neighbours, with its matches and the ways
/// into it from up and to the left.
fn fill<B: Backend>(
    bytes: B::Bytes,
    pair: (u8, u8),
    worth: B::Score,
    scoring: &Scoring,
    above: B::Score,
    above_prev: B::Score,
    above_mask: B::Mask,
    left: B::Score,
    left_mask: B::Mask,
    Ghost(p): Ghost<Problem>,
    Ghost(i): Ghost<int>,
    Ghost(c): Ghost<int>,
) -> (out: (B::Score, B::Mask, B::Score))
    requires
        p.lanes == B::LANES,
        p.lane_max == B::Score::lane_max(),
        p.scoring == *scoring,
        0 <= i < p.needle.len(),
        0 <= c,
        pair == p.needle[i],
        bytes.lanes() == padded_chunk(p.haystack, c * B::LANES, B::LANES as nat),
        worth.lanes() == Seq::new(
            p.lanes,
            |l: int|
                narrowed(
                    scoring.match_score + p.column_bonus(c * B::LANES + l),
                    B::Score::lane_max(),
                ),
        ),
        above.lanes() == p.row(i - 1, c),
        above_prev.lanes() == p.row(i - 1, c - 1),
        above_mask.lanes() == match_lanes(p, i - 1, c),
        left.lanes() == p.row(i, c - 1),
        left_mask.lanes() == match_lanes(p, i, c - 1),
    ensures
        out.0.lanes() == p.row(i, c),
        out.1.lanes() == match_lanes(p, i, c),
        out.2.lanes() == p.along_row(i, c),
{
    proof {
        B::lemma_widths();
    }
    let own_case = bytes.eq(B::Bytes::splat(pair.0));
    let mask = own_case.or(bytes.eq(B::Bytes::splat(pair.1)));
    let wide = B::widen_mask(mask);
    let unmatched = B::widen_mask(mask.not());
    let diagonal = above.shift_right_padded::<1>(above_prev);
    let full_worth = add_where::<B>(worth, own_case, scoring.matching_case_bonus);
    let summed = diagonal.add(full_worth);
    let matched = summed.and(wide);
    let decayed = diagonal.subs(B::Score::splat(scoring.mismatch_penalty));
    let missed = decayed.and(unmatched);
    let along = matched.max(missed);
    let extend = B::Score::splat(scoring.gap_extend_penalty);
    let open = B::Score::splat(scoring.gap_open_penalty);
    let price = add_where::<B>(extend, above_mask, scoring.gap_open_penalty);
    let down = above.subs(price);
    let entered = along.max(down);
    let wide_left = B::widen_mask(left_mask);
    let row = B::propagate_horizontal_gaps(entered, left, wide, wide_left, open, extend);
    proof {
        let lane_max = B::Score::lane_max();
        let here = c * B::LANES;
        assert(here >= 0) by (nonlinear_arith)
            requires
                here == c * B::LANES,
                c >= 0,
                B::LANES >= 0,
        ;
        above.lemma_lanes();
        diagonal.lemma_lanes();
        mask.lemma_lanes();
        summed.lemma_lanes();
        decayed.lemma_lanes();
        let above_lanes = p.row(i - 1, c);
        let diagonal_lanes = shifted(above_lanes, p.row(i - 1, c - 1), 1);
        let want = Seq::new(
            p.lanes,
            |l: int| p.entered(i, c * p.lanes + l, diagonal_lanes[l], above_lanes[l]),
        );
        assert forall|l: int| 0 <= l < p.lanes implies #[trigger] mask.lanes()[l] == p.matches_at(
            i,
            here + l,
        ) by {
            assert(bytes.lanes()[l] == p.byte(here + l));
        }
        assert(mask.lanes() =~= match_lanes(p, i, c));
        assert forall|l: int| 0 <= l < p.lanes implies #[trigger] entered.lanes()[l] == want[l]
            && along.lanes()[l] == p.along(i, here + l, diagonal_lanes[l]) by {
            let j = here + l;
            let d = diagonal.lanes()[l];
            assert(d == diagonal_lanes[l]);
            assert(bytes.lanes()[l] == p.byte(j));
            assert(mask.lanes()[l] == p.matches_at(i, j));
            assert(own_case.lanes()[l] == (p.byte(j) == pair.0));
            let base = scoring.match_score + p.column_bonus(j);
            let cased = if own_case.lanes()[l] {
                scoring.matching_case_bonus as int
            } else {
                0
            };
            lemma_narrowed_sum(base, cased, lane_max);
            assert(full_worth.lanes()[l] == narrowed(base + cased, lane_max));
            assert(base + cased == p.match_worth(i, j));
            lemma_narrowed_sum(d as int, base + cased, lane_max);
            assert(summed.lanes()[l] == narrowed(d + p.match_worth(i, j), lane_max));
            lemma_masked(summed.lanes()[l], lane_max);
            lemma_masked(decayed.lanes()[l], lane_max);
            assert(wide.lanes()[l] == if mask.lanes()[l] {
                lane_max
            } else {
                0
            });
            assert(unmatched.lanes()[l] == if mask.lanes()[l] {
                0
            } else {
                lane_max
            });
            assert(decayed.lanes()[l] == less(
                d,
                narrowed(scoring.mismatch_penalty as int, lane_max),
            ));
            assert(along.lanes()[l] == if p.matches_at(i, j) {
                summed.lanes()[l]
            } else {
                decayed.lanes()[l]
            });
            let opening = if above_mask.lanes()[l] {
                scoring.gap_open_penalty as int
            } else {
                0
            };
            lemma_narrowed_sum(scoring.gap_extend_penalty as int, opening, lane_max);
            assert(above_mask.lanes()[l] == p.matches_at(i - 1, j));
            assert(price.lanes()[l] == p.gap_price(p.matches_at(i - 1, j)));
            assert(down.lanes()[l] == less(above_lanes[l], price.lanes()[l]));
        }
        assert(entered.lanes() =~= want);
        along.lemma_lanes();
        assert forall|l: int| 0 <= l < p.lanes implies #[trigger] along.lanes()[l] == p.along_row(
            i,
            c,
        )[l] by {
            assert(entered.lanes()[l] == want[l]);
            assert(p.along_row(i, c)[l] == p.along(i, c * p.lanes + l, diagonal_lanes[l]));
        }
        assert(along.lanes() =~= p.along_row(i, c));
        assert(wide.lanes() =~= p.mask(i, c));
        assert(wide_left.lanes() =~= p.mask(i, c - 1));
        assert(open.lanes() =~= p.flat(scoring.gap_open_penalty));
        assert(extend.lanes() =~= p.flat(scoring.gap_extend_penalty));
    }
    (row, mask, along)
}

proof fn lemma_highest(scores: Seq<u16>, top: u16)
    requires
        scores.contains(top),
        forall|l: int| 0 <= l < scores.len() ==> #[trigger] scores[l] <= top,
    ensures
        highest(scores) == top,
    decreases scores.len(),
{
    lemma_highest_bounds(scores);
    let l = choose|l: int| 0 <= l < scores.len() && scores[l] == top;
    assert(highest(scores) >= scores[l]);
}

/// The highest of some scores is one of them, and none is higher.
proof fn lemma_highest_bounds(scores: Seq<u16>)
    ensures
        forall|l: int| 0 <= l < scores.len() ==> #[trigger] scores[l] <= highest(scores),
        scores.len() > 0 ==> scores.contains(highest(scores)),
    decreases scores.len(),
{
    if scores.len() > 0 {
        let front = scores.drop_last();
        lemma_highest_bounds(front);
        assert forall|l: int| 0 <= l < scores.len() implies #[trigger] scores[l] <= highest(
            scores,
        ) by {
            if l < front.len() {
                assert(front[l] == scores[l]);
            }
        }
        if highest(scores) == scores.last() {
            assert(scores[scores.len() - 1] == highest(scores));
        } else {
            let l = choose|l: int| 0 <= l < front.len() && front[l] == highest(front);
            assert(scores[l] == highest(scores));
        }
    }
}

impl<B: Backend> Clone for SmithWaterman<B> {
    fn clone(&self) -> (out: Self)
        ensures
            self.wf() ==> out.wf(),
            out.pairs() == self.pairs(),
            out.weights() == self.weights(),
            out.aligned() == self.aligned(),
    {
        SmithWaterman::<B> {
            needle: slice_to_vec(self.needle.as_slice()),
            scoring: self.scoring,
            score_matrix: slice_to_vec(self.score_matrix.as_slice()),
            match_masks: slice_to_vec(self.match_masks.as_slice()),
            along_matrix: slice_to_vec(self.along_matrix.as_slice()),
            haystack_chunks: self.haystack_chunks,
            haystack: self.haystack,
        }
    }
}

impl<B: Backend> SmithWaterman<B> {
    /// A matcher for a needle, with no haystack yet.
    pub fn new(needle: &[u8], scoring: &Scoring, case_sensitive: bool) -> (out: Self)
        ensures
            out.wf(),
            out.pairs() == cased(needle@, case_sensitive),
            out.weights() == *scoring,
            out.aligned() == Seq::<u8>::empty(),
    {
        let out = SmithWaterman::<B> {
            needle: case_needle(needle, case_sensitive),
            scoring: *scoring,
            score_matrix: Vec::new(),
            match_masks: Vec::new(),
            along_matrix: Vec::new(),
            haystack_chunks: 0,
            haystack: Ghost(Seq::empty()),
        };
        proof {
            B::lemma_widths();
            lemma_chunks_cover(0, B::LANES as int);
            assert(out.needle@.len() * 0 == 0) by (nonlinear_arith);
            assert forall|i: int, c: int|
                #![trigger out.problem().row(i, c)]
                0 <= i && 0 <= c < 0 && i * 0 + c < 0 implies false by {}
        }
        out
    }

    /// Fills the score matrix for a haystack and returns the score of the needle in it.
    pub fn score_haystack(&mut self, haystack: &[u8]) -> (out: u16)
        ensures
            final(self).wf(),
            final(self).pairs() == old(self).pairs(),
            final(self).weights() == old(self).weights(),
            final(self).aligned() == haystack@,
            out == final(self).problem().score(),
    {
        proof {
            B::lemma_widths();
        }
        let ghost p = self.problem_for(haystack@);
        let n = self.needle.len();
        let lanes = B::lanes();
        let chunks = num_chunks(haystack.len(), lanes);
        let bytes = load_chunks::<B>(haystack, chunks);
        let worths = column_worths::<B>(&bytes, &self.scoring, Ghost(p));
        let mut scores: Vec<B::Score> = Vec::new();
        let mut masks: Vec<B::Mask> = Vec::new();
        let mut alongs: Vec<B::Score> = Vec::new();
        let mut best: u16 = 0;
        assert(0 * chunks == 0) by (nonlinear_arith);
        for i in 0..n
            invariant
                B::Score::lane_count() == B::LANES,
                B::Mask::lane_count() == B::LANES,
                0 < B::LANES,
                p == self.problem_for(haystack@),
                self.needle@ == p.needle,
                self.scoring == p.scoring,
                n == p.needle.len(),
                chunks == p.chunks(),
                bytes@.len() == chunks,
                worths@.len() == chunks,
                forall|c: int|
                    0 <= c < chunks ==> #[trigger] bytes@[c].lanes() == padded_chunk(
                        p.haystack,
                        c * B::LANES,
                        B::LANES as nat,
                    ),
                forall|c: int|
                    0 <= c < chunks ==> #[trigger] worths@[c].lanes() == Seq::new(
                        p.lanes,
                        |l: int|
                            narrowed(
                                p.scoring.match_score + p.column_bonus(c * B::LANES + l),
                                B::Score::lane_max(),
                            ),
                    ),
                scores@.len() == i * chunks,
                masks@.len() == i * chunks,
                alongs@.len() == i * chunks,
                matrix_holds::<B>(scores@, masks@, alongs@, p, chunks as int),
                best == if i == n && n > 0 {
                    p.best(chunks as int)
                } else {
                    0
                },
        {
            let pair = self.needle[i];
            for c in 0..chunks
                invariant
                    B::Score::lane_count() == B::LANES,
                    B::Mask::lane_count() == B::LANES,
                    0 < B::LANES,
                    p == self.problem_for(haystack@),
                    self.needle@ == p.needle,
                    self.scoring == p.scoring,
                    n == p.needle.len(),
                    i < n,
                    pair == p.needle[i as int],
                    chunks == p.chunks(),
                    bytes@.len() == chunks,
                    worths@.len() == chunks,
                    forall|k: int|
                        0 <= k < chunks ==> #[trigger] bytes@[k].lanes() == padded_chunk(
                            p.haystack,
                            k * B::LANES,
                            B::LANES as nat,
                        ),
                    forall|k: int|
                        0 <= k < chunks ==> #[trigger] worths@[k].lanes() == Seq::new(
                            p.lanes,
                            |l: int|
                                narrowed(
                                    p.scoring.match_score + p.column_bonus(k * B::LANES + l),
                                    B::Score::lane_max(),
                                ),
                        ),
                    scores@.len() == i * chunks + c,
                    masks@.len() == i * chunks + c,
                    alongs@.len() == i * chunks + c,
                    matrix_holds::<B>(scores@, masks@, alongs@, p, chunks as int),
                    best == if i + 1 == n {
                        p.best(c as int)
                    } else {
                        0
                    },
            {
                let at = scores.len();
                let ghost (gi, gc, gn) = (i as int, c as int, chunks as int);
                let zero = B::Score::zero();
                let none = B::Mask::zero();
                assert(zero.lanes() =~= Seq::new(p.lanes, |l: int| 0u16));
                proof {
                    if i > 0 {
                        assert(gi * gn + gc - gn == (gi - 1) * gn + gc) by (nonlinear_arith);
                        assert((gi - 1) * gn >= 0) by (nonlinear_arith)
                            requires
                                gi > 0,
                                gn >= 0,
                        ;
                        assert(p.row(gi - 1, gc) == scores@[(gi - 1) * gn + gc].lanes());
                        if c > 0 {
                            assert(p.row(gi - 1, gc - 1) == scores@[(gi - 1) * gn + (gc
                                - 1)].lanes());
                        }
                    } else {
                        assert(none.lanes() =~= match_lanes(p, -1, gc));
                        assert(p.row(-1, gc) =~= zero.lanes());
                        assert(p.row(-1, gc - 1) =~= zero.lanes());
                        assert(0 * gn == 0);
                    }
                    if c > 0 {
                        assert(gi * gn >= 0) by (nonlinear_arith)
                            requires
                                gi >= 0,
                                gn >= 0,
                        ;
                        assert(p.row(gi, gc - 1) == scores@[gi * gn + (gc - 1)].lanes());
                    } else {
                        assert(none.lanes() =~= match_lanes(p, gi, -1));
                        assert(p.row(gi, -1) =~= zero.lanes());
                        assert(p.row(gi - 1, -1) =~= zero.lanes());
                    }
                }
                let above = if i > 0 {
                    scores[at - chunks]
                } else {
                    zero
                };
                let above_mask = if i > 0 {
                    masks[at - chunks]
                } else {
                    none
                };
                let above_prev = if i > 0 && c > 0 {
                    scores[at - chunks - 1]
                } else {
                    zero
                };
                let left = if c > 0 {
                    scores[at - 1]
                } else {
                    zero
                };
                let left_mask = if c > 0 {
                    masks[at - 1]
                } else {
                    none
                };
                let (row, mask, along) = fill::<B>(
                    bytes[c],
                    pair,
                    worths[c],
                    &self.scoring,
                    above,
                    above_prev,
                    above_mask,
                    left,
                    left_mask,
                    Ghost(p),
                    Ghost(gi),
                    Ghost(gc),
                );
                if i + 1 == n {
                    let top = row.horizontal_max();
                    proof {
                        row.lemma_lanes();
                        lemma_highest(row.lanes(), top);
                    }
                    if top >= best {
                        best = top;
                    }
                }
                let ghost before = scores@;
                scores.push(row);
                masks.push(mask);
                alongs.push(along);
                proof {
                    assert forall|a: int, b: int|
                        #![trigger p.row(a, b)]
                        0 <= a && 0 <= b < gn && a * gn + b < scores@.len() implies {
                        &&& scores@[a * gn + b].lanes() == p.row(a, b)
                        &&& masks@[a * gn + b].lanes() == match_lanes(p, a, b)
                        &&& alongs@[a * gn + b].lanes() == p.along_row(a, b)
                    } by {
                        assert(a * gn >= 0) by (nonlinear_arith)
                            requires
                                a >= 0,
                                gn >= 0,
                        ;
                        if a * gn + b == gi * gn + gc {
                            assert(a == gi && b == gc) by (nonlinear_arith)
                                requires
                                    a * gn + b == gi * gn + gc,
                                    0 <= b < gn,
                                    0 <= gc < gn,
                            ;
                        } else {
                            assert(before[a * gn + b].lanes() == p.row(a, b));
                        }
                    }
                    assert(matrix_holds::<B>(scores@, masks@, alongs@, p, gn));
                }
            }
            assert(i * chunks + chunks == (i + 1) * chunks) by (nonlinear_arith);
        }
        self.score_matrix = scores;
        self.match_masks = masks;
        self.along_matrix = alongs;
        self.haystack_chunks = chunks;
        self.haystack = Ghost(haystack@);
        best
    }
}

// ---------------------------------------------------------------------------------------------
// Laws.
// ---------------------------------------------------------------------------------------------
/// Backends of the same lanes agree: scores, matches and paths are those of the same score matrix.
pub proof fn lemma_backends_agree<A: Backend, B: Backend>(
    a: SmithWaterman<A>,
    b: SmithWaterman<B>,
    haystack: Seq<u8>,
)
    requires
        A::LANES == B::LANES,
        A::LANE_BYTES == B::LANE_BYTES,
        a.pairs() == b.pairs(),
        a.weights() == b.weights(),
    ensures
        a.problem_for(haystack) == b.problem_for(haystack),
{
    A::lemma_widths();
    B::lemma_widths();
}

} // verus!
