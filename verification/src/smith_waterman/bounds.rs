//! Bounds of the scores, and what follows from them: scores that fit in narrow lanes are the same
//! in wide ones.
use vstd::arithmetic::div_mod::{lemma_div_pos_is_pos, lemma_fundamental_div_mod, lemma_mod_bound};
use vstd::arithmetic::power2::{
    lemma_pow2_pos, lemma_pow2_strictly_increases, lemma_pow2_unfold, pow2,
};
use vstd::prelude::*;

use super::alignment::{lemma_neighbours, lemma_row_len};
use super::{lemma_highest_bounds, lemma_narrowed};
use crate::backend::{narrowed, shifted};
use crate::chunks::lemma_chunks_cover;
use crate::gaps::{
    doubled, flat, gap_stages, gap_step, lemma_propagation_bounds, propagated,
};
use crate::prefilter::same;
use crate::scoring::{highest, Problem, Scoring};

verus! {

/// The most that a match of one byte is worth, but for the bonus of the first column.
pub open spec fn best_byte(scoring: Scoring) -> int {
    scoring.match_score + scoring.matching_case_bonus + if scoring.capitalization_bonus
        >= scoring.delimiter_bonus {
        scoring.capitalization_bonus
    } else {
        scoring.delimiter_bonus
    }
}

/// The most that a needle of `needle_len` bytes can score.
pub open spec fn best_score(needle_len: int, scoring: Scoring) -> int {
    scoring.prefix_bonus + needle_len * best_byte(scoring)
}

/// Whether no needle of `needle_len` bytes scores more than a `u8` holds.
pub fn score_fits_in_u8(needle_len: usize, scoring: &Scoring) -> (out: bool)
    ensures
        out == (best_score(needle_len as int, *scoring) <= u8::MAX),
{
    let bonus: u16 = if scoring.capitalization_bonus >= scoring.delimiter_bonus {
        scoring.capitalization_bonus
    } else {
        scoring.delimiter_bonus
    };
    let byte: u64 = scoring.match_score as u64 + scoring.matching_case_bonus as u64 + bonus as u64;
    let prefix: u64 = scoring.prefix_bonus as u64;
    if prefix > 0xff {
        assert(needle_len * best_byte(*scoring) >= 0) by (nonlinear_arith)
            requires
                best_byte(*scoring) >= 0,
        ;
        return false;
    }
    if byte == 0 {
        assert(needle_len * 0 == 0);
        return true;
    }
    if needle_len > 0xff {
        assert(needle_len * best_byte(*scoring) > 0xff) by (nonlinear_arith)
            requires
                best_byte(*scoring) >= 1,
                needle_len > 0xff,
        ;
        return false;
    }
    assert(needle_len * byte <= 0xff * 0x3_0000) by (nonlinear_arith)
        requires
            needle_len <= 0xff,
            byte <= 0x3_0000,
    ;
    prefix + needle_len as u64 * byte <= 0xff
}

pub(super) proof fn lemma_stages_fit(lanes: nat)
    requires
        lanes > 0,
    ensures
        pow2(gap_stages(lanes)) <= lanes,
    decreases lanes,
{
    if lanes <= 1 {
        assert(pow2(0) == 1) by {
            vstd::arithmetic::power2::lemma2_to64();
        }
    } else {
        lemma_stages_fit(lanes / 2);
        lemma_pow2_unfold(gap_stages(lanes));
    }
}

/// What enters a cell of row `i` is no more than the best of `i + 1` bytes, given that it is so
/// for the rows before.
pub(super) proof fn lemma_entered_bound(p: Problem, i: int, c: int)
    requires
        p.lanes > 0,
        p.lane_max == 0xff || p.lane_max == 0xffff,
        0 <= i,
        0 <= c,
        is_bounded(p, i - 1, c),
        is_bounded(p, i - 1, c - 1),
    ensures
        ({
            let above = p.row(i - 1, c);
            let diagonal = shifted(above, p.row(i - 1, c - 1), 1);
            forall|l: int|
                #![trigger diagonal[l]]
                0 <= l < p.lanes ==> {
                    let j = c * p.lanes + l;
                    &&& p.entered(i, j, diagonal[l], above[l]) <= best_score(i + 1, p.scoring)
                    &&& p.matches_at(i, j) ==> diagonal[l] + p.match_worth(i, j) <= best_score(
                        i + 1,
                        p.scoring,
                    )
                }
        }),
{
    let best = best_score(i + 1, p.scoring);
    let byte = best_byte(p.scoring);
    let lanes = p.lanes as int;
    let above = p.row(i - 1, c);
    let before = p.row(i - 1, c - 1);
    let diagonal = shifted(above, before, 1);
    assert((i + 1) * byte == i * byte + byte && i * byte >= 0) by (nonlinear_arith)
        requires
            i >= 0,
            byte >= 0,
    ;
    if c == 0 {
        assert(0 * lanes == 0) by (nonlinear_arith);
    } else {
        assert(0 < c * lanes) by (nonlinear_arith)
            requires
                c > 0,
                lanes > 0,
        ;
    }
    assert forall|l: int| #![trigger diagonal[l]] 0 <= l < lanes implies {
        let j = c * lanes + l;
        &&& p.entered(i, j, diagonal[l], above[l]) <= best
        &&& p.matches_at(i, j) ==> diagonal[l] + p.match_worth(i, j) <= best
    } by {
        let j = c * lanes + l;
        assert(above[l] <= best);
        if l == 0 {
            assert(before[lanes - 1] == diagonal[0]);
        } else {
            assert(above[l - 1] == diagonal[l]);
        }
        if j > 0 {
            assert(diagonal[l] + byte <= best);
        } else {
            assert(diagonal[l] == 0);
        }
        if p.matches_at(i, j) {
            assert(p.match_worth(i, j) <= byte + if j == 0 {
                p.scoring.prefix_bonus as int
            } else {
                0
            });
            lemma_narrowed_le(diagonal[l] + p.match_worth(i, j), p.lane_max);
        }
    }
}

/// A cell of row `i` holds no more than the best of `i + 1` bytes.
pub(super) open spec fn is_bounded(p: Problem, i: int, c: int) -> bool {
    &&& p.row(i, c).len() == p.lanes
    &&& forall|l: int|
        0 <= l < p.lanes ==> #[trigger] p.row(i, c)[l] <= if i < 0 || c < 0 {
            0
        } else {
            best_score(i + 1, p.scoring)
        }
}

pub(super) proof fn lemma_row_bound(p: Problem, i: int, c: int)
    requires
        p.lanes > 0,
        p.lane_max == 0xff || p.lane_max == 0xffff,
    ensures
        is_bounded(p, i, c),
    decreases i + 1, c + 1,
{
    if i >= 0 && c >= 0 {
        lemma_row_bound(p, i - 1, c);
        lemma_row_bound(p, i - 1, c - 1);
        lemma_row_bound(p, i, c - 1);
        lemma_entered_bound(p, i, c);
        lemma_stages_fit(p.lanes);
        assert(1 * pow2(gap_stages(p.lanes)) == pow2(gap_stages(p.lanes)));
        let best = best_score(i + 1, p.scoring);
        assert(0 <= (i + 1) * best_byte(p.scoring)) by (nonlinear_arith)
            requires
                i >= 0,
                best_byte(p.scoring) >= 0,
        ;
        let above = p.row(i - 1, c);
        let diagonal = shifted(above, p.row(i - 1, c - 1), 1);
        let entered = Seq::new(
            p.lanes,
            |l: int| p.entered(i, c * p.lanes + l, diagonal[l], above[l]),
        );
        assert forall|l: int| 0 <= l < entered.len() implies #[trigger] entered[l] <= best by {
            assert(diagonal[l] == diagonal[l]);
        }
        lemma_propagation_bounds(
            entered,
            p.row(i, c - 1),
            p.mask(i, c),
            p.mask(i, c - 1),
            p.flat(p.scoring.gap_open_penalty),
            p.flat(p.scoring.gap_extend_penalty),
            p.lane_max,
            1,
            gap_stages(p.lanes),
            best,
        );
    }
}

pub(super) proof fn lemma_narrowed_le(value: int, lane_max: u16)
    requires
        value >= 0,
        lane_max == 0xff || lane_max == 0xffff,
    ensures
        narrowed(value, lane_max) <= value,
        value <= lane_max ==> narrowed(value, lane_max) == value,
{
    let m: int = if lane_max == 0xff {
        0x100
    } else {
        0x1_0000
    };
    lemma_narrowed(value, 0, lane_max);
    vstd::arithmetic::div_mod::lemma_mod_decreases(value as nat, m as nat);
}

/// Where the needle stands in the haystack as it is, every cell of its diagonal holds at least the
/// worth of the matches up to it.
proof fn lemma_literal_cell(p: Problem, at: int, i: int)
    requires
        p.lanes > 0,
        p.lane_max == 0xff || p.lane_max == 0xffff,
        best_score(p.needle.len() as int, p.scoring) <= p.lane_max,
        0 <= at,
        0 <= i < p.needle.len(),
        forall|k: int| 0 <= k <= i ==> #[trigger] p.matches_at(k, at + k),
    ensures
        p.cell(i, at + i) >= (i + 1) * p.scoring.match_score,
    decreases i,
{
    let scoring = p.scoring;
    let byte = best_byte(scoring);
    let lanes = p.lanes as int;
    let n = p.needle.len() as int;
    let j = at + i;
    let c = j / lanes;
    let l = j % lanes;
    vstd::arithmetic::div_mod::lemma_fundamental_div_mod(j, lanes);
    vstd::arithmetic::div_mod::lemma_mod_bound(j, lanes);
    vstd::arithmetic::div_mod::lemma_div_pos_is_pos(j, lanes);
    assert(lanes * c == c * lanes) by (nonlinear_arith);
    let above = p.row(i - 1, c);
    let diagonal = shifted(above, p.row(i - 1, c - 1), 1);
    let entered = Seq::new(
        p.lanes,
        |k: int| p.entered(i, c * p.lanes + k, diagonal[k], above[k]),
    );
    lemma_row_bound(p, i - 1, c);
    lemma_row_bound(p, i - 1, c - 1);
    lemma_row_bound(p, i, c - 1);
    lemma_entered_bound(p, i, c);
    lemma_stages_fit(p.lanes);
    assert(1 * pow2(gap_stages(p.lanes)) == pow2(gap_stages(p.lanes)));
    lemma_propagation_bounds(
        entered,
        p.row(i, c - 1),
        p.mask(i, c),
        p.mask(i, c - 1),
        p.flat(scoring.gap_open_penalty),
        p.flat(scoring.gap_extend_penalty),
        p.lane_max,
        1,
        gap_stages(p.lanes),
        best_score(i + 1, scoring),
    );
    assert(p.cell(i, j) >= entered[l]);
    assert(p.matches_at(i, at + i));
    assert((i + 1) * byte == i * byte + byte && 0 <= i * byte && (i + 1) * byte <= n * byte)
        by (nonlinear_arith)
        requires
            0 <= i < n,
            byte >= 0,
    ;
    let m = scoring.match_score as int;
    assert((i + 1) * m == i * m + m) by (nonlinear_arith);
    if i > 0 {
        assert forall|k: int| 0 <= k <= i - 1 implies #[trigger] p.matches_at(k, at + k) by {}
        lemma_literal_cell(p, at, i - 1);
        if l > 0 {
            vstd::arithmetic::div_mod::lemma_fundamental_div_mod_converse(j - 1, lanes, c, l - 1);
            assert(above[l - 1] == diagonal[l]);
        } else {
            assert(lanes * (c - 1) == lanes * c - lanes) by (nonlinear_arith);
            vstd::arithmetic::div_mod::lemma_fundamental_div_mod_converse(
                j - 1,
                lanes,
                c - 1,
                lanes - 1,
            );
        }
        assert(diagonal[l] == p.cell(i - 1, j - 1));
    } else {
        assert(0 * m == 0);
    }
    assert(diagonal[l] + p.match_worth(i, j) <= p.lane_max);
    lemma_narrowed_le(diagonal[l] + p.match_worth(i, j), p.lane_max);
}

/// A needle that stands in the haystack as it is scores at least a match for each of its bytes,
/// where scores fit in the lanes.
pub proof fn lemma_literal_match_scores(p: Problem, at: int)
    requires
        p.lanes > 0,
        p.lane_max == 0xff || p.lane_max == 0xffff,
        best_score(p.needle.len() as int, p.scoring) <= p.lane_max,
        0 <= at,
        at + p.needle.len() <= p.haystack.len(),
        forall|k: int|
            0 <= k < p.needle.len() ==> same(#[trigger] p.needle[k], p.haystack[at + k]),
    ensures
        p.score() >= p.needle.len() * p.scoring.match_score,
{
    let n = p.needle.len() as int;
    if n > 0 {
        let lanes = p.lanes as int;
        let j = at + n - 1;
        assert forall|k: int| 0 <= k <= n - 1 implies #[trigger] p.matches_at(k, at + k) by {
            assert(same(p.needle[k], p.haystack[at + k]));
        }
        lemma_literal_cell(p, at, n - 1);
        vstd::arithmetic::div_mod::lemma_fundamental_div_mod(j, lanes);
        vstd::arithmetic::div_mod::lemma_mod_bound(j, lanes);
        vstd::arithmetic::div_mod::lemma_div_pos_is_pos(j, lanes);
        lemma_chunks_cover(p.haystack.len() as int, lanes);
        let c = j / lanes;
        assert(c < p.chunks()) by (nonlinear_arith)
            requires
                lanes * c <= j,
                j < p.chunks() * lanes,
                lanes > 0,
        ;
        lemma_row_bound(p, n - 1, c);
        lemma_best_is_best(p, c, p.chunks());
        lemma_highest_bounds(p.row(n - 1, c));
    } else {
        assert(0 * p.scoring.match_score == 0);
    }
}

pub(super) proof fn lemma_best_is_best(p: Problem, c: int, chunks: int)
    requires
        0 <= c < chunks,
    ensures
        p.best(chunks) >= highest(p.row(p.needle.len() - 1, c)),
    decreases chunks,
{
    if c < chunks - 1 {
        lemma_best_is_best(p, c, chunks - 1);
    }
}

/// The stages do the same in narrow lanes as in wide ones where the price of the longest gap fits
/// in the narrow ones.
proof fn lemma_propagated_same(
    row: Seq<u16>,
    adjacent: Seq<u16>,
    narrow: (Seq<u16>, Seq<u16>),
    wide: (Seq<u16>, Seq<u16>),
    open: nat,
    extend: nat,
    shift: int,
    stages: nat,
)
    requires
        adjacent.len() == row.len(),
        is_widened(narrow.0, wide.0, row.len()),
        is_widened(narrow.1, wide.1, row.len()),
        0 < shift,
        shift * pow2(stages) <= row.len(),
        extend * pow2(stages) + open <= 0xff,
    ensures
        propagated(
            row,
            adjacent,
            narrow.0,
            narrow.1,
            flat(row.len(), open as int),
            flat(row.len(), extend as int),
            0xff,
            shift,
            stages,
        ) == propagated(
            row,
            adjacent,
            wide.0,
            wide.1,
            flat(row.len(), open as int),
            flat(row.len(), extend as int),
            0xffff,
            shift,
            stages,
        ),
    decreases stages,
{
    if stages > 0 {
        lemma_pow2_unfold(stages);
        lemma_pow2_pos((stages - 1) as nat);
        let half = pow2((stages - 1) as nat);
        assert(2 * shift * half == shift * (2 * half) && shift <= 2 * shift * half)
            by (nonlinear_arith)
            requires
                half >= 1,
                shift > 0,
        ;
        assert(2 * extend * half == extend * (2 * half) && extend + extend <= 2 * extend * half)
            by (nonlinear_arith)
            requires
                half >= 1,
                extend >= 0,
        ;
        let opens = flat(row.len(), open as int);
        let extends = flat(row.len(), extend as int);
        let twice = flat(row.len(), 2 * extend as int);
        let next = gap_step(row, adjacent, narrow.0, narrow.1, opens, extends, 0xff, shift);
        let other = gap_step(row, adjacent, wide.0, wide.1, opens, extends, 0xffff, shift);
        assert forall|l: int| 0 <= l < next.len() implies next[l] == other[l] by {
            let a = shifted(narrow.0, narrow.1, shift)[l];
            let b = shifted(wide.0, wide.1, shift)[l];
            if l < shift {
                assert(narrow.1[row.len() - shift + l] == a);
                assert(wide.1[row.len() - shift + l] == b);
            } else {
                assert(narrow.0[l - shift] == a);
                assert(wide.0[l - shift] == b);
            }
            let price = open as u16;
            assert(price & a == price & b && price & a <= price) by (bit_vector)
                requires
                    price <= 0xffu16,
                    (a == 0u16 && b == 0u16) || (a == 0xffu16 && b == 0xffffu16),
            ;
            lemma_narrowed_le(extend + (price & a), 0xff);
            lemma_narrowed_le(extend + (price & a), 0xffff);
        }
        assert(next =~= other);
        lemma_narrowed_le(2 * extend as int, 0xff);
        lemma_narrowed_le(2 * extend as int, 0xffff);
        assert(doubled(extends, 0xff) =~= twice);
        assert(doubled(extends, 0xffff) =~= twice);
        lemma_propagated_same(
            next,
            adjacent,
            narrow,
            wide,
            open,
            2 * extend,
            2 * shift,
            (stages - 1) as nat,
        );
    }
}

/// Two masks that hold in the same lanes, all bits of a `u8` set in one, of a `u16` in the other.
spec fn is_widened(narrow: Seq<u16>, wide: Seq<u16>, lanes: nat) -> bool {
    &&& narrow.len() == lanes
    &&& wide.len() == lanes
    &&& forall|l: int|
        0 <= l < lanes ==> (#[trigger] narrow[l] == 0 && wide[l] == 0) || (narrow[l] == 0xff
            && wide[l] == 0xffff)
}

/// Every price and bonus of a scoring fits in a `u8`, and so does that of the longest gap that
/// the lanes of a chunk can be apart.
pub open spec fn prices_fit_in_u8(scoring: Scoring, lanes: nat) -> bool {
    &&& scoring.mismatch_penalty <= 0xff
    &&& lanes * scoring.gap_extend_penalty + scoring.gap_open_penalty <= 0xff
}

/// As long as the rows around them agree, cells are entered alike in narrow and in wide lanes.
proof fn lemma_narrow_ways_are_wide_ways(p: Problem, q: Problem, i: int, c: int)
    requires
        p.lane_max == 0xff,
        q == (Problem { lane_max: 0xffff, ..p }),
        p.lanes > 0,
        0 <= i < p.needle.len(),
        0 <= c,
        best_score(p.needle.len() as int, p.scoring) <= 0xff,
        prices_fit_in_u8(p.scoring, p.lanes),
        p.row(i - 1, c) == q.row(i - 1, c),
        p.row(i - 1, c - 1) == q.row(i - 1, c - 1),
        p.row(i, c - 1) == q.row(i, c - 1),
    ensures
        p.staged(i, c, 0) == q.staged(i, c, 0),
        p.along_row(i, c) == q.along_row(i, c),
        forall|after: bool| #[trigger] p.gap_price(after) == q.gap_price(after),
{
    let scoring = p.scoring;
    let byte = best_byte(scoring);
    let lanes = p.lanes as int;
    let n = p.needle.len() as int;
    lemma_row_bound(p, i - 1, c);
    lemma_row_bound(p, i - 1, c - 1);
    assert((i + 1) * byte == i * byte + byte && 0 <= i * byte && (i + 1) * byte <= n * byte)
        by (nonlinear_arith)
        requires
            0 <= i < n,
            byte >= 0,
    ;
    let extend = scoring.gap_extend_penalty as int;
    assert(extend <= lanes * extend) by (nonlinear_arith)
        requires
            lanes >= 1,
            extend >= 0,
    ;
    let above = p.row(i - 1, c);
    let diagonal = shifted(above, p.row(i - 1, c - 1), 1);
    let mine = Seq::new(
        p.lanes,
        |l: int| p.entered(i, c * p.lanes + l, diagonal[l], above[l]),
    );
    let theirs = Seq::new(
        q.lanes,
        |l: int| q.entered(i, c * q.lanes + l, diagonal[l], above[l]),
    );
    assert(0 <= c * lanes) by (nonlinear_arith)
        requires
            c >= 0,
            lanes > 0,
    ;
    if c > 0 {
        assert(0 < c * lanes) by (nonlinear_arith)
            requires
                c > 0,
                lanes > 0,
        ;
    }
    lemma_narrowed_le(scoring.mismatch_penalty as int, 0xff);
    lemma_narrowed_le(scoring.mismatch_penalty as int, 0xffff);
    lemma_narrowed_le(scoring.gap_open_penalty as int, 0xff);
    lemma_narrowed_le(scoring.gap_open_penalty as int, 0xffff);
    lemma_narrowed_le(extend, 0xff);
    lemma_narrowed_le(extend, 0xffff);
    lemma_narrowed_le(extend + scoring.gap_open_penalty, 0xff);
    lemma_narrowed_le(extend + scoring.gap_open_penalty, 0xffff);
    assert forall|after: bool| #[trigger] p.gap_price(after) == q.gap_price(after) by {}
    assert forall|l: int| 0 <= l < lanes implies #[trigger] mine[l] == theirs[l] && p.along(
        i,
        c * p.lanes + l,
        diagonal[l],
    ) == q.along(i, c * p.lanes + l, diagonal[l]) by {
        let j = c * lanes + l;
        if l == 0 {
            assert(p.row(i - 1, c - 1)[lanes - 1] == diagonal[0]);
        } else {
            assert(above[l - 1] == diagonal[l]);
        }
        if p.matches_at(i, j) {
            assert(diagonal[l] + p.match_worth(i, j) <= 0xff);
            assert(p.match_worth(i, j) == q.match_worth(i, j));
            lemma_narrowed_le(diagonal[l] + p.match_worth(i, j), 0xff);
            lemma_narrowed_le(diagonal[l] + p.match_worth(i, j), 0xffff);
        }
    }
    assert(mine =~= theirs);
    assert forall|l: int| 0 <= l < lanes implies #[trigger] p.along_row(i, c)[l] == q.along_row(
        i,
        c,
    )[l] by {
        assert(mine[l] == theirs[l]);
    }
    assert(p.along_row(i, c) =~= q.along_row(i, c));
}

/// As long as the rows around them agree, the rows of narrow and of wide lanes agree at every stage.
proof fn lemma_narrow_stage_is_wide_stage(p: Problem, q: Problem, i: int, c: int, stages: nat)
    requires
        p.lane_max == 0xff,
        q == (Problem { lane_max: 0xffff, ..p }),
        p.lanes > 0,
        0 <= i < p.needle.len(),
        0 <= c,
        best_score(p.needle.len() as int, p.scoring) <= 0xff,
        prices_fit_in_u8(p.scoring, p.lanes),
        p.row(i - 1, c) == q.row(i - 1, c),
        p.row(i - 1, c - 1) == q.row(i - 1, c - 1),
        p.row(i, c - 1) == q.row(i, c - 1),
        stages <= gap_stages(p.lanes),
    ensures
        p.staged(i, c, stages) == q.staged(i, c, stages),
{
    let scoring = p.scoring;
    let lanes = p.lanes as int;
    lemma_narrow_ways_are_wide_ways(p, q, i, c);
    lemma_row_len(p, i, c - 1, 0);
    lemma_stages_fit(p.lanes);
    if stages < gap_stages(p.lanes) {
        lemma_pow2_strictly_increases(stages, gap_stages(p.lanes));
    }
    assert(1 * pow2(stages) == pow2(stages));
    lemma_pow2_pos(stages);
    let extend = scoring.gap_extend_penalty as int;
    assert(extend <= pow2(stages) * extend <= lanes * extend && extend <= lanes * extend && extend
        * pow2(stages) == pow2(stages) * extend) by (nonlinear_arith)
        requires
            1 <= pow2(stages) <= lanes,
            lanes >= 1,
            extend >= 0,
    ;
    let mine = p.staged(i, c, 0);
    lemma_row_len(p, i, c, 0);
    lemma_narrowed_le(scoring.gap_open_penalty as int, 0xff);
    lemma_narrowed_le(scoring.gap_open_penalty as int, 0xffff);
    lemma_narrowed_le(extend, 0xff);
    lemma_narrowed_le(extend, 0xffff);
    let opens = flat(p.lanes, scoring.gap_open_penalty as int);
    let extends = flat(p.lanes, extend);
    assert(p.flat(scoring.gap_open_penalty) =~= opens);
    assert(q.flat(scoring.gap_open_penalty) =~= opens);
    assert(p.flat(scoring.gap_extend_penalty) =~= extends);
    assert(q.flat(scoring.gap_extend_penalty) =~= extends);
    lemma_propagated_same(
        mine,
        p.row(i, c - 1),
        (p.mask(i, c), p.mask(i, c - 1)),
        (q.mask(i, c), q.mask(i, c - 1)),
        scoring.gap_open_penalty as nat,
        extend as nat,
        1,
        stages,
    );
}

/// Scores do not depend on the width of a lane: where no needle of this length scores more than a
/// `u8` holds, and the prices fit too, the score matrix of the narrow lanes is that of the wide.
pub proof fn lemma_narrow_rows_are_wide_rows(p: Problem, q: Problem, i: int, c: int)
    requires
        p.lane_max == 0xff,
        q == (Problem { lane_max: 0xffff, ..p }),
        p.lanes > 0,
        i < p.needle.len(),
        best_score(p.needle.len() as int, p.scoring) <= 0xff,
        prices_fit_in_u8(p.scoring, p.lanes),
    ensures
        p.row(i, c) == q.row(i, c),
    decreases i + 1, c + 1,
{
    if i >= 0 && c >= 0 {
        lemma_narrow_rows_are_wide_rows(p, q, i - 1, c);
        lemma_narrow_rows_are_wide_rows(p, q, i - 1, c - 1);
        lemma_narrow_rows_are_wide_rows(p, q, i, c - 1);
        lemma_narrow_stage_is_wide_stage(p, q, i, c, gap_stages(p.lanes));
        lemma_row_len(p, i, c, 0);
        lemma_row_len(q, i, c, 0);
    }
}

proof fn lemma_same_best(p: Problem, q: Problem, chunks: int)
    requires
        p.needle == q.needle,
        forall|c: int| #[trigger] p.row(p.needle.len() - 1, c) == q.row(p.needle.len() - 1, c),
    ensures
        p.best(chunks) == q.best(chunks),
    decreases chunks,
{
    if chunks > 0 {
        assert(p.row(p.needle.len() - 1, chunks - 1) == q.row(p.needle.len() - 1, chunks - 1));
        lemma_same_best(p, q, chunks - 1);
    }
}

/// The score of a needle does not depend on the width of a lane, where it fits.
pub proof fn lemma_narrow_score_is_wide_score(p: Problem, q: Problem)
    requires
        p.lane_max == 0xff,
        q == (Problem { lane_max: 0xffff, ..p }),
        p.lanes > 0,
        best_score(p.needle.len() as int, p.scoring) <= 0xff,
        prices_fit_in_u8(p.scoring, p.lanes),
    ensures
        p.score() == q.score(),
{
    if p.needle.len() > 0 {
        assert forall|c: int| #[trigger] p.row(p.needle.len() - 1, c) == q.row(
            p.needle.len() - 1,
            c,
        ) by {
            lemma_narrow_rows_are_wide_rows(p, q, p.needle.len() - 1, c);
        }
        lemma_same_best(p, q, p.chunks());
    }
}

/// No needle scores more than the most that its bytes are worth.
pub proof fn lemma_score_bound(p: Problem)
    requires
        p.lanes > 0,
        p.lane_max == 0xff || p.lane_max == 0xffff,
    ensures
        p.score() <= best_score(p.needle.len() as int, p.scoring),
{
    if p.needle.len() > 0 {
        lemma_best_bound(p, p.chunks());
    } else {
        assert(0 * best_byte(p.scoring) == 0);
    }
}

proof fn lemma_best_bound(p: Problem, chunks: int)
    requires
        p.needle.len() > 0,
        p.lanes > 0,
        p.lane_max == 0xff || p.lane_max == 0xffff,
    ensures
        p.best(chunks) <= best_score(p.needle.len() as int, p.scoring),
    decreases chunks,
{
    let n = p.needle.len() as int;
    assert(0 <= n * best_byte(p.scoring)) by (nonlinear_arith)
        requires
            n >= 0,
            best_byte(p.scoring) >= 0,
    ;
    if chunks > 0 {
        let row = p.row(n - 1, chunks - 1);
        lemma_row_bound(p, n - 1, chunks - 1);
        lemma_highest_bounds(row);
        assert(exists|l: int| 0 <= l < row.len() && #[trigger] row[l] == highest(row));
        lemma_best_bound(p, chunks - 1);
    }
}

proof fn lemma_same_first_column(p: Problem, q: Problem, i: int, score: u16, from: int)
    requires
        p.columns() == q.columns(),
        forall|j: int| #[trigger] p.cell(i, j) == q.cell(i, j),
    ensures
        p.first_column(i, score, from) == q.first_column(i, score, from),
    decreases p.columns() - from,
{
    if from < p.columns() {
        assert(p.cell(i, from) == q.cell(i, from));
        lemma_same_first_column(p, q, i, score, from + 1);
    }
}

proof fn lemma_same_traced(p: Problem, q: Problem, i: int, j: int, stages: nat)
    requires
        p.lane_max == 0xff,
        q == (Problem { lane_max: 0xffff, ..p }),
        p.lanes > 0,
        i < p.needle.len(),
        best_score(p.needle.len() as int, p.scoring) <= 0xff,
        prices_fit_in_u8(p.scoring, p.lanes),
        stages <= gap_stages(p.lanes),
    ensures
        p.traced_from(i, j, stages) == q.traced_from(i, j, stages),
    decreases i + 1, j + 1, stages,
{
    if i >= 0 && j >= 0 {
        let all = gap_stages(p.lanes);
        let lanes = p.lanes as int;
        let c = j / lanes;
        let l = j % lanes;
        lemma_fundamental_div_mod(j, lanes);
        lemma_mod_bound(j, lanes);
        lemma_div_pos_is_pos(j, lanes);
        assert(lanes * c == c * lanes) by (nonlinear_arith);
        lemma_narrow_rows_are_wide_rows(p, q, i - 1, c);
        lemma_narrow_rows_are_wide_rows(p, q, i - 1, c - 1);
        lemma_narrow_rows_are_wide_rows(p, q, i, c - 1);
        lemma_narrow_ways_are_wide_ways(p, q, i, c);
        lemma_narrow_stage_is_wide_stage(p, q, i, c, stages);
        lemma_neighbours(p, i, c, l);
        lemma_neighbours(q, i, c, l);
        assert(p.along_row(i, c)[l] == q.along_row(i, c)[l]);
        assert(p.comes_along(i, j) == q.comes_along(i, j));
        assert(p.taken(i, j) == q.taken(i, j));
        if stages > 0 {
            let hop = pow2((stages - 1) as nat) as int;
            lemma_pow2_pos((stages - 1) as nat);
            lemma_narrow_stage_is_wide_stage(p, q, i, c, (stages - 1) as nat);
            lemma_same_traced(p, q, i, j, (stages - 1) as nat);
            if hop <= j {
                lemma_same_traced(p, q, i, j - hop, (stages - 1) as nat);
                lemma_same_traced(p, q, i, j - hop, all);
            }
        }
        lemma_same_traced(p, q, i - 1, j - 1, all);
        lemma_same_traced(p, q, i - 1, j, all);
    }
}

/// What a needle matches, with which score and where, does not depend on the width of a lane,
/// where the score fits.
pub proof fn lemma_narrow_match_is_wide_match(p: Problem, q: Problem, max_typos: Option<u16>)
    requires
        p.lane_max == 0xff,
        q == (Problem { lane_max: 0xffff, ..p }),
        p.lanes > 0,
        best_score(p.needle.len() as int, p.scoring) <= 0xff,
        prices_fit_in_u8(p.scoring, p.lanes),
    ensures
        p.matched(max_typos) == q.matched(max_typos),
        p.alignment(p.needle.len() as int, p.score()) == q.alignment(
            q.needle.len() as int,
            q.score(),
        ),
{
    let n = p.needle.len() as int;
    let score = p.score();
    lemma_narrow_score_is_wide_score(p, q);
    assert forall|a: int, b: int| a < n implies #[trigger] p.cell(a, b) == q.cell(a, b) by {
        lemma_narrow_rows_are_wide_rows(p, q, a, b / p.lanes as int);
    }
    lemma_score_bound(p);
    lemma_narrowed_le(score as int, 0xff);
    lemma_narrowed_le(score as int, 0xffff);
    lemma_same_first_column(p, q, n - 1, score, 0);
    lemma_same_traced(p, q, n - 1, p.first_column(n - 1, score, 0), gap_stages(p.lanes));
}

/// The most that a needle can score grows with each byte by a match in its own case with the better
/// of the two bonuses that a place can give, from the bonus of the first column.
pub proof fn lemma_best_score_grows(needle_len: int, scoring: Scoring)
    requires
        needle_len >= 0,
    ensures
        best_score(0, scoring) == scoring.prefix_bonus,
        best_score(needle_len + 1, scoring) - best_score(needle_len, scoring)
            >= scoring.match_score + scoring.matching_case_bonus + scoring.capitalization_bonus,
        best_score(needle_len + 1, scoring) - best_score(needle_len, scoring)
            >= scoring.match_score + scoring.matching_case_bonus + scoring.delimiter_bonus,
        best_score(needle_len + 1, scoring) - best_score(needle_len, scoring) - scoring.match_score
            - scoring.matching_case_bonus == scoring.capitalization_bonus || best_score(
            needle_len + 1,
            scoring,
        ) - best_score(needle_len, scoring) - scoring.match_score - scoring.matching_case_bonus
            == scoring.delimiter_bonus,
{
    let byte = best_byte(scoring);
    assert((needle_len + 1) * byte == needle_len * byte + byte && 0 * byte == 0)
        by (nonlinear_arith);
}

} // verus!
