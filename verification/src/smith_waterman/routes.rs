//! Routes through the score matrix, step by step, and what they say of the scores: the score of
//! a needle is what the steps of one route add up to, the one that is reported, and no plain
//! route adds up to more.
use vstd::arithmetic::div_mod::{lemma_div_pos_is_pos, lemma_fundamental_div_mod, lemma_mod_bound};
use vstd::arithmetic::power2::{
    lemma_pow2_pos, lemma_pow2_strictly_increases, lemma_pow2_unfold, pow2,
};
use vstd::prelude::*;

use super::alignment::{
    lemma_first_column, lemma_neighbours, lemma_path_of_nothing, lemma_path_without_limit, lemma_row_len,
    lemma_split_column, lemma_traced_len,
};
use super::bounds::{
    best_byte, best_score, lemma_best_is_best, lemma_entered_bound, lemma_narrowed_le,
    lemma_row_bound, lemma_score_bound, lemma_stages_fit,
};
use super::{lemma_highest_bounds, lemma_masked};
use crate::backend::{narrowed, shifted};
use crate::chunks::lemma_chunks_cover;
use crate::gaps::{doubled_times, gap_stages, lemma_last_stage};
use crate::prefilter::deletions;
use crate::scoring::{highest, indices_of, path_of, Problem};

verus! {

/// A step of a route, into a row and a column.
pub enum Step {
    /// The byte of the column is taken for the byte of the row.
    Match,
    /// The byte of the column stands in the place of the byte of the row.
    Mismatch,
    /// The byte of the row is left out.
    Omit,
    /// Some bytes of the haystack are passed over.
    Skip(int),
}

/// Steps that lead to row `i` and column `j`. They may begin anywhere.
pub open spec fn is_route(p: Problem, steps: Seq<Step>, i: int, j: int) -> bool
    decreases steps.len(),
{
    steps.len() > 0 ==> {
        let front = steps.drop_last();
        &&& 0 <= i
        &&& 0 <= j
        &&& match steps.last() {
            Step::Match => p.matches_at(i, j) && is_route(p, front, i - 1, j - 1),
            Step::Mismatch => !p.matches_at(i, j) && is_route(p, front, i - 1, j - 1),
            Step::Omit => is_route(p, front, i - 1, j),
            Step::Skip(by) => 0 < by <= j && is_route(p, front, i, j - by),
        }
    }
}

/// What steps to row `i` and column `j` are worth: the matches, less the mismatches, less the
/// bytes that are left out or passed over, and less the gaps that begin at a match.
pub open spec fn route_worth(p: Problem, steps: Seq<Step>, i: int, j: int) -> int
    decreases steps.len(),
{
    if steps.len() == 0 {
        0
    } else {
        let front = steps.drop_last();
        match steps.last() {
            Step::Match => route_worth(p, front, i - 1, j - 1) + p.match_worth(i, j),
            Step::Mismatch => route_worth(p, front, i - 1, j - 1) - p.scoring.mismatch_penalty,
            Step::Omit => route_worth(p, front, i - 1, j) - p.scoring.gap_extend_penalty
                - opening(p, i - 1, j),
            Step::Skip(by) => route_worth(p, front, i, j - by) - by * p.scoring.gap_extend_penalty
                - opening(p, i, j - by),
        }
    }
}

/// What it costs to begin a gap in row `i` and column `j`.
pub open spec fn opening(p: Problem, i: int, j: int) -> int {
    if p.matches_at(i, j) {
        p.scoring.gap_open_penalty as int
    } else {
        0
    }
}

/// The columns of the matches of steps that lead to column `j`, the last first.
pub open spec fn route_columns(steps: Seq<Step>, j: int) -> Seq<int>
    decreases steps.len(),
{
    if steps.len() == 0 {
        Seq::empty()
    } else {
        let front = steps.drop_last();
        match steps.last() {
            Step::Match => seq![j] + route_columns(front, j - 1),
            Step::Mismatch => route_columns(front, j - 1),
            Step::Omit => route_columns(front, j),
            Step::Skip(by) => route_columns(front, j - by),
        }
    }
}

/// A route that passes over fewer bytes at a time than a chunk has, none of which is a match in its
/// row, and not twice in a row.
pub open spec fn is_plain(p: Problem, steps: Seq<Step>, i: int, j: int) -> bool
    decreases steps.len(),
{
    steps.len() > 0 ==> {
        let front = steps.drop_last();
        match steps.last() {
            Step::Match => is_plain(p, front, i - 1, j - 1),
            Step::Mismatch => is_plain(p, front, i - 1, j - 1),
            Step::Omit => is_plain(p, front, i - 1, j),
            Step::Skip(by) => {
                &&& by < p.lanes
                &&& forall|k: int| j - by < k < j ==> !(#[trigger] p.matches_at(i, k))
                &&& front.len() > 0 ==> !(front.last() is Skip)
                &&& is_plain(p, front, i, j - by)
            },
        }
    }
}

/// Scores and prices that the lanes can hold.
pub open spec fn scores_fit(p: Problem) -> bool {
    &&& p.lanes > 0
    &&& p.lane_max == 0xff || p.lane_max == 0xffff
    &&& best_score(p.needle.len() as int, p.scoring) <= p.lane_max
    &&& p.scoring.mismatch_penalty <= p.lane_max
    &&& p.lanes * p.scoring.gap_extend_penalty + p.scoring.gap_open_penalty <= p.lane_max
}

// ---------------------------------------------------------------------------------------------
// Where scores come from.
// ---------------------------------------------------------------------------------------------
/// What is left of a score after a price.
spec fn rest_of(score: int, price: int) -> int {
    if score >= price {
        score - price
    } else {
        0
    }
}

proof fn lemma_extension_doubles(p: Problem, stages: nat, l: int)
    requires
        scores_fit(p),
        stages < gap_stages(p.lanes),
        0 <= l < p.lanes,
    ensures
        doubled_times(p.flat(p.scoring.gap_extend_penalty), p.lane_max, stages).len() == p.lanes,
        doubled_times(p.flat(p.scoring.gap_extend_penalty), p.lane_max, stages)[l] == pow2(stages)
            * p.scoring.gap_extend_penalty,
        0 < pow2(stages),
        2 * pow2(stages) <= p.lanes,
        pow2(stages) * p.scoring.gap_extend_penalty + p.scoring.gap_open_penalty <= p.lane_max,
    decreases stages,
{
    let extend = p.scoring.gap_extend_penalty as int;
    let hop = pow2(stages) as int;
    let lanes = p.lanes as int;
    lemma_stages_fit(p.lanes);
    lemma_pow2_pos(stages);
    lemma_pow2_unfold((stages + 1) as nat);
    if stages + 1 < gap_stages(p.lanes) {
        lemma_pow2_strictly_increases((stages + 1) as nat, gap_stages(p.lanes));
    }
    assert(2 * hop * extend <= lanes * extend && hop * extend <= lanes * extend && 0 <= hop
        * extend && 2 * (hop * extend) == 2 * hop * extend) by (nonlinear_arith)
        requires
            0 < hop,
            2 * hop <= lanes,
            extend >= 0,
    ;
    if stages == 0 {
        assert(pow2(0) == 1) by {
            vstd::arithmetic::power2::lemma2_to64();
        }
        assert(1 * extend == extend);
        lemma_narrowed_le(extend, p.lane_max);
    } else {
        let half = pow2((stages - 1) as nat) as int;
        lemma_extension_doubles(p, (stages - 1) as nat, l);
        lemma_pow2_unfold(stages);
        assert(half * extend + half * extend == hop * extend) by (nonlinear_arith)
            requires
                hop == 2 * half,
        ;
        lemma_narrowed_le(hop * extend, p.lane_max);
    }
}

/// A stage leaves a cell its score, or carries to it what is better: the score of the cell one hop
/// to its left, less the price of the gap. That cell is as the stages before left it where it is
/// of the same chunk, and as all of them left it where it is of the chunk before.
proof fn lemma_stage(p: Problem, i: int, j: int, stages: nat)
    requires
        scores_fit(p),
        0 <= i,
        0 <= j,
        stages < gap_stages(p.lanes),
    ensures
        ({
            let hop = pow2(stages) as int;
            let before = p.staged_cell(i, j, stages);
            let from = if hop <= j % p.lanes as int {
                p.staged_cell(i, j - hop, stages)
            } else {
                p.cell(i, j - hop)
            };
            let carried = rest_of(
                from as int,
                hop * p.scoring.gap_extend_penalty + opening(p, i, j - hop),
            );
            &&& 0 < hop < p.lanes
            &&& hop <= j % p.lanes as int ==> hop <= j
            &&& p.staged_cell(i, j, stages + 1) == if before >= carried {
                before as int
            } else {
                carried
            }
        }),
{
    let lanes = p.lanes as int;
    let c = j / lanes;
    let l = j % lanes;
    let hop = pow2(stages) as int;
    lemma_fundamental_div_mod(j, lanes);
    lemma_mod_bound(j, lanes);
    lemma_div_pos_is_pos(j, lanes);
    assert(lanes * c == c * lanes) by (nonlinear_arith);
    lemma_extension_doubles(p, stages, l);
    let above = p.row(i - 1, c);
    let diagonal = shifted(above, p.row(i - 1, c - 1), 1);
    let entered = Seq::new(
        p.lanes,
        |l: int| p.entered(i, c * p.lanes + l, diagonal[l], above[l]),
    );
    let open = p.flat(p.scoring.gap_open_penalty);
    let extend = p.flat(p.scoring.gap_extend_penalty);
    lemma_last_stage(
        entered,
        p.row(i, c - 1),
        p.mask(i, c),
        p.mask(i, c - 1),
        open,
        extend,
        p.lane_max,
        1,
        stages,
    );
    assert(1 * pow2(stages) == hop);
    let now = p.staged(i, c, stages);
    lemma_row_len(p, i, c, stages);
    lemma_row_len(p, i, c - 1, stages);
    lemma_narrowed_le(p.scoring.gap_open_penalty as int, p.lane_max);
    lemma_masked(p.scoring.gap_open_penalty, p.lane_max);
    lemma_narrowed_le(
        hop * p.scoring.gap_extend_penalty + opening(p, i, j - hop),
        p.lane_max,
    );
    let from = shifted(now, p.row(i, c - 1), hop)[l];
    let mask = shifted(p.mask(i, c), p.mask(i, c - 1), hop)[l];
    if hop <= l {
        assert(0 <= c * lanes) by (nonlinear_arith)
            requires
                c >= 0,
                lanes > 0,
        ;
        lemma_split_column(c, l - hop, lanes);
        assert(from == p.staged_cell(i, j - hop, stages));
        assert(p.mask(i, c)[l - hop] == mask);
    } else if c > 0 {
        assert((c - 1) * lanes + (lanes - hop + l) == j - hop && 0 <= (c - 1) * lanes)
            by (nonlinear_arith)
            requires
                j == c * lanes + l,
                c > 0,
                lanes > 0,
        ;
        lemma_split_column(c - 1, lanes - hop + l, lanes);
        assert(from == p.cell(i, j - hop));
        assert(p.mask(i, c - 1)[lanes - hop + l] == mask);
    } else {
        assert(0 * lanes == 0) by (nonlinear_arith);
        assert(from == 0);
        assert(p.mask(i, c - 1)[lanes - hop + l] == mask);
    }
    assert(open[l] & mask == opening(p, i, j - hop));
}

/// A cell is entered by the better of the ways from up and to the left and from above.
proof fn lemma_entry(p: Problem, i: int, j: int)
    requires
        scores_fit(p),
        0 <= i < p.needle.len(),
        0 <= j,
    ensures
        ({
            let diagonal = p.cell(i - 1, j - 1) as int;
            let above = p.cell(i - 1, j) as int;
            let along = if p.matches_at(i, j) {
                diagonal + p.match_worth(i, j)
            } else {
                rest_of(diagonal, p.scoring.mismatch_penalty as int)
            };
            let down = rest_of(above, p.scoring.gap_extend_penalty + opening(p, i - 1, j));
            &&& p.staged_cell(i, j, 0) == if along >= down {
                along
            } else {
                down
            }
            &&& p.comes_along(i, j) <==> along >= down
        }),
{
    let lanes = p.lanes as int;
    let c = j / lanes;
    let l = j % lanes;
    let n = p.needle.len() as int;
    let byte = best_byte(p.scoring);
    lemma_fundamental_div_mod(j, lanes);
    lemma_mod_bound(j, lanes);
    lemma_div_pos_is_pos(j, lanes);
    assert(lanes * c == c * lanes) by (nonlinear_arith);
    lemma_neighbours(p, i, c, l);
    lemma_row_bound(p, i - 1, c);
    lemma_row_bound(p, i - 1, c - 1);
    lemma_entered_bound(p, i, c);
    assert((i + 1) * byte <= n * byte) by (nonlinear_arith)
        requires
            i + 1 <= n,
            byte >= 0,
    ;
    let above = p.row(i - 1, c);
    let diagonal = shifted(above, p.row(i - 1, c - 1), 1);
    assert(diagonal[l] == p.cell(i - 1, j - 1));
    let extend = p.scoring.gap_extend_penalty as int;
    assert(extend <= lanes * extend) by (nonlinear_arith)
        requires
            lanes >= 1,
            extend >= 0,
    ;
    lemma_narrowed_le(p.scoring.mismatch_penalty as int, p.lane_max);
    lemma_narrowed_le(extend, p.lane_max);
    lemma_narrowed_le(extend + p.scoring.gap_open_penalty, p.lane_max);
    if p.matches_at(i, j) {
        assert(p.match_worth(i, j) >= 0);
        lemma_narrowed_le(diagonal[l] + p.match_worth(i, j), p.lane_max);
    }
}

// ---------------------------------------------------------------------------------------------
// The reported route.
// ---------------------------------------------------------------------------------------------
proof fn lemma_all_is_deleted(picks: Seq<Option<int>>)
    requires
        forall|a: int| 0 <= a < picks.len() ==> (#[trigger] picks[a]) is None,
    ensures
        deletions(picks) == picks.len(),
    decreases picks.len(),
{
    if picks.len() > 0 {
        let front = picks.drop_last();
        assert forall|a: int| 0 <= a < front.len() implies (#[trigger] front[a]) is None by {
            assert(picks[a] is None);
        }
        assert(picks[picks.len() - 1] is None);
        lemma_all_is_deleted(front);
    }
}

/// Picks that are those of some steps: the same matches, and every other byte deleted.
spec fn are_picks_of(picks: Seq<Option<int>>, steps: Seq<Step>, j: int) -> bool {
    let columns = route_columns(steps, j);
    &&& path_of(picks, 0, None) == columns.map_values(|column: int| Some(column))
    &&& deletions(picks) == picks.len() - columns.len()
}

proof fn lemma_picks_of_nothing(picks: Seq<Option<int>>, j: int)
    requires
        forall|a: int| 0 <= a < picks.len() ==> (#[trigger] picks[a]) is None,
    ensures
        are_picks_of(picks, Seq::empty(), j),
{
    lemma_path_of_nothing(picks, 0, None);
    lemma_all_is_deleted(picks);
    assert(path_of(picks, 0, None) =~= route_columns(Seq::empty(), j).map_values(
        |column: int| Some(column),
    ));
}

proof fn lemma_picks_of_match(front: Seq<Option<int>>, steps: Seq<Step>, j: int)
    requires
        are_picks_of(front, steps, j - 1),
    ensures
        are_picks_of(front.push(Some(j)), steps.push(Step::Match), j),
{
    let picks = front.push(Some(j));
    assert(picks.drop_last() =~= front);
    assert(steps.push(Step::Match).drop_last() =~= steps);
    assert(path_of(picks, 0, None) =~= route_columns(steps.push(Step::Match), j).map_values(
        |column: int| Some(column),
    ));
}

proof fn lemma_picks_of_miss(front: Seq<Option<int>>, steps: Seq<Step>, step: Step, j: int)
    requires
        step is Mismatch || step is Omit,
        are_picks_of(
            front,
            steps,
            if step is Mismatch {
                j - 1
            } else {
                j
            },
        ),
    ensures
        are_picks_of(front.push(None), steps.push(step), j),
{
    let picks = front.push(None);
    assert(picks.drop_last() =~= front);
    assert(steps.push(step).drop_last() =~= steps);
    lemma_path_without_limit(front, 1, None);
}

/// The path back from a cell is a route to it whose worth is the score of the cell.
proof fn lemma_traced_route(p: Problem, i: int, j: int, stages: nat) -> (steps: Seq<Step>)
    requires
        scores_fit(p),
        -1 <= i < p.needle.len(),
        stages <= gap_stages(p.lanes),
    ensures
        is_route(p, steps, i, j),
        route_worth(p, steps, i, j) == if i < 0 || j < 0 {
            0
        } else {
            p.staged_cell(i, j, stages) as int
        },
        are_picks_of(p.traced_from(i, j, stages), steps, j),
    decreases i + 1, j + 1, stages,
{
    let picks = p.traced_from(i, j, stages);
    let all = gap_stages(p.lanes);
    let here = p.staged_cell(i, j, stages);
    lemma_traced_len(p, i, j, stages);
    if i < 0 || j < 0 || here == 0 {
        assert forall|a: int| 0 <= a < picks.len() implies (#[trigger] picks[a]) is None by {}
        lemma_picks_of_nothing(picks, j);
        Seq::empty()
    } else if stages > 0 {
        let hop = pow2((stages - 1) as nat) as int;
        lemma_stage(p, i, j, (stages - 1) as nat);
        if here == p.staged_cell(i, j, (stages - 1) as nat) {
            lemma_traced_route(p, i, j, (stages - 1) as nat)
        } else {
            assert(hop <= j);
            let steps = if hop <= j % p.lanes as int {
                lemma_traced_route(p, i, j - hop, (stages - 1) as nat)
            } else {
                lemma_cell_is_staged(p, i, j - hop);
                lemma_traced_route(p, i, j - hop, all)
            };
            let longer = steps.push(Step::Skip(hop));
            assert(longer.drop_last() =~= steps);
            longer
        }
    } else {
        lemma_entry(p, i, j);
        if p.comes_along(i, j) {
            let steps = lemma_traced_route(p, i - 1, j - 1, all);
            lemma_cell_is_staged(p, i - 1, j - 1);
            let step = if p.matches_at(i, j) {
                Step::Match
            } else {
                Step::Mismatch
            };
            let longer = steps.push(step);
            assert(longer.drop_last() =~= steps);
            if p.matches_at(i, j) {
                lemma_picks_of_match(p.traced_from(i - 1, j - 1, all), steps, j);
            } else {
                lemma_picks_of_miss(p.traced_from(i - 1, j - 1, all), steps, step, j);
            }
            longer
        } else {
            let steps = lemma_traced_route(p, i - 1, j, all);
            lemma_cell_is_staged(p, i - 1, j);
            let longer = steps.push(Step::Omit);
            assert(longer.drop_last() =~= steps);
            lemma_picks_of_miss(p.traced_from(i - 1, j, all), steps, Step::Omit, j);
            longer
        }
    }
}

proof fn lemma_cell_is_staged(p: Problem, i: int, j: int)
    requires
        p.lanes > 0,
    ensures
        p.cell(i, j) == if i < 0 || j < 0 {
            0
        } else {
            p.staged_cell(i, j, gap_stages(p.lanes))
        },
{
    if i >= 0 && j >= 0 {
        lemma_div_pos_is_pos(j, p.lanes as int);
        lemma_row_len(p, i, j / p.lanes as int, 0);
    }
}

// ---------------------------------------------------------------------------------------------
// Plain routes.
// ---------------------------------------------------------------------------------------------
/// What is carried over bytes none of which is a match pays for every byte, and once for the gap.
proof fn lemma_carried(p: Problem, i: int, j: int, by: int, stages: nat)
    requires
        scores_fit(p),
        0 <= i,
        0 <= by <= j,
        stages <= gap_stages(p.lanes),
        by < pow2(stages),
        forall|k: int| j - by < k < j ==> !(#[trigger] p.matches_at(i, k)),
    ensures
        p.staged_cell(i, j, stages) + by * p.scoring.gap_extend_penalty + (if by > 0 {
            opening(p, i, j - by)
        } else {
            0
        }) >= p.staged_cell(i, j - by, 0),
    decreases j, stages,
{
    let extend = p.scoring.gap_extend_penalty as int;
    if stages == 0 {
        assert(pow2(0) == 1) by {
            vstd::arithmetic::power2::lemma2_to64();
        }
        assert(0 * extend == 0);
    } else {
        let fewer = (stages - 1) as nat;
        let hop = pow2(fewer) as int;
        lemma_pow2_unfold(stages);
        lemma_stage(p, i, j, fewer);
        if by < hop {
            lemma_carried(p, i, j, by, fewer);
        } else {
            let rest = by - hop;
            assert(rest * extend + hop * extend == by * extend) by (nonlinear_arith)
                requires
                    rest == by - hop,
            ;
            if hop <= j % p.lanes as int {
                lemma_carried(p, i, j - hop, rest, fewer);
            } else {
                if fewer < gap_stages(p.lanes) {
                    lemma_pow2_strictly_increases(fewer, gap_stages(p.lanes));
                }
                lemma_carried(p, i, j - hop, rest, gap_stages(p.lanes));
                lemma_cell_is_staged(p, i, j - hop);
            }
            if rest > 0 {
                assert(!p.matches_at(i, j - hop));
            }
        }
    }
}

/// No plain route to a cell is worth more than its score.
pub proof fn lemma_cell_is_not_beaten(p: Problem, steps: Seq<Step>, i: int, j: int)
    requires
        scores_fit(p),
        p.lanes == pow2(gap_stages(p.lanes)),
        i < p.needle.len(),
        is_route(p, steps, i, j),
        is_plain(p, steps, i, j),
    ensures
        route_worth(p, steps, i, j) <= p.cell(i, j),
        steps.len() > 0 && !(steps.last() is Skip) ==> route_worth(p, steps, i, j)
            <= p.staged_cell(i, j, 0),
    decreases steps.len(),
{
    if steps.len() > 0 {
        let front = steps.drop_last();
        let all = gap_stages(p.lanes);
        lemma_cell_is_staged(p, i, j);
        lemma_pow2_pos(all);
        match steps.last() {
            Step::Match => {
                lemma_cell_is_not_beaten(p, front, i - 1, j - 1);
                lemma_entry(p, i, j);
                lemma_carried(p, i, j, 0, all);
            },
            Step::Mismatch => {
                lemma_cell_is_not_beaten(p, front, i - 1, j - 1);
                lemma_entry(p, i, j);
                lemma_carried(p, i, j, 0, all);
            },
            Step::Omit => {
                lemma_cell_is_not_beaten(p, front, i - 1, j);
                lemma_entry(p, i, j);
                lemma_carried(p, i, j, 0, all);
            },
            Step::Skip(by) => {
                lemma_cell_is_not_beaten(p, front, i, j - by);
                lemma_carried(p, i, j, by, all);
                let extend = p.scoring.gap_extend_penalty as int;
                assert(by * extend >= 0) by (nonlinear_arith)
                    requires
                        by > 0,
                        extend >= 0,
                ;
            },
        }
        assert(0 * p.scoring.gap_extend_penalty == 0);
    }
}

// ---------------------------------------------------------------------------------------------
// Laws.
// ---------------------------------------------------------------------------------------------
/// The score of a needle is no less than that of any cell of its last row.
proof fn lemma_score_is_highest(p: Problem, j: int)
    requires
        p.lanes > 0,
        p.needle.len() > 0,
        0 <= j < p.columns(),
    ensures
        p.cell(p.needle.len() - 1, j) <= p.score(),
{
    let lanes = p.lanes as int;
    let c = j / lanes;
    lemma_fundamental_div_mod(j, lanes);
    lemma_mod_bound(j, lanes);
    lemma_div_pos_is_pos(j, lanes);
    assert(c < p.chunks()) by (nonlinear_arith)
        requires
            lanes * c <= j,
            j < p.chunks() * lanes,
            lanes > 0,
    ;
    let row = p.row(p.needle.len() - 1, c);
    lemma_row_len(p, p.needle.len() - 1, c, 0);
    lemma_highest_bounds(row);
    assert(row[j % lanes] <= highest(row));
    lemma_best_is_best(p, c, p.chunks());
}

/// The best score of some chunks is that of a cell.
proof fn lemma_best_is_somewhere(p: Problem, chunks: int) -> (j: int)
    requires
        p.lanes > 0,
        p.needle.len() > 0,
        0 < chunks,
    ensures
        0 <= j < chunks * p.lanes,
        p.cell(p.needle.len() - 1, j) == p.best(chunks),
    decreases chunks,
{
    let lanes = p.lanes as int;
    let n = p.needle.len() as int;
    let row = p.row(n - 1, chunks - 1);
    lemma_row_len(p, n - 1, chunks - 1, 0);
    lemma_highest_bounds(row);
    assert((chunks - 1) * lanes + lanes == chunks * lanes && 0 <= (chunks - 1) * lanes)
        by (nonlinear_arith)
        requires
            chunks > 0,
            lanes > 0,
    ;
    if chunks > 1 && p.best(chunks) == p.best(chunks - 1) {
        lemma_best_is_somewhere(p, chunks - 1)
    } else {
        assert(row.contains(row[0]));
        assert(p.best(0) == 0);
        assert(p.best(chunks) == highest(row));
        let l = choose|l: int| 0 <= l < row.len() && row[l] == highest(row);
        lemma_split_column(chunks - 1, l, lanes);
        (chunks - 1) * lanes + l
    }
}

/// The first column with a score has it, if there is one.
proof fn lemma_first_column_holds(p: Problem, i: int, score: u16, from: int, at: int)
    requires
        0 <= from <= at < p.columns(),
        p.cell(i, at) == score,
    ensures
        from <= p.first_column(i, score, from) <= at,
        p.cell(i, p.first_column(i, score, from)) == score,
        forall|k: int|
            from <= k < p.first_column(i, score, from) ==> #[trigger] p.cell(i, k) != score,
    decreases at - from,
{
    if p.cell(i, from) != score {
        lemma_first_column_holds(p, i, score, from + 1, at);
    }
}

/// The reported alignment accounts for the score. There is a route to the last row, through the
/// very columns that are reported, whose worth is the score: its matches, less its mismatches and
/// gaps. It ends in the first column that has the score. The bytes that it does not match are those
/// that count as typos.
pub proof fn lemma_score_is_accounted_for(p: Problem, start: int)
    requires
        scores_fit(p),
        p.needle.len() > 0,
    ensures
        exists|steps: Seq<Step>, j: int|
            #![trigger route_columns(steps, j)]
            {
                let n = p.needle.len() as int;
                let columns = route_columns(steps, j);
                let picks = p.alignment(n, p.score());
                &&& j < p.columns()
                &&& is_route(p, steps, n - 1, j)
                &&& route_worth(p, steps, n - 1, j) == p.score()
                &&& forall|k: int| 0 <= k < j ==> #[trigger] p.cell(n - 1, k) != p.score()
                &&& indices_of(picks, start) == columns.map_values(
                    |column: int| (start + column) as usize,
                )
                &&& deletions(picks) == n - columns.len()
                &&& forall|typos: u16| #[trigger]
                    p.matched(Some(typos)) is Some <==> n - columns.len() <= typos
            },
{
    let n = p.needle.len() as int;
    let score = p.score();
    lemma_score_bound(p);
    lemma_narrowed_le(score as int, p.lane_max);
    lemma_chunks_cover(p.haystack.len() as int, p.lanes as int);
    if p.chunks() > 0 {
        let at = lemma_best_is_somewhere(p, p.chunks());
        lemma_first_column_holds(p, n - 1, score, 0, at);
    } else {
        assert(p.columns() <= 0) by (nonlinear_arith)
            requires
                p.columns() == p.chunks() * p.lanes,
                p.chunks() <= 0,
                p.lanes > 0,
        ;
        assert(p.columns() == 0) by (nonlinear_arith)
            requires
                p.columns() == p.chunks() * p.lanes,
                p.chunks() == 0,
        ;
    }
    let j = p.first_column(n - 1, score, 0);
    let picks = p.alignment(n, score);
    let steps = lemma_traced_route(p, n - 1, j, gap_stages(p.lanes));
    lemma_cell_is_staged(p, n - 1, j);
    lemma_traced_len(p, n - 1, j, gap_stages(p.lanes));
    let columns = route_columns(steps, j);
    assert(indices_of(picks, start) =~= columns.map_values(
        |column: int| (start + column) as usize,
    ));
    assert(is_route(p, steps, n - 1, j));
}

/// The path from any cell accounts for it: its matches are those of a route to the cell whose worth
/// is its score.
pub proof fn lemma_cell_is_accounted_for(p: Problem, i: int, j: int)
    requires
        scores_fit(p),
        0 <= i < p.needle.len(),
        0 <= j,
    ensures
        exists|steps: Seq<Step>|
            {
                &&& #[trigger] is_route(p, steps, i, j)
                &&& route_worth(p, steps, i, j) == p.cell(i, j)
                &&& path_of(p.traced(i, j), 0, None) == route_columns(steps, j).map_values(
                    |column: int| Some(column),
                )
                &&& deletions(p.traced(i, j)) == i + 1 - route_columns(steps, j).len()
            },
{
    let steps = lemma_traced_route(p, i, j, gap_stages(p.lanes));
    lemma_cell_is_staged(p, i, j);
    lemma_traced_len(p, i, j, gap_stages(p.lanes));
    assert(is_route(p, steps, i, j));
}

/// No plain route to the last row is worth more than the score of the needle.
pub proof fn lemma_score_is_not_beaten(p: Problem, steps: Seq<Step>, j: int)
    requires
        scores_fit(p),
        p.lanes == pow2(gap_stages(p.lanes)),
        p.needle.len() > 0,
        j < p.columns(),
        is_route(p, steps, p.needle.len() - 1, j),
        is_plain(p, steps, p.needle.len() - 1, j),
    ensures
        route_worth(p, steps, p.needle.len() - 1, j) <= p.score(),
{
    if steps.len() > 0 {
        lemma_cell_is_not_beaten(p, steps, p.needle.len() - 1, j);
        lemma_score_is_highest(p, j);
    }
}

/// A needle is matched without typos where the score cannot be reached otherwise: where every route
/// that is worth the score matches every byte of the needle.
pub proof fn lemma_whole_needle_is_matched(p: Problem)
    requires
        scores_fit(p),
        p.needle.len() > 0,
        forall|steps: Seq<Step>, j: int|
            is_route(p, steps, p.needle.len() - 1, j) && route_worth(
                p,
                steps,
                p.needle.len() - 1,
                j,
            ) == p.score() ==> (#[trigger] route_columns(steps, j)).len() == p.needle.len(),
    ensures
        p.matched(Some(0)) == Some(p.score()),
        deletions(p.alignment(p.needle.len() as int, p.score())) == 0,
{
    lemma_score_is_accounted_for(p, 0);
    assert(p.matched(Some(0)) is Some);
}

/// Without a limit a needle is always matched; with one, where the limit is no less than what the
/// needle is matched with. What it is matched with is its score in any case.
pub proof fn lemma_more_typos_match_more(p: Problem, fewer: u16, more: u16)
    requires
        fewer <= more,
    ensures
        p.matched(None) == Some(p.score()),
        p.matched(Some(fewer)) is Some ==> p.matched(Some(more)) == Some(p.score()),
        p.matched(Some(fewer)) is Some ==> p.matched(Some(fewer)) == Some(p.score()),
        p.needle.len() <= more ==> p.matched(Some(more)) == Some(p.score()),
{
    let n = p.needle.len() as int;
    let picks = p.alignment(n, p.score());
    lemma_traced_len(
        p,
        n - 1,
        p.first_column(n - 1, narrowed(p.score() as int, p.lane_max), 0),
        gap_stages(p.lanes),
    );
    lemma_deletions_are_few(picks);
}

proof fn lemma_deletions_are_few(picks: Seq<Option<int>>)
    ensures
        deletions(picks) <= picks.len(),
    decreases picks.len(),
{
    if picks.len() > 0 {
        lemma_deletions_are_few(picks.drop_last());
    }
}

/// Nothing is aligned where no column of the last row has the score that is asked for.
pub proof fn lemma_absent_score_aligns_nothing(p: Problem, rows: int, score: u16)
    requires
        0 < rows,
        0 <= p.columns(),
        forall|j: int|
            0 <= j < p.columns() ==> #[trigger] p.cell(rows - 1, j) != narrowed(
                score as int,
                p.lane_max,
            ),
    ensures
        deletions(p.alignment(rows, score)) == rows,
        path_of(p.alignment(rows, score), 0, None).len() == 0,
{
    let wanted = narrowed(score as int, p.lane_max);
    lemma_first_column(p, rows - 1, wanted, 0, p.columns());
    let picks = p.alignment(rows, score);
    assert forall|a: int| 0 <= a < picks.len() implies (#[trigger] picks[a]) is None by {}
    lemma_all_is_deleted(picks);
    lemma_path_of_nothing(picks, 0, None);
}

/// A route is worth no more than the best that as many bytes can score as it matches.
pub proof fn lemma_route_is_bounded(p: Problem, steps: Seq<Step>, i: int, j: int)
    requires
        is_route(p, steps, i, j),
    ensures
        route_worth(p, steps, i, j) <= best_score(route_columns(steps, j).len() as int, p.scoring),
    decreases steps.len(),
{
    let byte = best_byte(p.scoring);
    let extend = p.scoring.gap_extend_penalty as int;
    let count = route_columns(steps, j).len() as int;
    assert(count * byte >= 0) by (nonlinear_arith)
        requires
            count >= 0,
            byte >= 0,
    ;
    if steps.len() > 0 {
        let front = steps.drop_last();
        match steps.last() {
            Step::Match => {
                lemma_route_is_bounded(p, front, i - 1, j - 1);
                assert((count - 1) * byte + byte == count * byte) by (nonlinear_arith);
                if j == 0 {
                    assert(is_route(p, front, i - 1, j - 1));
                    assert(front.len() == 0) by {
                        reveal_with_fuel(is_route, 2);
                    }
                    assert(route_columns(front, j - 1).len() == 0);
                    assert(count == 1);
                    assert(1 * byte == byte);
                    assert(route_worth(p, front, i - 1, j - 1) == 0);
                    assert(p.match_worth(i, j) <= byte + p.scoring.prefix_bonus);
                } else {
                    assert(p.match_worth(i, j) <= byte);
                }
            },
            Step::Mismatch => {
                lemma_route_is_bounded(p, front, i - 1, j - 1);
            },
            Step::Omit => {
                lemma_route_is_bounded(p, front, i - 1, j);
            },
            Step::Skip(by) => {
                lemma_route_is_bounded(p, front, i, j - by);
                assert(by * extend >= 0) by (nonlinear_arith)
                    requires
                        by > 0,
                        extend >= 0,
                ;
            },
        }
    }
}

/// A high score leaves few bytes unmatched: a needle that scores more than any could with `typos`
/// and one more of its bytes missing is matched within `typos`.
pub proof fn lemma_high_score_has_few_typos(p: Problem, typos: u16)
    requires
        scores_fit(p),
        p.needle.len() > 0,
        p.score() > best_score(p.needle.len() - typos - 1, p.scoring),
    ensures
        p.matched(Some(typos)) == Some(p.score()),
        deletions(p.alignment(p.needle.len() as int, p.score())) <= typos,
{
    let n = p.needle.len() as int;
    let byte = best_byte(p.scoring);
    lemma_score_is_accounted_for(p, 0);
    let (steps, j) = choose|steps: Seq<Step>, j: int|
        #![trigger route_columns(steps, j)]
        {
            &&& is_route(p, steps, n - 1, j)
            &&& route_worth(p, steps, n - 1, j) == p.score()
            &&& deletions(p.alignment(n, p.score())) == n - route_columns(steps, j).len()
        };
    let count = route_columns(steps, j).len() as int;
    lemma_route_is_bounded(p, steps, n - 1, j);
    if count < n - typos {
        assert(count * byte <= (n - typos - 1) * byte) by (nonlinear_arith)
            requires
                count <= n - typos - 1,
                byte >= 0,
        ;
    }
}

} // verus!
