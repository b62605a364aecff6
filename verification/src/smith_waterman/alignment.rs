//! The path of an alignment through the score matrix, from its end to its start.
use vstd::arithmetic::power2::{lemma_pow2_pos, pow2};
use vstd::prelude::*;

use super::bounds::lemma_stages_fit;
use super::{add_where, lemma_narrowed_sum, match_lanes, matrix_holds, SmithWaterman};
use crate::backend::{narrowed, shifted, Backend, MaskVec, ScoreVec};
use crate::gaps::{gap_stages, lemma_propagated_len, stage_count, stage_rows};
use crate::prefilter::{accepts, deletions, is_alignment, same};
use crate::scoring::{char_start, indices_of, path_of, position_of, positioned, Problem, Scoring};

verus! {

/// A walk along the path of an alignment. It reports the positions of the matches, the last
/// first, and ends with an empty entry where more bytes of the needle go unmatched than may.
pub struct AlignmentPathIter<'a, B: Backend> {
    score_matrix: &'a [B::Score],
    match_masks: &'a [B::Mask],
    along_matrix: &'a [B::Score],
    scoring: Scoring,
    haystack_chunks: usize,
    haystack_start_pos: usize,
    unicode_haystack: Option<&'a [u8]>,
    max_typos: Option<u16>,
    /// The rows, columns and typos of the path so far: one more than the row and the column of
    /// the cell that comes next.
    row: usize,
    col: u128,
    typos: usize,
    done: bool,
    problem: Ghost<Problem>,
}

/// Where the score of a cell comes from. The path goes on from the column given, or leaves it by
/// a match, over a mismatch or upwards.
enum Origin {
    Nothing,
    Left(u128),
    Match(u128),
    Mismatch(u128),
    Above(u128),
}

/// A haystack whose characters are given.
pub open spec fn bytes_of(unicode_haystack: Option<&[u8]>) -> Option<Seq<u8>> {
    match unicode_haystack {
        Some(bytes) => Some(bytes@),
        None => None,
    }
}

pub(super) proof fn lemma_split_column(c: int, l: int, lanes: int)
    requires
        0 <= l < lanes,
    ensures
        (c * lanes + l) / lanes == c,
        (c * lanes + l) % lanes == l,
{
    assert(lanes * c == c * lanes) by (nonlinear_arith);
    vstd::arithmetic::div_mod::lemma_fundamental_div_mod_converse(c * lanes + l, lanes, c, l);
}

/// The first column that holds a score is the first that holds it.
pub(super) proof fn lemma_first_column(p: Problem, i: int, score: u16, from: int, at: int)
    requires
        0 <= from <= at <= p.columns(),
        forall|j: int| from <= j < at ==> #[trigger] p.cell(i, j) != score,
        at < p.columns() ==> p.cell(i, at) == score,
    ensures
        p.first_column(i, score, from) == if at < p.columns() {
            at
        } else {
            -1
        },
    decreases at - from,
{
    if from < at {
        assert(p.cell(i, from) != score);
        lemma_first_column(p, i, score, from + 1, at);
    }
}

pub(super) proof fn lemma_traced_len(p: Problem, i: int, j: int, stages: nat)
    requires
        i >= -1,
    ensures
        p.traced_from(i, j, stages).len() == i + 1,
    decreases i + 1, j + 1, stages,
{
    if i >= 0 && j >= 0 {
        let all = gap_stages(p.lanes);
        if stages > 0 {
            let hop = pow2((stages - 1) as nat) as int;
            lemma_pow2_pos((stages - 1) as nat);
            lemma_traced_len(p, i, j, (stages - 1) as nat);
            if hop <= j {
                lemma_traced_len(p, i, j - hop, (stages - 1) as nat);
                lemma_traced_len(p, i, j - hop, all);
            }
        }
        lemma_traced_len(p, i - 1, j - 1, all);
        lemma_traced_len(p, i - 1, j, all);
    }
}

/// A row of the score matrix has a score for every lane, at every stage.
pub(super) proof fn lemma_row_len(p: Problem, i: int, c: int, stages: nat)
    ensures
        p.row(i, c).len() == p.lanes,
        p.staged(i, c, stages).len() == p.lanes,
        p.along_row(i, c).len() == p.lanes,
        i >= 0 && c >= 0 ==> p.staged(i, c, gap_stages(p.lanes)) == p.row(i, c),
{
    let above = p.row(i - 1, c);
    let diagonal = shifted(above, p.row(i - 1, c - 1), 1);
    let entered = Seq::new(
        p.lanes,
        |l: int| p.entered(i, c * p.lanes + l, diagonal[l], above[l]),
    );
    lemma_propagated_len(
        entered,
        p.row(i, c - 1),
        p.mask(i, c),
        p.mask(i, c - 1),
        p.flat(p.scoring.gap_open_penalty),
        p.flat(p.scoring.gap_extend_penalty),
        p.lane_max,
        1,
        stages,
    );
    lemma_propagated_len(
        entered,
        p.row(i, c - 1),
        p.mask(i, c),
        p.mask(i, c - 1),
        p.flat(p.scoring.gap_open_penalty),
        p.flat(p.scoring.gap_extend_penalty),
        p.lane_max,
        1,
        gap_stages(p.lanes),
    );
}

/// The cells of a chunk with their neighbours above, and up and to the left.
pub(super) proof fn lemma_neighbours(p: Problem, i: int, c: int, l: int)
    requires
        0 <= i,
        0 <= c,
        0 <= l < p.lanes,
    ensures
        ({
            let j = c * p.lanes + l;
            let above = p.row(i - 1, c);
            let diagonal = shifted(above, p.row(i - 1, c - 1), 1);
            &&& 0 <= j
            &&& j / p.lanes as int == c
            &&& j % p.lanes as int == l
            &&& p.cell(i - 1, j) == above[l]
            &&& p.cell(i - 1, j - 1) == diagonal[l]
            &&& p.cell(i, j) == p.row(i, c)[l]
            &&& p.along_row(i, c)[l] == p.along(i, j, p.cell(i - 1, j - 1))
            &&& p.staged_cell(i, j, 0) == p.entered(i, j, p.cell(i - 1, j - 1), p.cell(i - 1, j))
        }),
{
    let lanes = p.lanes as int;
    let j = c * lanes + l;
    lemma_row_len(p, i - 1, c, 0);
    lemma_row_len(p, i - 1, c - 1, 0);
    lemma_split_column(c, l, lanes);
    assert(c * lanes >= 0) by (nonlinear_arith)
        requires
            c >= 0,
            lanes > 0,
    ;
    if l > 0 {
        lemma_split_column(c, l - 1, lanes);
    } else if c > 0 {
        assert((c - 1) * lanes + (lanes - 1) == c * lanes - 1) by (nonlinear_arith);
        lemma_split_column(c - 1, lanes - 1, lanes);
        assert((c - 1) * lanes >= 0) by (nonlinear_arith)
            requires
                c > 0,
                lanes > 0,
        ;
    } else {
        assert(0 * lanes == 0) by (nonlinear_arith);
    }
}

pub(super) proof fn lemma_path_of_nothing(picks: Seq<Option<int>>, typos: int, max_typos: Option<u16>)
    requires
        forall|a: int| 0 <= a < picks.len() ==> (#[trigger] picks[a]) is None,
    ensures
        path_of(picks, typos, max_typos) == if max_typos is Some && typos + picks.len()
            > max_typos->0 {
            seq![None::<int>]
        } else {
            Seq::empty()
        },
    decreases picks.len(),
{
    if picks.len() > 0 && !(max_typos is Some && typos > max_typos->0) {
        let front = picks.drop_last();
        assert forall|a: int| 0 <= a < front.len() implies (#[trigger] front[a]) is None by {
            assert(picks[a] is None);
        }
        assert(picks[picks.len() - 1] is None);
        lemma_path_of_nothing(front, typos + 1, max_typos);
    }
}

impl<'a, B: Backend> AlignmentPathIter<'a, B> {
    /// The walk is somewhere on the path of an alignment in a score matrix.
    pub closed spec fn wf(self) -> bool {
        let p = self.problem@;
        &&& p.lanes == B::LANES
        &&& p.lane_max == B::Score::lane_max()
        &&& p.scoring == self.scoring
        &&& self.haystack_chunks == p.chunks()
        &&& self.match_masks@.len() == self.score_matrix@.len()
        &&& self.along_matrix@.len() == self.score_matrix@.len()
        &&& matrix_holds::<B>(
            self.score_matrix@,
            self.match_masks@,
            self.along_matrix@,
            p,
            self.haystack_chunks as int,
        )
        &&& self.row * self.haystack_chunks <= self.score_matrix@.len()
        &&& self.col <= p.columns()
        &&& self.typos + self.row <= usize::MAX
    }

    /// What the walk is still going to report.
    pub closed spec fn remaining(self) -> Seq<Option<usize>> {
        if self.done {
            Seq::empty()
        } else {
            positioned(
                path_of(
                    self.problem@.traced(self.row - 1, self.col - 1),
                    self.typos as int,
                    self.max_typos,
                ),
                bytes_of(self.unicode_haystack),
                self.haystack_start_pos as int,
            )
        }
    }

    /// A walk along the path of the alignment that ends where the last of `needle_len` rows
    /// first holds `score`.
    fn new(
        score_matrix: &'a [B::Score],
        match_masks: &'a [B::Mask],
        along_matrix: &'a [B::Score],
        scoring: &Scoring,
        needle_len: usize,
        haystack_chunks: usize,
        haystack_start_pos: usize,
        unicode_haystack: Option<&'a [u8]>,
        score: u16,
        max_typos: Option<u16>,
        Ghost(p): Ghost<Problem>,
    ) -> (out: Self)
        requires
            p.lanes == B::LANES,
            p.lane_max == B::Score::lane_max(),
            p.scoring == *scoring,
            haystack_chunks == p.chunks(),
            match_masks@.len() == score_matrix@.len(),
            along_matrix@.len() == score_matrix@.len(),
            matrix_holds::<B>(
                score_matrix@,
                match_masks@,
                along_matrix@,
                p,
                haystack_chunks as int,
            ),
            needle_len * haystack_chunks <= score_matrix@.len(),
        ensures
            out.wf(),
            out.remaining() == positioned(
                path_of(p.alignment(needle_len as int, score), 0, max_typos),
                bytes_of(unicode_haystack),
                haystack_start_pos as int,
            ),
    {
        proof {
            B::lemma_widths();
        }
        let lanes = B::lanes();
        let mut col: u128 = 0;
        let mut c: usize = 0;
        let len = score_matrix.len();
        let ghost wanted = narrowed(score as int, p.lane_max);
        let ghost i = needle_len - 1;
        if needle_len > 0 {
            proof {
                assert(0 * lanes == 0) by (nonlinear_arith);
            }
            while c < haystack_chunks && col == 0
                invariant
                    lanes == B::LANES == p.lanes,
                    lanes > 0,
                    B::Score::lane_count() == B::LANES,
                    p.lane_max == B::Score::lane_max(),
                    len == score_matrix@.len(),
                    haystack_chunks == p.chunks(),
                    matrix_holds::<B>(
                        score_matrix@,
                        match_masks@,
                        along_matrix@,
                        p,
                        haystack_chunks as int,
                    ),
                    needle_len > 0,
                    i == needle_len - 1,
                    wanted == narrowed(score as int, p.lane_max),
                    needle_len * haystack_chunks <= len,
                    lanes <= 64,
                    c <= haystack_chunks,
                    col == 0 ==> forall|j: int|
                        0 <= j < c * lanes ==> #[trigger] p.cell(i, j) != wanted,
                    col > 0 ==> col <= p.columns() && p.cell(i, col - 1) == wanted && forall|j: int|
                        0 <= j < col - 1 ==> #[trigger] p.cell(i, j) != wanted,
                decreases haystack_chunks - c,
            {
                assert(0 <= (needle_len - 1) * haystack_chunks && (needle_len - 1) * haystack_chunks
                    + haystack_chunks == needle_len * haystack_chunks) by (nonlinear_arith)
                    requires
                        needle_len > 0,
                ;
                let chunk = score_matrix[(needle_len - 1) * haystack_chunks + c];
                assert(chunk.lanes() == p.row(i, c as int));
                let lane = chunk.find_lane(score);
                proof {
                    chunk.lemma_lanes();
                    let base = c * lanes;
                    assert(0 <= base && base + lanes == (c + 1) * lanes && (c + 1) * lanes
                        <= p.columns()) by (nonlinear_arith)
                        requires
                            base == c * lanes,
                            p.columns() == haystack_chunks * lanes,
                            c + 1 <= haystack_chunks,
                            lanes > 0,
                            c >= 0,
                    ;
                    assert forall|j: int| base <= j < base + lane implies #[trigger] p.cell(i, j)
                        != wanted by {
                        lemma_split_column(c as int, j - base, lanes as int);
                        assert(p.cell(i, j) == chunk.lanes()[j - base]);
                    }
                    if lane < lanes {
                        lemma_split_column(c as int, lane as int, lanes as int);
                        assert(p.cell(i, base + lane) == chunk.lanes()[lane as int]);
                    }
                }
                if lane < lanes {
                    assert(c * lanes <= usize::MAX * 64) by (nonlinear_arith)
                        requires
                            c <= usize::MAX,
                            lanes <= 64,
                    ;
                    col = c as u128 * lanes as u128 + lane as u128 + 1;
                }
                c = c + 1;
            }
            proof {
                if col > 0 {
                    lemma_first_column(p, i, wanted, 0, col - 1);
                } else {
                    assert(0 <= p.columns()) by (nonlinear_arith)
                        requires
                            p.columns() == haystack_chunks * lanes,
                            lanes > 0,
                            haystack_chunks >= 0,
                    ;
                    lemma_first_column(p, i, wanted, 0, p.columns());
                }
            }
        }
        AlignmentPathIter::<'a, B> {
            score_matrix,
            match_masks,
            along_matrix,
            scoring: *scoring,
            haystack_chunks,
            haystack_start_pos,
            unicode_haystack,
            max_typos,
            row: needle_len,
            col,
            typos: 0,
            done: false,
            problem: Ghost(p),
        }
    }

    /// The score of the cell before row `row` and column `col`, or zero at the edge.
    fn score_before(&self, row: usize, col: u128) -> (out: u16)
        requires
            self.wf(),
            row <= self.row,
            col <= self.col,
        ensures
            out == self.problem@.cell(row - 1, col - 1),
    {
        if row == 0 || col == 0 {
            return 0;
        }
        let lanes = B::lanes();
        proof {
            self.lemma_cell_in_matrix(row as int, col as int);
        }
        let len = self.score_matrix.len();
        assert((row - 1) * self.haystack_chunks <= len);
        let c = ((col - 1) / lanes as u128) as usize;
        let l = ((col - 1) % lanes as u128) as usize;
        let chunk = self.score_matrix[(row - 1) * self.haystack_chunks + c];
        chunk.extract(l)
    }

    /// Whether the cell before row `row` and column `col` is a match.
    fn match_before(&self, row: usize, col: u128) -> (out: bool)
        requires
            self.wf(),
            0 < row <= self.row,
            0 < col <= self.col,
        ensures
            out == self.problem@.matches_at(row - 1, col - 1),
    {
        let lanes = B::lanes();
        proof {
            self.lemma_cell_in_matrix(row as int, col as int);
        }
        let len = self.match_masks.len();
        assert((row - 1) * self.haystack_chunks <= len);
        let c = ((col - 1) / lanes as u128) as usize;
        let l = ((col - 1) % lanes as u128) as usize;
        let chunk = self.match_masks[(row - 1) * self.haystack_chunks + c];
        chunk.test(l)
    }

    /// Where the score of the cell before row and column comes from.
    fn origin(&self) -> (out: Origin)
        requires
            self.wf(),
            0 < self.row,
            0 < self.col,
        ensures
            ({
                let p = self.problem@;
                let i = self.row - 1;
                let picks = p.traced(i, self.col - 1);
                match out {
                    Origin::Nothing => picks == Seq::new(
                        self.row as nat,
                        |k: int| None::<int>,
                    ),
                    Origin::Left(col) => col < self.col && picks == p.traced(i, col - 1),
                    Origin::Match(col) => 0 < col <= self.col && picks == p.traced(
                        i - 1,
                        col - 2,
                    ).push(Some(col - 1)),
                    Origin::Mismatch(col) => 0 < col <= self.col && picks == p.traced(
                        i - 1,
                        col - 2,
                    ).push(None),
                    Origin::Above(col) => 0 < col <= self.col && picks == p.traced(
                        i - 1,
                        col - 1,
                    ).push(None),
                }
            }),
    {
        let lanes = B::lanes();
        let row = self.row;
        let col = self.col;
        let chunks = self.haystack_chunks;
        let ghost p = self.problem@;
        let ghost i = row - 1;
        proof {
            B::lemma_widths();
            self.lemma_cell_in_matrix(row as int, col as int);
            lemma_stages_fit(p.lanes);
        }
        let len = self.score_matrix.len();
        assert((row - 1) * chunks <= len);
        let c = ((col - 1) / lanes as u128) as usize;
        let at = (row - 1) * chunks + c;
        if self.score_before(row, col) == 0 {
            proof {
                lemma_row_len(p, i, c as int, 0);
            }
            return Origin::Nothing;
        }
        let zero = B::Score::zero();
        let none = B::Mask::zero();
        assert(zero.lanes() =~= Seq::new(p.lanes, |l: int| 0u16));
        proof {
            assert(p.row(i, c as int) == self.score_matrix@[at as int].lanes());
            if c > 0 {
                assert(p.row(i, c - 1) == self.score_matrix@[(row - 1) * chunks + (c - 1)].lanes());
            } else {
                assert(none.lanes() =~= match_lanes(p, i, -1));
                assert(p.row(i, -1) =~= zero.lanes());
            }
            if row > 1 {
                assert((row - 2) * chunks == (row - 1) * chunks - chunks && (row - 2) * chunks >= 0)
                    by (nonlinear_arith)
                    requires
                        row > 1,
                        chunks >= 0,
                ;
                assert(p.row(i - 1, c as int) == self.score_matrix@[(row - 2) * chunks + c].lanes());
            } else {
                assert(none.lanes() =~= match_lanes(p, -1, c as int));
                assert(p.row(-1, c as int) =~= zero.lanes());
            }
        }
        let along = self.along_matrix[at];
        let mask = self.match_masks[at];
        let (left, left_mask) = if c > 0 {
            (self.score_matrix[at - 1], self.match_masks[at - 1])
        } else {
            (zero, none)
        };
        let (above, above_mask) = if row > 1 {
            (self.score_matrix[at - chunks], self.match_masks[at - chunks])
        } else {
            (zero, none)
        };
        let extend = B::Score::splat(self.scoring.gap_extend_penalty);
        let open = B::Score::splat(self.scoring.gap_open_penalty);
        let price = add_where::<B>(extend, above_mask, self.scoring.gap_open_penalty);
        let down = above.subs(price);
        let entered = along.max(down);
        let wide = B::widen_mask(mask);
        let wide_left = B::widen_mask(left_mask);
        let stages = stage_count(lanes);
        proof {
            above.lemma_lanes();
            along.lemma_lanes();
            let lane_max = p.lane_max;
            let above_lanes = p.row(i - 1, c as int);
            let diagonal_lanes = shifted(above_lanes, p.row(i - 1, c - 1), 1);
            let want = Seq::new(
                p.lanes,
                |l: int| p.entered(i, c * p.lanes + l, diagonal_lanes[l], above_lanes[l]),
            );
            assert forall|l: int| 0 <= l < p.lanes implies #[trigger] down.lanes()[l] == p.down(
                i,
                c * p.lanes + l,
                above_lanes[l],
            ) by {
                let opening = if above_mask.lanes()[l] {
                    self.scoring.gap_open_penalty as int
                } else {
                    0
                };
                lemma_narrowed_sum(self.scoring.gap_extend_penalty as int, opening, lane_max);
                assert(above_mask.lanes()[l] == p.matches_at(i - 1, c * p.lanes + l));
            }
            assert forall|l: int| 0 <= l < p.lanes implies #[trigger] entered.lanes()[l]
                == want[l] by {
                assert(down.lanes()[l] == p.down(i, c * p.lanes + l, above_lanes[l]));
            }
            assert(entered.lanes() =~= want);
            assert(wide.lanes() =~= p.mask(i, c as int));
            assert(wide_left.lanes() =~= p.mask(i, c - 1));
            assert(open.lanes() =~= p.flat(self.scoring.gap_open_penalty));
            assert(extend.lanes() =~= p.flat(self.scoring.gap_extend_penalty));
        }
        let (rows, hops) = stage_rows(entered, left, wide, wide_left, open, extend, stages);
        proof {
            assert forall|t: int| 0 <= t <= stages implies #[trigger] rows@[t].lanes() == p.staged(
                i,
                c as int,
                t as nat,
            ) by {}
            lemma_split_column(c as int, (col - 1) % lanes as int, lanes as int);
            vstd::arithmetic::div_mod::lemma_fundamental_div_mod(col - 1, lanes as int);
            assert(lanes * c == c * lanes) by (nonlinear_arith);
        }
        let first = c as u128 * lanes as u128;
        let mut lane = ((col - 1) % lanes as u128) as usize;
        let mut t = stages;
        while t > 0
            invariant
                lanes == B::LANES == p.lanes,
                B::Score::lane_count() == B::LANES,
                p == self.problem@,
                i == row - 1,
                row == self.row,
                col == self.col,
                0 < row,
                first == c * lanes,
                lane < lanes,
                first + lane < col <= u128::MAX,
                t <= stages,
                stages == gap_stages(p.lanes),
                rows@.len() == stages + 1,
                hops@.len() == stages,
                forall|k: int|
                    0 <= k <= stages ==> #[trigger] rows@[k].lanes() == p.staged(
                        i,
                        c as int,
                        k as nat,
                    ),
                forall|k: int| 0 <= k < stages ==> #[trigger] hops@[k] == pow2(k as nat),
                p.traced(i, col - 1) == p.traced_from(i, first + lane, t as nat),
            decreases t,
        {
            let ghost j = first + lane;
            proof {
                lemma_neighbours(p, i, c as int, lane as int);
                lemma_pow2_pos((t - 1) as nat);
                assert(rows@[t as int].lanes() == p.staged(i, c as int, t as nat));
                assert(rows@[t - 1].lanes() == p.staged(i, c as int, (t - 1) as nat));
            }
            let here = rows[t].extract(lane);
            let before = rows[t - 1].extract(lane);
            let hop = hops[t - 1];
            if here == 0 {
                return Origin::Nothing;
            }
            if here != before {
                if hop <= lane {
                    lane = lane - hop;
                } else if hop as u128 <= first + lane as u128 {
                    return Origin::Left(first + lane as u128 + 1 - hop as u128);
                } else {
                    return Origin::Nothing;
                }
            }
            t = t - 1;
        }
        proof {
            lemma_neighbours(p, i, c as int, lane as int);
            assert(rows@[0].lanes() == p.staged(i, c as int, 0));
        }
        let here = rows[0].extract(lane);
        let column = first + lane as u128 + 1;
        if here == 0 {
            return Origin::Nothing;
        }
        if along.extract(lane) < down.extract(lane) {
            Origin::Above(column)
        } else if self.match_before(row, column) {
            Origin::Match(column)
        } else {
            Origin::Mismatch(column)
        }
    }

    proof fn lemma_cell_in_matrix(&self, row: int, col: int)
        requires
            self.wf(),
            0 < row <= self.row,
            0 < col <= self.col,
        ensures
            ({
                let p = self.problem@;
                let chunks = self.haystack_chunks as int;
                let lanes = B::LANES as int;
                let c = (col - 1) / lanes;
                let l = (col - 1) % lanes;
                &&& lanes > 0
                &&& B::Score::lane_count() == lanes
                &&& B::Mask::lane_count() == lanes
                &&& 0 <= c < chunks
                &&& 0 <= l < lanes
                &&& 0 <= (row - 1) * chunks
                &&& (row - 1) * chunks + c < self.score_matrix@.len() == self.match_masks@.len()
                    == self.along_matrix@.len()
                &&& self.score_matrix@[(row - 1) * chunks + c].lanes()[l] == p.cell(
                    row - 1,
                    col - 1,
                )
                &&& self.match_masks@[(row - 1) * chunks + c].lanes()[l] == p.matches_at(
                    row - 1,
                    col - 1,
                )
            }),
    {
        B::lemma_widths();
        let p = self.problem@;
        let chunks = self.haystack_chunks as int;
        let lanes = B::LANES as int;
        let c = (col - 1) / lanes;
        let l = (col - 1) % lanes;
        vstd::arithmetic::div_mod::lemma_fundamental_div_mod(col - 1, lanes);
        vstd::arithmetic::div_mod::lemma_mod_bound(col - 1, lanes);
        vstd::arithmetic::div_mod::lemma_div_pos_is_pos(col - 1, lanes);
        assert(lanes * c == c * lanes) by (nonlinear_arith);
        assert(c < chunks) by (nonlinear_arith)
            requires
                c * lanes <= col - 1,
                col - 1 < chunks * lanes,
                lanes > 0,
        ;
        assert(0 <= (row - 1) * chunks && (row - 1) * chunks + chunks <= self.row * chunks)
            by (nonlinear_arith)
            requires
                0 < row <= self.row,
                chunks >= 0,
        ;
        assert(p.row(row - 1, c) == self.score_matrix@[(row - 1) * chunks + c].lanes());
    }

    /// The next match of the path, or an empty entry where too many bytes of the needle go
    /// unmatched, or nothing at the end.
    pub fn next(&mut self) -> (out: Option<Option<usize>>)
        requires
            old(self).wf(),
        ensures
            final(self).wf(),
            out == if old(self).remaining().len() == 0 {
                None
            } else {
                Some(old(self).remaining()[0])
            },
            final(self).remaining() == if old(self).remaining().len() == 0 {
                old(self).remaining()
            } else {
                old(self).remaining().drop_first()
            },
    {
        let ghost whole = self.remaining();
        let ghost p = self.problem@;
        while !self.done
            invariant
                self.wf(),
                self.problem@ == p,
                self.remaining() == whole,
                whole == old(self).remaining(),
            decreases self.row + self.col,
        {
            proof {
                lemma_traced_len(p, self.row - 1, self.col - 1, gap_stages(p.lanes));
            }
            let ghost picks = p.traced(self.row - 1, self.col - 1);
            let ghost path = path_of(picks, self.typos as int, self.max_typos);
            let ghost unicode = bytes_of(self.unicode_haystack);
            let ghost start = self.haystack_start_pos as int;
            if let Some(max) = self.max_typos {
                if self.typos > max as usize {
                    self.done = true;
                    proof {
                        assert(whole =~= seq![None::<usize>]);
                        assert(whole.drop_first() =~= Seq::<Option<usize>>::empty());
                    }
                    return Some(None);
                }
            }
            if self.row == 0 {
                self.done = true;
                assert(whole =~= Seq::<Option<usize>>::empty());
                return None;
            }
            let origin = if self.col == 0 {
                Origin::Nothing
            } else {
                self.origin()
            };
            proof {
                assert((self.row - 1) * self.haystack_chunks <= self.row * self.haystack_chunks)
                    by (nonlinear_arith)
                    requires
                        self.row > 0,
                        self.haystack_chunks >= 0,
                ;
            }
            match origin {
                Origin::Nothing => {
                    proof {
                        assert forall|a: int| 0 <= a < picks.len() implies (
                        #[trigger] picks[a]) is None by {}
                        lemma_path_of_nothing(picks, self.typos as int, self.max_typos);
                    }
                    self.done = true;
                    if let Some(max) = self.max_typos {
                        if self.typos + self.row > max as usize {
                            proof {
                                assert(whole =~= seq![None::<usize>]);
                                assert(whole.drop_first() =~= Seq::<Option<usize>>::empty());
                            }
                            return Some(None);
                        }
                    }
                    assert(whole =~= Seq::<Option<usize>>::empty());
                    return None;
                },
                Origin::Left(col) => {
                    self.col = col;
                },
                Origin::Match(col) => {
                    let column = col - 1;
                    let start_pos = self.haystack_start_pos;
                    let at = match self.unicode_haystack {
                        Some(bytes) => start_of_char(bytes, column),
                        None => column,
                    };
                    proof {
                        B::lemma_widths();
                        assert(self.haystack_chunks * p.lanes <= usize::MAX * 64)
                            by (nonlinear_arith)
                            requires
                                self.haystack_chunks <= usize::MAX,
                                p.lanes <= 64,
                        ;
                        let rest = p.traced(self.row - 2, col - 2);
                        assert(picks == rest.push(Some(column as int)));
                        assert(picks.drop_last() =~= rest);
                        let rest_path = path_of(rest, self.typos as int, self.max_typos);
                        assert(path == seq![Some(column as int)] + rest_path);
                        let first = Some(position_of(unicode, start, column as int) as usize);
                        assert(whole =~= seq![first] + positioned(rest_path, unicode, start));
                        assert(whole.drop_first() =~= positioned(rest_path, unicode, start));
                    }
                    self.row = self.row - 1;
                    self.col = column;
                    return Some(Some(#[verifier::truncate] ((start_pos as u128 + at) as usize)));
                },
                Origin::Mismatch(col) => {
                    assert(picks.drop_last() =~= p.traced(self.row - 2, col - 2));
                    self.typos = self.typos + 1;
                    self.row = self.row - 1;
                    self.col = col - 1;
                },
                Origin::Above(col) => {
                    assert(picks.drop_last() =~= p.traced(self.row - 2, col - 1));
                    self.typos = self.typos + 1;
                    self.row = self.row - 1;
                    self.col = col;
                },
            }
        }
        None
    }
}

/// The position of the first byte of the character that holds the byte at `column`.
fn start_of_char(bytes: &[u8], column: u128) -> (out: u128)
    ensures
        out == char_start(bytes@, column as int),
        out <= column,
{
    if column >= bytes.len() as u128 {
        return column;
    }
    let mut at = column as usize;
    while 0 < at && 0x80 <= bytes[at] && bytes[at] <= 0xbf
        invariant
            at <= column,
            at < bytes@.len(),
            char_start(bytes@, at as int) == char_start(bytes@, column as int),
        decreases at,
    {
        at = at - 1;
    }
    at as u128
}

// ---------------------------------------------------------------------------------------------
// The path of the needle.
// ---------------------------------------------------------------------------------------------
/// A path is cut short exactly where the alignment leaves more bytes unmatched than may be.
proof fn lemma_path_is_whole(picks: Seq<Option<int>>, typos: int, max_typos: Option<u16>)
    ensures
        (forall|k: int|
            0 <= k < path_of(picks, typos, max_typos).len() ==> (#[trigger] path_of(
                picks,
                typos,
                max_typos,
            )[k]) is Some) <==> (max_typos is None || typos + deletions(picks) <= max_typos->0),
    decreases picks.len(),
{
    let path = path_of(picks, typos, max_typos);
    if max_typos is Some && typos > max_typos->0 {
        assert(path[0] is None);
    } else if picks.len() > 0 {
        let front = picks.drop_last();
        if picks.last() is Some {
            let rest = path_of(front, typos, max_typos);
            lemma_path_is_whole(front, typos, max_typos);
            assert(path == seq![picks.last()] + rest);
            assert forall|k: int| 0 <= k < rest.len() implies #[trigger] rest[k] == path[k + 1] by {}
            if forall|k: int| 0 <= k < path.len() ==> (#[trigger] path[k]) is Some {
                assert forall|k: int| 0 <= k < rest.len() implies (#[trigger] rest[k]) is Some by {
                    assert(path[k + 1] is Some);
                }
            }
            if forall|k: int| 0 <= k < rest.len() ==> (#[trigger] rest[k]) is Some {
                assert forall|k: int| 0 <= k < path.len() implies (#[trigger] path[k]) is Some by {
                    if k > 0 {
                        assert(rest[k - 1] is Some);
                    }
                }
            }
        } else {
            lemma_path_is_whole(front, typos + 1, max_typos);
        }
    }
}

impl<B: Backend> SmithWaterman<B> {
    /// A walk along the path of the alignment of the first `needle_len` bytes of the needle that
    /// ends where the last of them first holds `score`. Positions are counted from
    /// `haystack_start_pos` on; where `unicode_haystack` is given, that of a byte is that of
    /// the first byte of its character.
    pub fn iter_alignment_path<'a>(
        &'a self,
        needle_len: usize,
        haystack_start_pos: usize,
        unicode_haystack: Option<&'a [u8]>,
        score: u16,
        max_typos: Option<u16>,
    ) -> (out: AlignmentPathIter<'a, B>)
        requires
            self.wf(),
            needle_len <= self.pairs().len(),
        ensures
            out.wf(),
            out.remaining() == positioned(
                path_of(self.problem().alignment(needle_len as int, score), 0, max_typos),
                bytes_of(unicode_haystack),
                haystack_start_pos as int,
            ),
    {
        assert(needle_len * self.haystack_chunks <= self.needle@.len() * self.haystack_chunks)
            by (nonlinear_arith)
            requires
                needle_len <= self.needle@.len(),
        ;
        AlignmentPathIter::<'a, B>::new(
            self.score_matrix.as_slice(),
            self.match_masks.as_slice(),
            self.along_matrix.as_slice(),
            &self.scoring,
            needle_len,
            self.haystack_chunks,
            haystack_start_pos,
            unicode_haystack,
            score,
            max_typos,
            Ghost(self.problem()),
        )
    }

    /// Whether the alignment of the needle that ends with `score` leaves at most `max_typos` of
    /// its bytes unmatched.
    pub fn has_alignment_path(&self, score: u16, max_typos: u16) -> (out: bool)
        requires
            self.wf(),
        ensures
            out == (deletions(self.problem().alignment(self.pairs().len() as int, score))
                <= max_typos),
    {
        let ghost picks = self.problem().alignment(self.pairs().len() as int, score);
        let ghost path = path_of(picks, 0, Some(max_typos));
        proof {
            lemma_path_is_whole(picks, 0, Some(max_typos));
        }
        let mut iter = self.iter_alignment_path(self.needle.len(), 0, None, score, Some(max_typos));
        let ghost reported = positioned(path, None, 0);
        let ghost mut seen: int = 0;
        loop
            invariant
                iter.wf(),
                reported == positioned(path, None, 0),
                path == path_of(picks, 0, Some(max_typos)),
                (forall|k: int| 0 <= k < path.len() ==> (#[trigger] path[k]) is Some) <==> (
                deletions(picks) <= max_typos),
                picks == self.problem().alignment(self.pairs().len() as int, score),
                0 <= seen <= reported.len(),
                iter.remaining() == reported.subrange(seen, reported.len() as int),
                forall|k: int| 0 <= k < seen ==> (#[trigger] reported[k]) is Some,
            decreases reported.len() - seen,
        {
            let ghost rest = iter.remaining();
            match iter.next() {
                Some(Some(_)) => {
                    assert(reported[seen] == rest[0]);
                    proof {
                        seen = seen + 1;
                    }
                    assert(rest.drop_first() =~= reported.subrange(seen, reported.len() as int));
                },
                Some(None) => {
                    assert(reported[seen] == rest[0]);
                    assert(path[seen] is None);
                    return false;
                },
                None => {
                    assert(seen == reported.len());
                    assert forall|k: int| 0 <= k < path.len() implies (#[trigger] path[k]) is Some by {
                        assert(reported[k] is Some);
                    }
                    return true;
                },
            }
        }
    }

    /// Aligns the needle with a haystack. The score is returned if the alignment leaves at most
    /// `max_typos` bytes of the needle unmatched, and in any case where no limit is given.
    pub fn match_haystack(&mut self, haystack: &[u8], max_typos: Option<u16>) -> (out: Option<u16>)
        ensures
            final(self).wf(),
            final(self).pairs() == old(self).pairs(),
            final(self).weights() == old(self).weights(),
            final(self).aligned() == haystack@,
            out == old(self).problem_for(haystack@).matched(max_typos),
    {
        let score = self.score_haystack(haystack);
        if let Some(max) = max_typos {
            if !self.has_alignment_path(score, max) {
                return None;
            }
        }
        Some(score)
    }

    /// As `match_haystack`, with the positions of the matches, the last first, counted from
    /// `haystack_start_pos` on.
    pub fn match_haystack_indices(
        &mut self,
        haystack: &[u8],
        haystack_start_pos: usize,
        max_typos: Option<u16>,
    ) -> (out: Option<(u16, Vec<usize>)>)
        ensures
            final(self).wf(),
            final(self).pairs() == old(self).pairs(),
            final(self).weights() == old(self).weights(),
            final(self).aligned() == haystack@,
            match out {
                Some((score, indices)) => {
                    let p = old(self).problem_for(haystack@);
                    &&& p.matched(max_typos) == Some(score)
                    &&& indices@ == indices_of(
                        p.alignment(p.needle.len() as int, score),
                        haystack_start_pos as int,
                    )
                },
                None => old(self).problem_for(haystack@).matched(max_typos) is None,
            },
    {
        let score = self.score_haystack(haystack);
        let ghost p = self.problem();
        let ghost picks = p.alignment(p.needle.len() as int, score);
        let ghost start = haystack_start_pos as int;
        let ghost path = path_of(picks, 0, max_typos);
        let ghost reported = positioned(path, None, start);
        proof {
            lemma_path_is_whole(picks, 0, max_typos);
        }
        let mut indices: Vec<usize> = Vec::new();
        let mut iter = self.iter_alignment_path(
            self.needle.len(),
            haystack_start_pos,
            None,
            score,
            max_typos,
        );
        loop
            invariant
                iter.wf(),
                reported == positioned(path, None, start),
                path == path_of(picks, 0, max_typos),
                (forall|k: int| 0 <= k < path.len() ==> (#[trigger] path[k]) is Some) <==> (
                max_typos is None || deletions(picks) <= max_typos->0),
                p == self.problem(),
                p == old(self).problem_for(haystack@),
                self.wf(),
                self.pairs() == old(self).pairs(),
                self.weights() == old(self).weights(),
                self.aligned() == haystack@,
                score == p.score(),
                start == haystack_start_pos,
                picks == p.alignment(p.needle.len() as int, score),
                indices@.len() <= reported.len(),
                iter.remaining() == reported.subrange(indices@.len() as int, reported.len() as int),
                forall|k: int| 0 <= k < indices@.len() ==> reported[k] == Some(#[trigger] indices@[k]),
            decreases reported.len() - indices@.len(),
        {
            let ghost rest = iter.remaining();
            let ghost seen = indices@.len() as int;
            match iter.next() {
                Some(Some(index)) => {
                    assert(reported[seen] == rest[0]);
                    indices.push(index);
                    assert(rest.drop_first() =~= reported.subrange(
                        seen + 1,
                        reported.len() as int,
                    ));
                },
                Some(None) => {
                    assert(reported[seen] == rest[0]);
                    assert(path[seen] is None);
                    return None;
                },
                None => {
                    assert(seen == reported.len());
                    proof {
                        assert forall|k: int| 0 <= k < path.len() implies (
                        #[trigger] path[k]) is Some by {
                            assert(reported[k] == Some(indices@[k]));
                        }
                        lemma_path_without_limit(picks, 0, max_typos);
                        assert(indices@ =~= indices_of(picks, start));
                    }
                    return Some((score, indices));
                },
            }
        }
    }
}

/// A path that stays within its limit is the path without a limit.
pub(super) proof fn lemma_path_without_limit(picks: Seq<Option<int>>, typos: int, max_typos: Option<u16>)
    requires
        max_typos is None || typos + deletions(picks) <= max_typos->0,
    ensures
        path_of(picks, typos, max_typos) == path_of(picks, 0, None),
    decreases picks.len(),
{
    if picks.len() > 0 {
        let front = picks.drop_last();
        if picks.last() is Some {
            lemma_path_without_limit(front, typos, max_typos);
        } else {
            lemma_path_without_limit(front, typos + 1, max_typos);
            lemma_path_without_limit(front, 1, None);
        }
    }
}

// ---------------------------------------------------------------------------------------------
// Laws.
// ---------------------------------------------------------------------------------------------
/// The path back from a cell is an ordered alignment of the rows up to it, left of the cell and
/// on it.
proof fn lemma_traced_is_alignment(p: Problem, i: int, j: int, stages: nat)
    requires
        -1 <= i < p.needle.len(),
        forall|k: int| 0 <= k < p.needle.len() ==> !same(#[trigger] p.needle[k], 0),
    ensures
        is_alignment(p.needle.take(i + 1), p.haystack, p.traced_from(i, j, stages)),
        forall|k: int|
            0 <= k < p.traced_from(i, j, stages).len() && (#[trigger] p.traced_from(
                i,
                j,
                stages,
            )[k]) is Some ==> p.traced_from(i, j, stages)[k]->0 <= j,
    decreases i + 1, j + 1, stages,
{
    lemma_traced_len(p, i, j, stages);
    let picks = p.traced_from(i, j, stages);
    let rows = p.needle.take(i + 1);
    let all = gap_stages(p.lanes);
    let here = p.staged_cell(i, j, stages);
    if i >= 0 && j >= 0 && here != 0 {
        if stages > 0 {
            let hop = pow2((stages - 1) as nat) as int;
            lemma_pow2_pos((stages - 1) as nat);
            if here == p.staged_cell(i, j, (stages - 1) as nat) {
                lemma_traced_is_alignment(p, i, j, (stages - 1) as nat);
            } else if hop <= j % p.lanes as int && hop <= j {
                lemma_traced_is_alignment(p, i, j - hop, (stages - 1) as nat);
            } else if hop <= j {
                lemma_traced_is_alignment(p, i, j - hop, all);
            }
        } else if p.taken(i, j) {
            lemma_traced_is_alignment(p, i - 1, j - 1, all);
            lemma_traced_len(p, i - 1, j - 1, all);
            assert(same(p.needle[i], p.byte(j)));
            lemma_alignment_push(p, i, p.traced_from(i - 1, j - 1, all), Some(j));
        } else if p.comes_along(i, j) {
            lemma_traced_is_alignment(p, i - 1, j - 1, all);
            lemma_traced_len(p, i - 1, j - 1, all);
            lemma_alignment_push(p, i, p.traced_from(i - 1, j - 1, all), None);
        } else {
            lemma_traced_is_alignment(p, i - 1, j, all);
            lemma_traced_len(p, i - 1, j, all);
            lemma_alignment_push(p, i, p.traced_from(i - 1, j, all), None);
        }
    }
}

proof fn lemma_alignment_push(p: Problem, i: int, front: Seq<Option<int>>, pick: Option<int>)
    requires
        0 <= i < p.needle.len(),
        front.len() == i,
        is_alignment(p.needle.take(i), p.haystack, front),
        pick is Some ==> 0 <= pick->0 < p.haystack.len() && same(
            p.needle[i],
            p.haystack[pick->0],
        ),
        pick is Some ==> forall|k: int|
            0 <= k < i && (#[trigger] front[k]) is Some ==> front[k]->0 < pick->0,
    ensures
        is_alignment(p.needle.take(i + 1), p.haystack, front.push(pick)),
{
    let picks = front.push(pick);
    let rows = p.needle.take(i + 1);
    let shorter = p.needle.take(i);
    assert forall|k: int| 0 <= k < picks.len() && (#[trigger] picks[k]) is Some implies 0
        <= picks[k]->0 < p.haystack.len() && same(rows[k], p.haystack[picks[k]->0]) by {
        if k < i {
            assert(front[k] == picks[k]);
            assert(shorter[k] == rows[k]);
        }
    }
    assert forall|a: int, b: int|
        0 <= a < b < picks.len() && (#[trigger] picks[a]) is Some && (#[trigger] picks[b]) is Some
        implies picks[a]->0 < picks[b]->0 by {
        assert(front[a] == picks[a]);
        if b < i {
            assert(front[b] == picks[b]);
        }
    }
}

/// What is reported is an ordered alignment: the matches of the path of a needle without zero
/// bytes are positions of the haystack, they hold what is taken for the bytes of the needle, and
/// they are in order.
pub proof fn lemma_path_is_alignment(p: Problem, rows: int, score: u16)
    requires
        0 <= rows <= p.needle.len(),
        forall|k: int| 0 <= k < p.needle.len() ==> !same(#[trigger] p.needle[k], 0),
    ensures
        is_alignment(p.needle.take(rows), p.haystack, p.alignment(rows, score)),
{
    lemma_traced_is_alignment(
        p,
        rows - 1,
        p.first_column(rows - 1, narrowed(score as int, p.lane_max), 0),
        gap_stages(p.lanes),
    );
}

/// The prefilter is conservative: it accepts every haystack with which a needle without zero
/// bytes is matched within the same typos.
pub proof fn lemma_prefilter_accepts_matches(p: Problem, max_typos: u16)
    requires
        forall|k: int| 0 <= k < p.needle.len() ==> !same(#[trigger] p.needle[k], 0),
        p.matched(Some(max_typos)) is Some,
    ensures
        accepts(p.needle, p.haystack, max_typos as nat),
{
    let n = p.needle.len() as int;
    lemma_path_is_alignment(p, n, p.score());
    assert(p.needle.take(n) =~= p.needle);
}

/// The indices of a match are in reverse order, no more than the bytes of the needle, and inside
/// the haystack, for a needle without zero bytes.
pub proof fn lemma_indices_are_valid(p: Problem, score: u16, start: int)
    requires
        forall|k: int| 0 <= k < p.needle.len() ==> !same(#[trigger] p.needle[k], 0),
        0 <= start,
        start + p.haystack.len() <= usize::MAX,
    ensures
        ({
            let indices = indices_of(p.alignment(p.needle.len() as int, score), start);
            &&& indices.len() <= p.needle.len()
            &&& forall|k: int|
                0 <= k < indices.len() ==> start <= #[trigger] indices[k] < start + p.haystack.len()
            &&& forall|a: int, b: int|
                0 <= a < b < indices.len() ==> #[trigger] indices[a] > #[trigger] indices[b]
        }),
{
    let n = p.needle.len() as int;
    lemma_path_is_alignment(p, n, score);
    assert(p.needle.take(n) =~= p.needle);
    lemma_indices_in_order(p.needle, p.haystack, p.alignment(n, score), start);
}

proof fn lemma_indices_in_order(
    needle: Seq<(u8, u8)>,
    haystack: Seq<u8>,
    picks: Seq<Option<int>>,
    start: int,
)
    requires
        is_alignment(needle, haystack, picks),
        0 <= start,
        start + haystack.len() <= usize::MAX,
    ensures
        ({
            let path = path_of(picks, 0, None);
            let indices = indices_of(picks, start);
            &&& indices.len() == path.len() <= picks.len()
            &&& forall|k: int|
                0 <= k < path.len() ==> {
                    &&& (#[trigger] path[k]) is Some
                    &&& indices[k] == start + path[k]->0
                    &&& exists|a: int| 0 <= a < picks.len() && picks[a] == path[k]
                }
            &&& forall|a: int, b: int|
                0 <= a < b < indices.len() ==> #[trigger] indices[a] > #[trigger] indices[b]
            &&& forall|k: int|
                0 <= k < indices.len() ==> start <= #[trigger] indices[k] < start + haystack.len()
        }),
    decreases picks.len(),
{
    let path = path_of(picks, 0, None);
    let indices = indices_of(picks, start);
    if picks.len() > 0 {
        let front = picks.drop_last();
        let shorter = needle.drop_last();
        let last = picks.len() - 1;
        assert forall|a: int| 0 <= a < front.len() implies #[trigger] front[a] == picks[a]
            && shorter[a] == needle[a] by {}
        assert forall|a: int, b: int|
            0 <= a < b < front.len() && (#[trigger] front[a]) is Some && (#[trigger] front[b]) is Some
            implies front[a]->0 < front[b]->0 by {
            assert(picks[a]->0 < picks[b]->0);
        }
        assert(is_alignment(shorter, haystack, front));
        lemma_indices_in_order(shorter, haystack, front, start);
        let rest = path_of(front, 0, None);
        let rest_indices = indices_of(front, start);
        if picks[last] is Some {
            assert(path == seq![picks[last]] + rest);
            assert forall|k: int| 0 <= k < path.len() implies {
                &&& (#[trigger] path[k]) is Some
                &&& indices[k] == start + path[k]->0
                &&& exists|a: int| 0 <= a < picks.len() && picks[a] == path[k]
            } by {
                if k == 0 {
                    assert(picks[last] == path[k]);
                } else {
                    assert(rest[k - 1] == path[k]);
                    let a = choose|a: int| 0 <= a < front.len() && front[a] == rest[k - 1];
                    assert(picks[a] == path[k]);
                }
            }
            assert forall|a: int, b: int| 0 <= a < b < indices.len() implies #[trigger] indices[a]
                > #[trigger] indices[b] by {
                assert(path[b] == rest[b - 1]);
                assert(indices[b] == rest_indices[b - 1]);
                if a > 0 {
                    assert(path[a] == rest[a - 1]);
                    assert(indices[a] == rest_indices[a - 1]);
                } else {
                    let c = choose|c: int| 0 <= c < front.len() && front[c] == rest[b - 1];
                    assert(picks[c]->0 < picks[last]->0);
                    assert(path[0] == picks[last]);
                }
            }
            assert forall|k: int| 0 <= k < indices.len() implies start <= #[trigger] indices[k]
                < start + haystack.len() by {
                assert(path[k] is Some);
                let a = choose|a: int| 0 <= a < picks.len() && picks[a] == path[k];
                assert(picks[a] is Some);
            }
        } else {
            lemma_path_without_limit(front, 1, None);
            assert(path == rest);
            assert(indices == rest_indices);
            assert forall|k: int| 0 <= k < path.len() implies exists|a: int|
                0 <= a < picks.len() && picks[a] == (#[trigger] path[k]) by {
                let a = choose|a: int| 0 <= a < front.len() && front[a] == rest[k];
                assert(picks[a] == path[k]);
            }
        }
    }
}

} // verus!
