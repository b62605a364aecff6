//! The scores of the Smith-Waterman kernel, and the mathematical score matrix.
use vstd::arithmetic::power2::{lemma_pow2_pos, pow2};
use vstd::prelude::*;

use crate::backend::{narrowed, shifted};
use crate::chunks::chunk_total;
use crate::gaps::{gap_stages, less, propagated};
use crate::prefilter::{deletions, same};

verus! {

/// What a match is worth and what a gap or a mismatch costs.
#[derive(Debug, Clone, Copy, PartialEq, Eq, Structural)]
pub struct Scoring {
    /// For every byte of the needle that is found.
    pub match_score: u16,
    /// For a haystack byte that stands in the place of a byte of the needle.
    pub mismatch_penalty: u16,
    /// For a gap that follows a match.
    pub gap_open_penalty: u16,
    /// For every byte of a gap.
    pub gap_extend_penalty: u16,
    /// For a match on the first byte of the haystack.
    pub prefix_bonus: u16,
    /// For a match on a capital that follows a small letter.
    pub capitalization_bonus: u16,
    /// For a match in the needle's own case.
    pub matching_case_bonus: u16,
    /// For a match on a byte that follows a delimiter.
    pub delimiter_bonus: u16,
    /// For a haystack that is the needle.
    pub exact_match_bonus: u16,
}

/// The scores where none are given.
pub open spec fn default_scoring() -> Scoring {
    Scoring {
        match_score: 12,
        mismatch_penalty: 6,
        gap_open_penalty: 5,
        gap_extend_penalty: 1,
        prefix_bonus: 12,
        capitalization_bonus: 4,
        matching_case_bonus: 4,
        delimiter_bonus: 4,
        exact_match_bonus: 8,
    }
}

impl Default for Scoring {
    fn default() -> (out: Self)
        ensures
            out == default_scoring(),
            out.match_score == 12,
            out.mismatch_penalty == 6,
            out.gap_open_penalty == 5,
            out.gap_extend_penalty == 1,
            out.prefix_bonus == 12,
            out.capitalization_bonus == 4,
            out.matching_case_bonus == 4,
            out.delimiter_bonus == 4,
            out.exact_match_bonus == 8,
    {
        Scoring {
            match_score: 12,
            mismatch_penalty: 6,
            gap_open_penalty: 5,
            gap_extend_penalty: 1,
            prefix_bonus: 12,
            capitalization_bonus: 4,
            matching_case_bonus: 4,
            delimiter_bonus: 4,
            exact_match_bonus: 8,
        }
    }
}

pub open spec fn is_capital(byte: u8) -> bool {
    0x41 <= byte <= 0x5a
}

pub open spec fn is_small_letter(byte: u8) -> bool {
    0x61 <= byte <= 0x7a
}

/// A blank, a slash, a full stop, a comma, an underscore, a hyphen or a colon.
pub open spec fn is_delimiter(byte: u8) -> bool {
    ||| byte == 0x20
    ||| byte == 0x2f
    ||| byte == 0x2e
    ||| byte == 0x2c
    ||| byte == 0x5f
    ||| byte == 0x2d
    ||| byte == 0x3a
}

/// A byte of a continued character of UTF-8.
pub open spec fn is_continuation(byte: u8) -> bool {
    0x80 <= byte <= 0xbf
}

/// The position of the first byte of the character that holds the byte at `j`.
pub open spec fn char_start(bytes: Seq<u8>, j: int) -> int
    decreases j,
{
    if 0 < j < bytes.len() && is_continuation(bytes[j]) {
        char_start(bytes, j - 1)
    } else {
        j
    }
}

/// The greatest of some scores, or zero.
pub open spec fn highest(scores: Seq<u16>) -> u16
    decreases scores.len(),
{
    if scores.len() == 0 {
        0
    } else {
        let rest = highest(scores.drop_last());
        if scores.last() >= rest {
            scores.last()
        } else {
            rest
        }
    }
}

/// The matches of an alignment from its last to its first, as they are reported when at most
/// `max_typos` bytes of the needle may go unmatched, `typos` having done so already. Nothing
/// follows an empty entry, which reports that there are more.
pub open spec fn path_of(
    picks: Seq<Option<int>>,
    typos: int,
    max_typos: Option<u16>,
) -> Seq<Option<int>>
    decreases picks.len(),
{
    if max_typos is Some && typos > max_typos->0 {
        seq![None]
    } else if picks.len() == 0 {
        Seq::empty()
    } else if picks.last() is Some {
        seq![picks.last()] + path_of(picks.drop_last(), typos, max_typos)
    } else {
        path_of(picks.drop_last(), typos + 1, max_typos)
    }
}

/// A column as a position: that of the first byte of its character, where the characters of the
/// haystack are given, and counted from `start` on.
pub open spec fn position_of(unicode_haystack: Option<Seq<u8>>, start: int, column: int) -> int {
    start + match unicode_haystack {
        Some(bytes) => char_start(bytes, column),
        None => column,
    }
}

/// A path with its columns as positions.
pub open spec fn positioned(
    path: Seq<Option<int>>,
    unicode_haystack: Option<Seq<u8>>,
    start: int,
) -> Seq<Option<usize>> {
    path.map_values(
        |entry: Option<int>|
            match entry {
                Some(column) => Some(position_of(unicode_haystack, start, column) as usize),
                None => None,
            },
    )
}

/// The positions of all matches of an alignment, the last first, counted from `start` on.
pub open spec fn indices_of(picks: Seq<Option<int>>, start: int) -> Seq<usize> {
    path_of(picks, 0, None).map_values(|entry: Option<int>| (start + entry->0) as usize)
}

/// A needle to be aligned with a haystack by a backend of `lanes` lanes that hold scores up to
/// `lane_max`. Row `i` of its score matrix belongs to byte `i` of the needle, column `j` to byte
/// `j` of the haystack. The columns come in chunks of `lanes`; past the end of the haystack they
/// stand for zero bytes.
pub struct Problem {
    pub needle: Seq<(u8, u8)>,
    pub haystack: Seq<u8>,
    pub scoring: Scoring,
    pub lanes: nat,
    pub lane_max: u16,
}

impl Problem {
    pub open spec fn byte(self, j: int) -> u8 {
        if 0 <= j < self.haystack.len() {
            self.haystack[j]
        } else {
            0
        }
    }

    /// The number of chunks that the haystack takes.
    pub open spec fn chunks(self) -> int {
        chunk_total(self.haystack.len() as int, self.lanes as int)
    }

    pub open spec fn columns(self) -> int {
        self.chunks() * self.lanes
    }

    /// Whether the byte of column `j` is taken for byte `i` of the needle.
    pub open spec fn matches_at(self, i: int, j: int) -> bool {
        0 <= i < self.needle.len() && 0 <= j && same(self.needle[i], self.byte(j))
    }

    /// What a match in column `j` is worth by its place alone.
    pub open spec fn column_bonus(self, j: int) -> int {
        let scoring = self.scoring;
        let starts = if j == 0 {
            scoring.prefix_bonus
        } else {
            0
        };
        let capital = if j > 0 && is_capital(self.byte(j)) && is_small_letter(self.byte(j - 1)) {
            scoring.capitalization_bonus
        } else {
            0
        };
        let delimited = if j > 0 && is_delimiter(self.byte(j - 1)) && !is_delimiter(self.byte(j)) {
            scoring.delimiter_bonus
        } else {
            0
        };
        starts + capital + delimited
    }

    /// What a match of byte `i` of the needle in column `j` is worth.
    pub open spec fn match_worth(self, i: int, j: int) -> int {
        let cased = if self.byte(j) == self.needle[i].0 {
            self.scoring.matching_case_bonus
        } else {
            0
        };
        self.scoring.match_score + self.column_bonus(j) + cased
    }

    /// The price of leaving a cell along a gap.
    pub open spec fn gap_price(self, after_match: bool) -> u16 {
        narrowed(
            self.scoring.gap_extend_penalty + if after_match {
                self.scoring.gap_open_penalty
            } else {
                0
            },
            self.lane_max,
        )
    }

    /// The matches of row `i` in chunk `c`, as scores with all bits set or none.
    pub open spec fn mask(self, i: int, c: int) -> Seq<u16> {
        Seq::new(
            self.lanes,
            |l: int|
                if c >= 0 && self.matches_at(i, c * self.lanes + l) {
                    self.lane_max
                } else {
                    0
                },
        )
    }

    pub open spec fn flat(self, value: u16) -> Seq<u16> {
        Seq::new(self.lanes, |l: int| narrowed(value as int, self.lane_max))
    }

    /// The way into a cell from the cell up and to the left: by a match or over a mismatch.
    pub open spec fn along(self, i: int, j: int, diagonal: u16) -> u16 {
        if self.matches_at(i, j) {
            narrowed(diagonal + self.match_worth(i, j), self.lane_max)
        } else {
            less(diagonal, narrowed(self.scoring.mismatch_penalty as int, self.lane_max))
        }
    }

    /// The way into a cell from the cell above: by leaving out a byte of the needle.
    pub open spec fn down(self, i: int, j: int, above: u16) -> u16 {
        less(above, self.gap_price(self.matches_at(i - 1, j)))
    }

    /// The better of the two ways into a cell.
    pub open spec fn entered(self, i: int, j: int, diagonal: u16, above: u16) -> u16 {
        let along = self.along(i, j, diagonal);
        let down = self.down(i, j, above);
        if along >= down {
            along
        } else {
            down
        }
    }

    /// Row `i` of the score matrix in chunk `c`. Cells outside the matrix hold zero.
    pub open spec fn row(self, i: int, c: int) -> Seq<u16>
        decreases i + 1, c + 1,
    {
        if i < 0 || c < 0 {
            Seq::new(self.lanes, |l: int| 0u16)
        } else {
            let above = self.row(i - 1, c);
            let diagonal = shifted(above, self.row(i - 1, c - 1), 1);
            propagated(
                Seq::new(
                    self.lanes,
                    |l: int| self.entered(i, c * self.lanes + l, diagonal[l], above[l]),
                ),
                self.row(i, c - 1),
                self.mask(i, c),
                self.mask(i, c - 1),
                self.flat(self.scoring.gap_open_penalty),
                self.flat(self.scoring.gap_extend_penalty),
                self.lane_max,
                1,
                gap_stages(self.lanes),
            )
        }
    }

    /// The score in row `i` and column `j`.
    pub open spec fn cell(self, i: int, j: int) -> u16 {
        if i < 0 || j < 0 {
            0
        } else {
            self.row(i, j / self.lanes as int)[j % self.lanes as int]
        }
    }

    /// The ways into the cells of a chunk from the cells up and to the left.
    pub open spec fn along_row(self, i: int, c: int) -> Seq<u16> {
        let diagonal = shifted(self.row(i - 1, c), self.row(i - 1, c - 1), 1);
        Seq::new(self.lanes, |l: int| self.along(i, c * self.lanes + l, diagonal[l]))
    }

    /// Row `i` of the score matrix in chunk `c` after some of the stages in which gaps are carried
    /// along it. After none of them it holds how its cells are entered.
    pub open spec fn staged(self, i: int, c: int, stages: nat) -> Seq<u16> {
        let above = self.row(i - 1, c);
        let diagonal = shifted(above, self.row(i - 1, c - 1), 1);
        propagated(
            Seq::new(
                self.lanes,
                |l: int| self.entered(i, c * self.lanes + l, diagonal[l], above[l]),
            ),
            self.row(i, c - 1),
            self.mask(i, c),
            self.mask(i, c - 1),
            self.flat(self.scoring.gap_open_penalty),
            self.flat(self.scoring.gap_extend_penalty),
            self.lane_max,
            1,
            stages,
        )
    }

    /// The score in row `i` and column `j` after some of the stages.
    pub open spec fn staged_cell(self, i: int, j: int, stages: nat) -> u16 {
        self.staged(i, j / self.lanes as int, stages)[j % self.lanes as int]
    }

    /// The best score of the last row in its first `chunks` chunks.
    pub open spec fn best(self, chunks: int) -> u16
        decreases chunks,
    {
        if chunks <= 0 {
            0
        } else {
            let here = highest(self.row(self.needle.len() - 1, chunks - 1));
            let rest = self.best(chunks - 1);
            if here >= rest {
                here
            } else {
                rest
            }
        }
    }

    /// The score of the needle in the haystack.
    pub open spec fn score(self) -> u16 {
        if self.needle.len() == 0 {
            0
        } else {
            self.best(self.chunks())
        }
    }

    /// The first column from `from` on in which row `i` holds `score`, or -1.
    pub open spec fn first_column(self, i: int, score: u16, from: int) -> int
        decreases self.columns() - from,
    {
        if from >= self.columns() {
            -1
        } else if self.cell(i, from) == score {
            from
        } else {
            self.first_column(i, score, from + 1)
        }
    }

    /// The alignment of the first `rows` bytes of the needle that ends in the first column in
    /// which the last of them holds `score`. Without such a column nothing is aligned.
    pub open spec fn alignment(self, rows: int, score: u16) -> Seq<Option<int>> {
        self.traced(
            rows - 1,
            self.first_column(rows - 1, narrowed(score as int, self.lane_max), 0),
        )
    }

    /// The score of the needle where its alignment leaves at most `max_typos` bytes unmatched.
    pub open spec fn matched(self, max_typos: Option<u16>) -> Option<u16> {
        if max_typos is None || deletions(self.alignment(self.needle.len() as int, self.score()))
            <= max_typos->0 {
            Some(self.score())
        } else {
            None
        }
    }

    /// Whether a cell is entered from the cell up and to the left, not from the one above.
    pub open spec fn comes_along(self, i: int, j: int) -> bool {
        self.along(i, j, self.cell(i - 1, j - 1)) >= self.down(i, j, self.cell(i - 1, j))
    }

    /// Whether a cell is entered by a match.
    pub open spec fn taken(self, i: int, j: int) -> bool {
        self.matches_at(i, j) && self.comes_along(i, j)
    }

    /// The alignment that ends in row `i` and column `j`: for each of the rows up to `i` the
    /// column of its match, or nothing. From every cell the path goes back to where its score
    /// came from. It starts where the score is zero.
    pub open spec fn traced(self, i: int, j: int) -> Seq<Option<int>> {
        self.traced_from(i, j, gap_stages(self.lanes))
    }

    /// The alignment that gives row `i` and column `j` their score after some of the stages. A
    /// score that the last of them changed was carried from a cell to the left: one of the same
    /// chunk as the stages before had left it, or one of the chunk before.
    pub open spec fn traced_from(self, i: int, j: int, stages: nat) -> Seq<Option<int>>
        decreases i + 1, j + 1, stages,
    {
        let hop = pow2((stages - 1) as nat) as int;
        let here = self.staged_cell(i, j, stages);
        if i < 0 {
            Seq::empty()
        } else if j < 0 || here == 0 {
            Seq::new((i + 1) as nat, |k: int| None)
        } else if stages > 0 {
            proof {
                lemma_pow2_pos((stages - 1) as nat);
            }
            if here == self.staged_cell(i, j, (stages - 1) as nat) {
                self.traced_from(i, j, (stages - 1) as nat)
            } else if hop <= j % self.lanes as int && hop <= j {
                self.traced_from(i, j - hop, (stages - 1) as nat)
            } else if hop <= j {
                self.traced_from(i, j - hop, gap_stages(self.lanes))
            } else {
                Seq::new((i + 1) as nat, |k: int| None)
            }
        } else if self.taken(i, j) {
            self.traced_from(i - 1, j - 1, gap_stages(self.lanes)).push(Some(j))
        } else if self.comes_along(i, j) {
            self.traced_from(i - 1, j - 1, gap_stages(self.lanes)).push(None)
        } else {
            self.traced_from(i - 1, j, gap_stages(self.lanes)).push(None)
        }
    }
}

// ---------------------------------------------------------------------------------------------
// Laws.
// ---------------------------------------------------------------------------------------------
/// What a match is worth: the score of a match, and a bonus each for the first byte of the
/// haystack, for a capital behind a small letter, for a byte behind one of the seven delimiters
/// that is none itself, and for the case of the needle.
pub proof fn lemma_worth_of_match(p: Problem, i: int, j: int)
    requires
        0 <= i < p.needle.len(),
        0 <= j < p.haystack.len(),
    ensures
        ({
            let delimiters = seq![0x20u8, 0x2c, 0x2d, 0x2e, 0x2f, 0x3a, 0x5f];
            let byte = p.haystack[j];
            let first = j == 0;
            let camel = j > 0 && 0x41 <= byte <= 0x5a && 0x61 <= p.haystack[j - 1] <= 0x7a;
            let word = j > 0 && delimiters.contains(p.haystack[j - 1]) && !delimiters.contains(
                byte,
            );
            let own_case = byte == p.needle[i].0;
            p.match_worth(i, j) == p.scoring.match_score + (if first {
                p.scoring.prefix_bonus as int
            } else {
                0
            }) + (if camel {
                p.scoring.capitalization_bonus as int
            } else {
                0
            }) + (if word {
                p.scoring.delimiter_bonus as int
            } else {
                0
            }) + (if own_case {
                p.scoring.matching_case_bonus as int
            } else {
                0
            })
        }),
{
    lemma_delimiters(p.haystack[j]);
    if j > 0 {
        lemma_delimiters(p.haystack[j - 1]);
    }
}

/// The delimiters are seven bytes.
pub proof fn lemma_delimiters(byte: u8)
    ensures
        is_delimiter(byte) <==> seq![0x20u8, 0x2c, 0x2d, 0x2e, 0x2f, 0x3a, 0x5f].contains(byte),
{
    let delimiters = seq![0x20u8, 0x2c, 0x2d, 0x2e, 0x2f, 0x3a, 0x5f];
    assert(delimiters[0] == 0x20 && delimiters[1] == 0x2c && delimiters[2] == 0x2d
        && delimiters[3] == 0x2e && delimiters[4] == 0x2f && delimiters[5] == 0x3a
        && delimiters[6] == 0x5f);
}

/// A byte of the haystack is a match of a byte of the needle exactly if it is one of its two forms.
pub proof fn lemma_place_of_match(p: Problem, i: int, j: int)
    requires
        0 <= i < p.needle.len(),
        0 <= j < p.haystack.len(),
    ensures
        p.matches_at(i, j) <==> p.haystack[j] == p.needle[i].0 || p.haystack[j] == p.needle[i].1,
{
}

/// The reported position of a column of which the characters are given is where its character
/// begins: every byte behind that, up to the column, continues a character, and that byte does
/// not, unless it is the first of all. Without characters it is the column itself.
pub proof fn lemma_position_is_start_of_char(bytes: Seq<u8>, start: int, column: int)
    requires
        0 <= column < bytes.len(),
    ensures
        position_of(None, start, column) == start + column,
        ({
            let first = position_of(Some(bytes), start, column) - start;
            &&& 0 <= first <= column
            &&& first == 0 || !(0x80 <= bytes[first] <= 0xbf)
            &&& forall|k: int| first < k <= column ==> 0x80 <= #[trigger] bytes[k] <= 0xbf
        }),
    decreases column,
{
    if column > 0 && is_continuation(bytes[column]) {
        lemma_position_is_start_of_char(bytes, start, column - 1);
    }
}

/// A path with more typos than may be is cut where the last of the bytes that may go unmatched is
/// exceeded, counted from the end: the matches behind that place are reported, and an empty entry.
pub proof fn lemma_path_is_cut(picks: Seq<Option<int>>, typos: int, max_typos: u16)
    requires
        0 <= typos <= max_typos,
        typos + deletions(picks) > max_typos,
    ensures
        exists|cut: int|
            #![trigger picks.skip(cut)]
            {
                &&& 0 <= cut < picks.len()
                &&& picks[cut] is None
                &&& typos + deletions(picks.skip(cut)) == max_typos + 1
                &&& path_of(picks, typos, Some(max_typos)) == path_of(
                    picks.skip(cut),
                    0,
                    None,
                ).push(None)
            },
    decreases picks.len(),
{
    let last = picks.len() - 1;
    let front = picks.drop_last();
    if picks[last] is None && typos == max_typos {
        let rest = picks.skip(last);
        assert(rest =~= seq![None::<int>]);
        assert(rest.drop_last() =~= Seq::<Option<int>>::empty());
        reveal_with_fuel(deletions, 3);
        reveal_with_fuel(path_of, 3);
        assert(path_of(picks, typos, Some(max_typos)) =~= path_of(rest, 0, None).push(None));
    } else {
        let more = if picks[last] is None {
            typos + 1
        } else {
            typos
        };
        lemma_path_is_cut(front, more, max_typos);
        let cut = choose|cut: int|
            #![trigger front.skip(cut)]
            {
                &&& 0 <= cut < front.len()
                &&& front[cut] is None
                &&& more + deletions(front.skip(cut)) == max_typos + 1
                &&& path_of(front, more, Some(max_typos)) == path_of(
                    front.skip(cut),
                    0,
                    None,
                ).push(None)
            };
        let rest = picks.skip(cut);
        assert(rest.drop_last() =~= front.skip(cut));
        assert(rest.last() == picks[last]);
        lemma_typos_do_not_matter(front.skip(cut), 1);
        assert(path_of(picks, typos, Some(max_typos)) =~= path_of(rest, 0, None).push(None));
    }
}

proof fn lemma_typos_do_not_matter(picks: Seq<Option<int>>, typos: int)
    ensures
        path_of(picks, typos, None) == path_of(picks, 0, None),
    decreases picks.len(),
{
    if picks.len() > 0 {
        lemma_typos_do_not_matter(picks.drop_last(), typos);
        lemma_typos_do_not_matter(picks.drop_last(), typos + 1);
        lemma_typos_do_not_matter(picks.drop_last(), 1);
    }
}

/// The entries of a path are reported one for one: the column of each, counted from `start` on, or
/// where the characters of the haystack are given, the first byte of its character. An empty entry
/// stays empty.
pub proof fn lemma_reported_positions(
    path: Seq<Option<int>>,
    bytes: Seq<u8>,
    start: int,
    k: int,
)
    requires
        0 <= k < path.len(),
        path[k] is Some ==> 0 <= path[k]->0 < bytes.len(),
        0 <= start,
        start + bytes.len() <= usize::MAX,
    ensures
        positioned(path, None, start).len() == path.len(),
        positioned(path, Some(bytes), start).len() == path.len(),
        path[k] is None ==> positioned(path, None, start)[k] is None,
        path[k] is None ==> positioned(path, Some(bytes), start)[k] is None,
        path[k] is Some ==> {
            let column = path[k]->0;
            let reported = positioned(path, Some(bytes), start)[k];
            &&& positioned(path, None, start)[k] is Some
            &&& positioned(path, None, start)[k]->0 == start + column
            &&& reported is Some
            &&& start <= reported->0 <= start + column
            &&& reported->0 == start || !(0x80 <= bytes[reported->0 - start] <= 0xbf)
            &&& forall|at: int|
                reported->0 - start < at <= column ==> 0x80 <= #[trigger] bytes[at] <= 0xbf
        },
{
    if path[k] is Some {
        lemma_position_is_start_of_char(bytes, start, path[k]->0);
    }
}

/// A match adds what it is worth to the score of the cell that it comes from; what a lane cannot
/// hold counts round. A mismatch takes its price, and leaves nothing where that is more.
pub proof fn lemma_way_along(p: Problem, i: int, j: int, diagonal: u16)
    requires
        p.lane_max == 0xff || p.lane_max == 0xffff,
        0 <= i < p.needle.len(),
        p.scoring.mismatch_penalty <= p.lane_max,
    ensures
        p.matches_at(i, j) ==> (diagonal + p.match_worth(i, j) - p.along(i, j, diagonal)) % (
        p.lane_max + 1) == 0 && p.along(i, j, diagonal) <= p.lane_max,
        !p.matches_at(i, j) && diagonal >= p.scoring.mismatch_penalty ==> p.along(i, j, diagonal)
            + p.scoring.mismatch_penalty == diagonal,
        !p.matches_at(i, j) && diagonal < p.scoring.mismatch_penalty ==> p.along(i, j, diagonal)
            == 0,
{
}

} // verus!
