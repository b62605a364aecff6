//! Vector backends of the Smith-Waterman kernel.
//!
//! A backend fixes the number of lanes of a vector and the width of a score lane, and names
//! three vector types: [`BytesVec`] for haystack bytes, [`MaskVec`] for the outcome of a
//! comparison and [`ScoreVec`] for one chunk of a row of the score matrix. Every operation is
//! specified lane by lane, so the kernel, which is generic over [`Backend`], is proved once for
//! all of them.
use vstd::prelude::*;

use crate::gaps::{gap_stages, propagated};

verus! {

/// What is left of `value` in a score lane whose greatest value is `lane_max`: its low eight
/// bits, or its low sixteen.
pub open spec fn narrowed(value: int, lane_max: u16) -> u16 {
    if lane_max == 0xff {
        (value % 0x100) as u16
    } else {
        (value % 0x1_0000) as u16
    }
}

/// The lanes of `lanes` moved up by `by`, the low ones filled with the high lanes of `prev`.
pub open spec fn shifted<A>(lanes: Seq<A>, prev: Seq<A>, by: int) -> Seq<A> {
    Seq::new(
        lanes.len(),
        |i: int|
            if i < by {
                prev[lanes.len() - by + i]
            } else {
                lanes[i - by]
            },
    )
}

/// Moving up by no lane changes nothing, and by all lanes leaves those of `prev`.
pub proof fn lemma_shifted_ends<A>(lanes: Seq<A>, prev: Seq<A>)
    requires
        prev.len() == lanes.len(),
    ensures
        shifted(lanes, prev, 0) == lanes,
        shifted(lanes, prev, lanes.len() as int) == prev,
{
    assert(shifted(lanes, prev, 0) =~= lanes);
    assert(shifted(lanes, prev, lanes.len() as int) =~= prev);
}

/// The chunk of `lane_count` bytes of `data` that begins at `start`, zero past the end of `data`.
pub open spec fn padded_chunk(data: Seq<u8>, start: int, lane_count: nat) -> Seq<u8> {
    Seq::new(
        lane_count,
        |i: int|
            if start + i < data.len() {
                data[start + i]
            } else {
                0u8
            },
    )
}

/// A vector backend of the Smith-Waterman kernel.
///
/// `LANES` is the number of cells of a chunk of the score matrix, `LANE_BYTES` the size of a
/// cell in bytes: 1 where a score is kept in a `u8`, 2 where it is kept in a `u16`.
pub trait Backend: Sized + core::fmt::Debug + Clone + 'static {
    const LANES: usize;

    const LANE_BYTES: usize;

    type Bytes: BytesVec<Mask = Self::Mask>;

    type Mask: MaskVec;

    type Score: ScoreVec;

    /// The three vector types of a backend have its lanes, and its scores have its width.
    proof fn lemma_widths()
        ensures
            0 < Self::LANES <= 64,
            Self::Bytes::lane_count() == Self::LANES,
            Self::Mask::lane_count() == Self::LANES,
            Self::Score::lane_count() == Self::LANES,
            Self::LANE_BYTES == 1 <==> Self::Score::lane_max() == 0xff,
            Self::LANE_BYTES == 2 <==> Self::Score::lane_max() == 0xffff,
            Self::Score::lane_max() == 0xff || Self::Score::lane_max() == 0xffff,
    ;

    /// The number of lanes.
    fn lanes() -> (out: usize)
        ensures
            out == Self::LANES,
    ;

    /// Whether the machine has what the backend needs.
    fn is_available() -> bool;

    /// Widens a mask to scores: all bits of a lane set where the mask holds, none elsewhere.
    fn widen_mask(m: Self::Mask) -> (out: Self::Score)
        ensures
            out.lanes().len() == Self::LANES,
            forall|i: int|
                0 <= i < Self::LANES ==> #[trigger] out.lanes()[i] == if m.lanes()[i] {
                    Self::Score::lane_max()
                } else {
                    0
                },
    ;

    /// Carries scores to the right along a row of the matrix, each step to the right at the
    /// price of a gap. The shifts double from stage to stage: 1, 2, 4 for eight lanes, and one
    /// stage more for every doubling of the lanes.
    fn propagate_horizontal_gaps(
        row: Self::Score,
        adjacent_row: Self::Score,
        match_mask: Self::Score,
        adjacent_match_mask: Self::Score,
        gap_open_penalty: Self::Score,
        gap_extend_penalty: Self::Score,
    ) -> (out: Self::Score)
        ensures
            out.lanes() == propagated(
                row.lanes(),
                adjacent_row.lanes(),
                match_mask.lanes(),
                adjacent_match_mask.lanes(),
                gap_open_penalty.lanes(),
                gap_extend_penalty.lanes(),
                Self::Score::lane_max(),
                1,
                gap_stages(Self::LANES as nat),
            ),
    ;
}

/// A vector of haystack bytes.
pub trait BytesVec: Copy + core::fmt::Debug {
    /// The type of the outcome of a comparison.
    type Mask: MaskVec;

    spec fn lanes(self) -> Seq<u8>;

    spec fn lane_count() -> nat;

    proof fn lemma_lanes(self)
        ensures
            self.lanes().len() == Self::lane_count(),
    ;

    /// `value` in every lane.
    fn splat(value: u8) -> (out: Self)
        ensures
            out.lanes() == Seq::new(Self::lane_count(), |i: int| value),
    ;

    /// Holds in the lanes where the bytes are equal.
    fn eq(self, other: Self) -> (out: Self::Mask)
        ensures
            out.lanes() == Seq::new(
                Self::lane_count(),
                |i: int| self.lanes()[i] == other.lanes()[i],
            ),
    ;

    /// Holds in the lanes where the byte of `self` is the greater.
    fn gt(self, other: Self) -> (out: Self::Mask)
        ensures
            out.lanes() == Seq::new(
                Self::lane_count(),
                |i: int| self.lanes()[i] > other.lanes()[i],
            ),
    ;

    /// Holds in the lanes where the byte of `self` is the lesser.
    fn lt(self, other: Self) -> (out: Self::Mask)
        ensures
            out.lanes() == Seq::new(
                Self::lane_count(),
                |i: int| self.lanes()[i] < other.lanes()[i],
            ),
    ;

    /// Loads a chunk of `data` that begins at `start`. Lanes past the end of `data` are zero.
    fn load_partial(data: &[u8], start: usize) -> (out: Self)
        ensures
            out.lanes() == padded_chunk(data@, start as int, Self::lane_count()),
    ;

    fn from_lanes(values: &[u8]) -> (out: Self)
        requires
            values@.len() == Self::lane_count(),
        ensures
            out.lanes() == values@,
    ;

    fn to_lanes(self) -> (out: Vec<u8>)
        ensures
            out@ == self.lanes(),
    ;
}

/// A truth value per lane.
pub trait MaskVec: Copy + core::fmt::Debug {
    spec fn lanes(self) -> Seq<bool>;

    spec fn lane_count() -> nat;

    proof fn lemma_lanes(self)
        ensures
            self.lanes().len() == Self::lane_count(),
    ;

    /// False in every lane.
    fn zero() -> (out: Self)
        ensures
            out.lanes() == Seq::new(Self::lane_count(), |i: int| false),
    ;

    fn and(self, other: Self) -> (out: Self)
        ensures
            out.lanes() == Seq::new(
                Self::lane_count(),
                |i: int| self.lanes()[i] && other.lanes()[i],
            ),
    ;

    fn or(self, other: Self) -> (out: Self)
        ensures
            out.lanes() == Seq::new(
                Self::lane_count(),
                |i: int| self.lanes()[i] || other.lanes()[i],
            ),
    ;

    fn not(self) -> (out: Self)
        ensures
            out.lanes() == Seq::new(Self::lane_count(), |i: int| !self.lanes()[i]),
    ;

    /// Moves every lane up by one, the lowest filled with the highest lane of `prev`.
    fn shift_right_padded_1(self, prev: Self) -> (out: Self)
        requires
            Self::lane_count() > 0,
        ensures
            out.lanes() == shifted(self.lanes(), prev.lanes(), 1),
    ;

    /// The truth value in one lane.
    fn test(self, lane: usize) -> (out: bool)
        requires
            lane < Self::lane_count(),
        ensures
            out == self.lanes()[lane as int],
    ;

    fn from_lanes(values: &[bool]) -> (out: Self)
        requires
            values@.len() == Self::lane_count(),
        ensures
            out.lanes() == values@,
    ;

    fn to_lanes(self) -> (out: Vec<bool>)
        ensures
            out@ == self.lanes(),
    ;
}

/// A score per lane. A backend keeps a score in a `u8` or in a `u16`: `lane_max` is the greatest
/// value of a lane, and a value that goes into a lane loses the bits above it.
pub trait ScoreVec: Copy + core::fmt::Debug {
    spec fn lanes(self) -> Seq<u16>;

    spec fn lane_count() -> nat;

    spec fn lane_max() -> u16;

    proof fn lemma_lanes(self)
        ensures
            self.lanes().len() == Self::lane_count(),
            forall|i: int| 0 <= i < Self::lane_count() ==> #[trigger] self.lanes()[i] <= Self::lane_max(),
    ;

    fn zero() -> (out: Self)
        ensures
            out.lanes() == Seq::new(Self::lane_count(), |i: int| 0u16),
    ;

    /// `value` in every lane.
    fn splat(value: u16) -> (out: Self)
        ensures
            out.lanes() == Seq::new(
                Self::lane_count(),
                |i: int| narrowed(value as int, Self::lane_max()),
            ),
    ;

    /// `value` in the lowest lane, zero in the others.
    fn first_lane(value: u16) -> (out: Self)
        requires
            Self::lane_count() > 0,
        ensures
            out.lanes() == Seq::new(
                Self::lane_count(),
                |i: int|
                    if i == 0 {
                        narrowed(value as int, Self::lane_max())
                    } else {
                        0
                    },
            ),
    ;

    /// The greater of two scores, lane by lane.
    fn max(self, other: Self) -> (out: Self)
        ensures
            out.lanes() == Seq::new(
                Self::lane_count(),
                |i: int|
                    if self.lanes()[i] >= other.lanes()[i] {
                        self.lanes()[i]
                    } else {
                        other.lanes()[i]
                    },
            ),
    ;

    /// The greatest score of all lanes.
    fn horizontal_max(self) -> (out: u16)
        requires
            Self::lane_count() > 0,
        ensures
            self.lanes().contains(out),
            forall|i: int| 0 <= i < Self::lane_count() ==> #[trigger] self.lanes()[i] <= out,
    ;

    /// The sum, lane by lane, without the bits above the lane.
    fn add(self, other: Self) -> (out: Self)
        ensures
            out.lanes() == Seq::new(
                Self::lane_count(),
                |i: int| narrowed(self.lanes()[i] + other.lanes()[i], Self::lane_max()),
            ),
    ;

    /// The difference, lane by lane, zero where it would be negative.
    fn subs(self, other: Self) -> (out: Self)
        ensures
            out.lanes() == Seq::new(
                Self::lane_count(),
                |i: int|
                    if self.lanes()[i] >= other.lanes()[i] {
                        (self.lanes()[i] - other.lanes()[i]) as u16
                    } else {
                        0
                    },
            ),
    ;

    /// Bitwise and, lane by lane.
    fn and(self, other: Self) -> (out: Self)
        ensures
            out.lanes() == Seq::new(
                Self::lane_count(),
                |i: int| self.lanes()[i] & other.lanes()[i],
            ),
    ;

    /// Moves every lane up by `L`, the low ones filled with the high lanes of `prev`. With `L`
    /// equal to the number of lanes, that is `prev`.
    fn shift_right_padded<const L: usize>(self, prev: Self) -> (out: Self)
        requires
            L <= Self::lane_count(),
        ensures
            out.lanes() == shifted(self.lanes(), prev.lanes(), L as int),
    ;

    /// The lowest lane that holds `search`, or the number of lanes where none does.
    fn find_lane(self, search: u16) -> (out: usize)
        ensures
            out <= Self::lane_count(),
            out < Self::lane_count() ==> self.lanes()[out as int] == narrowed(
                search as int,
                Self::lane_max(),
            ),
            forall|i: int|
                0 <= i < out ==> #[trigger] self.lanes()[i] != narrowed(
                    search as int,
                    Self::lane_max(),
                ),
    ;

    /// The score in one lane.
    fn extract(self, lane: usize) -> (out: u16)
        requires
            lane < Self::lane_count(),
        ensures
            out == self.lanes()[lane as int],
    ;

    fn from_lanes(values: &[u16]) -> (out: Self)
        requires
            values@.len() == Self::lane_count(),
        ensures
            out.lanes() == Seq::new(
                Self::lane_count(),
                |i: int| narrowed(values@[i] as int, Self::lane_max()),
            ),
    ;

    fn to_lanes(self) -> (out: Vec<u16>)
        ensures
            out@ == self.lanes(),
    ;
}

// ---------------------------------------------------------------------------------------------
// Laws.
// ---------------------------------------------------------------------------------------------
/// A lane holds what fits in it, and counts round where something does not.
pub proof fn lemma_lane_counts_round(value: int, lane_max: u16)
    requires
        lane_max == 0xff || lane_max == 0xffff,
        0 <= value,
    ensures
        value <= lane_max ==> narrowed(value, lane_max) == value,
        narrowed(value, lane_max) <= lane_max,
        narrowed(value + lane_max + 1, lane_max) == narrowed(value, lane_max),
{
}

/// Lanes that are moved up are a stretch of the two rows laid end to end.
pub proof fn lemma_shifted_is_stretch<A>(lanes: Seq<A>, prev: Seq<A>, by: int)
    requires
        prev.len() == lanes.len(),
        0 <= by <= lanes.len(),
    ensures
        shifted(lanes, prev, by) == (prev + lanes).subrange(
            lanes.len() - by,
            2 * lanes.len() - by,
        ),
{
    assert(shifted(lanes, prev, by) =~= (prev + lanes).subrange(
        lanes.len() - by,
        2 * lanes.len() - by,
    ));
}

/// A chunk is a stretch of the data with zeros behind it.
pub proof fn lemma_chunk_is_stretch(data: Seq<u8>, start: int, lane_count: nat)
    requires
        0 <= start <= data.len(),
    ensures
        padded_chunk(data, start, lane_count) == (data + Seq::new(
            lane_count,
            |i: int| 0u8,
        )).subrange(start, start + lane_count),
{
    assert(padded_chunk(data, start, lane_count) =~= (data + Seq::new(
        lane_count,
        |i: int| 0u8,
    )).subrange(start, start + lane_count));
}

} // verus!
