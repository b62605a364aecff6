//! Backends that keep a vector in an array and work on it lane by lane.
use vstd::prelude::*;

use crate::backend::{narrowed, padded_chunk, shifted, Backend, BytesVec, MaskVec, ScoreVec};
use crate::gaps::{
    gap_stages, propagate_16_lane, propagate_32_lane, propagate_64_lane, propagate_8_lane,
};

verus! {

/// Haystack bytes in an array.
#[derive(Debug, Clone, Copy)]
pub struct ScalarBytes<const LANES: usize>(pub [u8; LANES]);

/// Truth values in an array.
#[derive(Debug, Clone, Copy)]
pub struct ScalarMask<const LANES: usize>(pub [bool; LANES]);

/// Scores of sixteen bits in an array.
#[derive(Debug, Clone, Copy)]
pub struct ScalarScoreU16<const LANES: usize>(pub [u16; LANES]);

/// Scores of eight bits in an array.
#[derive(Debug, Clone, Copy)]
pub struct ScalarScoreU8<const LANES: usize>(pub [u8; LANES]);

/// The same value in every lane.
fn filled<T: Copy, const LANES: usize>(value: T) -> (out: [T; LANES])
    ensures
        forall|i: int| 0 <= i < LANES ==> #[trigger] out@[i] == value,
{
    let mut out: [T; LANES] = [value; LANES];
    for i in 0..LANES
        invariant
            forall|j: int| 0 <= j < i ==> #[trigger] out@[j] == value,
    {
        out[i] = value;
    }
    out
}

impl<const LANES: usize> BytesVec for ScalarBytes<LANES> {
    type Mask = ScalarMask<LANES>;

    open spec fn lanes(self) -> Seq<u8> {
        self.0@
    }

    open spec fn lane_count() -> nat {
        LANES as nat
    }

    proof fn lemma_lanes(self) {
    }

    fn splat(value: u8) -> (out: Self) {
        let out = Self(filled(value));
        assert(out.lanes() =~= Seq::new(Self::lane_count(), |i: int| value));
        out
    }

    fn eq(self, other: Self) -> (out: ScalarMask<LANES>) {
        let mut out: [bool; LANES] = [false; LANES];
        for i in 0..LANES
            invariant
                forall|j: int| 0 <= j < i ==> #[trigger] out@[j] == (self.0@[j] == other.0@[j]),
        {
            out[i] = self.0[i] == other.0[i];
        }
        let out = ScalarMask(out);
        assert(out.lanes() =~= Seq::new(
            Self::lane_count(),
            |i: int| self.lanes()[i] == other.lanes()[i],
        ));
        out
    }

    fn gt(self, other: Self) -> (out: ScalarMask<LANES>) {
        let mut out: [bool; LANES] = [false; LANES];
        for i in 0..LANES
            invariant
                forall|j: int| 0 <= j < i ==> #[trigger] out@[j] == (self.0@[j] > other.0@[j]),
        {
            out[i] = self.0[i] > other.0[i];
        }
        let out = ScalarMask(out);
        assert(out.lanes() =~= Seq::new(
            Self::lane_count(),
            |i: int| self.lanes()[i] > other.lanes()[i],
        ));
        out
    }

    fn lt(self, other: Self) -> (out: ScalarMask<LANES>) {
        let mut out: [bool; LANES] = [false; LANES];
        for i in 0..LANES
            invariant
                forall|j: int| 0 <= j < i ==> #[trigger] out@[j] == (self.0@[j] < other.0@[j]),
        {
            out[i] = self.0[i] < other.0[i];
        }
        let out = ScalarMask(out);
        assert(out.lanes() =~= Seq::new(
            Self::lane_count(),
            |i: int| self.lanes()[i] < other.lanes()[i],
        ));
        out
    }

    fn load_partial(data: &[u8], start: usize) -> (out: Self) {
        let mut out: [u8; LANES] = [0; LANES];
        for i in 0..LANES
            invariant
                forall|j: int|
                    0 <= j < LANES ==> #[trigger] out@[j] == (if j < i && start + j < data@.len() {
                        data@[start + j]
                    } else {
                        0
                    }),
        {
            if start < data.len() && i < data.len() - start {
                out[i] = data[start + i];
            }
        }
        let out = Self(out);
        assert(out.lanes() =~= padded_chunk(data@, start as int, Self::lane_count()));
        out
    }

    fn from_lanes(values: &[u8]) -> (out: Self) {
        let mut out: [u8; LANES] = [0; LANES];
        for i in 0..LANES
            invariant
                values@.len() == LANES,
                forall|j: int| 0 <= j < i ==> #[trigger] out@[j] == values@[j],
        {
            out[i] = values[i];
        }
        let out = Self(out);
        assert(out.lanes() =~= values@);
        out
    }

    fn to_lanes(self) -> (out: Vec<u8>) {
        let mut out: Vec<u8> = Vec::new();
        for i in 0..LANES
            invariant
                out@.len() == i,
                forall|j: int| 0 <= j < i ==> #[trigger] out@[j] == self.0@[j],
        {
            out.push(self.0[i]);
        }
        assert(out@ =~= self.lanes());
        out
    }
}

impl<const LANES: usize> MaskVec for ScalarMask<LANES> {
    open spec fn lanes(self) -> Seq<bool> {
        self.0@
    }

    open spec fn lane_count() -> nat {
        LANES as nat
    }

    proof fn lemma_lanes(self) {
    }

    fn zero() -> (out: Self) {
        let out = Self(filled(false));
        assert(out.lanes() =~= Seq::new(Self::lane_count(), |i: int| false));
        out
    }

    fn and(self, other: Self) -> (out: Self) {
        let mut out: [bool; LANES] = [false; LANES];
        for i in 0..LANES
            invariant
                forall|j: int| 0 <= j < i ==> #[trigger] out@[j] == (self.0@[j] && other.0@[j]),
        {
            out[i] = self.0[i] && other.0[i];
        }
        let out = Self(out);
        assert(out.lanes() =~= Seq::new(
            Self::lane_count(),
            |i: int| self.lanes()[i] && other.lanes()[i],
        ));
        out
    }

    fn or(self, other: Self) -> (out: Self) {
        let mut out: [bool; LANES] = [false; LANES];
        for i in 0..LANES
            invariant
                forall|j: int| 0 <= j < i ==> #[trigger] out@[j] == (self.0@[j] || other.0@[j]),
        {
            out[i] = self.0[i] || other.0[i];
        }
        let out = Self(out);
        assert(out.lanes() =~= Seq::new(
            Self::lane_count(),
            |i: int| self.lanes()[i] || other.lanes()[i],
        ));
        out
    }

    fn not(self) -> (out: Self) {
        let mut out: [bool; LANES] = [false; LANES];
        for i in 0..LANES
            invariant
                forall|j: int| 0 <= j < i ==> #[trigger] out@[j] == (!self.0@[j]),
        {
            out[i] = !self.0[i];
        }
        let out = Self(out);
        assert(out.lanes() =~= Seq::new(Self::lane_count(), |i: int| !self.lanes()[i]));
        out
    }

    fn shift_right_padded_1(self, prev: Self) -> (out: Self) {
        let mut out: [bool; LANES] = [false; LANES];
        out[0] = prev.0[LANES - 1];
        for i in 1..LANES
            invariant
                out@[0] == prev.0@[LANES - 1],
                forall|j: int| 1 <= j < i ==> #[trigger] out@[j] == self.0@[j - 1],
        {
            out[i] = self.0[i - 1];
        }
        let out = Self(out);
        assert(out.lanes() =~= shifted(self.lanes(), prev.lanes(), 1));
        out
    }

    fn test(self, lane: usize) -> (out: bool) {
        self.0[lane]
    }

    fn from_lanes(values: &[bool]) -> (out: Self) {
        let mut out: [bool; LANES] = [false; LANES];
        for i in 0..LANES
            invariant
                values@.len() == LANES,
                forall|j: int| 0 <= j < i ==> #[trigger] out@[j] == values@[j],
        {
            out[i] = values[i];
        }
        let out = Self(out);
        assert(out.lanes() =~= values@);
        out
    }

    fn to_lanes(self) -> (out: Vec<bool>) {
        let mut out: Vec<bool> = Vec::new();
        for i in 0..LANES
            invariant
                out@.len() == i,
                forall|j: int| 0 <= j < i ==> #[trigger] out@[j] == self.0@[j],
        {
            out.push(self.0[i]);
        }
        assert(out@ =~= self.lanes());
        out
    }
}

impl<const LANES: usize> ScoreVec for ScalarScoreU16<LANES> {
    open spec fn lanes(self) -> Seq<u16> {
        self.0@
    }

    open spec fn lane_count() -> nat {
        LANES as nat
    }

    open spec fn lane_max() -> u16 {
        0xffff
    }

    proof fn lemma_lanes(self) {
    }

    fn zero() -> (out: Self) {
        let out = Self(filled(0));
        assert(out.lanes() =~= Seq::new(Self::lane_count(), |i: int| 0u16));
        out
    }

    fn splat(value: u16) -> (out: Self) {
        let out = Self(filled(value));
        assert(out.lanes() =~= Seq::new(
            Self::lane_count(),
            |i: int| narrowed(value as int, Self::lane_max()),
        ));
        out
    }

    fn first_lane(value: u16) -> (out: Self) {
        let mut out: [u16; LANES] = filled(0);
        out[0] = value;
        let out = Self(out);
        assert(out.lanes() =~= Seq::new(
            Self::lane_count(),
            |i: int|
                if i == 0 {
                    narrowed(value as int, Self::lane_max())
                } else {
                    0
                },
        ));
        out
    }

    fn max(self, other: Self) -> (out: Self) {
        let mut out: [u16; LANES] = [0; LANES];
        for i in 0..LANES
            invariant
                forall|j: int| 0 <= j < i ==> #[trigger] out@[j] == (if self.0@[j] >= other.0@[j] { self.0@[j] } else { other.0@[j] }),
        {
            out[i] = if self.0[i] >= other.0[i] { self.0[i] } else { other.0[i] };
        }
        let out = Self(out);
        assert(out.lanes() =~= Seq::new(
            Self::lane_count(),
            |i: int|
                if self.lanes()[i] >= other.lanes()[i] {
                    self.lanes()[i]
                } else {
                    other.lanes()[i]
                },
        ));
        out
    }

    fn horizontal_max(self) -> (out: u16) {
        let mut best: u16 = self.0[0];
        let mut at: usize = 0;
        for i in 1..LANES
            invariant
                at < i,
                at < LANES,
                best == self.0@[at as int],
                forall|j: int| 0 <= j < i ==> #[trigger] self.0@[j] <= best,
        {
            if self.0[i] > best {
                best = self.0[i];
                at = i;
            }
        }
        assert(self.lanes()[at as int] == best);
        best
    }

    fn add(self, other: Self) -> (out: Self) {
        let mut out: [u16; LANES] = [0; LANES];
        for i in 0..LANES
            invariant
                forall|j: int| 0 <= j < i ==> #[trigger] out@[j] == ((self.0@[j] + other.0@[j]) % 0x10000),
        {
            out[i] = self.0[i].wrapping_add(other.0[i]);
        }
        let out = Self(out);
        assert(out.lanes() =~= Seq::new(
            Self::lane_count(),
            |i: int| narrowed(self.lanes()[i] + other.lanes()[i], Self::lane_max()),
        ));
        out
    }

    fn subs(self, other: Self) -> (out: Self) {
        let mut out: [u16; LANES] = [0; LANES];
        for i in 0..LANES
            invariant
                forall|j: int| 0 <= j < i ==> #[trigger] out@[j] == (if self.0@[j] >= other.0@[j] { self.0@[j] - other.0@[j] } else { 0 }),
        {
            out[i] = self.0[i].saturating_sub(other.0[i]);
        }
        let out = Self(out);
        assert(out.lanes() =~= Seq::new(
            Self::lane_count(),
            |i: int|
                if self.lanes()[i] >= other.lanes()[i] {
                    (self.lanes()[i] - other.lanes()[i]) as u16
                } else {
                    0
                },
        ));
        out
    }

    fn and(self, other: Self) -> (out: Self) {
        let mut out: [u16; LANES] = [0; LANES];
        for i in 0..LANES
            invariant
                forall|j: int| 0 <= j < i ==> #[trigger] out@[j] == (self.0@[j] & other.0@[j]),
        {
            out[i] = self.0[i] & other.0[i];
        }
        let out = Self(out);
        assert(out.lanes() =~= Seq::new(
            Self::lane_count(),
            |i: int| self.lanes()[i] & other.lanes()[i],
        ));
        out
    }

    fn shift_right_padded<const L: usize>(self, prev: Self) -> (out: Self) {
        let mut out: [u16; LANES] = [0; LANES];
        for i in 0..L
            invariant
                L <= LANES,
                forall|j: int| 0 <= j < i ==> #[trigger] out@[j] == prev.0@[LANES - L + j],
        {
            out[i] = prev.0[LANES - L + i];
        }
        for i in L..LANES
            invariant
                L <= LANES,
                forall|j: int| 0 <= j < L ==> #[trigger] out@[j] == prev.0@[LANES - L + j],
                forall|j: int| L <= j < i ==> #[trigger] out@[j] == self.0@[j - L],
        {
            out[i] = self.0[i - L];
        }
        let out = Self(out);
        assert(out.lanes() =~= shifted(self.lanes(), prev.lanes(), L as int));
        out
    }

    fn find_lane(self, search: u16) -> (out: usize) {
        for i in 0..LANES
            invariant
                forall|j: int| 0 <= j < i ==> #[trigger] self.0@[j] != search,
        {
            if self.0[i] == search {
                return i;
            }
        }
        LANES
    }

    fn extract(self, lane: usize) -> (out: u16) {
        self.0[lane]
    }

    fn from_lanes(values: &[u16]) -> (out: Self) {
        let mut out: [u16; LANES] = [0; LANES];
        for i in 0..LANES
            invariant
                values@.len() == LANES,
                forall|j: int| 0 <= j < i ==> #[trigger] out@[j] == values@[j],
        {
            out[i] = values[i];
        }
        let out = Self(out);
        assert(out.lanes() =~= Seq::new(
            Self::lane_count(),
            |i: int| narrowed(values@[i] as int, Self::lane_max()),
        ));
        out
    }

    fn to_lanes(self) -> (out: Vec<u16>) {
        let mut out: Vec<u16> = Vec::new();
        for i in 0..LANES
            invariant
                out@.len() == i,
                forall|j: int| 0 <= j < i ==> #[trigger] out@[j] == self.0@[j],
        {
            out.push(self.0[i]);
        }
        assert(out@ =~= self.lanes());
        out
    }
}

impl<const LANES: usize> ScoreVec for ScalarScoreU8<LANES> {
    open spec fn lanes(self) -> Seq<u16> {
        Seq::new(LANES as nat, |i: int| self.0@[i] as u16)
    }

    open spec fn lane_count() -> nat {
        LANES as nat
    }

    open spec fn lane_max() -> u16 {
        0xff
    }

    proof fn lemma_lanes(self) {
    }

    fn zero() -> (out: Self) {
        let out = Self(filled(0));
        assert(out.lanes() =~= Seq::new(Self::lane_count(), |i: int| 0u16));
        out
    }

    fn splat(value: u16) -> (out: Self) {
        let low = low_byte(value);
        let out = Self(filled(low));
        assert(out.lanes() =~= Seq::new(
            Self::lane_count(),
            |i: int| narrowed(value as int, Self::lane_max()),
        ));
        out
    }

    fn first_lane(value: u16) -> (out: Self) {
        let mut out: [u8; LANES] = filled(0);
        out[0] = low_byte(value);
        let out = Self(out);
        assert(out.lanes() =~= Seq::new(
            Self::lane_count(),
            |i: int|
                if i == 0 {
                    narrowed(value as int, Self::lane_max())
                } else {
                    0
                },
        ));
        out
    }

    fn max(self, other: Self) -> (out: Self) {
        let mut out: [u8; LANES] = [0; LANES];
        for i in 0..LANES
            invariant
                forall|j: int| 0 <= j < i ==> #[trigger] out@[j] == (if self.0@[j] >= other.0@[j] { self.0@[j] } else { other.0@[j] }),
        {
            out[i] = if self.0[i] >= other.0[i] { self.0[i] } else { other.0[i] };
        }
        let out = Self(out);
        assert(out.lanes() =~= Seq::new(
            Self::lane_count(),
            |i: int|
                if self.lanes()[i] >= other.lanes()[i] {
                    self.lanes()[i]
                } else {
                    other.lanes()[i]
                },
        ));
        out
    }

    fn horizontal_max(self) -> (out: u16) {
        let mut best: u8 = self.0[0];
        let mut at: usize = 0;
        for i in 1..LANES
            invariant
                at < i,
                at < LANES,
                best == self.0@[at as int],
                forall|j: int| 0 <= j < i ==> #[trigger] self.0@[j] <= best,
        {
            if self.0[i] > best {
                best = self.0[i];
                at = i;
            }
        }
        assert(self.lanes()[at as int] == best as u16);
        best as u16
    }

    fn add(self, other: Self) -> (out: Self) {
        let mut out: [u8; LANES] = [0; LANES];
        for i in 0..LANES
            invariant
                forall|j: int| 0 <= j < i ==> #[trigger] out@[j] == ((self.0@[j] + other.0@[j]) % 0x100),
        {
            out[i] = self.0[i].wrapping_add(other.0[i]);
        }
        let out = Self(out);
        assert(out.lanes() =~= Seq::new(
            Self::lane_count(),
            |i: int| narrowed(self.lanes()[i] + other.lanes()[i], Self::lane_max()),
        ));
        out
    }

    fn subs(self, other: Self) -> (out: Self) {
        let mut out: [u8; LANES] = [0; LANES];
        for i in 0..LANES
            invariant
                forall|j: int| 0 <= j < i ==> #[trigger] out@[j] == (if self.0@[j] >= other.0@[j] { self.0@[j] - other.0@[j] } else { 0 }),
        {
            out[i] = self.0[i].saturating_sub(other.0[i]);
        }
        let out = Self(out);
        assert(out.lanes() =~= Seq::new(
            Self::lane_count(),
            |i: int|
                if self.lanes()[i] >= other.lanes()[i] {
                    (self.lanes()[i] - other.lanes()[i]) as u16
                } else {
                    0
                },
        ));
        out
    }

    fn and(self, other: Self) -> (out: Self) {
        let mut out: [u8; LANES] = [0; LANES];
        for i in 0..LANES
            invariant
                forall|j: int| 0 <= j < i ==> #[trigger] out@[j] == (self.0@[j] & other.0@[j]),
        {
            out[i] = self.0[i] & other.0[i];
        }
        let out = Self(out);
        assert(out.lanes() =~= Seq::new(
            Self::lane_count(),
            |i: int| self.lanes()[i] & other.lanes()[i],
        ));
        out
    }

    fn shift_right_padded<const L: usize>(self, prev: Self) -> (out: Self) {
        let mut out: [u8; LANES] = [0; LANES];
        for i in 0..L
            invariant
                L <= LANES,
                forall|j: int| 0 <= j < i ==> #[trigger] out@[j] == prev.0@[LANES - L + j],
        {
            out[i] = prev.0[LANES - L + i];
        }
        for i in L..LANES
            invariant
                L <= LANES,
                forall|j: int| 0 <= j < L ==> #[trigger] out@[j] == prev.0@[LANES - L + j],
                forall|j: int| L <= j < i ==> #[trigger] out@[j] == self.0@[j - L],
        {
            out[i] = self.0[i - L];
        }
        let out = Self(out);
        assert(out.lanes() =~= shifted(self.lanes(), prev.lanes(), L as int));
        out
    }

    fn find_lane(self, search: u16) -> (out: usize) {
        let wanted = low_byte(search);
        for i in 0..LANES
            invariant
                wanted == search % 256,
                forall|j: int| 0 <= j < i ==> #[trigger] self.0@[j] != wanted,
        {
            if self.0[i] == wanted {
                return i;
            }
        }
        LANES
    }

    fn extract(self, lane: usize) -> (out: u16) {
        self.0[lane] as u16
    }

    fn from_lanes(values: &[u16]) -> (out: Self) {
        let mut out: [u8; LANES] = [0; LANES];
        for i in 0..LANES
            invariant
                values@.len() == LANES,
                forall|j: int| 0 <= j < i ==> #[trigger] out@[j] == values@[j] % 256,
        {
            out[i] = low_byte(values[i]);
        }
        let out = Self(out);
        assert(out.lanes() =~= Seq::new(
            Self::lane_count(),
            |i: int| narrowed(values@[i] as int, Self::lane_max()),
        ));
        out
    }

    fn to_lanes(self) -> (out: Vec<u16>) {
        let mut out: Vec<u16> = Vec::new();
        for i in 0..LANES
            invariant
                out@.len() == i,
                forall|j: int| 0 <= j < i ==> #[trigger] out@[j] == self.0@[j] as u16,
        {
            out.push(self.0[i] as u16);
        }
        assert(out@ =~= self.lanes());
        out
    }
}

/// The low eight bits of a score.
fn low_byte(value: u16) -> (out: u8)
    ensures
        out == value % 256,
{
    assert(value as u8 == value % 256) by (bit_vector);
    #[verifier::truncate]
    (value as u8)
}

/// Eight lanes of sixteen bits.
#[derive(Debug, Clone, Copy)]
pub struct BackendScalar8;

impl Backend for BackendScalar8 {
    const LANES: usize = 8;

    const LANE_BYTES: usize = 2;

    type Bytes = ScalarBytes<8>;

    type Mask = ScalarMask<8>;

    type Score = ScalarScoreU16<8>;

    proof fn lemma_widths() {
        assert(Self::LANES == 8 && Self::LANE_BYTES == 2);
        assert(ScalarBytes::<8>::lane_count() == 8);
        assert(ScalarMask::<8>::lane_count() == 8);
        assert(ScalarScoreU16::<8>::lane_count() == 8);
    }

    fn lanes() -> (out: usize) {
        Self::LANES
    }

    fn is_available() -> (out: bool)
        ensures
            out,
    {
        true
    }

    fn widen_mask(m: ScalarMask<8>) -> (out: ScalarScoreU16<8>) {
        let mut out: [u16; 8] = [0; 8];
        for i in 0..8usize
            invariant
                forall|j: int|
                    0 <= j < i ==> #[trigger] out@[j] == (if m.0@[j] {
                        u16::MAX
                    } else {
                        0
                    }),
        {
            if m.0[i] {
                out[i] = u16::MAX;
            } else {
                out[i] = 0;
            }
        }
        let out = ScalarScoreU16(out);
        assert(Self::LANES == 8 && out.lanes().len() == 8);
        assert(m.lanes() == m.0@);
        out
    }

    fn propagate_horizontal_gaps(
        row: Self::Score,
        adjacent_row: Self::Score,
        match_mask: Self::Score,
        adjacent_match_mask: Self::Score,
        gap_open_penalty: Self::Score,
        gap_extend_penalty: Self::Score,
    ) -> (out: Self::Score) {
        proof {
            assert(Self::LANES == 8);
            reveal_with_fuel(gap_stages, 5);
        }
        propagate_8_lane::<Self::Score>(
            row,
            adjacent_row,
            match_mask,
            adjacent_match_mask,
            gap_open_penalty,
            gap_extend_penalty,
        )
    }
}

/// Sixteen lanes of sixteen bits.
#[derive(Debug, Clone, Copy)]
pub struct BackendScalar16;

impl Backend for BackendScalar16 {
    const LANES: usize = 16;

    const LANE_BYTES: usize = 2;

    type Bytes = ScalarBytes<16>;

    type Mask = ScalarMask<16>;

    type Score = ScalarScoreU16<16>;

    proof fn lemma_widths() {
        assert(Self::LANES == 16 && Self::LANE_BYTES == 2);
        assert(ScalarBytes::<16>::lane_count() == 16);
        assert(ScalarMask::<16>::lane_count() == 16);
        assert(ScalarScoreU16::<16>::lane_count() == 16);
    }

    fn lanes() -> (out: usize) {
        Self::LANES
    }

    fn is_available() -> (out: bool)
        ensures
            out,
    {
        true
    }

    fn widen_mask(m: ScalarMask<16>) -> (out: ScalarScoreU16<16>) {
        let mut out: [u16; 16] = [0; 16];
        for i in 0..16usize
            invariant
                forall|j: int|
                    0 <= j < i ==> #[trigger] out@[j] == (if m.0@[j] {
                        u16::MAX
                    } else {
                        0
                    }),
        {
            if m.0[i] {
                out[i] = u16::MAX;
            } else {
                out[i] = 0;
            }
        }
        let out = ScalarScoreU16(out);
        assert(Self::LANES == 16 && out.lanes().len() == 16);
        assert(m.lanes() == m.0@);
        out
    }

    fn propagate_horizontal_gaps(
        row: Self::Score,
        adjacent_row: Self::Score,
        match_mask: Self::Score,
        adjacent_match_mask: Self::Score,
        gap_open_penalty: Self::Score,
        gap_extend_penalty: Self::Score,
    ) -> (out: Self::Score) {
        proof {
            assert(Self::LANES == 16);
            reveal_with_fuel(gap_stages, 6);
        }
        propagate_16_lane::<Self::Score>(
            row,
            adjacent_row,
            match_mask,
            adjacent_match_mask,
            gap_open_penalty,
            gap_extend_penalty,
        )
    }
}

/// Thirty-two lanes of sixteen bits.
#[derive(Debug, Clone, Copy)]
pub struct BackendScalar32;

impl Backend for BackendScalar32 {
    const LANES: usize = 32;

    const LANE_BYTES: usize = 2;

    type Bytes = ScalarBytes<32>;

    type Mask = ScalarMask<32>;

    type Score = ScalarScoreU16<32>;

    proof fn lemma_widths() {
        assert(Self::LANES == 32 && Self::LANE_BYTES == 2);
        assert(ScalarBytes::<32>::lane_count() == 32);
        assert(ScalarMask::<32>::lane_count() == 32);
        assert(ScalarScoreU16::<32>::lane_count() == 32);
    }

    fn lanes() -> (out: usize) {
        Self::LANES
    }

    fn is_available() -> (out: bool)
        ensures
            out,
    {
        true
    }

    fn widen_mask(m: ScalarMask<32>) -> (out: ScalarScoreU16<32>) {
        let mut out: [u16; 32] = [0; 32];
        for i in 0..32usize
            invariant
                forall|j: int|
                    0 <= j < i ==> #[trigger] out@[j] == (if m.0@[j] {
                        u16::MAX
                    } else {
                        0
                    }),
        {
            if m.0[i] {
                out[i] = u16::MAX;
            } else {
                out[i] = 0;
            }
        }
        let out = ScalarScoreU16(out);
        assert(Self::LANES == 32 && out.lanes().len() == 32);
        assert(m.lanes() == m.0@);
        out
    }

    fn propagate_horizontal_gaps(
        row: Self::Score,
        adjacent_row: Self::Score,
        match_mask: Self::Score,
        adjacent_match_mask: Self::Score,
        gap_open_penalty: Self::Score,
        gap_extend_penalty: Self::Score,
    ) -> (out: Self::Score) {
        proof {
            assert(Self::LANES == 32);
            reveal_with_fuel(gap_stages, 7);
        }
        propagate_32_lane::<Self::Score>(
            row,
            adjacent_row,
            match_mask,
            adjacent_match_mask,
            gap_open_penalty,
            gap_extend_penalty,
        )
    }
}

/// Sixteen lanes of eight bits.
#[derive(Debug, Clone, Copy)]
pub struct BackendScalar16U8;

impl Backend for BackendScalar16U8 {
    const LANES: usize = 16;

    const LANE_BYTES: usize = 1;

    type Bytes = ScalarBytes<16>;

    type Mask = ScalarMask<16>;

    type Score = ScalarScoreU8<16>;

    proof fn lemma_widths() {
        assert(Self::LANES == 16 && Self::LANE_BYTES == 1);
        assert(ScalarBytes::<16>::lane_count() == 16);
        assert(ScalarMask::<16>::lane_count() == 16);
        assert(ScalarScoreU8::<16>::lane_count() == 16);
    }

    fn lanes() -> (out: usize) {
        Self::LANES
    }

    fn is_available() -> (out: bool)
        ensures
            out,
    {
        true
    }

    fn widen_mask(m: ScalarMask<16>) -> (out: ScalarScoreU8<16>) {
        let mut out: [u8; 16] = [0; 16];
        for i in 0..16usize
            invariant
                forall|j: int|
                    0 <= j < i ==> #[trigger] out@[j] == (if m.0@[j] {
                        u8::MAX
                    } else {
                        0
                    }),
        {
            if m.0[i] {
                out[i] = u8::MAX;
            } else {
                out[i] = 0;
            }
        }
        let out = ScalarScoreU8(out);
        assert(Self::LANES == 16 && out.lanes().len() == 16);
        assert(m.lanes() == m.0@);
        out
    }

    fn propagate_horizontal_gaps(
        row: Self::Score,
        adjacent_row: Self::Score,
        match_mask: Self::Score,
        adjacent_match_mask: Self::Score,
        gap_open_penalty: Self::Score,
        gap_extend_penalty: Self::Score,
    ) -> (out: Self::Score) {
        proof {
            assert(Self::LANES == 16);
            reveal_with_fuel(gap_stages, 6);
        }
        propagate_16_lane::<Self::Score>(
            row,
            adjacent_row,
            match_mask,
            adjacent_match_mask,
            gap_open_penalty,
            gap_extend_penalty,
        )
    }
}

/// Thirty-two lanes of eight bits.
#[derive(Debug, Clone, Copy)]
pub struct BackendScalar32U8;

impl Backend for BackendScalar32U8 {
    const LANES: usize = 32;

    const LANE_BYTES: usize = 1;

    type Bytes = ScalarBytes<32>;

    type Mask = ScalarMask<32>;

    type Score = ScalarScoreU8<32>;

    proof fn lemma_widths() {
        assert(Self::LANES == 32 && Self::LANE_BYTES == 1);
        assert(ScalarBytes::<32>::lane_count() == 32);
        assert(ScalarMask::<32>::lane_count() == 32);
        assert(ScalarScoreU8::<32>::lane_count() == 32);
    }

    fn lanes() -> (out: usize) {
        Self::LANES
    }

    fn is_available() -> (out: bool)
        ensures
            out,
    {
        true
    }

    fn widen_mask(m: ScalarMask<32>) -> (out: ScalarScoreU8<32>) {
        let mut out: [u8; 32] = [0; 32];
        for i in 0..32usize
            invariant
                forall|j: int|
                    0 <= j < i ==> #[trigger] out@[j] == (if m.0@[j] {
                        u8::MAX
                    } else {
                        0
                    }),
        {
            if m.0[i] {
                out[i] = u8::MAX;
            } else {
                out[i] = 0;
            }
        }
        let out = ScalarScoreU8(out);
        assert(Self::LANES == 32 && out.lanes().len() == 32);
        assert(m.lanes() == m.0@);
        out
    }

    fn propagate_horizontal_gaps(
        row: Self::Score,
        adjacent_row: Self::Score,
        match_mask: Self::Score,
        adjacent_match_mask: Self::Score,
        gap_open_penalty: Self::Score,
        gap_extend_penalty: Self::Score,
    ) -> (out: Self::Score) {
        proof {
            assert(Self::LANES == 32);
            reveal_with_fuel(gap_stages, 7);
        }
        propagate_32_lane::<Self::Score>(
            row,
            adjacent_row,
            match_mask,
            adjacent_match_mask,
            gap_open_penalty,
            gap_extend_penalty,
        )
    }
}

/// Sixty-four lanes of eight bits.
#[derive(Debug, Clone, Copy)]
pub struct BackendScalar64U8;

impl Backend for BackendScalar64U8 {
    const LANES: usize = 64;

    const LANE_BYTES: usize = 1;

    type Bytes = ScalarBytes<64>;

    type Mask = ScalarMask<64>;

    type Score = ScalarScoreU8<64>;

    proof fn lemma_widths() {
        assert(Self::LANES == 64 && Self::LANE_BYTES == 1);
        assert(ScalarBytes::<64>::lane_count() == 64);
        assert(ScalarMask::<64>::lane_count() == 64);
        assert(ScalarScoreU8::<64>::lane_count() == 64);
    }

    fn lanes() -> (out: usize) {
        Self::LANES
    }

    fn is_available() -> (out: bool)
        ensures
            out,
    {
        true
    }

    fn widen_mask(m: ScalarMask<64>) -> (out: ScalarScoreU8<64>) {
        let mut out: [u8; 64] = [0; 64];
        for i in 0..64usize
            invariant
                forall|j: int|
                    0 <= j < i ==> #[trigger] out@[j] == (if m.0@[j] {
                        u8::MAX
                    } else {
                        0
                    }),
        {
            if m.0[i] {
                out[i] = u8::MAX;
            } else {
                out[i] = 0;
            }
        }
        let out = ScalarScoreU8(out);
        assert(Self::LANES == 64 && out.lanes().len() == 64);
        assert(m.lanes() == m.0@);
        out
    }

    fn propagate_horizontal_gaps(
        row: Self::Score,
        adjacent_row: Self::Score,
        match_mask: Self::Score,
        adjacent_match_mask: Self::Score,
        gap_open_penalty: Self::Score,
        gap_extend_penalty: Self::Score,
    ) -> (out: Self::Score) {
        proof {
            assert(Self::LANES == 64);
            reveal_with_fuel(gap_stages, 8);
        }
        propagate_64_lane::<Self::Score>(
            row,
            adjacent_row,
            match_mask,
            adjacent_match_mask,
            gap_open_penalty,
            gap_extend_penalty,
        )
    }
}

} // verus!
