//! Propagation of horizontal gaps along a row of the score matrix.
use vstd::arithmetic::power2::{
    lemma_pow2_pos, lemma_pow2_strictly_increases, lemma_pow2_unfold, pow2,
};
use vstd::prelude::*;

use crate::backend::{shifted, narrowed, ScoreVec};

verus! {

/// `a - b`, or zero where that is negative.
pub open spec fn less(a: u16, b: u16) -> u16 {
    if a >= b {
        (a - b) as u16
    } else {
        0
    }
}

/// The number of stages that a row of `lanes` lanes takes: the shifts 1, 2, 4 and so on that are
/// smaller than the row.
pub open spec fn gap_stages(lanes: nat) -> nat
    decreases lanes,
{
    if lanes <= 1 {
        0
    } else {
        1 + gap_stages(lanes / 2)
    }
}

/// One stage: every lane may be reached from the lane `shift` to its left, at the price of
/// `extend`, and of `open` too where that lane holds a match. Lanes to the left of the row are
/// those of the chunk before it.
pub open spec fn gap_step(
    row: Seq<u16>,
    adjacent: Seq<u16>,
    mask: Seq<u16>,
    adjacent_mask: Seq<u16>,
    open: Seq<u16>,
    extend: Seq<u16>,
    lane_max: u16,
    shift: int,
) -> Seq<u16> {
    Seq::new(
        row.len(),
        |i: int|
            {
                let penalty = narrowed(
                    extend[i] + (open[i] & shifted(mask, adjacent_mask, shift)[i]),
                    lane_max,
                );
                let carried = less(shifted(row, adjacent, shift)[i], penalty);
                if row[i] >= carried {
                    row[i]
                } else {
                    carried
                }
            },
    )
}

/// A row after `stages` stages, the first of which has the given shift. The shift and the price
/// of a gap's extension double from stage to stage.
pub open spec fn propagated(
    row: Seq<u16>,
    adjacent: Seq<u16>,
    mask: Seq<u16>,
    adjacent_mask: Seq<u16>,
    open: Seq<u16>,
    extend: Seq<u16>,
    lane_max: u16,
    shift: int,
    stages: nat,
) -> Seq<u16>
    decreases stages,
{
    if stages == 0 {
        row
    } else {
        propagated(
            gap_step(row, adjacent, mask, adjacent_mask, open, extend, lane_max, shift),
            adjacent,
            mask,
            adjacent_mask,
            open,
            doubled(extend, lane_max),
            lane_max,
            2 * shift,
            (stages - 1) as nat,
        )
    }
}

/// One stage of gap propagation.
fn step<S: ScoreVec, const SHIFT: usize>(row: S, adj: S, mm: S, amm: S, gop: S, gex: S) -> (out: S)
    requires
        SHIFT <= S::lane_count(),
    ensures
        out.lanes() == gap_step(
            row.lanes(),
            adj.lanes(),
            mm.lanes(),
            amm.lanes(),
            gop.lanes(),
            gex.lanes(),
            S::lane_max(),
            SHIFT as int,
        ),
{
    proof {
        row.lemma_lanes();
        mm.lemma_lanes();
        gop.lemma_lanes();
        gex.lemma_lanes();
    }
    let shifted_row = row.shift_right_padded::<SHIFT>(adj);
    let shifted_match_mask = mm.shift_right_padded::<SHIFT>(amm);
    let opening = gop.and(shifted_match_mask);
    let gap_penalty = gex.add(opening);
    let decayed = shifted_row.subs(gap_penalty);
    row.max(decayed)
}

/// The price of an extension after one more stage.
pub open spec fn doubled(extend: Seq<u16>, lane_max: u16) -> Seq<u16> {
    Seq::new(extend.len(), |i: int| narrowed(extend[i] + extend[i], lane_max))
}

/// Twice the price of an extension.
fn double<S: ScoreVec>(gex: S) -> (out: S)
    ensures
        out.lanes() == doubled(gex.lanes(), S::lane_max()),
{
    proof {
        gex.lemma_lanes();
    }
    gex.add(gex)
}

/// Gap propagation along a row of eight lanes: 3 stages.
pub fn propagate_8_lane<S: ScoreVec>(
    row: S,
    adj: S,
    mm: S,
    amm: S,
    gop: S,
    gex: S,
) -> (out: S)
    requires
        S::lane_count() >= 4,
    ensures
        out.lanes() == propagated(
            row.lanes(),
            adj.lanes(),
            mm.lanes(),
            amm.lanes(),
            gop.lanes(),
            gex.lanes(),
            S::lane_max(),
            1,
            3,
        ),
{
    proof {
        reveal_with_fuel(propagated, 4);
    }
    let row = step::<S, 1>(row, adj, mm, amm, gop, gex);
    let gex = double(gex);
    let row = step::<S, 2>(row, adj, mm, amm, gop, gex);
    let gex = double(gex);
    let row = step::<S, 4>(row, adj, mm, amm, gop, gex);
    row
}

/// Gap propagation along a row of sixteen lanes: 4 stages.
pub fn propagate_16_lane<S: ScoreVec>(
    row: S,
    adj: S,
    mm: S,
    amm: S,
    gop: S,
    gex: S,
) -> (out: S)
    requires
        S::lane_count() >= 8,
    ensures
        out.lanes() == propagated(
            row.lanes(),
            adj.lanes(),
            mm.lanes(),
            amm.lanes(),
            gop.lanes(),
            gex.lanes(),
            S::lane_max(),
            1,
            4,
        ),
{
    proof {
        reveal_with_fuel(propagated, 5);
    }
    let row = step::<S, 1>(row, adj, mm, amm, gop, gex);
    let gex = double(gex);
    let row = step::<S, 2>(row, adj, mm, amm, gop, gex);
    let gex = double(gex);
    let row = step::<S, 4>(row, adj, mm, amm, gop, gex);
    let gex = double(gex);
    let row = step::<S, 8>(row, adj, mm, amm, gop, gex);
    row
}

/// Gap propagation along a row of thirty-two lanes: 5 stages.
pub fn propagate_32_lane<S: ScoreVec>(
    row: S,
    adj: S,
    mm: S,
    amm: S,
    gop: S,
    gex: S,
) -> (out: S)
    requires
        S::lane_count() >= 16,
    ensures
        out.lanes() == propagated(
            row.lanes(),
            adj.lanes(),
            mm.lanes(),
            amm.lanes(),
            gop.lanes(),
            gex.lanes(),
            S::lane_max(),
            1,
            5,
        ),
{
    proof {
        reveal_with_fuel(propagated, 6);
    }
    let row = step::<S, 1>(row, adj, mm, amm, gop, gex);
    let gex = double(gex);
    let row = step::<S, 2>(row, adj, mm, amm, gop, gex);
    let gex = double(gex);
    let row = step::<S, 4>(row, adj, mm, amm, gop, gex);
    let gex = double(gex);
    let row = step::<S, 8>(row, adj, mm, amm, gop, gex);
    let gex = double(gex);
    let row = step::<S, 16>(row, adj, mm, amm, gop, gex);
    row
}

/// Gap propagation along a row of sixty-four lanes: 6 stages.
pub fn propagate_64_lane<S: ScoreVec>(
    row: S,
    adj: S,
    mm: S,
    amm: S,
    gop: S,
    gex: S,
) -> (out: S)
    requires
        S::lane_count() >= 32,
    ensures
        out.lanes() == propagated(
            row.lanes(),
            adj.lanes(),
            mm.lanes(),
            amm.lanes(),
            gop.lanes(),
            gex.lanes(),
            S::lane_max(),
            1,
            6,
        ),
{
    proof {
        reveal_with_fuel(propagated, 7);
    }
    let row = step::<S, 1>(row, adj, mm, amm, gop, gex);
    let gex = double(gex);
    let row = step::<S, 2>(row, adj, mm, amm, gop, gex);
    let gex = double(gex);
    let row = step::<S, 4>(row, adj, mm, amm, gop, gex);
    let gex = double(gex);
    let row = step::<S, 8>(row, adj, mm, amm, gop, gex);
    let gex = double(gex);
    let row = step::<S, 16>(row, adj, mm, amm, gop, gex);
    let gex = double(gex);
    let row = step::<S, 32>(row, adj, mm, amm, gop, gex);
    row
}

/// The price of an extension after some stages.
pub open spec fn doubled_times(extend: Seq<u16>, lane_max: u16, times: nat) -> Seq<u16>
    decreases times,
{
    if times == 0 {
        extend
    } else {
        doubled(doubled_times(extend, lane_max, (times - 1) as nat), lane_max)
    }
}

proof fn lemma_doubled_first(extend: Seq<u16>, lane_max: u16, times: nat)
    ensures
        doubled_times(doubled(extend, lane_max), lane_max, times) == doubled_times(
            extend,
            lane_max,
            times + 1,
        ),
    decreases times,
{
    reveal_with_fuel(doubled_times, 2);
    if times > 0 {
        lemma_doubled_first(extend, lane_max, (times - 1) as nat);
    }
}

pub(crate) proof fn lemma_propagated_len(
    row: Seq<u16>,
    adjacent: Seq<u16>,
    mask: Seq<u16>,
    adjacent_mask: Seq<u16>,
    open: Seq<u16>,
    extend: Seq<u16>,
    lane_max: u16,
    shift: int,
    stages: nat,
)
    ensures
        propagated(
            row,
            adjacent,
            mask,
            adjacent_mask,
            open,
            extend,
            lane_max,
            shift,
            stages,
        ).len() == row.len(),
    decreases stages,
{
    if stages > 0 {
        lemma_propagated_len(
            gap_step(row, adjacent, mask, adjacent_mask, open, extend, lane_max, shift),
            adjacent,
            mask,
            adjacent_mask,
            open,
            doubled(extend, lane_max),
            lane_max,
            2 * shift,
            (stages - 1) as nat,
        );
    }
}

/// One stage more is the stages before it, and a last one.
pub(crate) proof fn lemma_last_stage(
    row: Seq<u16>,
    adjacent: Seq<u16>,
    mask: Seq<u16>,
    adjacent_mask: Seq<u16>,
    open: Seq<u16>,
    extend: Seq<u16>,
    lane_max: u16,
    shift: int,
    stages: nat,
)
    ensures
        propagated(
            row,
            adjacent,
            mask,
            adjacent_mask,
            open,
            extend,
            lane_max,
            shift,
            stages + 1,
        ) == gap_step(
            propagated(
                row,
                adjacent,
                mask,
                adjacent_mask,
                open,
                extend,
                lane_max,
                shift,
                stages,
            ),
            adjacent,
            mask,
            adjacent_mask,
            open,
            doubled_times(extend, lane_max, stages),
            lane_max,
            shift * pow2(stages),
        ),
    decreases stages,
{
    reveal_with_fuel(propagated, 2);
    if stages == 0 {
        assert(pow2(0) == 1) by {
            vstd::arithmetic::power2::lemma2_to64();
        }
    } else {
        lemma_last_stage(
            gap_step(row, adjacent, mask, adjacent_mask, open, extend, lane_max, shift),
            adjacent,
            mask,
            adjacent_mask,
            open,
            doubled(extend, lane_max),
            lane_max,
            2 * shift,
            (stages - 1) as nat,
        );
        lemma_doubled_first(extend, lane_max, (stages - 1) as nat);
        lemma_pow2_unfold(stages);
        let half = pow2((stages - 1) as nat) as int;
        assert(2 * shift * half == shift * (2 * half)) by (nonlinear_arith);
    }
}

/// The number of stages of a row.
pub(crate) fn stage_count(lanes: usize) -> (out: usize)
    ensures
        out == gap_stages(lanes as nat),
        out <= lanes,
{
    let mut rest = lanes;
    let mut count: usize = 0;
    while rest > 1
        invariant
            count + gap_stages(rest as nat) == gap_stages(lanes as nat),
            count + rest <= lanes,
        decreases rest,
    {
        rest = rest / 2;
        count = count + 1;
    }
    count
}

/// The lanes of a row moved up by `by`, with those of the row before moved in.
fn moved<S: ScoreVec>(row: S, prev: S, by: usize) -> (out: S)
    requires
        by <= S::lane_count(),
    ensures
        out.lanes() == shifted(row.lanes(), prev.lanes(), by as int),
{
    proof {
        row.lemma_lanes();
        prev.lemma_lanes();
    }
    let from = row.to_lanes();
    let before = prev.to_lanes();
    let mut lanes: Vec<u16> = Vec::new();
    for l in 0..from.len()
        invariant
            from@ == row.lanes(),
            before@ == prev.lanes(),
            from@.len() == before@.len() == S::lane_count(),
            by <= S::lane_count(),
            forall|k: int| 0 <= k < from@.len() ==> #[trigger] from@[k] <= S::lane_max(),
            forall|k: int| 0 <= k < before@.len() ==> #[trigger] before@[k] <= S::lane_max(),
            lanes@.len() == l,
            forall|k: int| 0 <= k < l ==> #[trigger] lanes@[k] == shifted(from@, before@, by as int)[k],
            forall|k: int| 0 <= k < l ==> #[trigger] lanes@[k] <= S::lane_max(),
    {
        if l < by {
            lanes.push(before[before.len() - by + l]);
        } else {
            lanes.push(from[l - by]);
        }
    }
    assert(lanes@ =~= shifted(row.lanes(), prev.lanes(), by as int));
    S::from_lanes(lanes.as_slice())
}

/// A row before its gaps are propagated and after each of the stages, with the shifts of the
/// stages.
pub(crate) fn stage_rows<S: ScoreVec>(
    row: S,
    adj: S,
    mm: S,
    amm: S,
    gop: S,
    gex: S,
    stages: usize,
) -> (out: (Vec<S>, Vec<usize>))
    requires
        pow2(stages as nat) <= S::lane_count() <= 64,
    ensures
        out.0@.len() == stages + 1,
        out.1@.len() == stages,
        forall|t: int|
            0 <= t <= stages ==> #[trigger] out.0@[t].lanes() == propagated(
                row.lanes(),
                adj.lanes(),
                mm.lanes(),
                amm.lanes(),
                gop.lanes(),
                gex.lanes(),
                S::lane_max(),
                1,
                t as nat,
            ),
        forall|t: int| 0 <= t < stages ==> #[trigger] out.1@[t] == pow2(t as nat),
{
    let mut rows: Vec<S> = Vec::new();
    let mut hops: Vec<usize> = Vec::new();
    let mut last = row;
    let mut extend = gex;
    let mut hop: usize = 1;
    rows.push(row);
    proof {
        vstd::arithmetic::power2::lemma2_to64();
    }
    for t in 0..stages
        invariant
            pow2(stages as nat) <= S::lane_count() <= 64,
            rows@.len() == t + 1,
            hops@.len() == t,
            hop == pow2(t as nat),
            last.lanes() == propagated(
                row.lanes(),
                adj.lanes(),
                mm.lanes(),
                amm.lanes(),
                gop.lanes(),
                gex.lanes(),
                S::lane_max(),
                1,
                t as nat,
            ),
            extend.lanes() == doubled_times(gex.lanes(), S::lane_max(), t as nat),
            forall|k: int|
                0 <= k <= t ==> #[trigger] rows@[k].lanes() == propagated(
                    row.lanes(),
                    adj.lanes(),
                    mm.lanes(),
                    amm.lanes(),
                    gop.lanes(),
                    gex.lanes(),
                    S::lane_max(),
                    1,
                    k as nat,
                ),
            forall|k: int| 0 <= k < t ==> #[trigger] hops@[k] == pow2(k as nat),
    {
        proof {
            lemma_pow2_strictly_increases(t as nat, stages as nat);
            lemma_pow2_unfold((t + 1) as nat);
            lemma_last_stage(
                row.lanes(),
                adj.lanes(),
                mm.lanes(),
                amm.lanes(),
                gop.lanes(),
                gex.lanes(),
                S::lane_max(),
                1,
                t as nat,
            );
            last.lemma_lanes();
            mm.lemma_lanes();
            gop.lemma_lanes();
            extend.lemma_lanes();
            assert(1 * pow2(t as nat) == pow2(t as nat));
        }
        let ghost before = last.lanes();
        let carried = moved(last, adj, hop);
        let opening = gop.and(moved(mm, amm, hop));
        let price = extend.add(opening);
        last = last.max(carried.subs(price));
        assert(last.lanes() =~= gap_step(
            before,
            adj.lanes(),
            mm.lanes(),
            amm.lanes(),
            gop.lanes(),
            extend.lanes(),
            S::lane_max(),
            hop as int,
        ));
        extend = double(extend);
        rows.push(last);
        hops.push(hop);
        hop = 2 * hop;
    }
    (rows, hops)
}

/// A score that no gap of the chunk before could raise: every lane is at least the lane to its
/// left, less one extension.
pub open spec fn settled(row: Seq<u16>, extend: nat) -> bool {
    forall|i: int, j: int|
        #![trigger row[i], row[j]]
        0 <= i <= j < row.len() ==> row[j] + (j - i) * extend >= row[i]
}

/// Lane `j` of a row in which no gap is opened: it holds the best of what the lanes from it to
/// its left hold, and the last lane of the chunk before, each less one extension per lane in
/// between. `reach` bounds the distance.
pub open spec fn best_of_left(
    lane: u16,
    row: Seq<u16>,
    adjacent: Seq<u16>,
    extend: nat,
    reach: int,
    j: int,
) -> bool {
    &&& forall|i: int| 0 <= i <= j && j - i < reach ==> lane + (j - i) * extend >= #[trigger] row[i]
    &&& j + 1 < reach ==> lane + (j + 1) * extend >= adjacent.last()
    &&& {
        ||| lane == 0
        ||| exists|i: int|
            0 <= i <= j && j - i < reach && lane + (j - i) * extend == #[trigger] row[i]
        ||| j + 1 < reach && lane + (j + 1) * extend == adjacent.last()
    }
}

/// The price of an extension, the same in every lane.
pub open spec fn flat(lanes: nat, value: int) -> Seq<u16> {
    Seq::new(lanes, |i: int| value as u16)
}

proof fn lemma_stage_extends_reach(
    cur: Seq<u16>,
    row: Seq<u16>,
    adjacent: Seq<u16>,
    mask: Seq<u16>,
    adjacent_mask: Seq<u16>,
    open: Seq<u16>,
    extend: nat,
    lane_max: u16,
    shift: int,
)
    requires
        lane_max == 0xff || lane_max == 0xffff,
        row.len() > 0,
        cur.len() == row.len(),
        adjacent.len() == row.len(),
        mask == flat(row.len(), 0),
        adjacent_mask == flat(row.len(), 0),
        0 < shift <= row.len(),
        shift * extend <= lane_max,
        settled(adjacent, extend),
        forall|j: int|
            0 <= j < row.len() ==> best_of_left(#[trigger] cur[j], row, adjacent, extend, shift, j),
    ensures
        ({
            let next = gap_step(
                cur,
                adjacent,
                mask,
                adjacent_mask,
                open,
                flat(row.len(), shift * extend),
                lane_max,
                shift,
            );
            forall|j: int|
                0 <= j < row.len() ==> best_of_left(
                    #[trigger] next[j],
                    row,
                    adjacent,
                    extend,
                    2 * shift,
                    j,
                )
        }),
{
    let next = gap_step(
        cur,
        adjacent,
        mask,
        adjacent_mask,
        open,
        flat(row.len(), shift * extend),
        lane_max,
        shift,
    );
    let n = row.len() as int;
    assert forall|j: int| 0 <= j < row.len() implies best_of_left(
        #[trigger] next[j],
        row,
        adjacent,
        extend,
        2 * shift,
        j,
    ) by {
        let o = open[j];
        assert(o & 0u16 == 0u16) by (bit_vector);
        assert(shifted(mask, adjacent_mask, shift)[j] == 0);
        assert(0 <= shift * extend) by (nonlinear_arith)
            requires
                0 < shift,
        ;
        let source = if j >= shift {
            cur[j - shift]
        } else {
            adjacent[n - shift + j]
        };
        let price = shift * extend;
        assert(next[j] == if cur[j] >= less(source, price as u16) {
            cur[j]
        } else {
            less(source, price as u16)
        });
        assert(best_of_left(cur[j], row, adjacent, extend, shift, j));
        assert forall|i: int| 0 <= i <= j && j - i < 2 * shift implies next[j] + (j - i) * extend
            >= #[trigger] row[i] by {
            if j - i >= shift {
                assert(best_of_left(cur[j - shift], row, adjacent, extend, shift, j - shift));
                assert(cur[j - shift] + (j - shift - i) * extend >= row[i]);
                assert((j - i) * extend == (j - shift - i) * extend + shift * extend)
                    by (nonlinear_arith);
            }
        }
        if j + 1 < 2 * shift {
            if j >= shift {
                assert(best_of_left(cur[j - shift], row, adjacent, extend, shift, j - shift));
                assert((j + 1) * extend == (j - shift + 1) * extend + shift * extend)
                    by (nonlinear_arith);
            } else if j + 1 >= shift {
                assert(source == adjacent.last());
            }
            assert(next[j] + (j + 1) * extend >= adjacent.last());
        }
        if next[j] != cur[j] && next[j] != 0 {
            if j >= shift {
                assert(best_of_left(cur[j - shift], row, adjacent, extend, shift, j - shift));
                if exists|i: int|
                    0 <= i <= j - shift && j - shift - i < shift && cur[j - shift] + (j - shift - i)
                        * extend == #[trigger] row[i] {
                    let i = choose|i: int|
                        0 <= i <= j - shift && j - shift - i < shift && cur[j - shift] + (j - shift
                            - i) * extend == #[trigger] row[i];
                    assert((j - i) * extend == (j - shift - i) * extend + shift * extend)
                        by (nonlinear_arith);
                    assert(next[j] + (j - i) * extend == row[i]);
                } else {
                    assert((j + 1) * extend == (j - shift + 1) * extend + shift * extend)
                        by (nonlinear_arith);
                    assert(next[j] + (j + 1) * extend == adjacent.last());
                }
            } else {
                let k = shift - j;
                assert(adjacent[n - 1] + (n - 1 - (n - k)) * extend >= adjacent[n - k]);
                assert(shift * extend == (k - 1) * extend + (j + 1) * extend) by (nonlinear_arith)
                    requires
                        k == shift - j,
                ;
                assert(next[j] + (j + 1) * extend <= adjacent.last());
            }
        }
        if next[j] == cur[j] && cur[j] != 0 {
            if exists|i: int|
                0 <= i <= j && j - i < shift && cur[j] + (j - i) * extend == #[trigger] row[i] {
                let i = choose|i: int|
                    0 <= i <= j && j - i < shift && cur[j] + (j - i) * extend == #[trigger] row[i];
                assert(next[j] + (j - i) * extend == row[i]);
            }
        }
    }
}

proof fn lemma_stages_extend_reach(
    cur: Seq<u16>,
    row: Seq<u16>,
    adjacent: Seq<u16>,
    mask: Seq<u16>,
    adjacent_mask: Seq<u16>,
    open: Seq<u16>,
    extend: nat,
    lane_max: u16,
    shift: int,
    stages: nat,
)
    requires
        lane_max == 0xff || lane_max == 0xffff,
        row.len() > 0,
        cur.len() == row.len(),
        adjacent.len() == row.len(),
        mask == flat(row.len(), 0),
        adjacent_mask == flat(row.len(), 0),
        0 < shift,
        shift * vstd::arithmetic::power2::pow2(stages) == row.len(),
        row.len() * extend <= 2 * lane_max,
        stages > 0 ==> shift * extend <= lane_max,
        settled(adjacent, extend),
        forall|j: int|
            0 <= j < row.len() ==> best_of_left(#[trigger] cur[j], row, adjacent, extend, shift, j),
    ensures
        ({
            let out = propagated(
                cur,
                adjacent,
                mask,
                adjacent_mask,
                open,
                flat(row.len(), shift * extend),
                lane_max,
                shift,
                stages,
            );
            &&& out.len() == row.len()
            &&& forall|j: int|
                0 <= j < row.len() ==> best_of_left(
                    #[trigger] out[j],
                    row,
                    adjacent,
                    extend,
                    row.len() as int,
                    j,
                )
        }),
    decreases stages,
{
    vstd::arithmetic::power2::lemma2_to64();
    reveal_with_fuel(propagated, 2);
    if stages == 0 {
        assert(shift * 1 == shift) by (nonlinear_arith);
    } else {
        let rest = (stages - 1) as nat;
        vstd::arithmetic::power2::lemma_pow2_unfold(stages);
        vstd::arithmetic::power2::lemma_pow2_pos(rest);
        let p = vstd::arithmetic::power2::pow2(rest) as int;
        assert(2 * shift * p == row.len() && 2 * shift <= row.len()) by (nonlinear_arith)
            requires
                shift * (2 * p) == row.len(),
                p >= 1,
                shift > 0,
        ;
        lemma_stage_extends_reach(
            cur,
            row,
            adjacent,
            mask,
            adjacent_mask,
            open,
            extend,
            lane_max,
            shift,
        );
        let price = flat(row.len(), shift * extend);
        let next = gap_step(cur, adjacent, mask, adjacent_mask, open, price, lane_max, shift);
        if rest > 0 {
            let q = vstd::arithmetic::power2::pow2((rest - 1) as nat) as int;
            vstd::arithmetic::power2::lemma_pow2_unfold(rest);
            vstd::arithmetic::power2::lemma_pow2_pos((rest - 1) as nat);
            assert(2 * shift * extend <= lane_max) by (nonlinear_arith)
                requires
                    2 * shift * (2 * q) == row.len(),
                    q >= 1,
                    shift > 0,
                    row.len() * extend <= 2 * lane_max,
            ;
            assert(0 <= shift * extend) by (nonlinear_arith)
                requires
                    0 < shift,
            ;
            assert(2 * (shift * extend) == 2 * shift * extend) by (nonlinear_arith);
            assert(doubled(price, lane_max) =~= flat(row.len(), 2 * shift * extend));
            lemma_stages_extend_reach(
                next,
                row,
                adjacent,
                mask,
                adjacent_mask,
                open,
                extend,
                lane_max,
                2 * shift,
                rest,
            );
        } else {
            assert(2 * shift * 1 == 2 * shift) by (nonlinear_arith);
            assert(propagated(
                cur,
                adjacent,
                mask,
                adjacent_mask,
                open,
                price,
                lane_max,
                shift,
                stages,
            ) == next);
        }
    }
}

/// A row of which no lane holds a match, next to a settled chunk: after all stages every lane
/// holds exactly the best score that a gap can carry to it from the left.
pub proof fn lemma_propagation_is_best_of_left(
    row: Seq<u16>,
    adjacent: Seq<u16>,
    open: Seq<u16>,
    extend: nat,
    lane_max: u16,
    stages: nat,
)
    requires
        lane_max == 0xff || lane_max == 0xffff,
        row.len() == vstd::arithmetic::power2::pow2(stages),
        adjacent.len() == row.len(),
        row.len() * extend <= 2 * lane_max,
        extend <= lane_max,
        settled(adjacent, extend),
    ensures
        ({
            let none = flat(row.len(), 0);
            let out = propagated(
                row,
                adjacent,
                none,
                none,
                open,
                flat(row.len(), extend as int),
                lane_max,
                1,
                stages,
            );
            &&& out.len() == row.len()
            &&& forall|j: int|
                0 <= j < row.len() ==> best_of_left(
                    #[trigger] out[j],
                    row,
                    adjacent,
                    extend,
                    row.len() as int,
                    j,
                )
        }),
{
    vstd::arithmetic::power2::lemma_pow2_pos(stages);
    let none = flat(row.len(), 0);
    assert forall|j: int| 0 <= j < row.len() implies best_of_left(
        #[trigger] row[j],
        row,
        adjacent,
        extend,
        1,
        j,
    ) by {
        assert(row[j] + (j - j) * extend == row[j]) by (nonlinear_arith);
    }
    assert(1 * extend == extend);
    lemma_stages_extend_reach(row, row, adjacent, none, none, open, extend, lane_max, 1, stages);
}

/// Propagation lowers no lane, and lifts none above the best of the row and of the chunk before
/// it.
pub proof fn lemma_propagation_bounds(
    row: Seq<u16>,
    adjacent: Seq<u16>,
    mask: Seq<u16>,
    adjacent_mask: Seq<u16>,
    open: Seq<u16>,
    extend: Seq<u16>,
    lane_max: u16,
    shift: int,
    stages: nat,
    bound: int,
)
    requires
        adjacent.len() == row.len(),
        0 < shift,
        shift * pow2(stages) <= row.len(),
        forall|l: int| 0 <= l < row.len() ==> #[trigger] row[l] <= bound,
        forall|l: int| 0 <= l < row.len() ==> #[trigger] adjacent[l] <= bound,
    ensures
        ({
            let out = propagated(
                row,
                adjacent,
                mask,
                adjacent_mask,
                open,
                extend,
                lane_max,
                shift,
                stages,
            );
            &&& out.len() == row.len()
            &&& forall|l: int| 0 <= l < row.len() ==> row[l] <= #[trigger] out[l] <= bound
        }),
    decreases stages,
{
    if stages > 0 {
        lemma_pow2_unfold(stages);
        lemma_pow2_pos((stages - 1) as nat);
        let half = pow2((stages - 1) as nat);
        assert(2 * shift * half == shift * (2 * half) && shift <= 2 * shift * half)
            by (nonlinear_arith)
            requires
                half >= 1,
                shift > 0,
        ;
        let next = gap_step(row, adjacent, mask, adjacent_mask, open, extend, lane_max, shift);
        assert forall|l: int| 0 <= l < next.len() implies row[l] <= #[trigger] next[l] <= bound by {
            assert(row[l] <= bound);
            if l < shift {
                assert(adjacent[row.len() - shift + l] <= bound);
            } else {
                assert(row[l - shift] <= bound);
            }
        }
        lemma_propagation_bounds(
            next,
            adjacent,
            mask,
            adjacent_mask,
            open,
            doubled(extend, lane_max),
            lane_max,
            2 * shift,
            (stages - 1) as nat,
            bound,
        );
    }
}

} // verus!
