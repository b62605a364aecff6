//! A stable sort of matches by their score.
use vstd::prelude::*;

use crate::matches::{is_ranked, ranks, Match};

verus! {

/// The matches with a given score.
pub open spec fn has_score(score: u16) -> spec_fn(Match) -> bool {
    |m: Match| m.score == score
}

/// A stable sort: the scores descend, and the matches of one score keep their order.
pub open spec fn is_sorted_by_score(before: Seq<Match>, after: Seq<Match>) -> bool {
    &&& forall|i: int, j: int|
        0 <= i < j < after.len() ==> #[trigger] after[i].score >= #[trigger] after[j].score
    &&& forall|score: u16|
        #![trigger after.filter(has_score(score))]
        after.filter(has_score(score)) == before.filter(has_score(score))
}

// ---------------------------------------------------------------------------------------------
// Filtered sequences.
// ---------------------------------------------------------------------------------------------
/// Two filters in a row are one.
proof fn lemma_filter_twice<A>(
    s: Seq<A>,
    p: spec_fn(A) -> bool,
    q: spec_fn(A) -> bool,
    both: spec_fn(A) -> bool,
)
    requires
        forall|x: A| #[trigger] both(x) == (p(x) && q(x)),
    ensures
        s.filter(p).filter(q) == s.filter(both),
    decreases s.len(),
{
    reveal(Seq::filter);
    if s.len() > 0 {
        lemma_filter_twice(s.drop_last(), p, q, both);
        let front = s.drop_last().filter(p);
        assert(both(s.last()) == (p(s.last()) && q(s.last())));
        if p(s.last()) {
            assert(front.push(s.last()).drop_last() =~= front);
        }
    }
}

/// A filter that nothing passes.
proof fn lemma_filter_none<A>(s: Seq<A>, p: spec_fn(A) -> bool)
    requires
        forall|i: int| 0 <= i < s.len() ==> !p(#[trigger] s[i]),
    ensures
        s.filter(p) == Seq::<A>::empty(),
    decreases s.len(),
{
    reveal(Seq::filter);
    if s.len() > 0 {
        let front = s.drop_last();
        assert forall|i: int| 0 <= i < front.len() implies !p(#[trigger] front[i]) by {
            assert(!p(s[i]));
        }
        lemma_filter_none(front, p);
        assert(!p(s[s.len() - 1]));
    }
}

/// Two items that pass a filter keep their order.
proof fn lemma_filter_keeps_order<A>(s: Seq<A>, p: spec_fn(A) -> bool, i: int, j: int) -> (at: (
    int,
    int,
))
    requires
        0 <= i < j < s.len(),
        p(s[i]),
        p(s[j]),
    ensures
        0 <= at.0 < at.1 < s.filter(p).len(),
        s.filter(p)[at.0] == s[i],
        s.filter(p)[at.1] == s[j],
    decreases s.len(),
{
    reveal(Seq::filter);
    let front = s.drop_last();
    if j < front.len() {
        lemma_filter_keeps_order(front, p, i, j)
    } else {
        let a = lemma_filter_keeps(front, p, i);
        (a, front.filter(p).len() as int)
    }
}

proof fn lemma_filter_keeps<A>(s: Seq<A>, p: spec_fn(A) -> bool, i: int) -> (at: int)
    requires
        0 <= i < s.len(),
        p(s[i]),
    ensures
        0 <= at < s.filter(p).len(),
        s.filter(p)[at] == s[i],
    decreases s.len(),
{
    reveal(Seq::filter);
    let front = s.drop_last();
    if i < front.len() {
        lemma_filter_keeps(front, p, i)
    } else {
        front.filter(p).len() as int
    }
}

/// Two items of a filtered sequence stand in the sequence in the same order.
proof fn lemma_filter_was_in_order<A>(s: Seq<A>, p: spec_fn(A) -> bool, a: int, b: int) -> (at: (
    int,
    int,
))
    requires
        0 <= a < b < s.filter(p).len(),
    ensures
        0 <= at.0 < at.1 < s.len(),
        s[at.0] == s.filter(p)[a],
        s[at.1] == s.filter(p)[b],
    decreases s.len(),
{
    reveal(Seq::filter);
    let front = s.drop_last();
    if b < front.filter(p).len() {
        lemma_filter_was_in_order(front, p, a, b)
    } else {
        let i = lemma_filter_was(front, p, a);
        (i, s.len() - 1)
    }
}

proof fn lemma_filter_was<A>(s: Seq<A>, p: spec_fn(A) -> bool, a: int) -> (at: int)
    requires
        0 <= a < s.filter(p).len(),
    ensures
        0 <= at < s.len(),
        s[at] == s.filter(p)[a],
        p(s[at]),
    decreases s.len(),
{
    reveal(Seq::filter);
    let front = s.drop_last();
    if a < front.filter(p).len() {
        lemma_filter_was(front, p, a)
    } else {
        s.len() - 1
    }
}

/// A filter keeps every copy of an item that passes it.
proof fn lemma_filter_keeps_count<A>(s: Seq<A>, p: spec_fn(A) -> bool, x: A)
    requires
        p(x),
    ensures
        s.filter(p).to_multiset().count(x) == s.to_multiset().count(x),
    decreases s.len(),
{
    broadcast use vstd::seq_lib::group_to_multiset_ensures;

    reveal(Seq::filter);
    if s.len() > 0 {
        let front = s.drop_last();
        lemma_filter_keeps_count(front, p, x);
        assert(s =~= front.push(s.last()));
    }
}

// ---------------------------------------------------------------------------------------------
// One pass.
// ---------------------------------------------------------------------------------------------
/// The low or the high byte of a score.
spec fn digit(score: u16, high: bool) -> int {
    if high {
        score as int / 0x100
    } else {
        score as int % 0x100
    }
}

spec fn has_digit(high: bool, d: int) -> spec_fn(Match) -> bool {
    |m: Match| digit(m.score, high) == d
}

/// What a pass over one byte of the scores does.
spec fn is_pass(before: Seq<Match>, after: Seq<Match>, high: bool) -> bool {
    &&& forall|i: int, j: int|
        0 <= i < j < after.len() ==> digit(#[trigger] after[i].score, high) >= digit(
            #[trigger] after[j].score,
            high,
        )
    &&& forall|d: int|
        #![trigger after.filter(has_digit(high, d))]
        after.filter(has_digit(high, d)) == before.filter(has_digit(high, d))
}

/// The matches whose byte is at least `from`, byte by byte from the greatest down.
spec fn gathered(s: Seq<Match>, high: bool, from: int) -> Seq<Match>
    decreases 0x100 - from,
{
    if from >= 0x100 {
        Seq::empty()
    } else {
        gathered(s, high, from + 1) + s.filter(has_digit(high, from))
    }
}

proof fn lemma_gathered(s: Seq<Match>, high: bool, from: int)
    requires
        0 <= from <= 0x100,
    ensures
        ({
            let out = gathered(s, high, from);
            &&& forall|i: int|
                0 <= i < out.len() ==> digit(#[trigger] out[i].score, high) >= from
            &&& forall|i: int, j: int|
                0 <= i < j < out.len() ==> digit(#[trigger] out[i].score, high) >= digit(
                    #[trigger] out[j].score,
                    high,
                )
            &&& forall|d: int|
                #![trigger out.filter(has_digit(high, d))]
                d >= from ==> out.filter(has_digit(high, d)) == s.filter(has_digit(high, d))
        }),
    decreases 0x100 - from,
{
    let out = gathered(s, high, from);
    if from == 0x100 {
        assert forall|d: int| #![trigger out.filter(has_digit(high, d))] d >= from implies out.filter(
            has_digit(high, d),
        ) == s.filter(has_digit(high, d)) by {
            lemma_filter_none(out, has_digit(high, d));
            assert forall|i: int| 0 <= i < s.len() implies !has_digit(high, d)(#[trigger] s[i]) by {
                assert(digit(s[i].score, high) < 0x100);
            }
            lemma_filter_none(s, has_digit(high, d));
        }
    } else {
        lemma_gathered(s, high, from + 1);
        let rest = gathered(s, high, from + 1);
        let here = s.filter(has_digit(high, from));
        assert forall|i: int| 0 <= i < here.len() implies digit(#[trigger] here[i].score, high)
            == from by {
            let at = lemma_filter_was(s, has_digit(high, from), i);
        }
        assert forall|i: int| 0 <= i < out.len() implies digit(#[trigger] out[i].score, high)
            >= from by {
            if i < rest.len() {
                assert(out[i] == rest[i]);
            } else {
                assert(out[i] == here[i - rest.len()]);
            }
        }
        assert forall|i: int, j: int| 0 <= i < j < out.len() implies digit(
            #[trigger] out[i].score,
            high,
        ) >= digit(#[trigger] out[j].score, high) by {
            if j < rest.len() {
                assert(out[i] == rest[i] && out[j] == rest[j]);
            } else {
                assert(out[j] == here[j - rest.len()]);
                if i < rest.len() {
                    assert(out[i] == rest[i]);
                }
            }
        }
        assert forall|d: int| #![trigger out.filter(has_digit(high, d))] d >= from implies out.filter(
            has_digit(high, d),
        ) == s.filter(has_digit(high, d)) by {
            let p = has_digit(high, d);
            Seq::filter_distributes_over_add(rest, here, p);
            if d == from {
                lemma_filter_none(rest, p);
                lemma_filter_twice(s, p, p, p);
                assert(Seq::<Match>::empty() + here.filter(p) =~= here.filter(p));
            } else {
                assert(rest.filter(p) == s.filter(p));
                lemma_filter_none(here, p);
                assert(rest.filter(p) + Seq::<Match>::empty() =~= rest.filter(p));
            }
        }
    }
}

/// Sorts by one byte of the score, the greatest first, and keeps the order otherwise.
fn pass(matches: &Vec<Match>, high: bool) -> (out: Vec<Match>)
    ensures
        is_pass(matches@, out@, high),
{
    let mut buckets: Vec<Vec<Match>> = Vec::new();
    let ghost s = matches@;
    for d in 0..256usize
        invariant
            buckets@.len() == d,
            forall|e: int| 0 <= e < d ==> (#[trigger] buckets@[e])@ == Seq::<Match>::empty(),
    {
        buckets.push(Vec::new());
    }
    proof {
        assert forall|e: int| 0 <= e < 0x100 implies (#[trigger] buckets@[e])@ == s.take(0).filter(
            has_digit(high, e),
        ) by {
            lemma_filter_none(s.take(0), has_digit(high, e));
        }
    }
    for i in 0..matches.len()
        invariant
            s == matches@,
            buckets@.len() == 0x100,
            forall|e: int|
                0 <= e < 0x100 ==> (#[trigger] buckets@[e])@ == s.take(i as int).filter(
                    has_digit(high, e),
                ),
    {
        let m = matches[i];
        let d: usize = if high {
            m.score as usize / 0x100
        } else {
            m.score as usize % 0x100
        };
        let ghost held = buckets@;
        buckets[d].push(m);
        proof {
            assert(s.take(i + 1) =~= s.take(i as int).push(m));
            assert forall|e: int| 0 <= e < 0x100 implies (#[trigger] buckets@[e])@ == s.take(
                i + 1,
            ).filter(has_digit(high, e)) by {
                assert(held[e]@ == s.take(i as int).filter(has_digit(high, e)));
                s.take(i as int).lemma_filter_push(m, has_digit(high, e));
            }
        }
    }
    assert(s.take(matches@.len() as int) =~= s);
    let mut out: Vec<Match> = Vec::new();
    let mut from: usize = 256;
    while from > 0
        invariant
            from <= 0x100,
            buckets@.len() == 0x100,
            forall|e: int|
                0 <= e < 0x100 ==> (#[trigger] buckets@[e])@ == s.filter(has_digit(high, e)),
            out@ == gathered(s, high, from as int),
        decreases from,
    {
        from = from - 1;
        let bucket = &buckets[from];
        let ghost done = out@;
        for k in 0..bucket.len()
            invariant
                out@ == done + bucket@.take(k as int),
        {
            out.push(bucket[k]);
            assert(bucket@.take(k + 1) =~= bucket@.take(k as int).push(bucket@[k as int]));
        }
        assert(bucket@.take(bucket@.len() as int) =~= bucket@);
    }
    proof {
        lemma_gathered(s, high, 0);
        assert forall|d: int| #![trigger out@.filter(has_digit(high, d))] out@.filter(
            has_digit(high, d),
        ) == s.filter(has_digit(high, d)) by {
            if d < 0 {
                assert forall|i: int| 0 <= i < s.len() implies !has_digit(high, d)(
                    #[trigger] s[i],
                ) by {
                    assert(digit(s[i].score, high) >= 0);
                }
                lemma_filter_none(s, has_digit(high, d));
                lemma_filter_none(out@, has_digit(high, d));
            }
        }
    }
    out
}

/// A pass over the low bytes and then one over the high bytes sort by score.
proof fn lemma_two_passes(before: Seq<Match>, between: Seq<Match>, after: Seq<Match>)
    requires
        is_pass(before, between, false),
        is_pass(between, after, true),
    ensures
        is_sorted_by_score(before, after),
{
    assert forall|i: int, j: int| 0 <= i < j < after.len() implies #[trigger] after[i].score
        >= #[trigger] after[j].score by {
        let h = digit(after[i].score, true);
        let p = has_digit(true, h);
        if digit(after[j].score, true) == h {
            let (a, b) = lemma_filter_keeps_order(after, p, i, j);
            assert(after.filter(p) == between.filter(p));
            let (x, y) = lemma_filter_was_in_order(between, p, a, b);
            assert(digit(between[x].score, false) >= digit(between[y].score, false));
        }
        assert(after[i].score == 0x100 * digit(after[i].score, true) + digit(
            after[i].score,
            false,
        ));
        assert(after[j].score == 0x100 * digit(after[j].score, true) + digit(
            after[j].score,
            false,
        ));
    }
    assert forall|score: u16| #![trigger after.filter(has_score(score))] after.filter(
        has_score(score),
    ) == before.filter(has_score(score)) by {
        let high = has_digit(true, digit(score, true));
        let low = has_digit(false, digit(score, false));
        let both = has_score(score);
        assert forall|m: Match| #[trigger] both(m) == (high(m) && low(m)) by {
            assert(m.score == 0x100 * digit(m.score, true) + digit(m.score, false));
            assert(score == 0x100 * digit(score, true) + digit(score, false));
        }
        lemma_filter_twice(after, high, low, both);
        lemma_filter_twice(between, high, low, both);
        lemma_filter_twice(between, low, high, both);
        lemma_filter_twice(before, low, high, both);
        assert(after.filter(high) == between.filter(high));
        assert(between.filter(low) == before.filter(low));
    }
}

/// Sorts matches by descending score. Matches with equal scores keep their order, so that a list
/// in order of its indices ends up ranked.
pub fn radix_sort_matches(matches: &mut Vec<Match>)
    ensures
        is_sorted_by_score(old(matches)@, final(matches)@),
{
    let between = pass(matches, false);
    let after = pass(&between, true);
    proof {
        lemma_two_passes(matches@, between@, after@);
    }
    *matches = after;
}

// ---------------------------------------------------------------------------------------------
// Laws.
// ---------------------------------------------------------------------------------------------
/// A sort loses no match and adds none.
pub proof fn lemma_sort_keeps_matches(before: Seq<Match>, after: Seq<Match>)
    requires
        is_sorted_by_score(before, after),
    ensures
        after.to_multiset() == before.to_multiset(),
        after.len() == before.len(),
{
    broadcast use vstd::seq_lib::group_to_multiset_ensures;

    assert forall|m: Match| after.to_multiset().count(m) == before.to_multiset().count(m) by {
        let p = has_score(m.score);
        lemma_filter_keeps_count(after, p, m);
        lemma_filter_keeps_count(before, p, m);
        assert(after.filter(p) == before.filter(p));
    }
    assert(after.to_multiset() =~= before.to_multiset());
    assert(after.to_multiset().len() == after.len());
    assert(before.to_multiset().len() == before.len());
}

/// Sorting a list whose indices ascend ranks it.
pub proof fn lemma_sort_ranks(before: Seq<Match>, after: Seq<Match>)
    requires
        is_sorted_by_score(before, after),
        forall|i: int, j: int|
            0 <= i < j < before.len() ==> #[trigger] before[i].index < #[trigger] before[j].index,
    ensures
        is_ranked(after),
{
    assert forall|i: int, j: int| 0 <= i < j < after.len() implies ranks(
        #[trigger] after[i],
        #[trigger] after[j],
    ) by {
        if after[i].score == after[j].score {
            let p = has_score(after[i].score);
            let (a, b) = lemma_filter_keeps_order(after, p, i, j);
            assert(after.filter(p) == before.filter(p));
            let (x, y) = lemma_filter_was_in_order(before, p, a, b);
            assert(before[x].index < before[y].index);
        }
    }
}

} // verus!
