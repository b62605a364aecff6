//! A fast test that runs before Smith-Waterman, since most haystacks do not match.
//!
//! A haystack passes when the needle, after deleting at most the allowed number of typos of its
//! bytes, is found in it in order. A substitution counts as a deletion here, so the test may
//! pass a haystack that does not score, but it never turns away one that does.
use vstd::prelude::*;

verus! {

/// Whether a haystack may match, and if so, from where to where the match can lie.
pub type Window = (bool, usize, usize);

/// The other case of an ASCII letter. Any other byte is left as it is.
pub open spec fn other_case(c: u8) -> u8 {
    if 0x61 <= c <= 0x7a {
        (c - 0x20) as u8
    } else if 0x41 <= c <= 0x5a {
        (c + 0x20) as u8
    } else {
        c
    }
}

/// Every byte of the needle with the byte that is taken for it besides.
pub open spec fn cased(needle: Seq<u8>, case_sensitive: bool) -> Seq<(u8, u8)> {
    Seq::new(
        needle.len(),
        |i: int|
            (
                needle[i],
                if case_sensitive {
                    needle[i]
                } else {
                    other_case(needle[i])
                },
            ),
    )
}

/// Pairs every byte of the needle with its other case, or with itself where case matters.
pub fn case_needle(needle: &[u8], case_sensitive: bool) -> (out: Vec<(u8, u8)>)
    ensures
        out@ == cased(needle@, case_sensitive),
{
    let mut out: Vec<(u8, u8)> = Vec::new();
    for i in 0..needle.len()
        invariant
            out@.len() == i,
            forall|j: int| 0 <= j < i ==> #[trigger] out@[j] == cased(needle@, case_sensitive)[j],
    {
        let c: u8 = needle[i];
        let other: u8 = if case_sensitive {
            c
        } else if 0x61 <= c && c <= 0x7a {
            c - 0x20
        } else if 0x41 <= c && c <= 0x5a {
            c + 0x20
        } else {
            c
        };
        out.push((c, other));
    }
    assert(out@ =~= cased(needle@, case_sensitive));
    out
}

/// Whether a haystack byte is taken for a byte of the needle.
pub open spec fn same(pair: (u8, u8), byte: u8) -> bool {
    byte == pair.0 || byte == pair.1
}

/// An ordered alignment: for every byte of the needle the position of the haystack byte that is
/// taken for it, or nothing where the byte of the needle is deleted.
pub open spec fn is_alignment(
    needle: Seq<(u8, u8)>,
    haystack: Seq<u8>,
    picks: Seq<Option<int>>,
) -> bool {
    &&& picks.len() == needle.len()
    &&& forall|i: int|
        0 <= i < picks.len() && (#[trigger] picks[i]) is Some ==> 0 <= picks[i]->0 < haystack.len()
            && same(needle[i], haystack[picks[i]->0])
    &&& forall|i: int, j: int|
        0 <= i < j < picks.len() && (#[trigger] picks[i]) is Some && (#[trigger] picks[j]) is Some
            ==> picks[i]->0 < picks[j]->0
}

/// The number of deleted bytes of an alignment.
pub open spec fn deletions(picks: Seq<Option<int>>) -> nat
    decreases picks.len(),
{
    if picks.len() == 0 {
        0
    } else {
        deletions(picks.drop_last()) + if picks.last() is None {
            1nat
        } else {
            0
        }
    }
}

/// The needle is found in the haystack in order, with at most `typos` of its bytes deleted.
pub open spec fn accepts(needle: Seq<(u8, u8)>, haystack: Seq<u8>, typos: nat) -> bool {
    exists|picks: Seq<Option<int>>|
        #[trigger] is_alignment(needle, haystack, picks) && deletions(picks) <= typos
}

/// A haystack byte that is taken for one of the given bytes of the needle.
pub open spec fn taken_for_one(pairs: Seq<(u8, u8)>, byte: u8) -> bool {
    exists|i: int| 0 <= i < pairs.len() && same(#[trigger] pairs[i], byte)
}

/// What the test returns. The window of a haystack that passes begins at the first byte that can
/// be the first of a match, and ends after the last byte that can be the last of one: with
/// `typos` deletions a match begins with one of the first `typos + 1` bytes of the needle and
/// ends with one of its last `typos + 1`. Where the whole needle may be deleted, the window is
/// the whole haystack.
pub open spec fn is_window(
    needle: Seq<(u8, u8)>,
    haystack: Seq<u8>,
    typos: nat,
    window: Window,
) -> bool {
    let (passes, start, end) = window;
    &&& passes == accepts(needle, haystack, typos)
    &&& !passes ==> start == 0 && end == 0
    &&& passes && typos >= needle.len() ==> start == 0 && end == haystack.len()
    &&& passes && typos < needle.len() ==> {
        let heads = needle.subrange(0, typos as int + 1);
        let tails = needle.subrange(needle.len() - typos - 1, needle.len() as int);
        &&& start < end <= haystack.len()
        &&& taken_for_one(heads, haystack[start as int])
        &&& forall|p: int| 0 <= p < start ==> !taken_for_one(heads, #[trigger] haystack[p])
        &&& taken_for_one(tails, haystack[end - 1])
        &&& forall|p: int|
            end <= p < haystack.len() ==> !taken_for_one(tails, #[trigger] haystack[p])
    }
}

/// An ordered prefilter. It may pass a haystack that does not score.
pub trait Kernel: Clone + core::fmt::Debug + 'static {
    /// The needle, as [`case_needle`] pairs it.
    spec fn pairs(&self) -> Seq<(u8, u8)>;

    fn new(needle: &[u8], case_sensitive: bool) -> (out: Self)
        ensures
            out.pairs() == cased(needle@, case_sensitive),
    ;

    /// Whether the machine has what the kernel needs.
    fn is_available() -> bool;

    /// The test without typos.
    fn match_haystack(&self, haystack: &[u8]) -> (out: Window)
        ensures
            is_window(self.pairs(), haystack@, 0, out),
    ;

    /// The test with one typo.
    fn match_haystack_1_typo(&self, haystack: &[u8]) -> (out: Window)
        ensures
            is_window(self.pairs(), haystack@, 1, out),
    ;

    /// The test with two typos.
    fn match_haystack_2_typos(&self, haystack: &[u8]) -> (out: Window)
        ensures
            is_window(self.pairs(), haystack@, 2, out),
    ;

    /// The test with any number of typos.
    fn match_haystack_many_typos(&mut self, haystack: &[u8], max_typos: u16) -> (out: Window)
        ensures
            is_window(old(self).pairs(), haystack@, max_typos as nat, out),
            final(self).pairs() == old(self).pairs(),
    ;
}

// ---------------------------------------------------------------------------------------------
// How an alignment of prefixes grows.
// ---------------------------------------------------------------------------------------------
proof fn lemma_deletions_push(picks: Seq<Option<int>>, pick: Option<int>)
    ensures
        deletions(picks.push(pick)) == deletions(picks) + if pick is None {
            1nat
        } else {
            0
        },
{
    assert(picks.push(pick).drop_last() =~= picks);
}

proof fn lemma_deletions_bounds(picks: Seq<Option<int>>)
    ensures
        deletions(picks) <= picks.len(),
    decreases picks.len(),
{
    if picks.len() > 0 {
        lemma_deletions_bounds(picks.drop_last());
    }
}

/// A shorter prefix of the needle is found where a longer one is.
proof fn lemma_accepts_shorter(needle: Seq<(u8, u8)>, haystack: Seq<u8>, typos: nat, i: int)
    requires
        0 <= i <= needle.len(),
        accepts(needle, haystack, typos),
    ensures
        accepts(needle.take(i), haystack, typos),
    decreases needle.len() - i,
{
    if i < needle.len() {
        lemma_accepts_shorter(needle, haystack, typos, i + 1);
        let longer = needle.take(i + 1);
        let picks = choose|picks: Seq<Option<int>>|
            #[trigger] is_alignment(longer, haystack, picks) && deletions(picks) <= typos;
        let shorter = picks.drop_last();
        assert(is_alignment(needle.take(i), haystack, shorter)) by {
            assert forall|a: int| 0 <= a < shorter.len() && (#[trigger] shorter[a]) is Some implies 0
                <= shorter[a]->0 < haystack.len() && same(
                needle.take(i)[a],
                haystack[shorter[a]->0],
            ) by {
                assert(picks[a] == shorter[a]);
                assert(longer[a] == needle.take(i)[a]);
            }
            assert forall|a: int, b: int|
                0 <= a < b < shorter.len() && (#[trigger] shorter[a]) is Some && (
                #[trigger] shorter[b]) is Some implies shorter[a]->0 < shorter[b]->0 by {
                assert(picks[a] == shorter[a] && picks[b] == shorter[b]);
            }
        }
    } else {
        assert(needle.take(i) =~= needle);
    }
}

/// How the prefix of the needle that ends with byte `i` is found in the prefix of the haystack
/// of length `j`: its last byte is deleted, or is not the last of the haystack, or is taken
/// for the last of the haystack.
proof fn lemma_accepts_cases(
    needle: Seq<(u8, u8)>,
    haystack: Seq<u8>,
    typos: nat,
    i: int,
    j: int,
)
    requires
        0 <= i < needle.len(),
        0 <= j <= haystack.len(),
    ensures
        accepts(needle.take(i + 1), haystack.take(j), typos) <==> {
            ||| typos > 0 && accepts(needle.take(i), haystack.take(j), (typos - 1) as nat)
            ||| j > 0 && accepts(needle.take(i + 1), haystack.take(j - 1), typos)
            ||| j > 0 && same(needle[i], haystack[j - 1]) && accepts(
                needle.take(i),
                haystack.take(j - 1),
                typos,
            )
        },
{
    let longer = needle.take(i + 1);
    let shorter = needle.take(i);
    let here = haystack.take(j);
    if accepts(longer, here, typos) {
        let picks = choose|picks: Seq<Option<int>>|
            #[trigger] is_alignment(longer, here, picks) && deletions(picks) <= typos;
        let front = picks.drop_last();
        assert(picks =~= front.push(picks.last()));
        lemma_deletions_push(front, picks.last());
        assert forall|a: int| 0 <= a < front.len() implies #[trigger] front[a] == picks[a]
            && longer[a] == shorter[a] by {}
        if picks.last() is None {
            assert(is_alignment(shorter, here, front));
        } else {
            let last = picks.last()->0;
            assert(picks[i] is Some);
            assert(0 <= last < j);
            let before = haystack.take(j - 1);
            assert forall|a: int| 0 <= a < front.len() && (#[trigger] front[a]) is Some implies 0
                <= front[a]->0 < last && same(shorter[a], before[front[a]->0]) by {
                assert(picks[a]->0 < picks[i]->0);
                assert(here[picks[a]->0] == before[picks[a]->0]);
            }
            if last < j - 1 {
                assert(here[last] == before[last]);
                assert forall|a: int| 0 <= a < picks.len() && (#[trigger] picks[a]) is Some implies 0
                    <= picks[a]->0 < before.len() && same(longer[a], before[picks[a]->0]) by {
                    if a < i {
                        assert(front[a] == picks[a]);
                    }
                }
                assert(is_alignment(longer, before, picks));
            } else {
                assert(same(longer[i], here[last]));
                assert(is_alignment(shorter, before, front)) by {
                    assert forall|a: int, b: int|
                        0 <= a < b < front.len() && (#[trigger] front[a]) is Some && (
                        #[trigger] front[b]) is Some implies front[a]->0 < front[b]->0 by {
                        assert(picks[a]->0 < picks[b]->0);
                    }
                }
            }
        }
    }
    if typos > 0 && accepts(shorter, here, (typos - 1) as nat) {
        let picks = choose|picks: Seq<Option<int>>|
            #[trigger] is_alignment(shorter, here, picks) && deletions(picks) <= typos - 1;
        let grown = picks.push(None);
        lemma_deletions_push(picks, None);
        lemma_push_is_alignment(needle, here, i, picks, None);
        assert(is_alignment(longer, here, grown));
    }
    if j > 0 && accepts(longer, haystack.take(j - 1), typos) {
        let before = haystack.take(j - 1);
        let picks = choose|picks: Seq<Option<int>>|
            #[trigger] is_alignment(longer, before, picks) && deletions(picks) <= typos;
        assert forall|a: int| 0 <= a < picks.len() && (#[trigger] picks[a]) is Some implies 0
            <= picks[a]->0 < here.len() && same(longer[a], here[picks[a]->0]) by {
            assert(here[picks[a]->0] == before[picks[a]->0]);
        }
        assert(is_alignment(longer, here, picks));
    }
    if j > 0 && same(needle[i], haystack[j - 1]) && accepts(
        shorter,
        haystack.take(j - 1),
        typos,
    ) {
        let before = haystack.take(j - 1);
        let picks = choose|picks: Seq<Option<int>>|
            #[trigger] is_alignment(shorter, before, picks) && deletions(picks) <= typos;
        assert forall|a: int| 0 <= a < picks.len() && (#[trigger] picks[a]) is Some implies 0
            <= picks[a]->0 < j - 1 && same(shorter[a], here[picks[a]->0]) by {
            assert(here[picks[a]->0] == before[picks[a]->0]);
        }
        assert(is_alignment(shorter, here, picks));
        lemma_deletions_push(picks, Some(j - 1));
        lemma_push_is_alignment(needle, here, i, picks, Some(j - 1));
        assert(is_alignment(longer, here, picks.push(Some(j - 1))));
    }
}

/// An alignment of the first `i` bytes, with one more pick after all of its own.
proof fn lemma_push_is_alignment(
    needle: Seq<(u8, u8)>,
    haystack: Seq<u8>,
    i: int,
    picks: Seq<Option<int>>,
    pick: Option<int>,
)
    requires
        0 <= i < needle.len(),
        is_alignment(needle.take(i), haystack, picks),
        pick is Some ==> 0 <= pick->0 < haystack.len() && same(needle[i], haystack[pick->0]),
        pick is Some ==> forall|a: int|
            0 <= a < picks.len() && (#[trigger] picks[a]) is Some ==> picks[a]->0 < pick->0,
    ensures
        is_alignment(needle.take(i + 1), haystack, picks.push(pick)),
{
    let longer = needle.take(i + 1);
    let grown = picks.push(pick);
    assert forall|a: int| 0 <= a < grown.len() && (#[trigger] grown[a]) is Some implies 0
        <= grown[a]->0 < haystack.len() && same(longer[a], haystack[grown[a]->0]) by {
        if a < i {
            assert(grown[a] == picks[a]);
            assert(longer[a] == needle.take(i)[a]);
        }
    }
    assert forall|a: int, b: int|
        0 <= a < b < grown.len() && (#[trigger] grown[a]) is Some && (#[trigger] grown[b]) is Some
        implies grown[a]->0 < grown[b]->0 by {
        assert(grown[a] == picks[a]);
        if b < i {
            assert(grown[b] == picks[b]);
        }
    }
}

/// A needle all of whose bytes may be deleted is found everywhere, the empty one among them.
pub proof fn lemma_accepts_nothing(needle: Seq<(u8, u8)>, haystack: Seq<u8>, typos: nat)
    requires
        needle.len() <= typos,
    ensures
        accepts(needle, haystack, typos),
{
    let picks = Seq::new(needle.len(), |i: int| None::<int>);
    lemma_deletions_bounds(picks);
    assert(is_alignment(needle, haystack, picks));
}

/// More typos never turn a haystack away.
pub proof fn lemma_more_typos_accept_more(
    needle: Seq<(u8, u8)>,
    haystack: Seq<u8>,
    typos: nat,
    more: nat,
)
    requires
        accepts(needle, haystack, typos),
        typos <= more,
    ensures
        accepts(needle, haystack, more),
{
    let picks = choose|picks: Seq<Option<int>>|
        #[trigger] is_alignment(needle, haystack, picks) && deletions(picks) <= typos;
    assert(is_alignment(needle, haystack, picks) && deletions(picks) <= more);
}

/// `reached` is the length of the longest prefix of the needle that is found in the haystack.
spec fn is_longest(needle: Seq<(u8, u8)>, haystack: Seq<u8>, typos: nat, reached: int) -> bool {
    &&& 0 <= reached <= needle.len()
    &&& accepts(needle.take(reached), haystack, typos)
    &&& reached < needle.len() ==> !accepts(needle.take(reached + 1), haystack, typos)
}

proof fn lemma_not_beyond_longest(
    needle: Seq<(u8, u8)>,
    haystack: Seq<u8>,
    typos: nat,
    reached: int,
    i: int,
)
    requires
        is_longest(needle, haystack, typos, reached),
        reached < i <= needle.len(),
    ensures
        !accepts(needle.take(i), haystack, typos),
{
    if accepts(needle.take(i), haystack, typos) {
        lemma_accepts_shorter(needle.take(i), haystack, typos, reached + 1);
        assert(needle.take(i).take(reached + 1) =~= needle.take(reached + 1));
    }
}

/// One more byte of the haystack: the prefix that `typos` deletions reach grows by a byte that
/// is taken for the new one, or to one byte more than one deletion fewer reaches.
proof fn lemma_longest_step(
    needle: Seq<(u8, u8)>,
    haystack: Seq<u8>,
    typos: nat,
    j: int,
    reached: int,
    fewer: int,
    next: int,
)
    requires
        0 <= j < haystack.len(),
        is_longest(needle, haystack.take(j), typos, reached),
        typos > 0 ==> is_longest(needle, haystack.take(j + 1), (typos - 1) as nat, fewer),
        ({
            let grown = if reached < needle.len() && same(needle[reached], haystack[j]) {
                reached + 1
            } else {
                reached
            };
            let bridged = if typos == 0 {
                0
            } else if fewer < needle.len() {
                fewer + 1
            } else {
                fewer
            };
            next == if grown >= bridged {
                grown
            } else {
                bridged
            }
        }),
    ensures
        is_longest(needle, haystack.take(j + 1), typos, next),
{
    let here = haystack.take(j + 1);
    let before = haystack.take(j);
    if next == reached {
        if reached > 0 {
            lemma_accepts_cases(needle, haystack, typos, reached - 1, j + 1);
        } else {
            lemma_accepts_nothing(needle.take(0), here, typos);
        }
    } else if next == reached + 1 && same(needle[reached], haystack[j]) {
        lemma_accepts_cases(needle, haystack, typos, reached, j + 1);
    } else if fewer < needle.len() {
        lemma_accepts_cases(needle, haystack, typos, fewer, j + 1);
    } else {
        lemma_more_typos_accept_more(needle.take(fewer), here, (typos - 1) as nat, typos);
    }
    assert(accepts(needle.take(next), here, typos));
    if next < needle.len() {
        lemma_accepts_cases(needle, haystack, typos, next, j + 1);
        if typos > 0 {
            lemma_not_beyond_longest(needle, here, (typos - 1) as nat, fewer, next);
        }
        lemma_not_beyond_longest(needle, before, typos, reached, next + 1);
        if next > reached {
            lemma_not_beyond_longest(needle, before, typos, reached, next);
        }
    }
}

/// Whether the needle is found in the haystack in order, with at most `typos` deletions.
fn ordered_match(needle: &[(u8, u8)], haystack: &[u8], typos: usize) -> (out: bool)
    ensures
        out == accepts(needle@, haystack@, typos as nat),
{
    let n = needle.len();
    if typos >= n {
        proof {
            lemma_accepts_nothing(needle@, haystack@, typos as nat);
        }
        return true;
    }
    let mut reached: Vec<usize> = Vec::new();
    for t in 0..typos + 1
        invariant
            n == needle@.len(),
            typos < n,
            reached@.len() == t,
            forall|s: int|
                0 <= s < t ==> is_longest(
                    needle@,
                    haystack@.take(0),
                    s as nat,
                    (#[trigger] reached@[s]) as int,
                ),
    {
        proof {
            let nothing = haystack@.take(0);
            lemma_accepts_nothing(needle@.take(t as int), nothing, t as nat);
            let longer = needle@.take(t as int + 1);
            if accepts(longer, nothing, t as nat) {
                let picks = choose|picks: Seq<Option<int>>|
                    #[trigger] is_alignment(longer, nothing, picks) && deletions(picks) <= t;
                assert forall|a: int| 0 <= a < picks.len() implies (#[trigger] picks[a]) is None by {}
                lemma_all_deleted(picks, 0, picks.len() as int);
            }
        }
        reached.push(t);
    }
    for j in 0..haystack.len()
        invariant
            n == needle@.len(),
            typos < n,
            reached@.len() == typos + 1,
            forall|s: int|
                0 <= s <= typos ==> is_longest(
                    needle@,
                    haystack@.take(j as int),
                    s as nat,
                    (#[trigger] reached@[s]) as int,
                ),
    {
        let byte = haystack[j];
        for t in 0..typos + 1
            invariant
                n == needle@.len(),
                typos < n,
                reached@.len() == typos + 1,
                j < haystack@.len(),
                byte == haystack@[j as int],
                forall|s: int|
                    0 <= s < t ==> is_longest(
                        needle@,
                        haystack@.take(j as int + 1),
                        s as nat,
                        (#[trigger] reached@[s]) as int,
                    ),
                forall|s: int|
                    t <= s <= typos ==> is_longest(
                        needle@,
                        haystack@.take(j as int),
                        s as nat,
                        (#[trigger] reached@[s]) as int,
                    ),
        {
            let here = reached[t];
            assert(is_longest(needle@, haystack@.take(j as int), t as nat, reached@[t as int] as int));
            let mut next = here;
            if next < n && (byte == needle[next].0 || byte == needle[next].1) {
                next = next + 1;
            }
            let mut fewer: usize = 0;
            if t > 0 {
                fewer = reached[t - 1];
                assert(is_longest(
                    needle@,
                    haystack@.take(j as int + 1),
                    (t - 1) as nat,
                    reached@[t - 1] as int,
                ));
                if fewer < n {
                    if fewer + 1 > next {
                        next = fewer + 1;
                    }
                } else if fewer > next {
                    next = fewer;
                }
            }
            proof {
                lemma_longest_step(
                    needle@,
                    haystack@,
                    t as nat,
                    j as int,
                    here as int,
                    fewer as int,
                    next as int,
                );
            }
            reached.set(t, next);
        }
    }
    proof {
        assert(haystack@.take(haystack@.len() as int) =~= haystack@);
        assert(needle@.take(n as int) =~= needle@);
        let r = reached@[typos as int] as int;
        assert(is_longest(needle@, haystack@, typos as nat, r));
        if r < n {
            lemma_not_beyond_longest(needle@, haystack@, typos as nat, r, n as int);
        }
    }
    reached[typos] == n
}

proof fn lemma_all_deleted(picks: Seq<Option<int>>, from: int, to: int)
    requires
        0 <= from <= to <= picks.len(),
        forall|a: int| from <= a < to ==> (#[trigger] picks[a]) is None,
    ensures
        deletions(picks) >= to - from,
    decreases picks.len(),
{
    if picks.len() > 0 {
        let front = picks.drop_last();
        if to == picks.len() {
            if from < to {
                assert(picks[to - 1] is None);
                lemma_all_deleted(front, from, to - 1);
            }
        } else {
            lemma_all_deleted(front, from, to);
        }
    }
}

/// Whether a byte is taken for one of the bytes of the needle from `from` to before `to`.
fn taken_for(needle: &[(u8, u8)], from: usize, to: usize, byte: u8) -> (out: bool)
    requires
        from <= to <= needle@.len(),
    ensures
        out == taken_for_one(needle@.subrange(from as int, to as int), byte),
{
    let ghost pairs = needle@.subrange(from as int, to as int);
    for i in from..to
        invariant
            from <= to <= needle@.len(),
            pairs == needle@.subrange(from as int, to as int),
            forall|a: int| 0 <= a < i - from ==> !same(#[trigger] pairs[a], byte),
    {
        assert(pairs[i - from] == needle@[i as int]);
        if byte == needle[i].0 || byte == needle[i].1 {
            assert(same(pairs[i - from], byte));
            return true;
        }
    }
    false
}

/// The first and the last kept byte of an alignment, and that all kept bytes lie between them.
proof fn lemma_kept_bounds(
    needle: Seq<(u8, u8)>,
    haystack: Seq<u8>,
    typos: nat,
    picks: Seq<Option<int>>,
) -> (ends: (int, int))
    requires
        is_alignment(needle, haystack, picks),
        deletions(picks) <= typos < needle.len(),
    ensures
        0 <= ends.0 <= ends.1 < haystack.len(),
        taken_for_one(needle.subrange(0, typos as int + 1), haystack[ends.0]),
        taken_for_one(
            needle.subrange(needle.len() - typos - 1, needle.len() as int),
            haystack[ends.1],
        ),
        forall|i: int|
            0 <= i < picks.len() && (#[trigger] picks[i]) is Some ==> ends.0 <= picks[i]->0
                <= ends.1,
{
    let n = needle.len() as int;
    if forall|a: int| 0 <= a < typos + 1 ==> (#[trigger] picks[a]) is None {
        lemma_all_deleted(picks, 0, typos as int + 1);
    }
    if forall|a: int| n - typos - 1 <= a < n ==> (#[trigger] picks[a]) is None {
        lemma_all_deleted(picks, n - typos - 1, n);
    }
    let some_head = choose|a: int| 0 <= a < typos + 1 && (#[trigger] picks[a]) is Some;
    let some_tail = choose|a: int| n - typos - 1 <= a < n && (#[trigger] picks[a]) is Some;
    let first = lemma_first_kept(picks, some_head);
    let last = lemma_last_kept(picks, some_tail);
    let heads = needle.subrange(0, typos as int + 1);
    let tails = needle.subrange(n - typos - 1, n);
    assert(same(heads[first], haystack[picks[first]->0]));
    assert(same(tails[last - (n - typos - 1)], haystack[picks[last]->0]));
    assert(first <= last);
    (picks[first]->0, picks[last]->0)
}

proof fn lemma_first_kept(picks: Seq<Option<int>>, kept: int) -> (first: int)
    requires
        0 <= kept < picks.len(),
        picks[kept] is Some,
    ensures
        0 <= first <= kept,
        picks[first] is Some,
        forall|a: int| 0 <= a < first ==> (#[trigger] picks[a]) is None,
    decreases kept,
{
    if exists|a: int| 0 <= a < kept && (#[trigger] picks[a]) is Some {
        let a = choose|a: int| 0 <= a < kept && (#[trigger] picks[a]) is Some;
        lemma_first_kept(picks, a)
    } else {
        kept
    }
}

proof fn lemma_last_kept(picks: Seq<Option<int>>, kept: int) -> (last: int)
    requires
        0 <= kept < picks.len(),
        picks[kept] is Some,
    ensures
        kept <= last < picks.len(),
        picks[last] is Some,
        forall|a: int| last < a < picks.len() ==> (#[trigger] picks[a]) is None,
    decreases picks.len() - kept,
{
    if exists|a: int| kept < a < picks.len() && (#[trigger] picks[a]) is Some {
        let a = choose|a: int| kept < a < picks.len() && (#[trigger] picks[a]) is Some;
        lemma_last_kept(picks, a)
    } else {
        kept
    }
}

/// The window of a haystack.
fn find_window(needle: &[(u8, u8)], haystack: &[u8], typos: usize) -> (out: Window)
    ensures
        is_window(needle@, haystack@, typos as nat, out),
{
    if !ordered_match(needle, haystack, typos) {
        return (false, 0, 0);
    }
    let n = needle.len();
    let len = haystack.len();
    if typos >= n {
        return (true, 0, len);
    }
    let ghost heads = needle@.subrange(0, typos as int + 1);
    let ghost tails = needle@.subrange(n - typos - 1, n as int);
    let ghost ends: (int, int) = (0, 0);
    proof {
        let picks = choose|picks: Seq<Option<int>>|
            #[trigger] is_alignment(needle@, haystack@, picks) && deletions(picks) <= typos;
        ends = lemma_kept_bounds(needle@, haystack@, typos as nat, picks);
    }
    let mut start: usize = 0;
    while !taken_for(needle, 0, typos + 1, haystack[start])
        invariant
            typos < n == needle@.len(),
            len == haystack@.len(),
            heads == needle@.subrange(0, typos as int + 1),
            0 <= start <= ends.0 < len,
            taken_for_one(heads, haystack@[ends.0]),
            forall|p: int| 0 <= p < start ==> !taken_for_one(heads, #[trigger] haystack@[p]),
        ensures
            0 <= start <= ends.0,
            taken_for_one(heads, haystack@[start as int]),
            forall|p: int| 0 <= p < start ==> !taken_for_one(heads, #[trigger] haystack@[p]),
        decreases len - start,
    {
        start = start + 1;
    }
    let mut end: usize = len;
    while !taken_for(needle, n - typos - 1, n, haystack[end - 1])
        invariant
            typos < n == needle@.len(),
            len == haystack@.len(),
            tails == needle@.subrange(n - typos - 1, n as int),
            0 <= ends.1 < end <= len,
            taken_for_one(tails, haystack@[ends.1]),
            forall|p: int| end <= p < len ==> !taken_for_one(tails, #[trigger] haystack@[p]),
        ensures
            ends.1 < end <= len,
            taken_for_one(tails, haystack@[end - 1]),
            forall|p: int| end <= p < len ==> !taken_for_one(tails, #[trigger] haystack@[p]),
        decreases end,
    {
        end = end - 1;
    }
    (true, start, end)
}

/// A prefilter that walks the haystack byte by byte.
#[derive(Debug)]
pub struct PrefilterScalar {
    needle: Vec<(u8, u8)>,
}

impl Clone for PrefilterScalar {
    fn clone(&self) -> (out: Self)
        ensures
            out.pairs() == self.pairs(),
    {
        PrefilterScalar { needle: vstd::slice::slice_to_vec(self.needle.as_slice()) }
    }
}

impl Kernel for PrefilterScalar {
    closed spec fn pairs(&self) -> Seq<(u8, u8)> {
        self.needle@
    }

    fn new(needle: &[u8], case_sensitive: bool) -> (out: Self) {
        PrefilterScalar { needle: case_needle(needle, case_sensitive) }
    }

    fn is_available() -> (out: bool)
        ensures
            out,
    {
        true
    }

    fn match_haystack(&self, haystack: &[u8]) -> (out: Window) {
        find_window(self.needle.as_slice(), haystack, 0)
    }

    fn match_haystack_1_typo(&self, haystack: &[u8]) -> (out: Window) {
        find_window(self.needle.as_slice(), haystack, 1)
    }

    fn match_haystack_2_typos(&self, haystack: &[u8]) -> (out: Window) {
        find_window(self.needle.as_slice(), haystack, 2)
    }

    fn match_haystack_many_typos(&mut self, haystack: &[u8], max_typos: u16) -> (out: Window) {
        find_window(self.needle.as_slice(), haystack, max_typos as usize)
    }
}

// ---------------------------------------------------------------------------------------------
// Laws.
// ---------------------------------------------------------------------------------------------
/// The window is conservative: every alignment that the typos allow lies inside it.
pub proof fn lemma_window_is_conservative(
    needle: Seq<(u8, u8)>,
    haystack: Seq<u8>,
    typos: nat,
    window: Window,
    picks: Seq<Option<int>>,
)
    requires
        is_window(needle, haystack, typos, window),
        is_alignment(needle, haystack, picks),
        deletions(picks) <= typos,
    ensures
        window.0,
        forall|i: int|
            0 <= i < picks.len() && (#[trigger] picks[i]) is Some ==> window.1 <= picks[i]->0
                < window.2,
{
    assert(accepts(needle, haystack, typos));
    if typos < needle.len() {
        let ends = lemma_kept_bounds(needle, haystack, typos, picks);
        assert forall|i: int| 0 <= i < picks.len() && (#[trigger] picks[i]) is Some implies window.1
            <= picks[i]->0 < window.2 by {
            assert(ends.0 >= window.1);
            assert(ends.1 < window.2);
        }
    }
}

/// Kernels agree: there is only one window.
pub proof fn lemma_window_is_unique(
    needle: Seq<(u8, u8)>,
    haystack: Seq<u8>,
    typos: nat,
    a: Window,
    b: Window,
)
    requires
        is_window(needle, haystack, typos, a),
        is_window(needle, haystack, typos, b),
    ensures
        a == b,
{
    if a.0 && typos < needle.len() {
        assert(a.1 == b.1) by {
            assert(taken_for_one(needle.subrange(0, typos as int + 1), haystack[a.1 as int]));
            assert(taken_for_one(needle.subrange(0, typos as int + 1), haystack[b.1 as int]));
        }
        assert(a.2 == b.2) by {
            let tails = needle.subrange(needle.len() - typos - 1, needle.len() as int);
            assert(taken_for_one(tails, haystack[a.2 - 1]));
            assert(taken_for_one(tails, haystack[b.2 - 1]));
        }
    }
}

/// Nothing shorter than the needle less its typos is accepted.
pub proof fn lemma_accepted_haystack_is_long_enough(
    needle: Seq<(u8, u8)>,
    haystack: Seq<u8>,
    typos: nat,
)
    requires
        accepts(needle, haystack, typos),
    ensures
        haystack.len() + typos >= needle.len(),
{
    let picks = choose|picks: Seq<Option<int>>|
        #[trigger] is_alignment(needle, haystack, picks) && deletions(picks) <= typos;
    lemma_kept_fit(needle, haystack, picks, haystack.len() as int);
}

proof fn lemma_kept_fit(
    needle: Seq<(u8, u8)>,
    haystack: Seq<u8>,
    picks: Seq<Option<int>>,
    bound: int,
)
    requires
        is_alignment(needle, haystack, picks),
        0 <= bound,
        forall|i: int| 0 <= i < picks.len() && (#[trigger] picks[i]) is Some ==> picks[i]->0 < bound,
    ensures
        picks.len() <= deletions(picks) + bound,
    decreases picks.len(),
{
    if picks.len() > 0 {
        let front = picks.drop_last();
        let shorter = needle.drop_last();
        let last = picks[picks.len() - 1];
        assert forall|a: int| 0 <= a < front.len() implies #[trigger] front[a] == picks[a]
            && shorter[a] == needle[a] by {}
        assert forall|a: int, b: int|
            0 <= a < b < front.len() && (#[trigger] front[a]) is Some && (#[trigger] front[b]) is Some
            implies front[a]->0 < front[b]->0 by {
            assert(picks[a]->0 < picks[b]->0);
        }
        assert(is_alignment(shorter, haystack, front));
        if last is Some {
            assert forall|i: int| 0 <= i < front.len() && (#[trigger] front[i]) is Some implies
                front[i]->0 < last->0 by {
                assert(picks[i]->0 < picks[picks.len() - 1]->0);
            }
            lemma_kept_fit(shorter, haystack, front, last->0);
        } else {
            lemma_kept_fit(shorter, haystack, front, bound);
        }
    }
}

/// The number of typos of a placement that may put a byte of the needle on a byte that is not
/// taken for it: the bytes that are deleted and those that are substituted.
pub open spec fn placement_typos(
    needle: Seq<(u8, u8)>,
    haystack: Seq<u8>,
    places: Seq<Option<int>>,
) -> nat
    decreases places.len(),
{
    if places.len() == 0 {
        0
    } else {
        let i = places.len() - 1;
        placement_typos(needle, haystack, places.drop_last()) + if places[i] is Some && same(
            needle[i],
            haystack[places[i]->0],
        ) {
            0nat
        } else {
            1
        }
    }
}

/// Substitution is relaxed to deletion: where the needle can be placed on the haystack in order
/// with at most `typos` bytes deleted or put on a byte that differs, the haystack is accepted.
pub proof fn lemma_substitution_is_deletion(
    needle: Seq<(u8, u8)>,
    haystack: Seq<u8>,
    typos: nat,
    places: Seq<Option<int>>,
)
    requires
        places.len() == needle.len(),
        forall|i: int|
            0 <= i < places.len() && (#[trigger] places[i]) is Some ==> 0 <= places[i]->0
                < haystack.len(),
        forall|i: int, j: int|
            0 <= i < j < places.len() && (#[trigger] places[i]) is Some && (
            #[trigger] places[j]) is Some ==> places[i]->0 < places[j]->0,
        placement_typos(needle, haystack, places) <= typos,
    ensures
        accepts(needle, haystack, typos),
{
    let picks = Seq::new(
        needle.len(),
        |i: int|
            if places[i] is Some && same(needle[i], haystack[places[i]->0]) {
                places[i]
            } else {
                None
            },
    );
    assert forall|i: int, j: int|
        0 <= i < j < picks.len() && (#[trigger] picks[i]) is Some && (#[trigger] picks[j]) is Some
        implies picks[i]->0 < picks[j]->0 by {
        assert(places[i]->0 < places[j]->0);
    }
    assert(is_alignment(needle, haystack, picks));
    lemma_dropped_substitutions(needle, haystack, places, picks, places.len() as int);
    assert(picks.take(places.len() as int) =~= picks);
    assert(places.take(places.len() as int) =~= places);
}

proof fn lemma_dropped_substitutions(
    needle: Seq<(u8, u8)>,
    haystack: Seq<u8>,
    places: Seq<Option<int>>,
    picks: Seq<Option<int>>,
    k: int,
)
    requires
        0 <= k <= places.len() == picks.len(),
        forall|i: int|
            0 <= i < picks.len() ==> #[trigger] picks[i] == if places[i] is Some && same(
                needle[i],
                haystack[places[i]->0],
            ) {
                places[i]
            } else {
                None
            },
    ensures
        deletions(picks.take(k)) == placement_typos(needle, haystack, places.take(k)),
    decreases k,
{
    if k > 0 {
        lemma_dropped_substitutions(needle, haystack, places, picks, k - 1);
        assert(picks.take(k).drop_last() =~= picks.take(k - 1));
        assert(places.take(k).drop_last() =~= places.take(k - 1));
        assert(picks[k - 1] == picks.take(k).last());
    }
}

/// Where case is ignored, each of the 26 small letters is paired with its capital and each capital
/// with its small letter, and any other byte with itself. Where case matters, every byte is paired
/// with itself.
pub proof fn lemma_letters_are_paired(needle: Seq<u8>, i: int)
    requires
        0 <= i < needle.len(),
    ensures
        cased(needle, true).len() == needle.len(),
        cased(needle, false).len() == needle.len(),
        cased(needle, true)[i] == (needle[i], needle[i]),
        cased(needle, false)[i].0 == needle[i],
        forall|k: int|
            #![trigger (0x61 + k)]
            0 <= k < 26 && needle[i] == 0x61 + k ==> cased(needle, false)[i].1 == 0x41 + k,
        forall|k: int|
            #![trigger (0x41 + k)]
            0 <= k < 26 && needle[i] == 0x41 + k ==> cased(needle, false)[i].1 == 0x61 + k,
        (forall|k: int|
            #![trigger (0x61 + k)]
            0 <= k < 26 ==> needle[i] != 0x61 + k && needle[i] != 0x41 + k) ==> cased(
            needle,
            false,
        )[i].1 == needle[i],
{
    let c = needle[i];
    if 0x61 <= c <= 0x7a {
        let k = c - 0x61;
        assert(c == 0x61 + k && 0 <= k < 26);
    }
    if 0x41 <= c <= 0x5a {
        let k = c - 0x41;
        assert(0x61 + k == c + 0x20 && 0 <= k < 26);
    }
}

/// Changing case twice changes nothing, and changing it once changes the 52 letters and nothing
/// else.
pub proof fn lemma_case_changes_twice(c: u8)
    ensures
        other_case(other_case(c)) == c,
        other_case(c) != c <==> (0x41 <= c <= 0x5a || 0x61 <= c <= 0x7a),
        other_case(c) != c ==> (other_case(c) == c + 0x20 || other_case(c) == c - 0x20),
        0x41 <= c <= 0x5a <==> 0x61 <= other_case(c) <= 0x7a,
{
}

/// Where case is ignored, a haystack byte is taken for a byte of the needle exactly where both are
/// the same once capitals are made small. Where case matters, exactly where both are the same.
pub proof fn lemma_same_but_for_case(needle: Seq<u8>, i: int, byte: u8)
    requires
        0 <= i < needle.len(),
    ensures
        same(cased(needle, true)[i], byte) <==> byte == needle[i],
        same(cased(needle, false)[i], byte) <==> ({
            let small = |c: u8|
                if 0x41 <= c <= 0x5a {
                    c + 0x20
                } else {
                    c as int
                };
            small(byte) == small(needle[i])
        }),
{
}

proof fn lemma_deletions_alike(a: Seq<Option<int>>, b: Seq<Option<int>>)
    requires
        a.len() == b.len(),
        forall|k: int| 0 <= k < a.len() ==> ((#[trigger] a[k]) is None <==> b[k] is None),
    ensures
        deletions(a) == deletions(b),
    decreases a.len(),
{
    if a.len() > 0 {
        assert forall|k: int| 0 <= k < a.len() - 1 implies ((#[trigger] a.drop_last()[k]) is None
            <==> b.drop_last()[k] is None) by {
            assert(a[k] is None <==> b[k] is None);
        }
        assert(a[a.len() - 1] is None <==> b[a.len() - 1] is None);
        lemma_deletions_alike(a.drop_last(), b.drop_last());
    }
}

proof fn lemma_deletions_first(picks: Seq<Option<int>>)
    requires
        picks.len() > 0,
    ensures
        deletions(picks) == deletions(picks.drop_first()) + if picks[0] is None {
            1nat
        } else {
            0
        },
    decreases picks.len(),
{
    let rest = picks.drop_first();
    if picks.len() == 1 {
        assert(picks.drop_last() =~= Seq::<Option<int>>::empty());
        assert(rest =~= Seq::<Option<int>>::empty());
        reveal_with_fuel(deletions, 2);
    } else {
        lemma_deletions_first(picks.drop_last());
        assert(picks.drop_last().drop_first() =~= rest.drop_last());
        assert(rest.last() == picks.last());
    }
}

/// A window is no wider than it must be: it begins with a byte that is one of the first
/// `typos + 1` of the needle, in either form, and no byte before it is; it ends with one that is
/// one of the last `typos + 1`, and no byte behind it is.
pub proof fn lemma_window_is_tight(
    needle: Seq<(u8, u8)>,
    haystack: Seq<u8>,
    typos: nat,
    window: Window,
)
    requires
        is_window(needle, haystack, typos, window),
        window.0,
        typos < needle.len(),
    ensures
        window.1 < window.2 <= haystack.len(),
        exists|i: int|
            0 <= i <= typos && (haystack[window.1 as int] == (#[trigger] needle[i]).0
                || haystack[window.1 as int] == needle[i].1),
        forall|i: int, p: int|
            0 <= i <= typos && 0 <= p < window.1 ==> (#[trigger] needle[i]).0
                != #[trigger] haystack[p] && needle[i].1 != haystack[p],
        exists|i: int|
            needle.len() - typos - 1 <= i < needle.len() && (haystack[window.2 - 1]
                == (#[trigger] needle[i]).0 || haystack[window.2 - 1] == needle[i].1),
        forall|i: int, p: int|
            needle.len() - typos - 1 <= i < needle.len() && window.2 <= p < haystack.len()
                ==> (#[trigger] needle[i]).0 != #[trigger] haystack[p] && needle[i].1
                != haystack[p],
{
    let (passes, start, end) = window;
    let heads = needle.subrange(0, typos as int + 1);
    let from = needle.len() - typos - 1;
    let tails = needle.subrange(from, needle.len() as int);
    let first = choose|i: int| 0 <= i < heads.len() && same(#[trigger] heads[i], haystack[start as int]);
    assert(needle[first] == heads[first]);
    let last = choose|i: int| 0 <= i < tails.len() && same(#[trigger] tails[i], haystack[end - 1]);
    assert(needle[from + last] == tails[last]);
    assert forall|i: int, p: int| 0 <= i <= typos && 0 <= p < start implies (#[trigger] needle[i]).0
        != #[trigger] haystack[p] && needle[i].1 != haystack[p] by {
        assert(!taken_for_one(heads, haystack[p]));
        assert(heads[i] == needle[i]);
    }
    assert forall|i: int, p: int|
        from <= i < needle.len() && end <= p < haystack.len() implies (#[trigger] needle[i]).0
        != #[trigger] haystack[p] && needle[i].1 != haystack[p] by {
        assert(!taken_for_one(tails, haystack[p]));
        assert(tails[i - from] == needle[i]);
    }
}

/// Another needle is found where its first byte may be deleted and the others are found with one
/// typo fewer, or where its first byte is found and the others are found behind it; and nowhere
/// else.
pub proof fn lemma_accepted_from_first_byte(
    needle: Seq<(u8, u8)>,
    haystack: Seq<u8>,
    typos: nat,
)
    requires
        needle.len() > 0,
    ensures
        accepts(needle, haystack, typos) <==> {
            ||| typos > 0 && accepts(needle.drop_first(), haystack, (typos - 1) as nat)
            ||| exists|j: int|
                0 <= j < haystack.len() && (haystack[j] == needle[0].0 || haystack[j]
                    == needle[0].1) && #[trigger] accepts(
                    needle.drop_first(),
                    haystack.skip(j + 1),
                    typos,
                )
        },
{
    let others = needle.drop_first();
    if accepts(needle, haystack, typos) {
        let picks = choose|picks: Seq<Option<int>>| #[trigger]
            is_alignment(needle, haystack, picks) && deletions(picks) <= typos;
        let rest = picks.drop_first();
        lemma_deletions_first(picks);
        assert forall|k: int| 0 <= k < rest.len() implies #[trigger] rest[k] == picks[k + 1]
            && others[k] == needle[k + 1] by {}
        if picks[0] is None {
            assert(is_alignment(others, haystack, rest));
        } else {
            let j = picks[0]->0;
            let behind = haystack.skip(j + 1);
            let moved = Seq::new(
                rest.len(),
                |k: int|
                    if rest[k] is Some {
                        Some(rest[k]->0 - (j + 1))
                    } else {
                        None
                    },
            );
            assert forall|k: int| 0 <= k < moved.len() && (#[trigger] moved[k]) is Some implies 0
                <= moved[k]->0 < behind.len() && same(others[k], behind[moved[k]->0]) by {
                assert(picks[k + 1] is Some);
                assert(picks[0]->0 < picks[k + 1]->0);
            }
            assert forall|a: int, b: int|
                0 <= a < b < moved.len() && (#[trigger] moved[a]) is Some && (
                #[trigger] moved[b]) is Some implies moved[a]->0 < moved[b]->0 by {
                assert(picks[a + 1]->0 < picks[b + 1]->0);
            }
            assert(is_alignment(others, behind, moved));
            lemma_deletions_alike(rest, moved);
            assert(accepts(others, behind, typos));
        }
    }
    if typos > 0 && accepts(others, haystack, (typos - 1) as nat) {
        let rest = choose|picks: Seq<Option<int>>| #[trigger]
            is_alignment(others, haystack, picks) && deletions(picks) <= typos - 1;
        let picks = seq![None::<int>] + rest;
        assert(picks.drop_first() =~= rest);
        lemma_deletions_first(picks);
        lemma_alignment_from_rest(needle, haystack, picks);
    }
    if exists|j: int|
        0 <= j < haystack.len() && (haystack[j] == needle[0].0 || haystack[j] == needle[0].1)
            && #[trigger] accepts(others, haystack.skip(j + 1), typos) {
        let j = choose|j: int|
            0 <= j < haystack.len() && (haystack[j] == needle[0].0 || haystack[j] == needle[0].1)
                && #[trigger] accepts(others, haystack.skip(j + 1), typos);
        let behind = haystack.skip(j + 1);
        let rest = choose|picks: Seq<Option<int>>| #[trigger]
            is_alignment(others, behind, picks) && deletions(picks) <= typos;
        let moved = Seq::new(
            rest.len(),
            |k: int|
                if rest[k] is Some {
                    Some(rest[k]->0 + (j + 1))
                } else {
                    None
                },
        );
        assert forall|k: int| 0 <= k < moved.len() && (#[trigger] moved[k]) is Some implies j
            < moved[k]->0 < haystack.len() && same(others[k], haystack[moved[k]->0]) by {
            assert(rest[k] is Some);
            assert(behind[rest[k]->0] == haystack[moved[k]->0]);
        }
        assert forall|a: int, b: int|
            0 <= a < b < moved.len() && (#[trigger] moved[a]) is Some && (
            #[trigger] moved[b]) is Some implies moved[a]->0 < moved[b]->0 by {
            assert(rest[a]->0 < rest[b]->0);
        }
        let picks = seq![Some(j)] + moved;
        assert(picks.drop_first() =~= moved);
        lemma_deletions_first(picks);
        lemma_deletions_alike(rest, moved);
        lemma_alignment_from_rest(needle, haystack, picks);
    }
}

proof fn lemma_alignment_from_rest(
    needle: Seq<(u8, u8)>,
    haystack: Seq<u8>,
    picks: Seq<Option<int>>,
)
    requires
        needle.len() > 0,
        picks.len() == needle.len(),
        is_alignment(needle.drop_first(), haystack, picks.drop_first()),
        picks[0] is Some ==> 0 <= picks[0]->0 < haystack.len() && same(
            needle[0],
            haystack[picks[0]->0],
        ),
        picks[0] is Some ==> forall|k: int|
            0 <= k < picks.len() - 1 && (#[trigger] picks.drop_first()[k]) is Some ==> picks[0]->0
                < picks.drop_first()[k]->0,
    ensures
        is_alignment(needle, haystack, picks),
{
    let rest = picks.drop_first();
    let others = needle.drop_first();
    assert forall|k: int| 0 < k < picks.len() implies #[trigger] picks[k] == rest[k - 1]
        && needle[k] == others[k - 1] by {}
    assert forall|a: int, b: int|
        0 <= a < b < picks.len() && (#[trigger] picks[a]) is Some && (#[trigger] picks[b]) is Some
        implies picks[a]->0 < picks[b]->0 by {
        assert(rest[b - 1] is Some);
        if a > 0 {
            assert(rest[a - 1] is Some);
        }
    }
}

} // verus!
