//! Merging of ranked lists into one.
use itertools::Itertools;
use vstd::multiset::Multiset;
use vstd::prelude::*;

use crate::matches::{is_ranked, ranks, Match};

verus! {

/// The items of some lists.
pub open spec fn pool<A>(lists: Seq<Seq<A>>) -> Multiset<A>
    decreases lists.len(),
{
    if lists.len() == 0 {
        Multiset::empty()
    } else {
        pool(lists.drop_last()).add(lists.last().to_multiset())
    }
}

/// Lists as sequences.
pub open spec fn views<A>(lists: Seq<Vec<A>>) -> Seq<Seq<A>> {
    lists.map_values(|list: Vec<A>| list@)
}

/// Merges two ranked lists.
fn merge(a: &Vec<Match>, b: &Vec<Match>) -> (out: Vec<Match>)
    requires
        is_ranked(a@),
        is_ranked(b@),
    ensures
        is_ranked(out@),
        out@.to_multiset() == a@.to_multiset().add(b@.to_multiset()),
{
    broadcast use vstd::seq_lib::group_to_multiset_ensures;

    let mut out: Vec<Match> = Vec::new();
    let mut i: usize = 0;
    let mut j: usize = 0;
    proof {
        assert(a@.take(0).to_multiset() =~= Multiset::empty());
        assert(b@.take(0).to_multiset() =~= Multiset::empty());
        assert(out@.to_multiset() =~= Multiset::empty());
    }
    while i < a.len() || j < b.len()
        invariant
            i <= a@.len(),
            j <= b@.len(),
            is_ranked(a@),
            is_ranked(b@),
            is_ranked(out@),
            out@.to_multiset() == a@.take(i as int).to_multiset().add(
                b@.take(j as int).to_multiset(),
            ),
            forall|k: int, l: int|
                0 <= k < out@.len() && i <= l < a@.len() ==> ranks(
                    #[trigger] out@[k],
                    #[trigger] a@[l],
                ),
            forall|k: int, l: int|
                0 <= k < out@.len() && j <= l < b@.len() ==> ranks(
                    #[trigger] out@[k],
                    #[trigger] b@[l],
                ),
        decreases a@.len() - i + b@.len() - j,
    {
        broadcast use vstd::seq_lib::group_to_multiset_ensures;

        let ghost done = out@;
        if j >= b.len() || (i < a.len() && a[i].ranks_before(&b[j])) {
            let m = a[i];
            proof {
                assert(a@.take(i + 1) =~= a@.take(i as int).push(m));
                assert forall|l: int| j <= l < b@.len() implies ranks(m, #[trigger] b@[l]) by {
                    if l > j {
                        assert(ranks(b@[j as int], b@[l]));
                    }
                }
            }
            out.push(m);
            i = i + 1;
        } else {
            let m = b[j];
            proof {
                assert(b@.take(j + 1) =~= b@.take(j as int).push(m));
                assert forall|l: int| i <= l < a@.len() implies ranks(m, #[trigger] a@[l]) by {
                    assert(ranks(m, a@[i as int]));
                    if l > i {
                        assert(ranks(a@[i as int], a@[l]));
                    }
                }
            }
            out.push(m);
            j = j + 1;
        }
        assert(out@.to_multiset() =~= a@.take(i as int).to_multiset().add(
            b@.take(j as int).to_multiset(),
        ));
    }
    assert(a@.take(i as int) =~= a@);
    assert(b@.take(j as int) =~= b@);
    out
}

/// Merges ranked lists into one ranked list.
pub fn k_merge_matches(lists: Vec<Vec<Match>>) -> (out: Vec<Match>)
    requires
        forall|k: int| 0 <= k < lists@.len() ==> is_ranked((#[trigger] lists@[k])@),
    ensures
        is_ranked(out@),
        out@.to_multiset() == pool(views(lists@)),
{
    broadcast use vstd::seq_lib::group_to_multiset_ensures;

    let mut out: Vec<Match> = Vec::new();
    assert(out@.to_multiset() =~= Multiset::empty());
    for k in 0..lists.len()
        invariant
            forall|k: int| 0 <= k < lists@.len() ==> is_ranked((#[trigger] lists@[k])@),
            is_ranked(out@),
            out@.to_multiset() == pool(views(lists@).take(k as int)),
    {
        proof {
            let next = views(lists@).take(k + 1);
            assert(next.drop_last() =~= views(lists@).take(k as int));
            assert(next.last() == lists@[k as int]@);
        }
        out = merge(&out, &lists[k]);
    }
    assert(views(lists@).take(lists@.len() as int) =~= views(lists@));
    out
}

// ---------------------------------------------------------------------------------------------
// Merging by keys.
// ---------------------------------------------------------------------------------------------
/// The key by which a match is ranked, as a tuple whose lexicographic order is the ranking: what
/// the score lacks, the index, and one for an exact match.
pub type Key = (u16, u32, u8);

pub open spec fn key_of(m: Match) -> Key {
    (
        (u16::MAX - m.score) as u16,
        m.index,
        if m.exact {
            1
        } else {
            0
        },
    )
}

/// The lexicographic order of keys.
pub open spec fn key_le(a: Key, b: Key) -> bool {
    a.0 < b.0 || (a.0 == b.0 && (a.1 < b.1 || (a.1 == b.1 && a.2 <= b.2)))
}

pub open spec fn are_keys_sorted(keys: Seq<Key>) -> bool {
    forall|i: int, j: int| 0 <= i < j < keys.len() ==> key_le(#[trigger] keys[i], #[trigger] keys[j])
}

/// Merges lists of keys with `Itertools::kmerge`: every item of every list comes out, and where
/// all lists ascend, so does the result. Nothing is said of the order where one does not.
#[verifier::external_body]
fn kmerge(lists: Vec<Vec<Key>>) -> (out: Vec<Key>)
    ensures
        out@.to_multiset() == pool(views(lists@)),
        (forall|k: int| 0 <= k < lists@.len() ==> are_keys_sorted((#[trigger] lists@[k])@))
            ==> are_keys_sorted(out@),
{
    lists.into_iter().kmerge().collect()
}

fn keys_of(matches: &Vec<Match>) -> (out: Vec<Key>)
    ensures
        out@ == matches@.map_values(|m: Match| key_of(m)),
{
    let mut out: Vec<Key> = Vec::new();
    for i in 0..matches.len()
        invariant
            out@ == matches@.take(i as int).map_values(|m: Match| key_of(m)),
    {
        let m = matches[i];
        let last: u8 = if m.exact {
            1
        } else {
            0
        };
        out.push((u16::MAX - m.score, m.index, last));
        assert(out@ =~= matches@.take(i + 1).map_values(|m: Match| key_of(m)));
    }
    assert(matches@.take(matches@.len() as int) =~= matches@);
    out
}

fn matches_of(keys: &Vec<Key>) -> (out: Vec<Match>)
    ensures
        out@.len() == keys@.len(),
        forall|i: int|
            0 <= i < keys@.len() && keys@[i].2 <= 1 ==> key_of(#[trigger] out@[i]) == keys@[i],
{
    let mut out: Vec<Match> = Vec::new();
    for i in 0..keys.len()
        invariant
            out@.len() == i,
            forall|k: int| 0 <= k < i && keys@[k].2 <= 1 ==> key_of(#[trigger] out@[k]) == keys@[k],
    {
        let key = keys[i];
        out.push(Match { index: key.1, score: u16::MAX - key.0, exact: key.2 == 1 });
    }
    out
}

proof fn lemma_key_count(matches: Seq<Match>, keys: Seq<Key>, m: Match)
    requires
        keys.len() == matches.len(),
        forall|i: int| 0 <= i < keys.len() ==> #[trigger] keys[i] == key_of(matches[i]),
    ensures
        keys.to_multiset().count(key_of(m)) == matches.to_multiset().count(m),
    decreases matches.len(),
{
    broadcast use vstd::seq_lib::group_to_multiset_ensures;

    if matches.len() > 0 {
        let some = matches.drop_last();
        let theirs = keys.drop_last();
        assert forall|i: int| 0 <= i < theirs.len() implies #[trigger] theirs[i] == key_of(
            some[i],
        ) by {
            assert(keys[i] == key_of(matches[i]));
        }
        lemma_key_count(some, theirs, m);
        assert(matches =~= some.push(matches.last()));
        assert(keys =~= theirs.push(keys.last()));
        assert(keys[keys.len() - 1] == key_of(matches[matches.len() - 1]));
        assert(key_of(m) == key_of(matches.last()) ==> m == matches.last());
    }
}

proof fn lemma_key_pool(lists: Seq<Seq<Match>>, keys: Seq<Seq<Key>>, key: Key, m: Match)
    requires
        keys.len() == lists.len(),
        forall|k: int|
            0 <= k < keys.len() ==> #[trigger] keys[k] == lists[k].map_values(
                |m: Match| key_of(m),
            ),
    ensures
        pool(keys).count(key_of(m)) == pool(lists).count(m),
        pool(keys).count(key) > 0 ==> key.2 <= 1,
    decreases lists.len(),
{
    broadcast use vstd::seq_lib::group_to_multiset_ensures;

    if lists.len() > 0 {
        let front = keys.drop_last();
        assert forall|k: int| 0 <= k < front.len() implies #[trigger] front[k]
            == lists.drop_last()[k].map_values(|m: Match| key_of(m)) by {
            assert(keys[k] == front[k]);
        }
        lemma_key_pool(lists.drop_last(), front, key, m);
        let last = keys[keys.len() - 1];
        lemma_key_count(lists.last(), last, m);
        if last.to_multiset().count(key) > 0 {
            assert(last.contains(key));
        }
    }
}

/// Merges ranked lists into one ranked list, by way of their keys.
pub fn merge_by_keys(lists: Vec<Vec<Match>>) -> (out: Vec<Match>)
    requires
        forall|k: int| 0 <= k < lists@.len() ==> is_ranked((#[trigger] lists@[k])@),
    ensures
        is_ranked(out@),
        out@.to_multiset() == pool(views(lists@)),
{
    let mut key_lists: Vec<Vec<Key>> = Vec::new();
    for k in 0..lists.len()
        invariant
            forall|l: int| 0 <= l < lists@.len() ==> is_ranked((#[trigger] lists@[l])@),
            key_lists@.len() == k,
            forall|l: int|
                0 <= l < k ==> (#[trigger] key_lists@[l])@ == lists@[l]@.map_values(
                    |m: Match| key_of(m),
                ) && are_keys_sorted(key_lists@[l]@),
    {
        let keys = keys_of(&lists[k]);
        proof {
            let list = lists@[k as int]@;
            assert forall|i: int, j: int| 0 <= i < j < keys@.len() implies key_le(
                #[trigger] keys@[i],
                #[trigger] keys@[j],
            ) by {
                assert(ranks(list[i], list[j]));
            }
        }
        key_lists.push(keys);
    }
    let ghost all = views(key_lists@);
    let merged = kmerge(key_lists);
    let out = matches_of(&merged);
    proof {
        let items = views(lists@);
        assert forall|k: int| 0 <= k < all.len() implies #[trigger] all[k] == items[k].map_values(
            |m: Match| key_of(m),
        ) by {
            assert(key_lists@[k]@ == lists@[k]@.map_values(|m: Match| key_of(m)));
        }
        broadcast use vstd::seq_lib::group_to_multiset_ensures;

        assert forall|i: int| 0 <= i < merged@.len() implies (#[trigger] merged@[i]).2 <= 1 by {
            let key = merged@[i];
            assert(merged@.contains(key));
            lemma_key_pool(items, all, key, Match::unscored(0));
        }
        assert forall|i: int| 0 <= i < merged@.len() implies #[trigger] merged@[i] == key_of(
            out@[i],
        ) by {}
        assert forall|m: Match| out@.to_multiset().count(m) == pool(items).count(m) by {
            lemma_key_count(out@, merged@, m);
            lemma_key_pool(items, all, key_of(m), m);
        }
        assert(out@.to_multiset() =~= pool(items));
        assert forall|i: int, j: int| 0 <= i < j < out@.len() implies ranks(
            #[trigger] out@[i],
            #[trigger] out@[j],
        ) by {
            assert(key_le(merged@[i], merged@[j]));
        }
    }
    out
}

} // verus!
