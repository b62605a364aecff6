//! The ranking of matches, sorting and merging.
use frizbee::chunks::{claimed_chunk, num_chunks};
use frizbee::k_merge::{k_merge_matches, merge_by_keys};
use frizbee::matches::{reverse_matches, Match};
use frizbee::sort::radix_sort_matches;

fn found(index: u32, score: u16) -> Match {
    Match { index, score, exact: false }
}

#[test]
fn the_better_score_ranks_first() {
    assert!(found(7, 2) < found(1, 1));
    assert!(found(1, 2) < found(7, 2));
    assert!(found(1, 2) < Match { exact: true, ..found(1, 2) });
    assert!(!(found(1, 2) < found(1, 2)));
    assert!(found(1, 2).ranks_before(&found(1, 2)));
    assert_eq!(Match::from_index(9), Match { index: 9, score: 0, exact: false });
}

#[test]
fn a_sort_is_stable() {
    let mut matches = vec![found(5, 300), found(4, 7), found(3, 300), found(2, 65535), found(1, 7)];
    radix_sort_matches(&mut matches);
    assert_eq!(
        matches,
        vec![found(2, 65535), found(5, 300), found(3, 300), found(4, 7), found(1, 7)]
    );
    let mut nothing: Vec<Match> = Vec::new();
    radix_sort_matches(&mut nothing);
    assert!(nothing.is_empty());
}

#[test]
fn a_sorted_list_is_ranked() {
    let mut matches: Vec<Match> = (0..5000).map(|i| found(i, (i * 7919 % 4099) as u16)).collect();
    let mut want = matches.clone();
    want.sort_by(|a, b| b.score.cmp(&a.score).then(a.index.cmp(&b.index)));
    radix_sort_matches(&mut matches);
    assert_eq!(matches, want);
    assert!(matches.is_sorted());
}

fn ranked_lists() -> Vec<Vec<Match>> {
    vec![
        vec![found(4, 90), found(1, 20), found(2, 20)],
        vec![],
        vec![Match { exact: true, ..found(0, 95) }, found(3, 90), found(5, 1)],
        vec![found(6, 0)],
    ]
}

#[test]
fn ranked_lists_merge_into_one() {
    let want = vec![
        Match { exact: true, ..found(0, 95) },
        found(3, 90),
        found(4, 90),
        found(1, 20),
        found(2, 20),
        found(5, 1),
        found(6, 0),
    ];
    assert_eq!(k_merge_matches(ranked_lists()), want);
    assert_eq!(merge_by_keys(ranked_lists()), want);
    assert_eq!(merge_by_keys(Vec::new()), vec![]);
    assert_eq!(k_merge_matches(Vec::new()), vec![]);
}

#[test]
fn a_list_is_turned_round() {
    let mut matches = vec![found(1, 3), found(2, 2), found(3, 1)];
    reverse_matches(&mut matches);
    assert_eq!(matches, vec![found(3, 1), found(2, 2), found(1, 3)]);
}

#[test]
fn chunks_cover_a_list() {
    assert_eq!(num_chunks(0, 512), 0);
    assert_eq!(num_chunks(1, 512), 1);
    assert_eq!(num_chunks(512, 512), 1);
    assert_eq!(num_chunks(513, 512), 2);
    assert_eq!(num_chunks(usize::MAX, 1), usize::MAX);
    assert_eq!(claimed_chunk(0, 513, 512), Some((0, 512)));
    assert_eq!(claimed_chunk(1, 513, 512), Some((512, 513)));
    assert_eq!(claimed_chunk(2, 513, 512), None);
}
