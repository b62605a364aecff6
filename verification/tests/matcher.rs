//! Matching of lists: contiguous, resolved, in chunks and by several workers.
use frizbee::chunks::num_chunks;
use frizbee::config::{Config, Matching, SortStrategy};
use frizbee::matcher::{MatchableChunked, Matcher, ResolvedChunks, PARALLEL_CHUNK, SIMD_CHUNK_BYTES};
use frizbee::matches::Match;
use frizbee::one_shot::{
    match_list, match_list_alone, match_list_chunked_alone, match_list_parallel,
    match_list_parallel_chunked, match_list_parallel_resolved, match_list_resolved_alone,
    ONE_SHOT_CHUNK,
};
use frizbee::pattern::Pattern;
use proptest::test_runner::{Config as PropConfig, TestCaseError, TestRunner};

/// The number of items that are gathered at a time.
const GATHER_BATCH: usize = 64;

/// A haystack in chunks.
#[derive(Clone)]
struct ChunkItem {
    chunks: Vec<[u8; SIMD_CHUNK_BYTES]>,
    chunk_count: usize,
    byte_len: u16,
}

/// Splits a string into zero-padded chunks, as an arena would hold them.
fn string_to_chunks(s: &str) -> ChunkItem {
    let bytes = s.as_bytes();
    let n_chunks = if bytes.is_empty() {
        0
    } else {
        bytes.len().div_ceil(SIMD_CHUNK_BYTES)
    };
    let mut chunks = vec![[0u8; SIMD_CHUNK_BYTES]; n_chunks];
    for (i, chunk) in chunks.iter_mut().enumerate() {
        let start = i * SIMD_CHUNK_BYTES;
        let take = SIMD_CHUNK_BYTES.min(bytes.len() - start);
        chunk[..take].copy_from_slice(&bytes[start..start + take]);
    }
    ChunkItem {
        chunks,
        chunk_count: n_chunks,
        byte_len: bytes.len() as u16,
    }
}

fn resolve_chunks<const N: usize>(item: &ChunkItem) -> Option<ResolvedChunks<N>> {
    let mut chunks = [[0u8; SIMD_CHUNK_BYTES]; N];
    chunks[..item.chunks.len()].copy_from_slice(&item.chunks);
    Some(ResolvedChunks {
        chunks,
        chunk_count: item.chunk_count,
        byte_len: item.byte_len,
    })
}

fn indices(matches: &[Match]) -> Vec<u32> {
    matches.iter().map(|m| m.index).collect()
}

/// Some ways in which `threads` workers may claim the chunks of a list.
fn schedules(len: usize, size: usize, threads: usize) -> Vec<Vec<usize>> {
    let chunks = num_chunks(len, size);
    vec![
        (0..chunks).map(|c| c % threads).collect(),
        (0..chunks).map(|c| (chunks - 1 - c) % threads).collect(),
        (0..chunks).map(|c| (c * 7 + 3) % threads).collect(),
        vec![0; chunks],
        vec![threads - 1; chunks],
    ]
}

fn thread_counts() -> &'static [usize] {
    &[1, 2, 3, 4, 5, 6, 7, 8]
}

fn long_list() -> Vec<String> {
    let mut haystacks = (0..4101)
        .map(|index| format!("nomatch-{index}"))
        .collect::<Vec<_>>();
    for (index, value) in [
        (0, "abc"),
        (2047, "xabc"),
        (2048, "abxc"),
        (2049, "alpha/beta/abc"),
        (4095, "ABC"),
        (4096, "a_b_c"),
        (4100, "zabc"),
    ] {
        haystacks[index] = value.to_string();
    }
    haystacks
}

fn check(ok: bool, reason: String) -> Result<(), TestCaseError> {
    if ok {
        Ok(())
    } else {
        Err(TestCaseError::fail(reason))
    }
}

fn runner(cases: u32) -> TestRunner {
    TestRunner::new(PropConfig {
        cases,
        max_shrink_iters: 64,
        failure_persistence: None,
        ..PropConfig::default()
    })
}

#[test]
fn sorted_matches_sequential_across_chunk_boundaries() {
    let haystacks = long_list();
    let config = Config::default().sort(SortStrategy::ScoreThenIndexAsc);
    let sequential = match_list("abc", &haystacks, &config);
    assert!(sequential.is_sorted());
    assert_eq!(sequential.len(), 7);

    for &threads in thread_counts() {
        for claims in schedules(haystacks.len(), ONE_SHOT_CHUNK, threads) {
            let parallel = match_list_parallel("abc", &haystacks, &config, threads, &claims);
            assert_eq!(&parallel, &sequential, "threads={threads}");
            assert!(parallel.is_sorted(), "threads={threads}");
        }
        for claims in schedules(haystacks.len(), PARALLEL_CHUNK, threads) {
            let parallel =
                Matcher::new("abc", &config).match_list_parallel(&haystacks, threads, &claims);
            assert_eq!(&parallel, &sequential, "threads={threads}");
            assert!(parallel.is_sorted(), "threads={threads}");
        }
    }
}

/// Resolved matching must produce the same set of matched indices and scores as contiguous
/// matching for arbitrary needle/haystack pairs.
#[test]
fn parallel_resolved_matches_contiguous_parity() {
    let strategy = (
        "[a-z]{2,12}",
        proptest::collection::vec("[a-z/_\\.]{5,80}", 1..30),
        0u16..=8u16,
    );
    runner(2000)
        .run(&strategy, |(needle, haystacks, max_typos)| {
            let config = Config::default()
                .max_typos(Some(max_typos))
                .sort(SortStrategy::IndexAsc);

            let haystack_refs: Vec<&str> = haystacks.iter().map(String::as_str).collect();
            let contiguous = match_list(&needle, &haystack_refs, &config);

            let chunk_data: Vec<ChunkItem> =
                haystacks.iter().map(|s| string_to_chunks(s)).collect();
            let mut matcher = Matcher::new(&needle, &config);
            let mut resolved = Vec::new();
            matcher.match_list_resolved_into(&chunk_data, 0, &resolve_chunks::<8>, &mut resolved);

            check(
                contiguous == resolved,
                format!("needle={needle:?} max_typos={max_typos}"),
            )
        })
        .unwrap();
}

#[test]
fn resolved_parallel_matches_sequential_across_chunk_boundaries() {
    let haystacks = long_list();
    let config = Config::default().sort(SortStrategy::ScoreThenIndexAsc);
    let sequential = match_list("abc", &haystacks, &config);
    assert!(sequential.is_sorted());

    let chunk_data: Vec<ChunkItem> = haystacks.iter().map(|s| string_to_chunks(s)).collect();

    for &threads in thread_counts() {
        for claims in schedules(haystacks.len(), ONE_SHOT_CHUNK, threads) {
            let parallel = match_list_parallel_resolved(
                "abc",
                &chunk_data,
                &resolve_chunks::<2>,
                &config,
                threads,
                &claims,
            );
            assert_eq!(&parallel, &sequential, "threads={threads}");
            assert!(parallel.is_sorted(), "threads={threads}");
        }
        for claims in schedules(haystacks.len(), PARALLEL_CHUNK, threads) {
            let parallel = Matcher::new("abc", &config).match_list_parallel_resolved(
                &chunk_data,
                &resolve_chunks::<2>,
                threads,
                &claims,
            );
            assert_eq!(&parallel, &sequential, "threads={threads}");
            assert!(parallel.is_sorted(), "threads={threads}");
        }
    }
}

#[test]
fn parallel_resolved_skips_none_items_and_empty_needle_reports_present_items() {
    let present = string_to_chunks("hello_world");
    let items = [Some(present.clone()), None, Some(present)];
    let resolve = |item: &Option<ChunkItem>| -> Option<ResolvedChunks<4>> {
        item.as_ref().and_then(resolve_chunks)
    };

    let config = Config::default().sort(SortStrategy::IndexAsc);
    let claims = [1];
    let matches = match_list_parallel_resolved("hw", &items, &resolve, &config, 2, &claims);
    assert_eq!(indices(&matches), vec![0, 2]);

    // Empty needle reports every resolvable item
    let matches = match_list_parallel_resolved("", &items, &resolve, &config, 2, &claims);
    assert_eq!(indices(&matches), vec![0, 2]);
}

/// Resolved matching must produce the same matches as contiguous matching for arbitrary
/// needle/haystack pairs, across typo budgets and sort strategies.
#[test]
fn resolved_resolved_matches_contiguous_parity() {
    let strategy = (
        "[a-z]{2,12}",
        proptest::collection::vec("[a-z/_\\.]{5,80}", 1..30),
        0u16..=8u16,
        proptest::bool::ANY,
    );
    runner(2000)
        .run(&strategy, |(needle, haystacks, max_typos, by_score)| {
            let sort = if by_score {
                SortStrategy::ScoreThenIndexAsc
            } else {
                SortStrategy::IndexAsc
            };
            let config = Config::default().max_typos(Some(max_typos)).sort(sort);

            let contiguous = Matcher::new(needle.as_str(), &config).match_list(&haystacks);

            let chunk_data: Vec<ChunkItem> =
                haystacks.iter().map(|s| string_to_chunks(s)).collect();
            let resolved = Matcher::new(needle.as_str(), &config)
                .match_list_resolved(&chunk_data, &resolve_chunks::<8>);

            check(
                contiguous == resolved,
                format!("needle={needle:?} max_typos={max_typos} sort={sort:?}"),
            )
        })
        .unwrap();
}

#[test]
fn resolved_matches_contiguous_across_gather_batches() {
    // Larger than one gather batch, so indices must be remapped across batch boundaries
    let haystacks: Vec<String> = (0..3 * GATHER_BATCH + 7)
        .map(|i| {
            if i % 97 == 0 {
                format!("src/abc_{i}.rs")
            } else {
                format!("nomatch-{i}")
            }
        })
        .collect();
    let chunk_data: Vec<ChunkItem> = haystacks.iter().map(|s| string_to_chunks(s)).collect();

    for sort in [SortStrategy::ScoreThenIndexAsc, SortStrategy::IndexDesc] {
        let config = Config::default().sort(sort);
        let contiguous = Matcher::new("abc", &config).match_list(&haystacks);
        let resolved =
            Matcher::new("abc", &config).match_list_resolved(&chunk_data, &resolve_chunks::<8>);
        assert_eq!(contiguous, resolved, "sort={sort:?}");
        assert!(!resolved.is_empty());
    }
}

#[test]
fn resolved_supports_literal_and_multi_pattern() {
    let haystacks = ["foo/bar", "bar/foo", "foo", "foobar", "qux"];
    let chunk_data: Vec<ChunkItem> = haystacks.iter().map(|s| string_to_chunks(s)).collect();
    let config = Config::default().sort(SortStrategy::IndexAsc);

    // Multi-pattern with negation
    let patterns = [
        Pattern::new("foo", Matching::Fuzzy, false),
        Pattern::new("bar", Matching::Prefix, true),
    ];
    let contiguous = Matcher::from_patterns(&patterns, &config).match_list(&haystacks);
    let resolved = Matcher::from_patterns(&patterns, &config)
        .match_list_resolved(&chunk_data, &resolve_chunks::<2>);
    assert_eq!(contiguous, resolved);
    assert_eq!(indices(&resolved), vec![0, 2, 3]);

    // Literal matching modes
    for (matching, want) in [
        (Matching::Exact, vec![2]),
        (Matching::Prefix, vec![0, 2, 3]),
        (Matching::Suffix, vec![1, 2]),
        (Matching::Substring, vec![0, 1, 2, 3]),
    ] {
        let config = config.matching(matching);
        let contiguous = Matcher::new("foo", &config).match_list(&haystacks);
        let resolved =
            Matcher::new("foo", &config).match_list_resolved(&chunk_data, &resolve_chunks::<2>);
        assert_eq!(contiguous, resolved, "matching={matching:?}");
        assert_eq!(indices(&resolved), want, "matching={matching:?}");
    }
}

#[test]
fn resolved_resolved_skips_none_items_and_empty_needle_reports_present_items() {
    let present = string_to_chunks("hello_world");
    let items = [Some(present.clone()), None, Some(present)];
    let resolve = |item: &Option<ChunkItem>| -> Option<ResolvedChunks<4>> {
        item.as_ref().and_then(resolve_chunks)
    };

    let config = Config::default().sort(SortStrategy::IndexAsc);
    let matches = Matcher::new("hw", &config).match_list_resolved(&items, &resolve);
    assert_eq!(indices(&matches), vec![0, 2]);

    // Empty needle reports every resolvable item
    let matches = Matcher::new("", &config).match_list_resolved(&items, &resolve);
    assert_eq!(indices(&matches), vec![0, 2]);

    // Index offsets are applied to skipped and matched items alike
    let mut matches = Vec::new();
    Matcher::new("hw", &config).match_list_resolved_into(&items, 10, &resolve, &mut matches);
    assert_eq!(indices(&matches), vec![10, 12]);
}

#[test]
fn workers_lose_nothing_in_any_order() {
    let haystacks = long_list();
    let chunk_data: Vec<ResolvedChunks<2>> = haystacks
        .iter()
        .map(|s| resolve_chunks(&string_to_chunks(s)).unwrap())
        .collect();
    for sort in [SortStrategy::IndexAsc, SortStrategy::IndexDesc] {
        let config = Config::default().sort(sort);
        let mut sequential = match_list("abc", &haystacks, &config);
        let one = match_list_parallel("abc", &haystacks, &config, 1, &[0; 9]);
        assert_eq!(one, sequential);
        sequential.sort_by_key(|m| m.index);
        for &threads in thread_counts() {
            for claims in schedules(haystacks.len(), ONE_SHOT_CHUNK, threads) {
                let mut parallel =
                    match_list_parallel("abc", &haystacks, &config, threads, &claims);
                let chunked = match_list_parallel_chunked(
                    "abc",
                    &chunk_data,
                    &(),
                    &config,
                    threads,
                    &claims,
                );
                assert_eq!(parallel, chunked);
                parallel.sort_by_key(|m| m.index);
                assert_eq!(parallel, sequential, "threads={threads}");
            }
        }
    }
    // Worker by worker
    let config = Config::default().sort(SortStrategy::IndexAsc);
    let claims = [1, 0, 0, 0, 0, 0, 0, 0, 1];
    let matches = match_list_parallel("abc", &haystacks, &config, 2, &claims);
    assert_eq!(indices(&matches), vec![2047, 2048, 2049, 4095, 0, 4096, 4100]);
    let claims = [1, 0, 1];
    let matches = Matcher::new("abc", &config).match_list_parallel(&haystacks, 2, &claims);
    assert_eq!(indices(&matches), vec![2048, 2049, 4095, 0, 2047, 4096, 4100]);
    let config = Config::default().sort(SortStrategy::IndexDesc);
    let matches = Matcher::new("abc", &config).match_list_parallel(&haystacks, 2, &claims);
    assert_eq!(indices(&matches), vec![4100, 4096, 2047, 0, 4095, 2049, 2048]);
}

#[test]
fn chunked_items_match_like_contiguous_ones() {
    let haystacks = ["hello_world", "", "a_haystack_of_more_than_one_chunk", "hw"];
    let items: Vec<ResolvedChunks<3>> = haystacks
        .iter()
        .map(|s| resolve_chunks(&string_to_chunks(s)).unwrap())
        .collect();
    assert_eq!(items[2].haystack_info(&()), Some((3, 33)));
    assert_eq!(&items[2].haystack_chunk(&(), 2)[..2], b"k\0");
    for needle in ["hw", "", "chunk", "h"] {
        let config = Config::default();
        let contiguous = match_list(needle, &haystacks, &config);
        let chunked = match_list_parallel_chunked(needle, &items, &(), &config, 3, &[2]);
        assert_eq!(contiguous, chunked, "needle={needle:?}");
    }
    // What does not know its chunks is skipped
    let mut broken = items.clone();
    broken[0].chunk_count = 2;
    assert_eq!(broken[0].haystack_info(&()), None);
    let matches = match_list_parallel_chunked("", &broken, &(), &Config::default(), 1, &[0]);
    assert_eq!(indices(&matches), vec![1, 2, 3]);
}

#[test]
fn absent_texts_are_skipped() {
    let haystacks = [Some("foo"), None, Some("bar"), Some("of_of")];
    let config = Config::default().sort(SortStrategy::IndexAsc);
    assert_eq!(indices(&match_list("foo", &haystacks, &config)), vec![0]);
    assert_eq!(indices(&match_list("oof", &haystacks, &config)), vec![3]);
    assert_eq!(indices(&match_list("", &haystacks, &config)), vec![0, 2, 3]);
    let matches = match_list_parallel("", &haystacks, &Config::default(), 4, &[3]);
    assert_eq!(
        matches,
        vec![Match::from_index(0), Match::from_index(2), Match::from_index(3)]
    );
    let nothing: [&str; 0] = [];
    assert_eq!(match_list_parallel("foo", &nothing, &config, 2, &[]), vec![]);
}

#[test]
fn an_exact_match_has_its_bonus() {
    let config = Config::default();
    let matches = match_list("foo", &["xfoo", "foo", "Foo"], &config);
    assert_eq!(
        matches,
        vec![
            Match { index: 1, score: 12 + 3 * 16 + 8, exact: true },
            Match { index: 2, score: 12 + 3 * 16 - 4, exact: false },
            Match { index: 0, score: 3 * 16, exact: false },
        ]
    );
    // A haystack of more than one chunk can be the needle too
    let long = "a_haystack_of_more_than_one_chunk";
    let items = [string_to_chunks(long)];
    let contiguous = match_list(long, &[long], &config);
    assert!(contiguous[0].exact);
    let resolved =
        match_list_parallel_resolved(long, &items, &resolve_chunks::<3>, &config, 2, &[0]);
    assert_eq!(resolved, contiguous);
}

#[test]
fn scores_of_patterns_add_up() {
    let config = Config::default();
    let one = match_list("foo", &["foo_bar"], &config)[0].score;
    let other = match_list("bar", &["foo_bar"], &config)[0].score;
    let patterns = [
        Pattern::new("foo", Matching::Fuzzy, false),
        Pattern::new("", Matching::Fuzzy, false),
        Pattern::new("bar", Matching::Fuzzy, false),
        Pattern::new("qux", Matching::Fuzzy, true),
    ];
    let matches = Matcher::from_patterns(&patterns, &config).match_list(&["foo_bar", "foo"]);
    assert_eq!(matches, vec![Match { index: 0, score: one + other, exact: false }]);
    // A negated pattern alone has no score
    let matches = Matcher::from_patterns(&patterns[3..], &config).match_list(&["qux", "foo"]);
    assert_eq!(matches, vec![Match { index: 1, score: 0, exact: false }]);
}

#[test]
fn typos_have_a_limit() {
    let haystacks = ["hello", "hllo", "hl", "xyz"];
    let config = Config::default().sort(SortStrategy::IndexAsc);
    let matched = |max_typos| indices(&match_list("hello", &haystacks, &config.max_typos(max_typos)));
    assert_eq!(matched(Some(0)), vec![0]);
    assert_eq!(matched(Some(1)), vec![0, 1]);
    assert_eq!(matched(Some(3)), vec![0, 1, 2]);
    assert_eq!(matched(None), vec![0, 1, 2, 3]);
    let sensitive = config.case_sensitive(true);
    assert_eq!(indices(&match_list("Hello", &haystacks, &sensitive)), Vec::<u32>::new());
    assert_eq!(indices(&match_list("Hello", &haystacks, &config)), vec![0]);
}

#[test]
fn short_haystacks_are_not_gathered() {
    let config = Config::default().max_typos(Some(2));
    assert_eq!(Matcher::new("hello", &config).resolved_min_haystack_len(), 3);
    // Characters, not bytes
    assert_eq!(Matcher::new("h\u{e9}llo", &config).resolved_min_haystack_len(), 3);
    assert_eq!(Matcher::new("h", &config).resolved_min_haystack_len(), 0);
    assert_eq!(Matcher::new("", &config).resolved_min_haystack_len(), 0);
    let unlimited = config.max_typos(None);
    assert_eq!(Matcher::new("hello", &unlimited).resolved_min_haystack_len(), 0);
    let negated = [Pattern::new("hello", Matching::Fuzzy, true)];
    assert_eq!(Matcher::from_patterns(&negated, &config).resolved_min_haystack_len(), 0);
    let two = [
        Pattern::new("hello", Matching::Fuzzy, false),
        Pattern::new("world", Matching::Fuzzy, false),
    ];
    assert_eq!(Matcher::from_patterns(&two, &config).resolved_min_haystack_len(), 0);
}

#[test]
fn a_part_of_a_list_keeps_its_indices() {
    let haystacks = ["abc", "x", "abc", "abc"];
    let config = Config::default().sort(SortStrategy::IndexAsc);
    let mut matcher = Matcher::new("abc", &config);
    let mut parts = Vec::new();
    matcher.match_list_into(&haystacks[..2], 0, &mut parts);
    matcher.match_list_into(&haystacks[2..], 2, &mut parts);
    assert_eq!(parts, matcher.match_list(&haystacks));

    let mut chunk = Vec::new();
    assert!(matcher.match_chunk_into(&haystacks, 1, 3, &mut chunk));
    assert_eq!(indices(&chunk), vec![3]);
    assert!(!matcher.match_chunk_into(&haystacks, 2, 3, &mut chunk));
    assert_eq!(indices(&chunk), vec![3]);
}

#[test]
fn a_clone_matches_the_same() {
    let patterns = [
        Pattern::new("foo", Matching::Fuzzy, false),
        Pattern::new("bar", Matching::Substring, true),
    ];
    let haystacks = ["foo", "foobar", "f_o_o", "of"];
    let mut matcher = Matcher::from_patterns(&patterns, &Config::default());
    let matches = matcher.match_list(&haystacks);
    assert_eq!(matcher.clone().match_list(&haystacks), matches);
    assert_eq!(matcher.sort(), SortStrategy::ScoreThenIndexAsc);
    assert!(!matcher.is_empty());
    assert!(Matcher::from_patterns(&[], &Config::default()).is_empty());
}

#[test]
fn zero_bytes_are_left_to_the_prefilter() {
    // The padding of a chunk holds zero bytes, which are not in the haystack
    let config = Config::default();
    assert_eq!(match_list("\0", &["abc"], &config), vec![]);
    assert_eq!(indices(&match_list("\0", &["a\0c"], &config)), vec![0]);
}

#[test]
fn a_short_item_is_as_good_as_a_skipped_one() {
    let items = [string_to_chunks("hello"), string_to_chunks("he"), string_to_chunks("xhello")];
    // What is too short need not even know its chunks
    let short = |item: &ChunkItem| -> Option<ResolvedChunks<2>> {
        let mut resolved = resolve_chunks(item)?;
        if item.byte_len < 5 {
            resolved.chunk_count = 99;
        }
        Some(resolved)
    };
    let skipping = |item: &ChunkItem| -> Option<ResolvedChunks<2>> {
        if item.byte_len < 5 {
            None
        } else {
            resolve_chunks(item)
        }
    };
    for sort in [SortStrategy::ScoreThenIndexAsc, SortStrategy::IndexDesc] {
        let config = Config::default().sort(sort);
        let mut matcher = Matcher::new("hello", &config);
        assert_eq!(matcher.resolved_min_haystack_len(), 5);
        let matches = matcher.match_list_resolved(&items, &short);
        assert_eq!(matches.len(), 2);
        assert_eq!(matches, matcher.match_list_resolved(&items, &skipping));
        let parallel = match_list_parallel_resolved("hello", &items, &short, &config, 2, &[1]);
        assert_eq!(parallel, matches);
    }
    // Without a pattern no chunk is read
    let matches = Matcher::new("", &Config::default()).match_list_resolved(&items, &short);
    assert_eq!(indices(&matches), vec![0, 1, 2]);
}

#[test]
fn earlier_calls_leave_no_trace() {
    let long: Vec<ChunkItem> = (0..100).map(|i| string_to_chunks(&format!("abc_{i}"))).collect();
    let items = [string_to_chunks("a_b_c"), string_to_chunks("none"), string_to_chunks("abc")];
    let mut used = Matcher::new("abc", &Config::default());
    assert_eq!(used.match_list_resolved(&long, &resolve_chunks::<1>).len(), 100);
    let mut fresh = Matcher::new("abc", &Config::default());
    let (mut first, mut second) = (Vec::new(), Vec::new());
    used.match_list_resolved_into(&items, 3, &resolve_chunks::<1>, &mut first);
    fresh.match_list_resolved_into(&items, 3, &resolve_chunks::<1>, &mut second);
    assert_eq!(first, second);
    assert_eq!(indices(&first), vec![3, 5]);
}

#[test]
fn resolved_workers_return_a_permutation() {
    let haystacks = long_list();
    let items: Vec<ChunkItem> = haystacks.iter().map(|s| string_to_chunks(s)).collect();
    for sort in [
        SortStrategy::ScoreThenIndexAsc,
        SortStrategy::IndexAsc,
        SortStrategy::IndexDesc,
    ] {
        let config = Config::default().sort(sort);
        let mut sequential = Vec::new();
        Matcher::new("abc", &config).match_list_resolved_into(
            &items,
            0,
            &resolve_chunks::<2>,
            &mut sequential,
        );
        for claims in schedules(items.len(), PARALLEL_CHUNK, 3) {
            let mut parallel = Matcher::new("abc", &config).match_list_parallel_resolved(
                &items,
                &resolve_chunks::<2>,
                3,
                &claims,
            );
            parallel.sort_by_key(|m| m.index);
            assert_eq!(parallel, sequential, "sort={sort:?}");
        }
    }
}

#[test]
fn what_is_not_shared_out_is_matched_alone() {
    let haystacks = ["abc", "x", "a_b_c"];
    let nothing: [&str; 0] = [];
    let config = Config::default().sort(SortStrategy::IndexDesc);
    let mut matcher = Matcher::new("abc", &config);
    let mut empty = Matcher::new("", &config);

    assert_eq!(matcher.match_list_alone(&haystacks, 2), None);
    let alone = matcher.match_list_alone(&haystacks, 1).unwrap();
    assert_eq!(indices(&alone), vec![2, 0]);
    assert_eq!(matcher.match_list_alone(&nothing, 2), Some(vec![]));
    assert_eq!(indices(&empty.match_list_alone(&haystacks, 2).unwrap()), vec![2, 1, 0]);

    let items: Vec<ChunkItem> = haystacks.iter().map(|s| string_to_chunks(s)).collect();
    let resolve = resolve_chunks::<1>;
    assert_eq!(matcher.match_list_resolved_alone(&items, &resolve, 2), None);
    assert_eq!(matcher.match_list_resolved_alone(&items, &resolve, 1), Some(alone));
    assert_eq!(match_list_resolved_alone(&mut matcher, &items, &resolve), None);
    let all = match_list_resolved_alone(&mut empty, &items, &resolve).unwrap();
    assert_eq!(indices(&all), vec![0, 1, 2]);

    assert_eq!(match_list_alone(&mut matcher, &haystacks), None);
    assert_eq!(match_list_alone(&mut matcher, &nothing), Some(vec![]));
    assert_eq!(match_list_alone(&mut empty, &haystacks), Some(all.clone()));

    let chunked: Vec<ResolvedChunks<1>> = items.iter().filter_map(resolve_chunks).collect();
    assert_eq!(match_list_chunked_alone(&mut matcher, &chunked, &()), None);
    assert_eq!(match_list_chunked_alone(&mut empty, &chunked, &()), Some(all));
}
