//! The ordered prefilter.
use frizbee::prefilter::{case_needle, Kernel, PrefilterScalar, Window};
use frizbee::scalar::BackendScalar8;
use frizbee::scoring::Scoring;
use frizbee::smith_waterman::SmithWaterman;
use proptest::strategy::Strategy;
use proptest::test_runner::{Config as PropConfig, TestCaseError, TestRunner};

fn result(needle: &str, haystack: &str, max_typos: u16) -> (bool, usize, usize) {
    kernel_result::<PrefilterScalar>(needle.as_bytes(), haystack.as_bytes(), max_typos, false)
}

fn matched(needle: &str, haystack: &str, max_typos: u16) -> bool {
    result(needle, haystack, max_typos).0
}

fn matched_sensitive(needle: &str, haystack: &str, max_typos: u16) -> bool {
    kernel_result::<PrefilterScalar>(needle.as_bytes(), haystack.as_bytes(), max_typos, true).0
}

fn kernel_result<P: Kernel>(
    needle: &[u8],
    haystack: &[u8],
    max_typos: u16,
    case_sensitive: bool,
) -> Window {
    let mut prefilter = P::new(needle, case_sensitive);
    match max_typos {
        0 => prefilter.match_haystack(haystack),
        1 => prefilter.match_haystack_1_typo(haystack),
        2 => prefilter.match_haystack_2_typos(haystack),
        _ => prefilter.match_haystack_many_typos(haystack, max_typos),
    }
}

#[test]
fn ordered_matching_cases() {
    for (needle, haystack, max_typos, want) in [
        ("foo", "foo", 0, true),
        ("foo", "f_o_o", 0, true),
        ("foo", "FOO", 0, true),
        ("abc", "xaxbxcx", 0, true),
        ("fo", "_______________fo", 0, true),
        ("foo", "f_______________o_______________o", 0, true),
        ("foo", "oof", 0, false),
        ("abc", "cba", 0, false),
        ("foo", "fo", 0, false),
        ("foo", "f_________________________o______", 0, false),
        ("a", "", 0, false),
        ("\0", "abc", 0, false),
        ("aa", "a", 0, false),
    ] {
        assert_eq!(
            matched(needle, haystack, max_typos),
            want,
            "needle={needle:?} haystack={haystack:?} max_typos={max_typos}"
        );
    }
}

#[test]
fn typo_matching_cases() {
    for (needle, haystack, max_typos, want) in [
        ("bar", "ba", 1, true),
        ("bar", "ar", 1, true),
        ("hello", "hll", 2, true),
        ("abcdef", "abdf", 2, true),
        ("TeSt", "ES", 2, true),
        ("abc", "c", 2, true),
        ("a\0b", "ab", 1, true),
        ("abc", "", 3, true),
        ("foo", "fo", 5, true),
        ("abc", "a_______________b", 1, true),
        ("test", "t_______________s_______________t", 1, true),
        ("d63NacaDJaaaa", "63aeeaaaeeaaaaaaaNacaDJaaAa", 1, true),
        ("bar", "rb", 1, false),
        ("abcdef", "fcda", 2, false),
        ("TeSt", "ES", 1, false),
        ("abc", "", 2, false),
    ] {
        assert_eq!(
            matched(needle, haystack, max_typos),
            want,
            "needle={needle:?} haystack={haystack:?} max_typos={max_typos}"
        );
    }
}

#[test]
fn case_sensitive_matching_cases() {
    for (needle, haystack, max_typos, want) in [
        ("foo", "foo", 0, true),
        ("foo", "FOO", 0, false),
        ("FoO", "xxFoOxx", 0, true),
        ("abc", "xaxbxcx", 0, true),
        ("abc", "xAxBxCx", 0, false),
        ("TeSt", "eS", 2, true),
        ("TeSt", "ES", 2, false),
    ] {
        assert_eq!(
            matched_sensitive(needle, haystack, max_typos),
            want,
            "needle={needle:?} haystack={haystack:?} max_typos={max_typos}"
        );
    }
}

#[test]
fn returned_windows_are_conservative() {
    assert_eq!(result("foo", "xxfooxfoo", 0), (true, 2, 9));
    assert_eq!(result("abc", "xxaybzczz", 0), (true, 2, 7));
    assert_eq!(result("abcd", "xxaydz", 2), (true, 2, 5));
    assert_eq!(result("abc", "xyz", 3), (true, 0, 3));
}

#[test]
fn backend_parity_suite() {
    for (needle, haystack, max_typos) in [
        ("foo", "foo", 0),
        ("foo", "oof", 0),
        ("foo", "f_o_o", 0),
        ("foo", "f_______________o_______________o", 0),
        ("\0", "abc", 0),
        ("a", "", 0),
        ("bar", "ba", 1),
        ("abc", "c", 2),
        ("bar", "rb", 1),
        ("a\0b", "ab", 1),
        ("abcdef", "abdf", 2),
        ("abcdef", "fcda", 2),
        ("abc", "", 3),
        ("abcdefghij", "abxxcxxdxxe", 5),
        ("abcdefghij", "jihgfedcba", 5),
        ("abcdefghij", "abc", 8),
    ] {
        // The kernels for few typos agree with the one for any number of them
        let any = PrefilterScalar::new(needle.as_bytes(), false)
            .match_haystack_many_typos(haystack.as_bytes(), max_typos);
        let got = result(needle, haystack, max_typos);
        if got.0 {
            assert_eq!(got, any, "needle={needle:?} haystack={haystack:?}");
        } else {
            assert_eq!(got.0, any.0, "needle={needle:?} haystack={haystack:?}");
        }
    }
}

#[test]
fn needles_are_paired_with_their_other_case() {
    assert_eq!(case_needle(b"aZ1", false), vec![(b'a', b'A'), (b'Z', b'z'), (b'1', b'1')]);
    assert_eq!(case_needle(b"aZ1", true), vec![(b'a', b'a'), (b'Z', b'Z'), (b'1', b'1')]);
    assert_eq!(case_needle(b"[`{@", false), vec![(91, 91), (96, 96), (123, 123), (64, 64)]);
    assert!(PrefilterScalar::is_available());
}

#[test]
fn more_typos_accept_more() {
    for max_typos in 0..6 {
        if matched("abcdef", "a_c_f", max_typos) {
            assert!(matched("abcdef", "a_c_f", max_typos + 1));
        }
    }
    assert!(!matched("abcdef", "a_c_f", 2));
    assert!(matched("abcdef", "a_c_f", 3));
}

#[test]
fn too_short_haystacks_are_rejected() {
    assert!(!matched("aaaaaa", "aaa", 2));
    assert!(matched("aaaaaa", "aaa", 3));
}

fn check(ok: bool, reason: &'static str) -> Result<(), TestCaseError> {
    if ok {
        Ok(())
    } else {
        Err(TestCaseError::fail(reason))
    }
}

fn ascii_bytes(max_len: usize) -> impl Strategy<Value = Vec<u8>> {
    let mut alphabet = b" /.,_-:".to_vec();
    alphabet.extend(b'a'..=b'z');
    alphabet.extend(b'A'..=b'Z');
    alphabet.extend(b'0'..=b'9');
    proptest::collection::vec(proptest::sample::select(alphabet), 0..=max_len)
}

fn few_letters(max_len: usize) -> impl Strategy<Value = Vec<u8>> {
    proptest::collection::vec(proptest::sample::select(b"abcAB_".to_vec()), 0..=max_len)
}

#[test]
fn randomized_backend_parity_and_oracle() {
    let mut runner = TestRunner::new(PropConfig {
        cases: 256,
        max_shrink_iters: 64,
        failure_persistence: None,
        ..PropConfig::default()
    });
    let strategy = (ascii_bytes(96), ascii_bytes(768), 0u16..=16, proptest::bool::ANY);
    runner
        .run(&strategy, |(needle, haystack, max_typos, case_sensitive)| {
            if needle.is_empty() {
                return Ok(());
            }
            let window =
                kernel_result::<PrefilterScalar>(&needle, &haystack, max_typos, case_sensitive);
            if !window.0 {
                return Ok(());
            }
            check(window.1 <= window.2 && window.2 <= haystack.len(), "invalid window")
        })
        .unwrap();
}

#[test]
fn what_smith_waterman_accepts_is_not_rejected() {
    let mut runner = TestRunner::new(PropConfig {
        cases: 2000,
        max_shrink_iters: 64,
        failure_persistence: None,
        ..PropConfig::default()
    });
    let strategy = (few_letters(8), few_letters(24), 0u16..=4, proptest::bool::ANY);
    runner
        .run(&strategy, |(needle, haystack, max_typos, case_sensitive)| {
            let mut matcher =
                SmithWaterman::<BackendScalar8>::new(&needle, &Scoring::default(), case_sensitive);
            let found = matcher.match_haystack_indices(&haystack, 0, Some(max_typos));
            if let Some((_, indices)) = found {
                let window =
                    kernel_result::<PrefilterScalar>(&needle, &haystack, max_typos, case_sensitive);
                check(window.0, "rejected")?;
                for index in indices {
                    check(window.1 <= index && index < window.2, "outside of the window")?;
                }
            }
            Ok(())
        })
        .unwrap();
}
