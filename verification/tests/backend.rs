//! The operations of the backends, lane by lane, and the kernel on each of them.
use frizbee::backend::{Backend, BytesVec, MaskVec, ScoreVec};
use frizbee::scalar::{
    BackendScalar16, BackendScalar16U8, BackendScalar32, BackendScalar32U8, BackendScalar64U8,
    BackendScalar8,
};
use frizbee::scoring::Scoring;
use frizbee::smith_waterman::{score_fits_in_u8, SmithWaterman};
use proptest::strategy::Strategy;
use proptest::test_runner::{Config as PropConfig, TestCaseError, TestRunner};

// Bytes and masks.

fn check_bytes_splat<B: Backend>() {
    let v = B::Bytes::splat(0x42);
    assert_eq!(BytesVec::to_lanes(v), vec![0x42; B::LANES]);
}

fn check_bytes_eq<B: Backend>() {
    let a_in = (0u8..(B::LANES as u8)).collect::<Vec<_>>();
    let b_in = a_in
        .iter()
        .enumerate()
        .map(|(i, &v)| if i % 2 == 0 { v } else { v.wrapping_add(1) })
        .collect::<Vec<_>>();
    let a = B::Bytes::from_lanes(&a_in);
    let b = B::Bytes::from_lanes(&b_in);
    let result = MaskVec::to_lanes(a.eq(b));
    for (i, r) in result.iter().enumerate() {
        assert_eq!(*r, i % 2 == 0, "lane {i}");
    }
}

fn check_bytes_gt_lt<B: Backend>() {
    let a_in = vec![5u8; B::LANES];
    let mut b_in = vec![5u8; B::LANES];
    if B::LANES >= 2 {
        b_in[0] = 4;
        b_in[1] = 6;
    }
    let a = B::Bytes::from_lanes(&a_in);
    let b = B::Bytes::from_lanes(&b_in);
    let gt = MaskVec::to_lanes(a.gt(b));
    let lt = MaskVec::to_lanes(a.lt(b));
    if B::LANES >= 2 {
        assert!(gt[0]);
        assert!(!gt[1]);
        assert!(!lt[0]);
        assert!(lt[1]);
    }
}

fn check_mask_and_or_not<B: Backend>() {
    let pattern_a: Vec<bool> = (0..B::LANES).map(|i| i % 2 == 0).collect();
    let pattern_b: Vec<bool> = (0..B::LANES).map(|i| i % 3 == 0).collect();
    let a = B::Mask::from_lanes(&pattern_a);
    let b = B::Mask::from_lanes(&pattern_b);
    let and = a.and(b).to_lanes();
    let or = a.or(b).to_lanes();
    let not_a = a.not().to_lanes();
    for i in 0..B::LANES {
        assert_eq!(and[i], pattern_a[i] && pattern_b[i], "and lane {i}");
        assert_eq!(or[i], pattern_a[i] || pattern_b[i], "or lane {i}");
        assert_eq!(not_a[i], !pattern_a[i], "not lane {i}");
    }
}

fn check_mask_zero<B: Backend>() {
    let z = B::Mask::zero();
    assert_eq!(MaskVec::to_lanes(z), vec![false; B::LANES]);
}

fn check_bytes_load_partial<B: Backend>() {
    let data: Vec<u8> = (1..=64).collect();
    let lanes = B::LANES;
    for start in (0..32).step_by(lanes) {
        for len in (start + 1)..=32 {
            let v = B::Bytes::load_partial(&data[..len], start);
            let got = BytesVec::to_lanes(v);
            let mut expected = vec![0u8; lanes];
            let take = (len - start).min(lanes);
            expected[..take].copy_from_slice(&data[start..start + take]);
            assert_eq!(got, expected, "start={start} len={len}");
        }
    }
}

fn check_mask_shift_right_padded_1<B: Backend>() {
    let a_in: Vec<bool> = (0..B::LANES).map(|i| i % 2 == 0).collect();
    let p_in: Vec<bool> = (0..B::LANES).map(|i| i % 3 == 0).collect();
    let a = B::Mask::from_lanes(&a_in);
    let p = B::Mask::from_lanes(&p_in);
    let got = MaskVec::to_lanes(a.shift_right_padded_1(p));

    let mut expected = vec![false; B::LANES];
    expected[0] = p_in[B::LANES - 1];
    expected[1..B::LANES].copy_from_slice(&a_in[0..(B::LANES - 1)]);
    assert_eq!(got, expected);
}

// Scores.

fn check_score_zero<B: Backend>() {
    assert_eq!(B::Score::zero().to_lanes(), vec![0u16; B::LANES]);
}

fn check_score_splat<B: Backend>() {
    // Use a value that fits in u8 so the same test applies to both
    // u8- and u16-element backends.
    assert_eq!(B::Score::splat(0xAB).to_lanes(), vec![0xABu16; B::LANES]);
}

fn check_score_first_lane<B: Backend>() {
    let v = B::Score::first_lane(0xCD);
    let lanes = v.to_lanes();
    assert_eq!(lanes[0], 0xCD);
    for &l in &lanes[1..] {
        assert_eq!(l, 0);
    }
}

fn check_score_max_add_subs<B: Backend>() {
    // Values stay in u8 range so the same inputs work for both widths.
    let a_in: Vec<u16> = (0..B::LANES).map(|i| (i % 100) as u16).collect();
    let b_in: Vec<u16> = (0..B::LANES).map(|i| (B::LANES - i) as u16 % 50).collect();
    let a = B::Score::from_lanes(&a_in);
    let b = B::Score::from_lanes(&b_in);
    let max = a.max(b).to_lanes();
    for i in 0..B::LANES {
        assert_eq!(max[i], a_in[i].max(b_in[i]));
    }
    let added = a.add(b).to_lanes();
    for i in 0..B::LANES {
        assert_eq!(added[i], a_in[i].wrapping_add(b_in[i]));
    }
    let subbed = a.subs(b).to_lanes();
    for i in 0..B::LANES {
        assert_eq!(subbed[i], a_in[i].saturating_sub(b_in[i]));
    }
}

fn check_score_horizontal_max<B: Backend>() {
    let mut a_in = vec![10u16; B::LANES];
    a_in[B::LANES / 2] = 222;
    let a = B::Score::from_lanes(&a_in);
    assert_eq!(a.horizontal_max(), 222);

    let zero = B::Score::zero();
    assert_eq!(zero.horizontal_max(), 0);
}

fn check_score_find_lane<B: Backend>() {
    // For 32 lanes, step of 7 stays under 224 — fits in u8.
    let a_in: Vec<u16> = (0..B::LANES).map(|i| (i as u16) * 7).collect();
    let a = B::Score::from_lanes(&a_in);
    for (i, &v) in a_in.iter().enumerate() {
        assert_eq!(a.find_lane(v), i);
    }
    // Search for a value that can't appear in the data; works for
    // both u8 and u16 backends.
    assert_eq!(a.find_lane(251), B::LANES);
}

fn check_score_shift_right_padded_each<B: Backend, const L: usize>() {
    // Distinct values for `a` and `p` that all fit in u8.
    let a_in: Vec<u16> = (0..B::LANES).map(|i| (i as u16) + 1).collect();
    let p_in: Vec<u16> = (0..B::LANES).map(|i| (i as u16) + 100).collect();
    let a = B::Score::from_lanes(&a_in);
    let p = B::Score::from_lanes(&p_in);
    let got = a.shift_right_padded::<L>(p).to_lanes();

    let n = L;
    let mut expected = vec![0u16; B::LANES];
    for i in 0..n {
        expected[i] = p_in[B::LANES - n + i];
    }
    expected[n..B::LANES].copy_from_slice(&a_in[0..(B::LANES - n)]);
    assert_eq!(got, expected, "L = {}", L);
}

fn check_score_shift_right_padded_8<B: Backend>() {
    check_score_shift_right_padded_each::<B, 0>();
    check_score_shift_right_padded_each::<B, 1>();
    check_score_shift_right_padded_each::<B, 2>();
    check_score_shift_right_padded_each::<B, 3>();
    check_score_shift_right_padded_each::<B, 4>();
    if B::LANES >= 8 {
        check_score_shift_right_padded_each::<B, 5>();
        check_score_shift_right_padded_each::<B, 6>();
        check_score_shift_right_padded_each::<B, 7>();
        check_score_shift_right_padded_each::<B, 8>();
    }
}

#[test]
fn bytes_splat() {
    check_bytes_splat::<BackendScalar8>();
    check_bytes_splat::<BackendScalar16>();
    check_bytes_splat::<BackendScalar32>();
    check_bytes_splat::<BackendScalar16U8>();
    check_bytes_splat::<BackendScalar32U8>();
    check_bytes_splat::<BackendScalar64U8>();
}

#[test]
fn bytes_eq() {
    check_bytes_eq::<BackendScalar8>();
    check_bytes_eq::<BackendScalar16>();
    check_bytes_eq::<BackendScalar32>();
    check_bytes_eq::<BackendScalar16U8>();
    check_bytes_eq::<BackendScalar32U8>();
    check_bytes_eq::<BackendScalar64U8>();
}

#[test]
fn bytes_gt_lt() {
    check_bytes_gt_lt::<BackendScalar8>();
    check_bytes_gt_lt::<BackendScalar16>();
    check_bytes_gt_lt::<BackendScalar32>();
    check_bytes_gt_lt::<BackendScalar16U8>();
    check_bytes_gt_lt::<BackendScalar32U8>();
    check_bytes_gt_lt::<BackendScalar64U8>();
}

#[test]
fn mask_and_or_not() {
    check_mask_and_or_not::<BackendScalar8>();
    check_mask_and_or_not::<BackendScalar16>();
    check_mask_and_or_not::<BackendScalar32>();
    check_mask_and_or_not::<BackendScalar16U8>();
    check_mask_and_or_not::<BackendScalar32U8>();
    check_mask_and_or_not::<BackendScalar64U8>();
}

#[test]
fn mask_zero() {
    check_mask_zero::<BackendScalar8>();
    check_mask_zero::<BackendScalar16>();
    check_mask_zero::<BackendScalar32>();
    check_mask_zero::<BackendScalar16U8>();
    check_mask_zero::<BackendScalar32U8>();
    check_mask_zero::<BackendScalar64U8>();
}

#[test]
fn bytes_load_partial() {
    check_bytes_load_partial::<BackendScalar8>();
    check_bytes_load_partial::<BackendScalar16>();
    check_bytes_load_partial::<BackendScalar32>();
    check_bytes_load_partial::<BackendScalar16U8>();
    check_bytes_load_partial::<BackendScalar32U8>();
    check_bytes_load_partial::<BackendScalar64U8>();
}

#[test]
fn mask_shift_right_padded_1() {
    check_mask_shift_right_padded_1::<BackendScalar8>();
    check_mask_shift_right_padded_1::<BackendScalar16>();
    check_mask_shift_right_padded_1::<BackendScalar32>();
    check_mask_shift_right_padded_1::<BackendScalar16U8>();
    check_mask_shift_right_padded_1::<BackendScalar32U8>();
    check_mask_shift_right_padded_1::<BackendScalar64U8>();
}

#[test]
fn score_zero() {
    check_score_zero::<BackendScalar8>();
    check_score_zero::<BackendScalar16>();
    check_score_zero::<BackendScalar32>();
    check_score_zero::<BackendScalar16U8>();
    check_score_zero::<BackendScalar32U8>();
    check_score_zero::<BackendScalar64U8>();
}

#[test]
fn score_splat() {
    check_score_splat::<BackendScalar8>();
    check_score_splat::<BackendScalar16>();
    check_score_splat::<BackendScalar32>();
    check_score_splat::<BackendScalar16U8>();
    check_score_splat::<BackendScalar32U8>();
    check_score_splat::<BackendScalar64U8>();
}

#[test]
fn score_first_lane() {
    check_score_first_lane::<BackendScalar8>();
    check_score_first_lane::<BackendScalar16>();
    check_score_first_lane::<BackendScalar32>();
    check_score_first_lane::<BackendScalar16U8>();
    check_score_first_lane::<BackendScalar32U8>();
    check_score_first_lane::<BackendScalar64U8>();
}

#[test]
fn score_max_add_subs() {
    check_score_max_add_subs::<BackendScalar8>();
    check_score_max_add_subs::<BackendScalar16>();
    check_score_max_add_subs::<BackendScalar32>();
    check_score_max_add_subs::<BackendScalar16U8>();
    check_score_max_add_subs::<BackendScalar32U8>();
    check_score_max_add_subs::<BackendScalar64U8>();
}

#[test]
fn score_horizontal_max() {
    check_score_horizontal_max::<BackendScalar8>();
    check_score_horizontal_max::<BackendScalar16>();
    check_score_horizontal_max::<BackendScalar32>();
    check_score_horizontal_max::<BackendScalar16U8>();
    check_score_horizontal_max::<BackendScalar32U8>();
    check_score_horizontal_max::<BackendScalar64U8>();
}

#[test]
fn score_find_lane() {
    check_score_find_lane::<BackendScalar8>();
    check_score_find_lane::<BackendScalar16>();
    check_score_find_lane::<BackendScalar32>();
    check_score_find_lane::<BackendScalar16U8>();
    check_score_find_lane::<BackendScalar32U8>();
    check_score_find_lane::<BackendScalar64U8>();
}

#[test]
fn score_shift_right_padded() {
    check_score_shift_right_padded_8::<BackendScalar8>();
    check_score_shift_right_padded_8::<BackendScalar16>();
    check_score_shift_right_padded_8::<BackendScalar32>();
    check_score_shift_right_padded_8::<BackendScalar16U8>();
    check_score_shift_right_padded_8::<BackendScalar32U8>();
    check_score_shift_right_padded_8::<BackendScalar64U8>();
}

#[test]
fn score_shift_right_padded_16() {
    check_score_shift_right_padded_each::<BackendScalar16, 16>();
    check_score_shift_right_padded_each::<BackendScalar32, 16>();
    check_score_shift_right_padded_each::<BackendScalar32U8, 16>();
}

#[test]
fn score_shift_right_padded_32() {
    check_score_shift_right_padded_each::<BackendScalar32, 32>();
    check_score_shift_right_padded_each::<BackendScalar64U8, 32>();
}

#[test]
fn widths_are_as_named() {
    assert_eq!((BackendScalar8::LANES, BackendScalar8::LANE_BYTES), (8, 2));
    assert_eq!((BackendScalar16::LANES, BackendScalar16::LANE_BYTES), (16, 2));
    assert_eq!((BackendScalar32::LANES, BackendScalar32::LANE_BYTES), (32, 2));
    assert_eq!((BackendScalar16U8::LANES, BackendScalar16U8::LANE_BYTES), (16, 1));
    assert_eq!((BackendScalar32U8::LANES, BackendScalar32U8::LANE_BYTES), (32, 1));
    assert_eq!((BackendScalar64U8::LANES, BackendScalar64U8::LANE_BYTES), (64, 1));
    assert!(BackendScalar8::is_available());
    assert_eq!(BackendScalar32U8::lanes(), 32);
}

#[test]
fn narrow_lanes_wrap_and_saturate() {
    type Score = <BackendScalar16U8 as Backend>::Score;
    let a = Score::splat(250);
    let b = Score::splat(10);
    assert_eq!(a.add(b).to_lanes(), vec![4u16; 16]);
    assert_eq!(b.subs(a).to_lanes(), vec![0u16; 16]);
    assert_eq!(Score::splat(0x1ff).to_lanes(), vec![0xffu16; 16]);
    assert_eq!(a.and(Score::splat(0x0f)).to_lanes(), vec![0x0au16; 16]);
    assert_eq!(a.extract(7), 250);
}

#[test]
fn masks_widen_to_all_bits() {
    let lanes: Vec<bool> = (0..16).map(|i| i % 3 == 0).collect();
    let narrow = BackendScalar16U8::widen_mask(MaskVec::from_lanes(&lanes)).to_lanes();
    let wide = BackendScalar16::widen_mask(MaskVec::from_lanes(&lanes)).to_lanes();
    for i in 0..16 {
        assert_eq!(narrow[i], if lanes[i] { 0xff } else { 0 });
        assert_eq!(wide[i], if lanes[i] { 0xffff } else { 0 });
        assert_eq!(<BackendScalar16 as Backend>::Mask::from_lanes(&lanes).test(i), lanes[i]);
    }
}

fn propagate<B: Backend>(row: &[u16], adjacent: &[u16], mask: &[bool]) -> Vec<u16> {
    let none = vec![false; B::LANES];
    B::propagate_horizontal_gaps(
        ScoreVec::from_lanes(row),
        ScoreVec::from_lanes(adjacent),
        B::widen_mask(MaskVec::from_lanes(mask)),
        B::widen_mask(MaskVec::from_lanes(&none)),
        ScoreVec::splat(5),
        ScoreVec::splat(1),
    )
    .to_lanes()
}

#[test]
fn gaps_carry_the_best_score_to_the_right() {
    let zero = vec![0u16; 8];
    let none = vec![false; 8];
    let row = [20, 0, 0, 0, 0, 0, 0, 0];
    assert_eq!(
        propagate::<BackendScalar8>(&row, &zero, &none),
        vec![20, 19, 18, 17, 16, 15, 14, 13]
    );
    // A gap after a match is opened first
    let mut after_match = none.clone();
    after_match[0] = true;
    assert_eq!(
        propagate::<BackendScalar8>(&row, &zero, &after_match),
        vec![20, 14, 13, 12, 11, 10, 9, 8]
    );
    // The chunk before reaches into the row
    let adjacent = [0, 0, 0, 0, 0, 0, 0, 9];
    assert_eq!(
        propagate::<BackendScalar8>(&zero, &adjacent, &none),
        vec![8, 7, 6, 5, 4, 3, 2, 0]
    );
}

#[test]
fn gaps_never_lower_a_lane() {
    let row: Vec<u16> = (0..64).map(|i| (i * 37) % 101).collect();
    let adjacent: Vec<u16> = (0..64).map(|i| (i * 53) % 97).collect();
    let mask: Vec<bool> = (0..64).map(|i| i % 5 == 0).collect();
    let out = propagate::<BackendScalar64U8>(&row, &adjacent, &mask);
    for i in 0..64 {
        assert!(row[i] <= out[i] && out[i] <= 100, "lane {i}");
    }
    let out = propagate::<BackendScalar32>(&row[..32], &adjacent[..32], &mask[..32]);
    for i in 0..32 {
        assert!(row[i] <= out[i] && out[i] <= 100, "lane {i}");
    }
}

fn cases() -> Vec<(&'static str, &'static str)> {
    vec![
        // short
        ("a", "abc"),
        ("abc", "abc"),
        ("foo", "fooBar"),
        // crossing an 8-byte chunk boundary
        ("foo", "012345foo"),
        ("foo", "01234567foo"),
        ("foo", "0123456789foo"),
        // crossing a 16-byte boundary
        ("foo", "0123456789012345foo"),
        // crossing a 32-byte boundary
        ("foo", "0123456789012345678901234567foo"),
        // ranges that cross multiple chunks for all widths
        ("test", "Utooooeoooosoooot"),
        ("test", "Utooooooeoooooosoooooot"),
        // typos
        ("foo", "Ufooo"),
        ("foo", "Ufo"),
        // delimiter / capitalization
        ("hw", "hello_world"),
        ("fBr", "fooBar"),
        ("D", "FOR_DIST"),
        // long needles (some short enough for u8, some not)
        ("needle", "____________needle____________"),
        ("abcdefghij", "abcdefghij"),
        ("abcdefghijklmnopqrst", "abcdefghijklmnopqrst"),
    ]
}

fn score_with<B: Backend>(needle: &str, haystack: &str) -> u16 {
    let mut matcher = SmithWaterman::<B>::new(needle.as_bytes(), &Scoring::default(), false);
    matcher.match_haystack(haystack.as_bytes(), None).unwrap()
}

fn indices_with<B: Backend>(needle: &str, haystack: &str) -> Option<Vec<usize>> {
    let mut matcher = SmithWaterman::<B>::new(needle.as_bytes(), &Scoring::default(), false);
    matcher
        .match_haystack_indices(haystack.as_bytes(), 0, None)
        .map(|(_, indices)| indices)
}

fn assert_score_backend<B: Backend>(label: &str, needle: &str, haystack: &str, want: u16) {
    if B::is_available() {
        let got = score_with::<B>(needle, haystack);
        assert_eq!(
            got, want,
            "{label} score mismatch for needle={needle:?} haystack={haystack:?}"
        );
    }
}

fn assert_indices_backend<B: Backend>(
    label: &str,
    needle: &str,
    haystack: &str,
    want: Option<Vec<usize>>,
) {
    if B::is_available() {
        let got = indices_with::<B>(needle, haystack);
        assert_eq!(
            got, want,
            "{label} indices mismatch for needle={needle:?} haystack={haystack:?}"
        );
    }
}

#[test]
fn cross_backend_parity_score() {
    for (needle, haystack) in cases() {
        let want = score_with::<BackendScalar8>(needle, haystack);

        assert_score_backend::<BackendScalar8>("Scalar-u16", needle, haystack, want);
        assert_score_backend::<BackendScalar16>("Scalar16-u16", needle, haystack, want);
        assert_score_backend::<BackendScalar32>("Scalar32-u16", needle, haystack, want);

        if score_fits_in_u8(needle.len(), &Scoring::default()) {
            assert_score_backend::<BackendScalar16U8>("Scalar-u8", needle, haystack, want);
            assert_score_backend::<BackendScalar32U8>("Scalar32-u8", needle, haystack, want);
            assert_score_backend::<BackendScalar64U8>("Scalar64-u8", needle, haystack, want);
        }
    }
}

#[test]
fn cross_backend_parity_indices() {
    for (needle, haystack) in cases() {
        let want = indices_with::<BackendScalar8>(needle, haystack);

        assert_indices_backend::<BackendScalar8>("Scalar-u16", needle, haystack, want.clone());
        assert_indices_backend::<BackendScalar16>("Scalar16-u16", needle, haystack, want.clone());
        assert_indices_backend::<BackendScalar32>("Scalar32-u16", needle, haystack, want.clone());

        if score_fits_in_u8(needle.len(), &Scoring::default()) {
            assert_indices_backend::<BackendScalar16U8>(
                "Scalar-u8",
                needle,
                haystack,
                want.clone(),
            );
            assert_indices_backend::<BackendScalar32U8>(
                "Scalar32-u8",
                needle,
                haystack,
                want.clone(),
            );
            assert_indices_backend::<BackendScalar64U8>("Scalar64-u8", needle, haystack, want);
        }
    }
}

fn indices_bytes_with<B: Backend>(
    needle: &[u8],
    haystack: &[u8],
    max_typos: Option<u16>,
    case_sensitive: bool,
) -> Option<(u16, Vec<usize>)> {
    let mut matcher = SmithWaterman::<B>::new(needle, &Scoring::default(), case_sensitive);
    matcher.match_haystack_indices(haystack, 0, max_typos)
}

fn check(ok: bool, reason: &'static str) -> Result<(), TestCaseError> {
    if ok {
        Ok(())
    } else {
        Err(TestCaseError::fail(reason))
    }
}

/// The score alone, the score with indices and the path agree, and the indices are valid.
fn check_backend<B: Backend>(
    needle: &[u8],
    haystack: &[u8],
    max_typos: Option<u16>,
    case_sensitive: bool,
) -> Result<(), TestCaseError> {
    let mut matcher = SmithWaterman::<B>::new(needle, &Scoring::default(), case_sensitive);
    let score = matcher.score_haystack(haystack);
    let has_path = match max_typos {
        Some(max) => matcher.has_alignment_path(score, max),
        None => true,
    };
    let matched = matcher.match_haystack(haystack, max_typos);
    check(matched == if has_path { Some(score) } else { None }, "score mismatch")?;
    let indices = indices_bytes_with::<B>(needle, haystack, max_typos, case_sensitive);
    check(
        indices.as_ref().map(|(score, _)| *score) == matched,
        "indexed score mismatch",
    )?;
    if let Some((_, indices)) = indices {
        check(
            indices.windows(2).all(|window| window[0] > window[1]),
            "indices are not in reverse order",
        )?;
        check(
            indices.len() <= needle.len(),
            "indices contain more positions than needle bytes",
        )?;
        for &index in &indices {
            check(index < haystack.len(), "index is out of bounds")?;
        }
    }
    Ok(())
}

fn ascii_bytes(max_len: usize) -> impl Strategy<Value = Vec<u8>> {
    let mut alphabet = b" /.,_-:".to_vec();
    alphabet.extend(b'a'..=b'z');
    alphabet.extend(b'A'..=b'Z');
    alphabet.extend(b'0'..=b'9');
    proptest::collection::vec(proptest::sample::select(alphabet), 0..=max_len)
}

#[test]
fn randomized_cross_backend_parity() {
    let mut runner = TestRunner::new(PropConfig {
        cases: 192,
        max_shrink_iters: 64,
        failure_persistence: None,
        ..PropConfig::default()
    });
    let strategy = (
        ascii_bytes(96),
        ascii_bytes(768),
        proptest::option::of(0u16..=16),
        proptest::bool::ANY,
    );
    runner
        .run(&strategy, |(needle, haystack, max_typos, case_sensitive)| {
            if needle.is_empty() {
                return Ok(());
            }
            check_backend::<BackendScalar8>(&needle, &haystack, max_typos, case_sensitive)?;
            check_backend::<BackendScalar16>(&needle, &haystack, max_typos, case_sensitive)?;
            check_backend::<BackendScalar32>(&needle, &haystack, max_typos, case_sensitive)?;
            if score_fits_in_u8(needle.len(), &Scoring::default()) {
                check_backend::<BackendScalar16U8>(&needle, &haystack, max_typos, case_sensitive)?;
                check_backend::<BackendScalar32U8>(&needle, &haystack, max_typos, case_sensitive)?;
                check_backend::<BackendScalar64U8>(&needle, &haystack, max_typos, case_sensitive)?;
                // The width of a lane makes no difference
                let narrow = indices_bytes_with::<BackendScalar16U8>(
                    &needle,
                    &haystack,
                    max_typos,
                    case_sensitive,
                );
                let wide = indices_bytes_with::<BackendScalar16>(
                    &needle,
                    &haystack,
                    max_typos,
                    case_sensitive,
                );
                check(narrow == wide, "narrow and wide lanes differ")?;
            }
            Ok(())
        })
        .unwrap();
}

#[test]
fn scores_of_short_needles_fit_in_a_byte() {
    let scoring = Scoring::default();
    // 12 for the prefix, and for each byte 12 + 4 + 4
    assert!(score_fits_in_u8(0, &scoring));
    assert!(score_fits_in_u8(12, &scoring));
    assert!(!score_fits_in_u8(13, &scoring));
    assert!(!score_fits_in_u8(usize::MAX, &scoring));
    let nothing = Scoring {
        match_score: 0,
        matching_case_bonus: 0,
        capitalization_bonus: 0,
        delimiter_bonus: 0,
        ..scoring
    };
    assert!(score_fits_in_u8(usize::MAX, &nothing));
    assert!(!score_fits_in_u8(0, &Scoring { prefix_bonus: 256, ..nothing }));
}

#[test]
fn scores_add_up() {
    let score = score_with::<BackendScalar8>;
    assert_eq!(score("", "abc"), 0);
    assert_eq!(score("a", ""), 0);
    // prefix, match, case
    assert_eq!(score("a", "a"), 12 + 12 + 4);
    assert_eq!(score("a", "A"), 12 + 12);
    assert_eq!(score("b", "ab"), 12 + 4);
    assert_eq!(score("b", "_b"), 12 + 4 + 4);
    assert_eq!(score("B", "aB"), 12 + 4 + 4);
    assert_eq!(score("abc", "abc"), 12 + 3 * 16);
    // A gap costs its opening and its extension
    assert_eq!(score("ac", "abc"), 12 + 16 + 16 - 6);
    assert_eq!(score("ac", "abbc"), 12 + 16 + 16 - 7);
}

#[test]
fn a_path_is_cut_where_typos_are_too_many() {
    let mut matcher = SmithWaterman::<BackendScalar8>::new(b"abc", &Scoring::default(), false);
    let score = matcher.score_haystack(b"xabx");
    assert!(!matcher.has_alignment_path(score, 0));
    assert!(matcher.has_alignment_path(score, 1));
    assert_eq!(matcher.match_haystack(b"xabx", Some(0)), None);
    assert_eq!(matcher.match_haystack(b"xabx", Some(1)), Some(score));
    assert_eq!(
        matcher.match_haystack_indices(b"xabx", 10, Some(1)),
        Some((score, vec![12, 11]))
    );

    let score = matcher.score_haystack(b"abc");
    let mut path = matcher.iter_alignment_path(3, 5, None, score, Some(0));
    assert_eq!(path.next(), Some(Some(7)));
    assert_eq!(path.next(), Some(Some(6)));
    assert_eq!(path.next(), Some(Some(5)));
    assert_eq!(path.next(), None);
    assert_eq!(path.next(), None);

    let score = matcher.score_haystack(b"xyz");
    let mut path = matcher.iter_alignment_path(3, 0, None, score, Some(2));
    assert_eq!(path.next(), Some(None));
    assert_eq!(path.next(), None);
}

#[test]
fn a_path_reports_the_first_byte_of_a_character() {
    let haystack = "\u{e9}a".as_bytes();
    let mut matcher = SmithWaterman::<BackendScalar8>::new(haystack, &Scoring::default(), false);
    let score = matcher.score_haystack(haystack);
    let mut path = matcher.iter_alignment_path(3, 0, Some(haystack), score, None);
    assert_eq!(path.next(), Some(Some(2)));
    assert_eq!(path.next(), Some(Some(0)));
    assert_eq!(path.next(), Some(Some(0)));
    assert_eq!(path.next(), None);
}

#[test]
fn a_literal_match_scores_at_least_its_bytes() {
    for (needle, haystack) in [("b", "abc"), ("needle", "____needle"), ("foo", "01234567foo")] {
        let n = needle.len() as u16;
        let score = score_with::<BackendScalar8>(needle, haystack);
        assert!(12 * n <= score && score <= 12 + 20 * n, "needle={needle:?}");
    }
    // A literal match in the other case has no more than that
    assert_eq!(score_with::<BackendScalar8>("BC", "abc"), 24);
}
