use ps4_rs::similarity::is_above_thresh_with_seq;
use ps4_rs::similarity::is_above_thresh_with_set;
use ps4_rs::similarity::min_ratio_against_set;
use ps4_rs::similarity::ratio;
use ps4_rs::similarity::strip_spaces;

#[test]
fn ratio_of_sequence_with_itself_is_zero() {
    let a: Vec<u8> = b"MKVLAATGLV".to_vec();
    let r = ratio(&a, &a);
    assert_eq!(r.num, 0);
    assert_eq!(r.den, 10);
}

#[test]
fn ratio_of_empty_with_empty_is_zero() {
    let a: Vec<u8> = Vec::new();
    let r = ratio(&a, &a);
    assert_eq!(r.num, 0);
    assert_eq!(r.den, 1);
}

#[test]
fn ratio_counts_exact_edit_distance() {
    // The classic pair: three edits, normalized by the first argument.
    let a: Vec<u8> = b"kitten".to_vec();
    let b: Vec<u8> = b"sitting".to_vec();
    let r = ratio(&a, &b);
    assert_eq!(r.num, 300);
    assert_eq!(r.den, 6);
}

#[test]
fn ratio_strips_spaces_before_comparing() {
    let a: Vec<u8> = b"A A A A".to_vec();
    let b: Vec<u8> = b"AAAA".to_vec();
    let r = ratio(&a, &b);
    assert_eq!(r.num, 0);
    assert_eq!(r.den, 4);
}

#[test]
fn ratio_of_empty_against_non_empty_is_maximal() {
    let a: Vec<u8> = Vec::new();
    let b: Vec<u8> = b"AAAA".to_vec();
    let r = ratio(&a, &b);
    assert_eq!(r.num, 400);
    assert_eq!(r.den, 1);
}

#[test]
fn distinct_above_threshold_but_not_above_higher_one() {
    // kitten vs sitting is exactly 50 percent.
    let a: Vec<u8> = b"kitten".to_vec();
    let b: Vec<u8> = b"sitting".to_vec();
    assert!(is_above_thresh_with_seq(&a, &b, Some(40)));
    assert!(!is_above_thresh_with_seq(&a, &b, Some(50)));
    assert!(!is_above_thresh_with_seq(&a, &b, Some(60)));
}

#[test]
fn default_seq_threshold_is_twenty() {
    let a: Vec<u8> = b"kitten".to_vec();
    let b: Vec<u8> = b"sitting".to_vec();
    assert!(is_above_thresh_with_seq(&a, &b, None));
    let c: Vec<u8> = b"kitten".to_vec();
    assert!(!is_above_thresh_with_seq(&a, &c, None));
}

#[test]
fn identical_candidate_fails_against_reference_set() {
    let candidate: Vec<u8> = b"AAAAAAAAAA".to_vec();
    let refs: Vec<Vec<u8>> = vec![b"AAAAAAAAAA".to_vec()];
    assert!(!is_above_thresh_with_set(&candidate, &refs, Some(20)));
}

#[test]
fn dissimilar_candidate_passes_against_reference_set() {
    let candidate: Vec<u8> = b"AAAAAAAAAAAAAAAAAAAA".to_vec();
    let refs: Vec<Vec<u8>> = vec![b"TTTTTTTTTT".to_vec()];
    assert!(is_above_thresh_with_set(&candidate, &refs, Some(20)));
}

#[test]
fn set_scan_stops_at_first_near_duplicate() {
    let candidate: Vec<u8> = b"AAAAAAAAAA".to_vec();
    let refs: Vec<Vec<u8>> = vec![b"TTTTTTTTTT".to_vec(), b"AAAAAAAAAT".to_vec()];
    assert!(!is_above_thresh_with_set(&candidate, &refs, Some(20)));
}

#[test]
fn empty_reference_set_always_passes() {
    let candidate: Vec<u8> = b"AAAA".to_vec();
    let refs: Vec<Vec<u8>> = Vec::new();
    assert!(is_above_thresh_with_set(&candidate, &refs, Some(20)));
}

#[test]
fn min_ratio_reports_smallest_percentage() {
    let candidate: Vec<u8> = b"AAAAAAAAAA".to_vec();
    // 10 substitutions out of 10 -> 100 percent; 5 out of 10 -> 50.
    let refs: Vec<Vec<u8>> = vec![b"TTTTTTTTTT".to_vec(), b"AAAAATTTTT".to_vec()];
    let r = min_ratio_against_set(&candidate, &refs, Some(20)).unwrap();
    assert_eq!(r.num, 500);
    assert_eq!(r.den, 10);
}

#[test]
fn min_ratio_is_none_below_threshold() {
    let candidate: Vec<u8> = b"AAAAAAAAAA".to_vec();
    let refs: Vec<Vec<u8>> = vec![b"AAAAAAAAAA".to_vec()];
    assert!(min_ratio_against_set(&candidate, &refs, Some(20)).is_none());
}

#[test]
fn min_ratio_of_empty_set_is_capped_at_hundred() {
    let candidate: Vec<u8> = b"AAAA".to_vec();
    let refs: Vec<Vec<u8>> = Vec::new();
    let r = min_ratio_against_set(&candidate, &refs, Some(20)).unwrap();
    assert_eq!(r.num, 400);
    assert_eq!(r.den, 4);
}

#[test]
fn strip_spaces_removes_only_spaces() {
    let v: Vec<u8> = b" a b\tc ".to_vec();
    assert_eq!(strip_spaces(&v), b"ab\tc".to_vec());
}
