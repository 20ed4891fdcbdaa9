use kcacheext::find_subsequence;

#[test]
fn finds_first_occurrence() {
    assert_eq!(find_subsequence(b"abcabcabc", b"cab"), Some(2));
}

#[test]
fn absent_needle_is_not_found() {
    assert_eq!(find_subsequence(b"abcdef", b"xyz"), None);
}

#[test]
fn needle_longer_than_haystack_is_not_found() {
    assert_eq!(find_subsequence(b"ab", b"abc"), None);
}

#[test]
fn handles_embedded_zero_bytes() {
    let h: [u8; 8] = [0, 1, 0, 0, 2, 0, 0, 0];
    assert_eq!(find_subsequence(&h, &[0, 0, 0]), Some(5));
}

#[test]
fn match_at_end_is_found() {
    assert_eq!(find_subsequence(b"hello world", b"world"), Some(6));
}

#[test]
fn whole_haystack_matches() {
    assert_eq!(find_subsequence(b"same", b"same"), Some(0));
}
