use parsing::cell::slice;
use parsing::cell::take_until;
use parsing::parser::Parse;
use parsing::simd::compare;
use parsing::simd::take_until_literal;
use parsing::simd::Slice;
use parsing::simd::TakeUntilLiteral;

#[test]
fn compare_finds_the_first_occurrence() {
    assert_eq!(compare(b"hello world", b"world"), Some(6));
    assert_eq!(compare(b"abcabc", b"abc"), Some(0));
    assert_eq!(compare(b"aab", b"ab"), Some(1));
}

#[test]
fn compare_fails_without_an_occurrence() {
    assert_eq!(compare(b"abc", b"zzz"), None);
    assert_eq!(compare(b"", b"a"), None);
    assert_eq!(compare(b"ab", b"abc"), None);
}

#[test]
fn compare_agrees_with_the_scalar_scan_off_the_boundary() {
    // The pattern sits at offset 5, comfortably inside the first 16-byte
    // stride: both scan implementations report the same offset.
    let hay = b"aaaaabbbzz";
    assert_eq!(compare(hay, b"bbb"), Some(5));
    let (rest, prefix) = take_until(slice(b"bbb")).parse(hay).unwrap();
    assert_eq!(prefix, b"aaaaa");
    assert_eq!(rest, b"bbbzz");
}

#[test]
fn compare_misses_a_stride_straddling_occurrence() {
    // The only occurrence starts at offset 15 and runs into the second
    // 16-byte stride: the chunked scan does not see it, while the scalar
    // scan does. This is the documented divergence of the two paths.
    let mut hay: Vec<u8> = vec![b'x'; 15];
    hay.extend_from_slice(b"abyyy");
    assert_eq!(compare(&hay, b"ab"), None);
    let (rest, prefix) = take_until(slice(b"ab")).parse(&hay).unwrap();
    assert_eq!(prefix.len(), 15);
    assert_eq!(rest, b"abyyy");
}

#[test]
fn compare_skips_to_a_later_in_stride_occurrence() {
    // Occurrences at offsets 15 (straddling) and 17 (inside the second
    // stride): the chunked scan reports 17, the scalar scan 15.
    let mut hay: Vec<u8> = vec![b'x'; 15];
    hay.extend_from_slice(b"abab");
    assert_eq!(compare(&hay, b"ab"), Some(17));
    let (_, prefix) = take_until(slice(b"ab")).parse(&hay).unwrap();
    assert_eq!(prefix.len(), 15);
}

#[test]
fn fast_slice_matches_like_the_scalar_one() {
    let p = Slice::new(b"GET");
    let (rest, v) = p.parse(b"GET /").unwrap();
    assert_eq!(v, b"GET");
    assert_eq!(rest, b" /");
    assert_eq!(p.parse(b"PUT /").unwrap_err(), b"PUT /" as &[u8]);
    assert_eq!(p.parse(b"GE").unwrap_err(), b"GE" as &[u8]);
    assert_eq!(p.len(), 3);
}

#[test]
fn fast_slice_with_an_empty_pattern_rejects() {
    // A divergence from the scalar literal matcher, which accepts while
    // consuming nothing: the chunked scan sees no stride in an empty
    // window, so the accelerated matcher rejects.
    let p = Slice::new(b"");
    assert!(p.parse(b"abc").is_err());
    let q = parsing::parser::Slice::new(b"");
    let (rest, v) = q.parse(b"abc").unwrap();
    assert_eq!(v, b"" as &[u8]);
    assert_eq!(rest, b"abc");
}

#[test]
fn take_until_literal_stops_before_the_literal() {
    let p = take_until_literal(b"\r\n");
    let (rest, v) = p.parse(b"abc\r\ndef").unwrap();
    assert_eq!(v, b"abc");
    assert_eq!(rest, b"\r\ndef");
}

#[test]
fn take_until_literal_fails_without_the_literal() {
    let p = TakeUntilLiteral::new(b"\r\n");
    assert_eq!(p.parse(b"abcdef").unwrap_err(), b"abcdef" as &[u8]);
}
