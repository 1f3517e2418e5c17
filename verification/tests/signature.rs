use procmem::memory::signature::{find_signature, Signature, SignatureByte};

fn exact(bytes: &[u8]) -> Signature {
    Signature::new(bytes.iter().map(|b| SignatureByte::Byte(*b)).collect())
}

#[test]
fn wildcard_pattern_matches_at_offset_one() {
    let sign = Signature::new(vec![SignatureByte::Byte(2), SignatureByte::Any, SignatureByte::Byte(4)]);
    assert_eq!(find_signature(&[1, 2, 3, 4, 5], &sign), Some(1));
}

#[test]
fn absent_byte_does_not_match() {
    assert_eq!(find_signature(&[1, 2, 3, 4, 5], &exact(&[9])), None);
}

#[test]
fn first_of_several_matches_is_returned() {
    let sign = Signature::new(vec![SignatureByte::Byte(7), SignatureByte::Any]);
    assert_eq!(find_signature(&[0, 7, 1, 7, 2, 7, 3], &sign), Some(1));
}

#[test]
fn match_at_the_very_end() {
    assert_eq!(find_signature(&[1, 2, 3, 4, 5], &exact(&[4, 5])), Some(3));
}

#[test]
fn match_at_the_very_start() {
    assert_eq!(find_signature(&[1, 2, 3, 4, 5], &exact(&[1, 2])), Some(0));
}

#[test]
fn pattern_longer_than_haystack_does_not_match() {
    assert_eq!(find_signature(&[1, 2], &exact(&[1, 2, 3])), None);
}

#[test]
fn wildcard_needs_a_byte_to_lie_over() {
    let sign = Signature::new(vec![SignatureByte::Byte(5), SignatureByte::Any]);
    assert_eq!(find_signature(&[1, 2, 3, 4, 5], &sign), None);
}

#[test]
fn all_wildcards_match_at_zero() {
    let sign = Signature::new(vec![SignatureByte::Any, SignatureByte::Any]);
    assert_eq!(find_signature(&[8, 9, 10], &sign), Some(0));
}

#[test]
fn empty_signature_matches_at_zero() {
    let sign = Signature::new(Vec::new());
    assert_eq!(find_signature(&[1, 2, 3], &sign), Some(0));
    assert_eq!(find_signature(&[], &sign), Some(0));
}

#[test]
fn empty_haystack_holds_no_byte() {
    assert_eq!(find_signature(&[], &exact(&[1])), None);
}

#[test]
fn partial_match_is_retried_from_the_next_offset() {
    assert_eq!(find_signature(&[1, 1, 1, 2], &exact(&[1, 1, 2])), Some(1));
}

#[test]
fn signature_reports_its_elements() {
    let sign = Signature::new(vec![SignatureByte::Byte(0xab), SignatureByte::Any]);
    assert_eq!(sign.len(), 2);
    assert_eq!(sign.get(0), SignatureByte::Byte(0xab));
    assert_eq!(sign.get(1), SignatureByte::Any);
    assert!(sign.get(0).matches(0xab));
    assert!(!sign.get(0).matches(0xac));
    assert!(sign.get(1).matches(0x00));
}

#[test]
fn signature_matches_at_checks_one_offset() {
    let sign = Signature::new(vec![SignatureByte::Byte(2), SignatureByte::Any, SignatureByte::Byte(4)]);
    let hay = [1u8, 2, 3, 4, 5];
    assert!(sign.matches_at(&hay, 1));
    assert!(!sign.matches_at(&hay, 0));
    assert!(!sign.matches_at(&hay, 3));
    assert!(!sign.matches_at(&hay, usize::MAX));
}
