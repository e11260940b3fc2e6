use word_counter::decimal::{decimal_text, parse_count};
use word_counter::reducer::{merge_total, reduce_record};

fn reduce(key: &[u8], values: &[&[u8]]) -> (Vec<u8>, Vec<u8>) {
    reduce_record(key, values)
}

#[test]
fn sums_partial_counts() {
    let values: Vec<&[u8]> = vec![b"3", b"4", b"10"];
    let (k, v) = reduce(b"the", &values);
    assert_eq!(k, b"the".to_vec());
    assert_eq!(v, b"17".to_vec());
}

#[test]
fn malformed_values_are_ignored() {
    let values: Vec<&[u8]> = vec![b"3", b"abc", b"4", &[0xff, 0xfe], b"-2", b"", b"+", b"10"];
    let (k, v) = reduce(b"cat", &values);
    assert_eq!(k, b"cat".to_vec());
    assert_eq!(v, b"17".to_vec());
}

#[test]
fn empty_values_give_zero() {
    let values: Vec<&[u8]> = vec![];
    let (k, v) = reduce(b"word", &values);
    assert_eq!(k, b"word".to_vec());
    assert_eq!(v, b"0".to_vec());
}

#[test]
fn only_noise_gives_zero() {
    let values: Vec<&[u8]> = vec![b"x", b" 1", b"1 "];
    assert_eq!(reduce(b"k", &values).1, b"0".to_vec());
}

#[test]
fn reduction_is_repeatable() {
    let values: Vec<&[u8]> = vec![b"5", b"oops", b"6"];
    let first = reduce(b"again", &values);
    let second = reduce(b"again", &values);
    assert_eq!(first, second);
    assert_eq!(first.1, b"11".to_vec());
}

#[test]
fn reducing_the_output_again_keeps_it() {
    let values: Vec<&[u8]> = vec![b"40", b"2"];
    let (k, v) = reduce(b"w", &values);
    let again: Vec<&[u8]> = vec![&v];
    assert_eq!(reduce(&k, &again), (k.clone(), v.clone()));
}

#[test]
fn key_bytes_are_kept_as_they_are() {
    let key: &[u8] = &[0xc3, 0x28, b'a'];
    let values: Vec<&[u8]> = vec![b"1"];
    assert_eq!(reduce(key, &values).0, key.to_vec());
}

#[test]
fn parse_accepts_plus_and_leading_zeros() {
    assert_eq!(parse_count(b"+7"), Some(7));
    assert_eq!(parse_count(b"007"), Some(7));
    assert_eq!(parse_count(b"0"), Some(0));
}

#[test]
fn parse_rejects_what_is_not_a_count() {
    assert_eq!(parse_count(b""), None);
    assert_eq!(parse_count(b"+"), None);
    assert_eq!(parse_count(b"-1"), None);
    assert_eq!(parse_count(b"1.5"), None);
    assert_eq!(parse_count(b"++1"), None);
    assert_eq!(parse_count(&[0xff]), None);
}

#[test]
fn parse_takes_the_largest_usize_and_no_more() {
    let max = usize::MAX.to_string();
    assert_eq!(parse_count(max.as_bytes()), Some(usize::MAX));
    let over = format!("{}0", usize::MAX);
    assert_eq!(parse_count(over.as_bytes()), None);
}

#[test]
fn total_exceeds_usize_without_overflow() {
    let max = usize::MAX.to_string();
    let values: Vec<&[u8]> = vec![max.as_bytes(), max.as_bytes(), b"2"];
    let expected = (usize::MAX as u128) * 2 + 2;
    assert_eq!(merge_total(&values), expected);
    assert_eq!(reduce(b"big", &values).1, expected.to_string().into_bytes());
}

#[test]
fn decimal_text_of_numbers() {
    assert_eq!(decimal_text(0), b"0".to_vec());
    assert_eq!(decimal_text(9), b"9".to_vec());
    assert_eq!(decimal_text(10), b"10".to_vec());
    assert_eq!(decimal_text(1234567890), b"1234567890".to_vec());
    assert_eq!(decimal_text(u128::MAX), u128::MAX.to_string().into_bytes());
}
