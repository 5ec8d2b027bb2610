use snake_game::score::parse_high_score;

#[test]
fn parses_plain_decimal() {
    assert_eq!(parse_high_score(&b"42".to_vec()), 42);
    assert_eq!(parse_high_score(&b"0".to_vec()), 0);
    assert_eq!(parse_high_score(&b"4294967295".to_vec()), u32::MAX);
}

#[test]
fn trims_surrounding_whitespace() {
    assert_eq!(parse_high_score(&b"42\n".to_vec()), 42);
    assert_eq!(parse_high_score(&b"  123  ".to_vec()), 123);
    assert_eq!(parse_high_score(&b"\t\r\n7\r\n".to_vec()), 7);
}

#[test]
fn empty_or_blank_counts_as_zero() {
    assert_eq!(parse_high_score(&Vec::new()), 0);
    assert_eq!(parse_high_score(&b"   \n".to_vec()), 0);
}

#[test]
fn corrupt_contents_count_as_zero() {
    assert_eq!(parse_high_score(&b"abc".to_vec()), 0);
    assert_eq!(parse_high_score(&b"12a".to_vec()), 0);
    assert_eq!(parse_high_score(&b"1 2".to_vec()), 0);
    assert_eq!(parse_high_score(&b"-5".to_vec()), 0);
}

#[test]
fn out_of_range_counts_as_zero() {
    assert_eq!(parse_high_score(&b"4294967296".to_vec()), 0);
    assert_eq!(parse_high_score(&b"99999999999999999999".to_vec()), 0);
}
