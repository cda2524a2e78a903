use gitpow::score::num_leading_zero_bits;

#[test]
fn all_zero_digest_scores_its_full_length() {
    assert_eq!(num_leading_zero_bits(&[0u8; 20]), 160);
}

#[test]
fn set_top_bit_scores_zero() {
    let mut digest = [0u8; 20];
    digest[0] = 0x80;
    assert_eq!(num_leading_zero_bits(&digest), 0);
    digest[0] = 0xff;
    assert_eq!(num_leading_zero_bits(&digest), 0);
}

#[test]
fn score_counts_whole_bytes_and_the_bits_of_the_next() {
    assert_eq!(num_leading_zero_bits(&[0x00, 0x10, 0xff]), 11);
    assert_eq!(num_leading_zero_bits(&[0x00, 0x00, 0x01]), 23);
    assert_eq!(num_leading_zero_bits(&[0x01]), 7);
    assert_eq!(num_leading_zero_bits(&[0x7f]), 1);
    assert_eq!(num_leading_zero_bits(&[0x00, 0x83, 0xd7]), 8);
}

#[test]
fn scan_stops_at_the_first_byte_that_is_not_zero() {
    assert_eq!(num_leading_zero_bits(&[0x00, 0x40, 0x00, 0x00]), 9);
    assert_eq!(num_leading_zero_bits(&[0x20, 0x00, 0x00, 0x00]), 2);
}

#[test]
fn empty_input_scores_zero() {
    assert_eq!(num_leading_zero_bits(&[]), 0);
}

#[test]
fn first_set_bit_sits_at_the_score() {
    let digest = [0x00u8, 0x00, 0x05, 0xa0];
    let score = num_leading_zero_bits(&digest) as usize;
    assert_eq!(score, 21);
    let bit = |i: usize| (digest[i / 8] >> (7 - i % 8)) & 1;
    assert!((0..score).all(|i| bit(i) == 0));
    assert_eq!(bit(score), 1);
}
