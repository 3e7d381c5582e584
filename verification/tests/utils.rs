use repoyank::utils::approx_tokens;

#[test]
fn tokens_are_a_quarter_of_the_characters() {
    assert_eq!(approx_tokens(""), 0);
    assert_eq!(approx_tokens("abc"), 0);
    assert_eq!(approx_tokens("abcd"), 1);
    assert_eq!(approx_tokens("abcdefg"), 1);
    assert_eq!(approx_tokens("abcdefgh"), 2);
}

#[test]
fn tokens_count_characters_not_bytes() {
    assert_eq!("├─├─".len(), 12);
    assert_eq!(approx_tokens("├─├─"), 1);
}
