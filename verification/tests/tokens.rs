use phrase_compiler::token::{token_from, token_from_reverse, token_from_s};
use phrase_compiler::tokenable::{PatternError, Tokenable};

fn word() -> Tokenable {
    Tokenable::new("^[A-Za-z0-9_]+$").unwrap()
}

#[test]
fn token_from_reads_a_word() {
    let t = word();
    assert_eq!(token_from("abc def", 0, &t), 3);
    assert_eq!(token_from_s("abc def", 0, &t), "abc");
}

#[test]
fn token_from_reads_to_the_end() {
    let t = word();
    assert_eq!(token_from("abc def", 4, &t), 7);
    assert_eq!(token_from_s("abc def", 4, &t), "def");
}

#[test]
fn token_from_skips_a_leading_space() {
    let t = word();
    assert_eq!(token_from("print hello", 5, &t), 11);
    assert_eq!(token_from_s("print hello", 5, &t), "hello");
}

#[test]
fn token_from_stops_after_a_symbol() {
    let t = word();
    assert_eq!(token_from("(a", 0, &t), 1);
    assert_eq!(token_from_s("(a", 0, &t), "(");
}

#[test]
fn token_from_empty_text_is_zero() {
    let t = word();
    assert_eq!(token_from("", 0, &t), 0);
}

#[test]
fn escaping_backslash_is_left_out() {
    let t = Tokenable::new("^[a\\{]+$").unwrap();
    // The backslash before the brace is not read, the brace is.
    assert_eq!(token_from_s("a\\{a", 0, &t), "a{a");
    assert_eq!(token_from("a\\{a", 0, &t), 4);
}

#[test]
fn token_from_reverse_finds_the_start() {
    let t = word();
    assert_eq!(token_from_reverse("abc def", 7, &t), 4);
    assert_eq!(token_from_reverse("ab", 2, &t), 0);
    assert_eq!(token_from_reverse("ab(", 3, &t), 3);
}

#[test]
fn invalid_pattern_is_refused() {
    assert!(matches!(Tokenable::new("("), Err(PatternError::Invalid)));
    assert_eq!(word().pattern(), "^[A-Za-z0-9_]+$");
}

#[test]
fn token_text_is_its_span() {
    let t = Tokenable::new("^[a-z ]+$").unwrap();
    // The span runs to the end; the space at the very end is not kept.
    let end = token_from("ab ", 0, &t);
    assert_eq!(end, 3);
    assert_eq!(token_from_s("ab ", 0, &t), "ab");
    // A space inside the span is kept.
    assert_eq!(token_from("a b+", 0, &t), 3);
    assert_eq!(token_from_s("a b+", 0, &t), "a b");
}

#[test]
fn trailing_space_is_judged_by_byte_length() {
    let t = Tokenable::new("^é+$").unwrap();
    // "é " is three bytes long, so the space (index 1) is read and ends the token.
    assert_eq!(token_from("é ", 0, &t), 1);
    assert_eq!(token_from_s("é ", 0, &t), "é");
}
