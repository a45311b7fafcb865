use unlinked::boundary::{char_next_to, char_prior_to, on_word_boundary};

#[test]
fn char_prior_to_inside_ascii() {
    assert_eq!(char_prior_to(1, "hello"), Some('h'));
}

#[test]
fn char_prior_to_start_is_none() {
    assert_eq!(char_prior_to(0, "hello"), None);
}

#[test]
fn char_prior_to_beyond_end_is_none() {
    assert_eq!(char_prior_to(10, "hello"), None);
}

#[test]
fn char_prior_to_after_three_bytes() {
    assert_eq!(char_prior_to(3, "€10"), Some('€'));
}

#[test]
fn char_prior_to_before_three_bytes() {
    assert_eq!(char_prior_to(2, "10€"), Some('0'));
}

#[test]
fn char_prior_to_beyond_end_with_wide_char() {
    assert_eq!(char_prior_to(10, "10€"), None);
}

#[test]
fn char_prior_to_start_with_wide_char() {
    assert_eq!(char_prior_to(0, "10€"), None);
}

#[test]
fn char_prior_to_end_of_text() {
    assert_eq!(char_prior_to(5, "hello"), Some('o'));
    assert_eq!(char_prior_to(5, "10€"), Some('€'));
    assert_eq!(char_prior_to(6, "10€"), None);
}

#[test]
fn char_prior_to_inside_a_character_is_that_character() {
    assert_eq!(char_prior_to(1, "€10"), Some('€'));
    assert_eq!(char_prior_to(2, "€10"), Some('€'));
    assert_eq!(char_prior_to(4, "a😀b"), Some('😀'));
}

#[test]
fn char_prior_to_in_text_outside_ascii() {
    let text = "東京都";
    for i in 0..=text.len() + 2 {
        let expected = if i == 0 || i > text.len() {
            None
        } else {
            text.chars().nth((i - 1) / 3)
        };
        assert_eq!(char_prior_to(i, text), expected);
    }
}

#[test]
fn char_next_to_reads_forward() {
    assert_eq!(char_next_to(0, "hello"), Some('h'));
    assert_eq!(char_next_to(4, "hello"), Some('o'));
    assert_eq!(char_next_to(5, "hello"), None);
    assert_eq!(char_next_to(2, "10€"), Some('€'));
    assert_eq!(char_next_to(3, "10€"), Some('€'));
    assert_eq!(char_next_to(0, ""), None);
}

#[test]
fn word_boundary_on_both_sides() {
    assert!(on_word_boundary("a cat.", 2, 5));
    assert!(on_word_boundary("cat", 0, 3));
    assert!(on_word_boundary("(cat)", 1, 4));
}

#[test]
fn no_word_boundary_inside_a_word() {
    assert!(!on_word_boundary("category", 0, 3));
    assert!(!on_word_boundary("bobcat", 3, 6));
    assert!(!on_word_boundary("cat9", 0, 3));
    assert!(!on_word_boundary("7cat", 1, 4));
}

#[test]
fn word_boundary_next_to_characters_outside_ascii() {
    assert!(!on_word_boundary("écat", 2, 5));
    assert!(!on_word_boundary("caté", 0, 3));
    assert!(!on_word_boundary("東cat", 3, 6));
    assert!(on_word_boundary("€cat€", 3, 6));
    assert!(on_word_boundary("—cat—", 3, 6));
}
