use miniscript::chars::{digit, letter, letter_or_digit, number_char, space, to_chars};

#[test]
fn digits_are_ascii_only() {
    assert!(digit('0'));
    assert!(digit('5'));
    assert!(digit('9'));
    assert!(!digit('/'));
    assert!(!digit(':'));
    assert!(!digit('a'));
    assert!(!digit('\u{660}'));
}

#[test]
fn letters_are_ascii_only() {
    assert!(letter('a'));
    assert!(letter('z'));
    assert!(letter('A'));
    assert!(letter('Z'));
    assert!(!letter('@'));
    assert!(!letter('['));
    assert!(!letter('`'));
    assert!(!letter('{'));
    assert!(!letter('1'));
    assert!(!letter('_'));
    assert!(!letter('\u{e9}'));
}

#[test]
fn letters_and_digits_together() {
    assert!(letter_or_digit('q'));
    assert!(letter_or_digit('7'));
    assert!(!letter_or_digit('.'));
    assert!(!letter_or_digit(' '));
}

#[test]
fn number_characters() {
    assert!(number_char('0'));
    assert!(number_char('.'));
    assert!(!number_char(','));
    assert!(!number_char('-'));
    assert!(!number_char('e'));
}

#[test]
fn space_agrees_with_the_standard_library() {
    let mut n: u32 = 0;
    while n <= 0x10FFFF {
        if let Some(c) = char::from_u32(n) {
            assert_eq!(space(c), c.is_whitespace(), "U+{:04X}", n);
        }
        n += 1;
    }
}

#[test]
fn characters_of_a_text() {
    assert_eq!(to_chars(""), Vec::<char>::new());
    assert_eq!(to_chars("a\u{e9}\u{1F600}b"), vec!['a', '\u{e9}', '\u{1F600}', 'b']);
}
