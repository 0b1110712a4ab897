use toy_lexer::text::{chars_of, decimal_text, spells, text_of};

#[test]
fn the_characters_of_a_text() {
    assert_eq!(chars_of(""), Vec::<char>::new());
    assert_eq!(chars_of("ab c"), vec!['a', 'b', ' ', 'c']);
    assert_eq!(chars_of("h\u{e9}\u{4e16}"), vec!['h', '\u{e9}', '\u{4e16}']);
}

#[test]
fn the_text_of_some_characters() {
    let chars = vec!['a', 'b', '\u{e9}', 'd'];
    assert_eq!(text_of(&chars, 0, 4), "ab\u{e9}d");
    assert_eq!(text_of(&chars, 1, 3), "b\u{e9}");
    assert_eq!(text_of(&chars, 2, 2), "");
}

#[test]
fn spelling_compares_the_whole_part() {
    let chars = vec!['x', 'i', 'f', 'f'];
    assert!(spells(&chars, 1, 3, "if"));
    assert!(!spells(&chars, 1, 4, "if"));
    assert!(!spells(&chars, 0, 2, "if"));
    assert!(!spells(&chars, 1, 2, "if"));
    assert!(spells(&chars, 2, 2, ""));
}

#[test]
fn decimal_numerals() {
    assert_eq!(decimal_text(0), "0");
    assert_eq!(decimal_text(7), "7");
    assert_eq!(decimal_text(10), "10");
    assert_eq!(decimal_text(12345), "12345");
    assert_eq!(decimal_text(9078563412), "9078563412");
    assert_eq!(decimal_text(usize::MAX), usize::MAX.to_string());
}
