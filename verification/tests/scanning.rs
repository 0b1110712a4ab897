use toy_lexer::{Cursor, Lexer, LexerError, LexerErrorKind, Token};

fn chars(code: &str) -> Vec<char> {
    code.chars().collect()
}

#[test]
fn the_start_cursor() {
    let at = Cursor::start();
    assert_eq!(at.offset, 0);
    assert_eq!(at.newlines, 0);
}

#[test]
fn space_and_tab_are_whitespace() {
    let lexer = Lexer::new();
    assert!(lexer.is_whitespace(' '));
    assert!(lexer.is_whitespace('\t'));
    assert!(!lexer.is_whitespace('\n'));
    assert!(!lexer.is_whitespace('\r'));
    assert!(!lexer.is_whitespace('a'));
    assert!(!lexer.is_whitespace('\u{a0}'));
}

#[test]
fn skipping_stops_at_the_first_character_that_is_no_blank() {
    let lexer = Lexer::new();
    let code = chars("  \t x  ");
    assert_eq!(lexer.skip_whitespace(&code, 0), 4);
    assert_eq!(lexer.skip_whitespace(&code, 2), 4);
    assert_eq!(lexer.skip_whitespace(&code, 4), 4);
    assert_eq!(lexer.skip_whitespace(&code, 5), 7);
    assert_eq!(lexer.skip_whitespace(&code, 7), 7);
}

#[test]
fn skipping_does_not_pass_a_line_break() {
    let lexer = Lexer::new();
    let code = chars(" \n ");
    assert_eq!(lexer.skip_whitespace(&code, 0), 1);
}

#[test]
fn a_token_and_the_cursor_behind_it() {
    let lexer = Lexer::new();
    let code = chars("  let x");
    let (token, next) = lexer.find_token(&code, Cursor::start()).unwrap();
    assert_eq!(token, Token::Let);
    assert_eq!(next, Cursor { offset: 5, newlines: 0 });
    let (token, next) = lexer.find_token(&code, next).unwrap();
    assert_eq!(token, Token::Ident("x".to_string()));
    assert_eq!(next, Cursor { offset: 7, newlines: 0 });
}

#[test]
fn the_end_of_the_text_is_end_of_data() {
    let lexer = Lexer::new();
    let code = chars("x  \t");
    let error = lexer
        .find_token(&code, Cursor { offset: 1, newlines: 0 })
        .unwrap_err();
    assert_eq!(error.kind(), LexerErrorKind::EndOfData);
    assert_eq!(error.desc(), None);
    assert_eq!(error.message(), "");

    let error = lexer.find_token(&[], Cursor::start()).unwrap_err();
    assert_eq!(error.kind(), LexerErrorKind::EndOfData);
}

#[test]
fn a_line_break_moves_the_cursor_to_the_next_line() {
    let lexer = Lexer::new();
    let code = chars("a\n\nb");
    let (token, next) = lexer
        .find_token(&code, Cursor { offset: 1, newlines: 0 })
        .unwrap();
    assert_eq!(token, Token::Newline);
    assert_eq!(next, Cursor { offset: 2, newlines: 1 });
    let (token, next) = lexer.find_token(&code, next).unwrap();
    assert_eq!(token, Token::Newline);
    assert_eq!(next, Cursor { offset: 3, newlines: 2 });
    let (token, next) = lexer.find_token(&code, next).unwrap();
    assert_eq!(token, Token::Ident("b".to_string()));
    assert_eq!(next, Cursor { offset: 4, newlines: 2 });
}

#[test]
fn a_number_and_the_cursor_behind_it() {
    let lexer = Lexer::new();
    let code = chars("1234+");
    let (token, next) = lexer.find_token(&code, Cursor::start()).unwrap();
    assert_eq!(token, Token::Int(1234));
    assert_eq!(next, Cursor { offset: 4, newlines: 0 });
}

#[test]
fn a_fault_names_the_line_of_the_cursor() {
    let lexer = Lexer::new();
    let code = chars("xxxxxxxx 99999999999999999999");
    let error = lexer
        .find_token(&code, Cursor { offset: 8, newlines: 6 })
        .unwrap_err();
    assert_eq!(error.kind(), LexerErrorKind::IntegerOverflow);
    assert_eq!(
        error.message(),
        "'99999999999999999999' at line 7 is too big"
    );
}

#[test]
fn no_symbol_at_a_letter_a_digit_or_a_blank() {
    let lexer = Lexer::new();
    let code = chars("a1 \t\r\\");
    for offset in 0..code.len() {
        let at = Cursor { offset, newlines: 0 };
        assert!(lexer.find_symbol_token(&code, at).is_none());
    }
}

#[test]
fn a_punctuation_mark_is_one_character() {
    let lexer = Lexer::new();
    let code = chars("a<=b");
    let found = lexer.find_symbol_token(&code, Cursor { offset: 1, newlines: 0 });
    assert_eq!(
        found,
        Some(Ok((Token::Less, Cursor { offset: 2, newlines: 0 })))
    );
    let found = lexer.find_symbol_token(&code, Cursor { offset: 2, newlines: 0 });
    assert_eq!(
        found,
        Some(Ok((Token::Equal, Cursor { offset: 3, newlines: 0 })))
    );
}

#[test]
fn a_string_literal_runs_to_its_closing_quote() {
    let lexer = Lexer::new();
    let code = chars("x \"a\\\"b\" y");
    let found = lexer.find_symbol_token(&code, Cursor { offset: 2, newlines: 4 });
    assert_eq!(
        found,
        Some(Ok((
            Token::Str("\"a\\\"b\"".to_string()),
            Cursor { offset: 8, newlines: 4 }
        )))
    );
}

#[test]
fn an_open_string_literal_is_an_error() {
    let lexer = Lexer::new();
    let code = chars("xx\"abc");
    let found = lexer.find_symbol_token(&code, Cursor { offset: 2, newlines: 1 });
    let error = found.unwrap().unwrap_err();
    assert_eq!(error.kind(), LexerErrorKind::UnmatchedToken);
    assert_eq!(error.message(), "mismatched '\"' starting at line 2");
}

#[test]
fn an_error_holds_what_it_was_made_with() {
    let error = LexerError::new(LexerErrorKind::UnmatchedToken, Some("open".to_string()));
    assert_eq!(error.kind(), LexerErrorKind::UnmatchedToken);
    assert_eq!(error.desc(), Some(&"open".to_string()));
    assert_eq!(error.message(), "open");

    let error = LexerError::new(LexerErrorKind::IntegerOverflow, None);
    assert_eq!(error.kind(), LexerErrorKind::IntegerOverflow);
    assert_eq!(error.desc(), None);
    assert_eq!(error.message(), "");
}
