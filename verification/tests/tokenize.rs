use toy_lexer::{Lexer, LexerError, LexerErrorKind, Token};

fn scan(code: &str) -> Result<Vec<Token>, LexerError> {
    Lexer::new().tokenize(code)
}

fn ident(text: &str) -> Token {
    Token::Ident(text.to_string())
}

fn string(text: &str) -> Token {
    Token::Str(text.to_string())
}

#[test]
fn worked_example() {
    assert_eq!(
        scan("fn main() { 3 + 4 }"),
        Ok(vec![
            Token::Fn,
            ident("main"),
            Token::LParen,
            Token::RParen,
            Token::LBrace,
            Token::Int(3),
            Token::Plus,
            Token::Int(4),
            Token::RBrace,
        ])
    );
}

#[test]
fn function_with_a_body_on_lines_of_its_own() {
    assert_eq!(
        scan("fn fib(x) {\n   3 + 4\n}"),
        Ok(vec![
            Token::Fn,
            ident("fib"),
            Token::LParen,
            ident("x"),
            Token::RParen,
            Token::LBrace,
            Token::Newline,
            Token::Int(3),
            Token::Plus,
            Token::Int(4),
            Token::Newline,
            Token::RBrace,
        ])
    );
}

#[test]
fn let_binding() {
    assert_eq!(
        scan("let x = 5"),
        Ok(vec![Token::Let, ident("x"), Token::Equal, Token::Int(5)])
    );
}

#[test]
fn empty_text_has_no_tokens() {
    assert_eq!(scan(""), Ok(vec![]));
}

#[test]
fn blanks_alone_have_no_tokens() {
    assert_eq!(scan(" \t  \t"), Ok(vec![]));
}

#[test]
fn blanks_around_tokens_are_dropped() {
    assert_eq!(scan("\t a \t b  "), Ok(vec![ident("a"), ident("b")]));
}

#[test]
fn each_reserved_word_has_its_token() {
    assert_eq!(scan("if"), Ok(vec![Token::If]));
    assert_eq!(scan("loop"), Ok(vec![Token::Loop]));
    assert_eq!(scan("break"), Ok(vec![Token::Break]));
    assert_eq!(scan("continue"), Ok(vec![Token::Continue]));
    assert_eq!(scan("let"), Ok(vec![Token::Let]));
    assert_eq!(scan("fn"), Ok(vec![Token::Fn]));
    assert_eq!(scan("macro"), Ok(vec![Token::Macro]));
    assert_eq!(scan("true"), Ok(vec![Token::Bool(true)]));
    assert_eq!(scan("false"), Ok(vec![Token::Bool(false)]));
}

#[test]
fn reserved_words_in_a_row() {
    assert_eq!(
        scan("if let fn loop break continue macro true false"),
        Ok(vec![
            Token::If,
            Token::Let,
            Token::Fn,
            Token::Loop,
            Token::Break,
            Token::Continue,
            Token::Macro,
            Token::Bool(true),
            Token::Bool(false),
        ])
    );
}

#[test]
fn a_word_that_only_holds_a_reserved_word_is_an_identifier() {
    assert_eq!(scan("iff"), Ok(vec![ident("iff")]));
    assert_eq!(scan("i"), Ok(vec![ident("i")]));
    assert_eq!(scan("If"), Ok(vec![ident("If")]));
    assert_eq!(scan("letter"), Ok(vec![ident("letter")]));
    assert_eq!(scan("truefalse"), Ok(vec![ident("truefalse")]));
    assert_eq!(scan("fn1"), Ok(vec![ident("fn1")]));
}

#[test]
fn every_punctuation_mark_has_its_token() {
    assert_eq!(
        scan("(){}+-*/=<>.,"),
        Ok(vec![
            Token::LParen,
            Token::RParen,
            Token::LBrace,
            Token::RBrace,
            Token::Plus,
            Token::Minus,
            Token::Times,
            Token::Divide,
            Token::Equal,
            Token::Less,
            Token::Great,
            Token::Period,
            Token::Comma,
        ])
    );
}

#[test]
fn a_symbol_ends_a_word() {
    assert_eq!(
        scan("a+b"),
        Ok(vec![ident("a"), Token::Plus, ident("b")])
    );
    assert_eq!(
        scan("f(x,y)"),
        Ok(vec![
            ident("f"),
            Token::LParen,
            ident("x"),
            Token::Comma,
            ident("y"),
            Token::RParen,
        ])
    );
    assert_eq!(scan("if("), Ok(vec![Token::If, Token::LParen]));
}

#[test]
fn a_quote_ends_a_word() {
    assert_eq!(scan("a\"b\""), Ok(vec![ident("a"), string("\"b\"")]));
}

#[test]
fn a_symbol_goes_before_a_number_and_a_word() {
    assert_eq!(scan("-1"), Ok(vec![Token::Minus, Token::Int(1)]));
    assert_eq!(scan(".x"), Ok(vec![Token::Period, ident("x")]));
}

#[test]
fn a_number_ends_at_the_first_character_that_is_no_digit() {
    assert_eq!(scan("1a"), Ok(vec![Token::Int(1), ident("a")]));
    assert_eq!(
        scan("3.14"),
        Ok(vec![Token::Int(3), Token::Period, Token::Int(14)])
    );
    assert_eq!(scan("12 34"), Ok(vec![Token::Int(12), Token::Int(34)]));
}

#[test]
fn digits_inside_a_word_belong_to_it() {
    assert_eq!(scan("a1"), Ok(vec![ident("a1")]));
    assert_eq!(scan("x99999999999999999999"), Ok(vec![ident("x99999999999999999999")]));
}

#[test]
fn numbers_have_their_value() {
    assert_eq!(scan("0"), Ok(vec![Token::Int(0)]));
    assert_eq!(scan("007"), Ok(vec![Token::Int(7)]));
    assert_eq!(scan("1234567890"), Ok(vec![Token::Int(1234567890)]));
    assert_eq!(
        scan("9223372036854775807"),
        Ok(vec![Token::Int(i64::MAX)])
    );
    assert_eq!(
        scan("000000000000000000000000000042"),
        Ok(vec![Token::Int(42)])
    );
}

#[test]
fn overflow() {
    let error = scan("99999999999999999999").unwrap_err();
    assert_eq!(error.kind(), LexerErrorKind::IntegerOverflow);
    assert_eq!(
        error.message(),
        "'99999999999999999999' at line 1 is too big"
    );
}

#[test]
fn the_first_number_above_the_range_overflows() {
    let error = scan("9223372036854775808").unwrap_err();
    assert_eq!(error.kind(), LexerErrorKind::IntegerOverflow);
    assert_eq!(
        error.desc(),
        Some(&"'9223372036854775808' at line 1 is too big".to_string())
    );
}

#[test]
fn an_overflow_names_the_whole_run_of_digits() {
    let error = scan("x = 123456789012345678901234567890;").unwrap_err();
    assert_eq!(error.kind(), LexerErrorKind::IntegerOverflow);
    assert_eq!(
        error.message(),
        "'123456789012345678901234567890' at line 1 is too big"
    );
}

#[test]
fn string_escaping() {
    assert_eq!(scan("\"a\\\"b\""), Ok(vec![string("\"a\\\"b\"")]));
}

#[test]
fn a_string_keeps_its_quotes_and_escapes() {
    assert_eq!(scan("\"\""), Ok(vec![string("\"\"")]));
    assert_eq!(scan("\"hello world\""), Ok(vec![string("\"hello world\"")]));
    assert_eq!(scan("\"a\\nb\""), Ok(vec![string("\"a\\nb\"")]));
}

#[test]
fn an_even_run_of_backslashes_does_not_escape_the_quote() {
    assert_eq!(scan("\"a\\\\\""), Ok(vec![string("\"a\\\\\"")]));
    assert_eq!(
        scan("\"a\\\\\"b"),
        Ok(vec![string("\"a\\\\\""), ident("b")])
    );
    assert_eq!(scan("\"\\\\\\\"\""), Ok(vec![string("\"\\\\\\\"\"")]));
}

#[test]
fn a_string_holds_symbols_blanks_and_digits() {
    assert_eq!(
        scan("x = \"(1 + 2)\t{}\""),
        Ok(vec![ident("x"), Token::Equal, string("\"(1 + 2)\t{}\"")])
    );
}

#[test]
fn two_strings_in_a_row() {
    assert_eq!(
        scan("\"a\"\"b\""),
        Ok(vec![string("\"a\""), string("\"b\"")])
    );
}

#[test]
fn a_backslash_before_an_opening_quote_is_a_word() {
    assert_eq!(scan("\\\"a\""), Ok(vec![ident("\\"), string("\"a\"")]));
}

#[test]
fn unterminated_string() {
    let error = scan("\"abc").unwrap_err();
    assert_eq!(error.kind(), LexerErrorKind::UnmatchedToken);
    assert_eq!(error.message(), "mismatched '\"' starting at line 1");
}

#[test]
fn a_lone_quote_is_unterminated() {
    let error = scan("\"").unwrap_err();
    assert_eq!(error.kind(), LexerErrorKind::UnmatchedToken);
}

#[test]
fn an_escaped_quote_does_not_close_a_string() {
    let error = scan("\"abc\\\"").unwrap_err();
    assert_eq!(error.kind(), LexerErrorKind::UnmatchedToken);
    assert_eq!(error.message(), "mismatched '\"' starting at line 1");
}

#[test]
fn newline_counting() {
    assert_eq!(
        scan("a\nb\nc"),
        Ok(vec![
            ident("a"),
            Token::Newline,
            ident("b"),
            Token::Newline,
            ident("c"),
        ])
    );
}

#[test]
fn an_error_after_two_newlines_is_on_line_three() {
    let error = scan("a\nb\n\"c").unwrap_err();
    assert_eq!(error.kind(), LexerErrorKind::UnmatchedToken);
    assert_eq!(error.message(), "mismatched '\"' starting at line 3");

    let error = scan("a\nb\n99999999999999999999").unwrap_err();
    assert_eq!(error.kind(), LexerErrorKind::IntegerOverflow);
    assert_eq!(
        error.message(),
        "'99999999999999999999' at line 3 is too big"
    );
}

#[test]
fn a_line_number_of_two_digits() {
    let code = format!("{}\"", "\n".repeat(11));
    let error = scan(&code).unwrap_err();
    assert_eq!(error.message(), "mismatched '\"' starting at line 12");
}

#[test]
fn an_unterminated_string_is_reported_on_the_line_where_it_opens() {
    let error = scan("a\n\"b\nc\nd").unwrap_err();
    assert_eq!(error.message(), "mismatched '\"' starting at line 2");
}

#[test]
fn a_line_break_inside_a_string_starts_no_line() {
    let error = scan("\"a\nb\"\n\"c").unwrap_err();
    assert_eq!(error.message(), "mismatched '\"' starting at line 2");
}

#[test]
fn the_first_fault_is_reported() {
    let error = scan("99999999999999999999 \"abc").unwrap_err();
    assert_eq!(error.kind(), LexerErrorKind::IntegerOverflow);
    let error = scan("\"abc 99999999999999999999").unwrap_err();
    assert_eq!(error.kind(), LexerErrorKind::UnmatchedToken);
}

#[test]
fn no_tokens_are_given_with_an_error() {
    assert!(scan("a b c \"").is_err());
}

#[test]
fn only_newlines() {
    assert_eq!(
        scan("\n\n\n"),
        Ok(vec![Token::Newline, Token::Newline, Token::Newline])
    );
}

#[test]
fn characters_of_several_bytes_are_word_characters() {
    assert_eq!(
        scan("h\u{e9}llo w\u{f6}rld+\u{4e16}\u{754c}"),
        Ok(vec![
            ident("h\u{e9}llo"),
            ident("w\u{f6}rld"),
            Token::Plus,
            ident("\u{4e16}\u{754c}"),
        ])
    );
    assert_eq!(
        scan("\"\u{e9}\" \u{1f600}"),
        Ok(vec![string("\"\u{e9}\""), ident("\u{1f600}")])
    );
}

#[test]
fn only_space_and_tab_are_blanks() {
    assert_eq!(scan("a\rb"), Ok(vec![ident("a\rb")]));
    assert_eq!(scan("a\u{a0}b"), Ok(vec![ident("a\u{a0}b")]));
}

#[test]
fn as_many_tokens_as_units() {
    let tokens = scan("let s = \"a b\"\nf(s, 10)\n").unwrap();
    assert_eq!(
        tokens,
        vec![
            Token::Let,
            ident("s"),
            Token::Equal,
            string("\"a b\""),
            Token::Newline,
            ident("f"),
            Token::LParen,
            ident("s"),
            Token::Comma,
            Token::Int(10),
            Token::RParen,
            Token::Newline,
        ]
    );
    assert_eq!(tokens.len(), 12);
}

#[test]
fn scanning_twice_gives_the_same() {
    let code = "loop { x = x + 1\n if x > 10 { break } }";
    assert_eq!(scan(code), scan(code));
}

fn written(tokens: &[Token]) -> String {
    let mut source = String::new();
    for token in tokens {
        let text = match token {
            Token::If => "if".to_string(),
            Token::Loop => "loop".to_string(),
            Token::Break => "break".to_string(),
            Token::Continue => "continue".to_string(),
            Token::Let => "let".to_string(),
            Token::LParen => "(".to_string(),
            Token::RParen => ")".to_string(),
            Token::LBrace => "{".to_string(),
            Token::RBrace => "}".to_string(),
            Token::Fn => "fn".to_string(),
            Token::Macro => "macro".to_string(),
            Token::Plus => "+".to_string(),
            Token::Minus => "-".to_string(),
            Token::Times => "*".to_string(),
            Token::Divide => "/".to_string(),
            Token::Equal => "=".to_string(),
            Token::Less => "<".to_string(),
            Token::Great => ">".to_string(),
            Token::Period => ".".to_string(),
            Token::Comma => ",".to_string(),
            Token::Newline => "\n".to_string(),
            Token::Str(text) => text.clone(),
            Token::Int(value) => value.to_string(),
            Token::Bool(value) => value.to_string(),
            Token::Ident(text) => text.clone(),
        };
        source.push_str(&text);
        source.push(' ');
    }
    source
}

#[test]
fn scanning_what_was_written_back_gives_the_same_tokens() {
    let sources = [
        "fn main() { 3 + 4 }",
        "let  s=\"a \\\" b\"\n\tloop{x=x+007\nif x>10{break}else{continue}}",
        "macro m(a,b)\n\n  a.b<true/false*-1",
        "\\x\"\"\"\\\\\"9y z9 h\u{e9}",
        "",
    ];
    for source in sources {
        let tokens = scan(source).unwrap();
        assert_eq!(scan(&written(&tokens)), Ok(tokens));
    }
}

#[test]
fn a_number_is_written_back_without_leading_zeros() {
    let tokens = scan("007").unwrap();
    assert_eq!(written(&tokens), "7 ");
    assert_eq!(scan("7 "), Ok(tokens));
}

#[test]
fn nothing_but_blanks_lies_between_the_tokens() {
    let spaced = scan(" a  +\t\"b c\"   12  \n  ").unwrap();
    let tight = scan("a+\"b c\"12\n").unwrap();
    assert_eq!(spaced, tight);
    assert_eq!(
        tight,
        vec![
            ident("a"),
            Token::Plus,
            string("\"b c\""),
            Token::Int(12),
            Token::Newline,
        ]
    );
}
