//! The lexer: executable scanning, proved against the grammar.

use crate::error::{LexerError, LexerErrorKind, LexerErrorView};
use crate::grammar::{
    backslashes_before, blanks_end, closing_quote, decimal_value, digits_end, end_of_data,
    ends_word, fault_report, first_close, first_fault, is_blank, is_digit,
    lemma_decimal_value_grows, lemma_first_fault_unique, lemma_run_end, lemma_unit_end,
    lemma_word_is_no_newline, lex, newlines_among, overflow_text, punctuation, run_end,
    sound_before, starts_symbol, unit_end, unit_fault, unit_starts, unit_token, unit_tokens,
    units, unmatched_text, word_end, word_token,
};
use crate::text::{chars_of, decimal_text, spells, text_of};
use crate::token::{token_views, Token, TokenView};
use vstd::prelude::*;
use vstd::string::StringExecFns;

verus! {

/// Where scanning stands: how many characters lie behind, and how many of
/// the units among them were line breaks.
///
/// The offset counts characters, not bytes, so it is a position in the text
/// whatever the text holds. The line breaks are counted rather than the
/// line, which is one more, so that a cursor behind the last character of
/// the longest text there can be still holds a number that fits.
#[derive(Debug, Clone, Copy, PartialEq, Eq, Structural)]
pub struct Cursor {
    pub offset: usize,
    pub newlines: usize,
}

impl Cursor {
    /// The cursor before the first character, on line one.
    pub fn start() -> (at: Cursor)
        ensures
            at.offset == 0,
            at.newlines == 0,
            at.wf(),
    {
        Cursor { offset: 0, newlines: 0 }
    }

    /// A cursor has passed no more line breaks than characters.
    pub open spec fn wf(&self) -> bool {
        self.newlines <= self.offset
    }

    /// The line that the cursor is on, counted from one.
    pub open spec fn line(&self) -> nat {
        (self.newlines + 1) as nat
    }
}

/// The scanner. It holds no state: each call works on the text and the
/// cursor it is given.
pub struct Lexer;

/// The token of a punctuation mark or of the line break.
fn symbol_token(ch: char) -> (token: Option<Token>)
    ensures
        match token {
            Some(t) => punctuation(ch) == Some(t@),
            None => punctuation(ch) is None,
        },
{
    match ch {
        '(' => Some(Token::LParen),
        ')' => Some(Token::RParen),
        '{' => Some(Token::LBrace),
        '}' => Some(Token::RBrace),
        '+' => Some(Token::Plus),
        '-' => Some(Token::Minus),
        '*' => Some(Token::Times),
        '/' => Some(Token::Divide),
        '=' => Some(Token::Equal),
        '<' => Some(Token::Less),
        '>' => Some(Token::Great),
        '.' => Some(Token::Period),
        ',' => Some(Token::Comma),
        '\n' => Some(Token::Newline),
        _ => None,
    }
}

/// Whether `ch` cannot stand inside a word.
fn stops_word(ch: char) -> (stops: bool)
    ensures
        stops == ends_word(ch),
{
    ch == ' ' || ch == '\t' || ch == '"' || symbol_token(ch).is_some()
}

/// Looks for the quote that closes the string literal opened at `open`.
fn find_closing_quote(code: &[char], open: usize) -> (close: Option<usize>)
    requires
        open < code@.len(),
        code@[open as int] == '"',
    ensures
        match close {
            Some(j) => closing_quote(code@, open as int) == Some(j as int) && open < j
                < code@.len(),
            None => closing_quote(code@, open as int) is None,
        },
{
    let len = code.len();
    let mut j: usize = open + 1;
    let mut run: usize = 0;
    while j < len
        invariant
            len == code@.len(),
            open < j <= len,
            run <= j,
            run == backslashes_before(code@, j as int),
            first_close(code@, j as int) == closing_quote(code@, open as int),
        decreases code@.len() - j,
    {
        let ch = code[j];
        if ch == '"' && run % 2 == 0 {
            return Some(j);
        }
        if ch == '\\' {
            run = run + 1;
        } else {
            run = 0;
        }
        j = j + 1;
    }
    None
}

/// Where the digits that start at `from` end.
fn find_digits_end(code: &[char], from: usize) -> (end: usize)
    requires
        from <= code@.len(),
    ensures
        end == digits_end(code@, from as int),
        from <= end <= code@.len(),
        forall|k: int| from <= k < end ==> is_digit(#[trigger] code@[k]),
{
    let mut end: usize = from;
    while end < code.len() && code[end] >= '0' && code[end] <= '9'
        invariant
            from <= end <= code@.len(),
            digits_end(code@, end as int) == digits_end(code@, from as int),
            forall|k: int| from <= k < end ==> is_digit(#[trigger] code@[k]),
        decreases code@.len() - end,
    {
        end = end + 1;
    }
    end
}

/// Where the word that starts at `from` ends.
fn find_word_end(code: &[char], from: usize) -> (end: usize)
    requires
        from < code@.len(),
    ensures
        end == word_end(code@, from as int),
        from < end <= code@.len(),
{
    let len = code.len();
    let mut end: usize = from + 1;
    while end < len && !stops_word(code[end])
        invariant
            len == code@.len(),
            from < end <= len,
            run_end(code@, end as int, |ch: char| !ends_word(ch)) == word_end(
                code@,
                from as int,
            ),
        decreases len - end,
    {
        end = end + 1;
    }
    end
}

/// The number that the digits from `from` up to `to` write, or `None` where
/// it is above `i64::MAX`.
fn parse_decimal(code: &[char], from: usize, to: usize) -> (value: Option<i64>)
    requires
        from <= to <= code@.len(),
        forall|k: int| from <= k < to ==> is_digit(#[trigger] code@[k]),
    ensures
        match value {
            Some(v) => v == decimal_value(code@.subrange(from as int, to as int)),
            None => decimal_value(code@.subrange(from as int, to as int)) > i64::MAX,
        },
{
    let ghost digits = code@.subrange(from as int, to as int);
    let mut acc: i64 = 0;
    let mut i: usize = from;
    while i < to
        invariant
            from <= i <= to <= code@.len(),
            forall|k: int| from <= k < to ==> is_digit(#[trigger] code@[k]),
            digits == code@.subrange(from as int, to as int),
            0 <= acc,
            acc == decimal_value(digits.take(i - from)),
        decreases to - i,
    {
        let ch = code[i];
        assert(is_digit(code@[i as int]));
        let digit: i64 = (ch as u32 - '0' as u32) as i64;
        proof {
            let longer = digits.take(i + 1 - from);
            assert(longer.drop_last() == digits.take(i - from));
            assert(longer.last() == ch);
        }
        if acc > (i64::MAX - digit) / 10 {
            proof {
                lemma_decimal_value_grows(digits, i + 1 - from);
            }
            return None;
        }
        acc = acc * 10 + digit;
        i = i + 1;
    }
    assert(digits.take(to - from) == digits);
    Some(acc)
}

/// The token of the word that stands from `from` up to `to`.
fn word_token_of(code: &[char], from: usize, to: usize) -> (token: Token)
    requires
        from <= to <= code@.len(),
    ensures
        token@ == word_token(code@.subrange(from as int, to as int)),
{
    if spells(code, from, to, "if") {
        Token::If
    } else if spells(code, from, to, "loop") {
        Token::Loop
    } else if spells(code, from, to, "break") {
        Token::Break
    } else if spells(code, from, to, "continue") {
        Token::Continue
    } else if spells(code, from, to, "let") {
        Token::Let
    } else if spells(code, from, to, "fn") {
        Token::Fn
    } else if spells(code, from, to, "macro") {
        Token::Macro
    } else if spells(code, from, to, "true") {
        Token::Bool(true)
    } else if spells(code, from, to, "false") {
        Token::Bool(false)
    } else {
        Token::Ident(text_of(code, from, to))
    }
}

/// The error for a string literal opened on line `line` and never closed.
fn unmatched_error(line: usize) -> (error: LexerError)
    ensures
        error@ == (LexerErrorView {
            kind: LexerErrorKind::UnmatchedToken,
            desc: Some(unmatched_text(line as nat)),
        }),
{
    let mut text = "mismatched '\"' starting at line ".to_owned();
    let number = decimal_text(line);
    text.append(number.as_str());
    LexerError::new(LexerErrorKind::UnmatchedToken, Some(text))
}

/// The error for the number above `i64::MAX` that stands from `from` up to
/// `to`, on line `line`.
fn overflow_error(code: &[char], from: usize, to: usize, line: usize) -> (error: LexerError)
    requires
        from <= to <= code@.len(),
    ensures
        error@ == (LexerErrorView {
            kind: LexerErrorKind::IntegerOverflow,
            desc: Some(overflow_text(code@.subrange(from as int, to as int), line as nat)),
        }),
{
    let mut text = "'".to_owned();
    let digits = text_of(code, from, to);
    text.append(digits.as_str());
    text.append("' at line ");
    let number = decimal_text(line);
    text.append(number.as_str());
    text.append(" is too big");
    LexerError::new(LexerErrorKind::IntegerOverflow, Some(text))
}

impl Lexer {
    /// A lexer.
    #[inline]
    pub fn new() -> (lexer: Lexer) {
        Lexer
    }

    /// Scans the whole of `code`.
    ///
    /// Gives the tokens of all its units, in the order of the text, where
    /// no unit is at fault. Otherwise gives the error for the first unit at
    /// fault, which names the line on which that unit starts, and no token.
    /// Reaching the end of the text is how a scan ends well, never an error.
    pub fn tokenize(&self, code: &str) -> (result: Result<Vec<Token>, LexerError>)
        ensures
            match result {
                Ok(tokens) => lex(code@) is Ok && lex(code@)->Ok_0 == token_views(tokens@),
                Err(error) => lex(code@) is Err && lex(code@)->Err_0 == error@,
            },
            result is Err ==> result->Err_0@.kind != LexerErrorKind::EndOfData,
    {
        let chars = chars_of(code);
        let ghost s = code@;
        let ghost starts = units(s);
        let mut tokens: Vec<Token> = Vec::new();
        let mut at = Cursor::start();
        loop
            invariant
                chars@ == s,
                s == code@,
                starts == units(s),
                at.wf(),
                at.offset <= s.len(),
                tokens@.len() <= starts.len(),
                unit_starts(s, at.offset as int) == starts.skip(tokens@.len() as int),
                sound_before(s, starts, tokens@.len() as int),
                forall|j: int|
                    0 <= j < tokens@.len() ==> (#[trigger] tokens@[j])@ == unit_token(
                        s,
                        starts[j],
                    ),
                at.newlines == newlines_among(s, starts, tokens@.len() as int),
            decreases s.len() - at.offset,
        {
            let ghost k = tokens@.len() as int;
            let ghost p = blanks_end(s, at.offset as int);
            proof {
                lemma_run_end(s, at.offset as int, |ch: char| is_blank(ch));
                if p < s.len() {
                    lemma_unit_end(s, p);
                    assert(starts.skip(k).len() >= 1);
                    assert(k < starts.len());
                    assert(starts.skip(k)[0] == p);
                    assert(starts[k] == p);
                    assert(starts.skip(k + 1) == starts.skip(k).skip(1));
                    assert(starts.skip(k).skip(1) == unit_starts(s, unit_end(s, p)));
                }
            }
            match self.find_token(chars.as_slice(), at) {
                Ok((token, next)) => {
                    tokens.push(token);
                    at = next;
                },
                Err(error) => {
                    match error.kind() {
                        LexerErrorKind::EndOfData => {
                            proof {
                                assert(starts.skip(k).len() == 0);
                                assert(k == starts.len());
                                assert(unit_tokens(s) == token_views(tokens@));
                            }
                            return Ok(tokens);
                        },
                        _ => {
                            proof {
                                assert(first_fault(s, starts, k));
                                let chosen = choose|c: int| first_fault(s, starts, c);
                                lemma_first_fault_unique(s, starts, chosen, k);
                            }
                            return Err(error);
                        },
                    }
                },
            }
        }
    }

    /// Scans one unit: skips the blanks at the cursor, then reads the unit
    /// that starts there.
    ///
    /// Gives the unit's token and the cursor behind the unit. The cursor
    /// never moves back, and it is one line further exactly when the token
    /// is a line break. Where nothing but blanks is left, gives the error of
    /// kind `EndOfData`; where the unit is at fault, the error for it.
    #[inline]
    pub fn find_token(&self, code: &[char], at: Cursor) -> (result: Result<
        (Token, Cursor),
        LexerError,
    >)
        requires
            at.offset <= code@.len(),
            at.wf(),
        ensures
            match result {
                Ok((token, next)) => {
                    let p = blanks_end(code@, at.offset as int);
                    &&& p < code@.len()
                    &&& unit_fault(code@, p) is None
                    &&& token@ == unit_token(code@, p)
                    &&& next.offset == unit_end(code@, p)
                    &&& next.offset > at.offset
                    &&& next.newlines == at.newlines + if token@ == TokenView::Newline {
                        1int
                    } else {
                        0int
                    }
                    &&& (token@ == TokenView::Newline <==> code@[p] == '\n')
                    &&& next.wf()
                },
                Err(error) => {
                    let p = blanks_end(code@, at.offset as int);
                    if p >= code@.len() {
                        error@ == end_of_data()
                    } else {
                        &&& unit_fault(code@, p) is Some
                        &&& error@ == fault_report(code@, p, at.line())
                    }
                },
            },
    {
        let len = code.len();
        let idx = self.skip_whitespace(code, at.offset);
        if idx >= len {
            return Err(LexerError::new(LexerErrorKind::EndOfData, None));
        }
        let here = Cursor { offset: idx, newlines: at.newlines };
        match self.find_symbol_token(code, here) {
            Some(found) => found,
            None => {
                let ch = code[idx];
                if ch >= '0' && ch <= '9' {
                    let end = find_digits_end(code, idx);
                    proof {
                        lemma_unit_end(code@, idx as int);
                    }
                    match parse_decimal(code, idx, end) {
                        Some(value) => Ok(
                            (Token::Int(value), Cursor { offset: end, newlines: at.newlines }),
                        ),
                        None => Err(overflow_error(code, idx, end, at.newlines + 1)),
                    }
                } else {
                    let end = find_word_end(code, idx);
                    let token = word_token_of(code, idx, end);
                    proof {
                        lemma_word_is_no_newline(code@.subrange(idx as int, end as int));
                    }
                    Ok((token, Cursor { offset: end, newlines: at.newlines }))
                }
            },
        }
    }

    /// Reads the symbol that starts at the cursor, if one does: a string
    /// literal, a punctuation mark or a line break.
    ///
    /// Gives `None` exactly where no symbol starts there. A string literal
    /// runs from its opening quote to the first quote after it that has an
    /// even number of backslashes immediately before it, and its token
    /// holds it as written; where no such quote follows, the result is the
    /// error for it. Every other symbol is one character long.
    #[inline]
    pub fn find_symbol_token(&self, code: &[char], at: Cursor) -> (result: Option<
        Result<(Token, Cursor), LexerError>,
    >)
        requires
            at.offset < code@.len(),
            at.wf(),
        ensures
            result is Some <==> starts_symbol(code@[at.offset as int]),
            match result {
                Some(Ok((token, next))) => {
                    &&& unit_fault(code@, at.offset as int) is None
                    &&& token@ == unit_token(code@, at.offset as int)
                    &&& next.offset == unit_end(code@, at.offset as int)
                    &&& next.offset > at.offset
                    &&& next.newlines == at.newlines + if token@ == TokenView::Newline {
                        1int
                    } else {
                        0int
                    }
                    &&& (token@ == TokenView::Newline <==> code@[at.offset as int] == '\n')
                    &&& next.wf()
                },
                Some(Err(error)) => {
                    &&& unit_fault(code@, at.offset as int) is Some
                    &&& error@ == fault_report(code@, at.offset as int, at.line())
                },
                None => true,
            },
    {
        let len = code.len();
        let idx = at.offset;
        let ch = code[idx];
        if ch == '"' {
            match find_closing_quote(code, idx) {
                Some(close) => {
                    let text = text_of(code, idx, close + 1);
                    Some(
                        Ok(
                            (
                                Token::Str(text),
                                Cursor { offset: close + 1, newlines: at.newlines },
                            ),
                        ),
                    )
                },
                None => Some(Err(unmatched_error(at.newlines + 1))),
            }
        } else {
            match symbol_token(ch) {
                Some(token) => {
                    let newlines = if ch == '\n' {
                        at.newlines + 1
                    } else {
                        at.newlines
                    };
                    Some(Ok((token, Cursor { offset: idx + 1, newlines })))
                },
                None => None,
            }
        }
    }

    /// Skips the blanks that start at `idx`.
    ///
    /// Gives the position of the first character from `idx` on that is not
    /// a blank, or the length of the text where only blanks are left.
    #[inline]
    pub fn skip_whitespace(&self, code: &[char], idx: usize) -> (end: usize)
        requires
            idx <= code@.len(),
        ensures
            end == blanks_end(code@, idx as int),
            idx <= end <= code@.len(),
            forall|k: int| idx <= k < end ==> is_blank(#[trigger] code@[k]),
            end < code@.len() ==> !is_blank(code@[end as int]),
    {
        let len = code.len();
        let mut end: usize = idx;
        while end < len && self.is_whitespace(code[end])
            invariant
                len == code@.len(),
                idx <= end <= len,
                blanks_end(code@, end as int) == blanks_end(code@, idx as int),
                forall|k: int| idx <= k < end ==> is_blank(#[trigger] code@[k]),
            decreases len - end,
        {
            end = end + 1;
        }
        end
    }

    /// Whether `ch` is a blank: a space or a tab.
    #[inline]
    pub fn is_whitespace(&self, ch: char) -> (blank: bool)
        ensures
            blank == is_blank(ch),
    {
        ch == '\t' || ch == ' '
    }
}

} // verus!
