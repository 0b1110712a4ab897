//! The grammar, as mathematics over a sequence of characters.
//!
//! A source text is cut into *units*. A unit starts at the first character
//! that is not a blank, and is one of: a string literal, a punctuation mark
//! or line break, a number, a word. Every unit has an end, whether or not it
//! is well formed, so the units of a text are defined for every text; the
//! tokens are defined where no unit is at fault.

use crate::error::{LexerErrorKind, LexerErrorView};
use crate::text::decimal;
use crate::token::TokenView;
use vstd::prelude::*;

verus! {

/// Blanks separate units and belong to none: the space and the tab.
pub open spec fn is_blank(ch: char) -> bool {
    ch == ' ' || ch == '\t'
}

/// The token of a punctuation mark or of the line break; `None` for every
/// other character.
pub open spec fn punctuation(ch: char) -> Option<TokenView> {
    if ch == '(' {
        Some(TokenView::LParen)
    } else if ch == ')' {
        Some(TokenView::RParen)
    } else if ch == '{' {
        Some(TokenView::LBrace)
    } else if ch == '}' {
        Some(TokenView::RBrace)
    } else if ch == '+' {
        Some(TokenView::Plus)
    } else if ch == '-' {
        Some(TokenView::Minus)
    } else if ch == '*' {
        Some(TokenView::Times)
    } else if ch == '/' {
        Some(TokenView::Divide)
    } else if ch == '=' {
        Some(TokenView::Equal)
    } else if ch == '<' {
        Some(TokenView::Less)
    } else if ch == '>' {
        Some(TokenView::Great)
    } else if ch == '.' {
        Some(TokenView::Period)
    } else if ch == ',' {
        Some(TokenView::Comma)
    } else if ch == '\n' {
        Some(TokenView::Newline)
    } else {
        None
    }
}

/// Whether a symbol starts with `ch`: the quote that opens a string
/// literal, a punctuation mark or the line break.
pub open spec fn starts_symbol(ch: char) -> bool {
    ch == '"' || punctuation(ch) is Some
}

/// The ten ASCII digits.
pub open spec fn is_digit(ch: char) -> bool {
    '0' <= ch <= '9'
}

/// Whether `ch` cannot stand inside a word: a blank, or the start of a
/// symbol.
pub open spec fn ends_word(ch: char) -> bool {
    is_blank(ch) || starts_symbol(ch)
}

/// The end of the longest run of characters that satisfy `member`, starting
/// at `i`.
pub open spec fn run_end(s: Seq<char>, i: int, member: spec_fn(char) -> bool) -> int
    decreases s.len() - i,
{
    if 0 <= i < s.len() && member(s[i]) {
        run_end(s, i + 1, member)
    } else {
        i
    }
}

/// Where the blanks that start at `i` end.
pub open spec fn blanks_end(s: Seq<char>, i: int) -> int {
    run_end(s, i, |ch: char| is_blank(ch))
}

/// Where the digits that start at `i` end.
pub open spec fn digits_end(s: Seq<char>, i: int) -> int {
    run_end(s, i, |ch: char| is_digit(ch))
}

/// Where the word that starts at `p` ends. Its first character belongs to
/// it whatever it is; the word goes on until a character that ends words.
pub open spec fn word_end(s: Seq<char>, p: int) -> int {
    run_end(s, p + 1, |ch: char| !ends_word(ch))
}

/// How many backslashes stand in a row immediately before position `j`.
pub open spec fn backslashes_before(s: Seq<char>, j: int) -> nat
    decreases j,
{
    if 0 < j <= s.len() && s[j - 1] == '\\' {
        1 + backslashes_before(s, j - 1)
    } else {
        0
    }
}

/// Whether a quote that closes a string literal stands at `j`: a quote with
/// an even number of backslashes immediately before it.
pub open spec fn closes(s: Seq<char>, j: int) -> bool {
    0 <= j < s.len() && s[j] == '"' && backslashes_before(s, j) % 2 == 0
}

/// The first position from `j` on at which a closing quote stands.
pub open spec fn first_close(s: Seq<char>, j: int) -> Option<int>
    decreases s.len() - j,
{
    if j < 0 || j >= s.len() {
        None
    } else if closes(s, j) {
        Some(j)
    } else {
        first_close(s, j + 1)
    }
}

/// The quote that closes the string literal opened at `q`.
pub open spec fn closing_quote(s: Seq<char>, q: int) -> Option<int> {
    first_close(s, q + 1)
}

/// The number that the digit `ch` stands for.
pub open spec fn digit_value(ch: char) -> nat
    recommends
        is_digit(ch),
{
    (ch as u32 - '0' as u32) as nat
}

/// The number that a sequence of digits writes in base ten.
pub open spec fn decimal_value(digits: Seq<char>) -> nat
    decreases digits.len(),
{
    if digits.len() == 0 {
        0
    } else {
        10 * decimal_value(digits.drop_last()) + digit_value(digits.last())
    }
}

/// The reserved words and their tokens; `None` for every other text.
pub open spec fn reserved(word: Seq<char>) -> Option<TokenView> {
    if word == "if"@ {
        Some(TokenView::If)
    } else if word == "loop"@ {
        Some(TokenView::Loop)
    } else if word == "break"@ {
        Some(TokenView::Break)
    } else if word == "continue"@ {
        Some(TokenView::Continue)
    } else if word == "let"@ {
        Some(TokenView::Let)
    } else if word == "fn"@ {
        Some(TokenView::Fn)
    } else if word == "macro"@ {
        Some(TokenView::Macro)
    } else if word == "true"@ {
        Some(TokenView::Bool(true))
    } else if word == "false"@ {
        Some(TokenView::Bool(false))
    } else {
        None
    }
}

/// The token of a word: that of the reserved word it spells, else an
/// identifier.
pub open spec fn word_token(word: Seq<char>) -> TokenView {
    match reserved(word) {
        Some(token) => token,
        None => TokenView::Ident(word),
    }
}

/// Where the unit that starts at `p` ends.
pub open spec fn unit_end(s: Seq<char>, p: int) -> int
    recommends
        0 <= p < s.len(),
{
    if s[p] == '"' {
        match closing_quote(s, p) {
            Some(j) => j + 1,
            None => s.len() as int,
        }
    } else if punctuation(s[p]) is Some {
        p + 1
    } else if is_digit(s[p]) {
        digits_end(s, p)
    } else {
        word_end(s, p)
    }
}

/// What is wrong with the unit that starts at `p`, if anything: a string
/// literal that is never closed, or a number above `i64::MAX`.
pub open spec fn unit_fault(s: Seq<char>, p: int) -> Option<LexerErrorKind>
    recommends
        0 <= p < s.len(),
{
    if s[p] == '"' {
        if closing_quote(s, p) is None {
            Some(LexerErrorKind::UnmatchedToken)
        } else {
            None
        }
    } else if punctuation(s[p]) is Some {
        None
    } else if is_digit(s[p]) {
        if decimal_value(s.subrange(p, digits_end(s, p))) > i64::MAX {
            Some(LexerErrorKind::IntegerOverflow)
        } else {
            None
        }
    } else {
        None
    }
}

/// The token of the unit that starts at `p`, where the unit is not at
/// fault. A symbol goes before a number, and a number before a word.
pub open spec fn unit_token(s: Seq<char>, p: int) -> TokenView
    recommends
        0 <= p < s.len(),
        unit_fault(s, p) is None,
{
    if s[p] == '"' {
        TokenView::Str(s.subrange(p, unit_end(s, p)))
    } else if punctuation(s[p]) is Some {
        punctuation(s[p])->0
    } else if is_digit(s[p]) {
        TokenView::Int(decimal_value(s.subrange(p, unit_end(s, p))) as i64)
    } else {
        word_token(s.subrange(p, unit_end(s, p)))
    }
}

/// The description of a string literal that is never closed, opened on
/// line `line`.
pub open spec fn unmatched_text(line: nat) -> Seq<char> {
    "mismatched '\"' starting at line "@ + decimal(line)
}

/// The description of a number above `i64::MAX` that is written `digits`
/// on line `line`.
pub open spec fn overflow_text(digits: Seq<char>, line: nat) -> Seq<char> {
    "'"@ + digits + "' at line "@ + decimal(line) + " is too big"@
}

/// The error for the unit at fault that starts at `p` on line `line`.
pub open spec fn fault_report(s: Seq<char>, p: int, line: nat) -> LexerErrorView
    recommends
        0 <= p < s.len(),
        unit_fault(s, p) is Some,
{
    if s[p] == '"' {
        LexerErrorView {
            kind: LexerErrorKind::UnmatchedToken,
            desc: Some(unmatched_text(line)),
        }
    } else {
        LexerErrorView {
            kind: LexerErrorKind::IntegerOverflow,
            desc: Some(overflow_text(s.subrange(p, unit_end(s, p)), line)),
        }
    }
}

/// The error that says that nothing but blanks is left.
pub open spec fn end_of_data() -> LexerErrorView {
    LexerErrorView { kind: LexerErrorKind::EndOfData, desc: None }
}

/// The positions at which the units of `s` from `i` on start, in order.
pub open spec fn unit_starts(s: Seq<char>, i: int) -> Seq<int>
    decreases s.len() - i,
    when 0 <= i
    via unit_starts_decreases
{
    let p = blanks_end(s, i);
    if p >= s.len() {
        Seq::empty()
    } else {
        seq![p] + unit_starts(s, unit_end(s, p))
    }
}

#[via_fn]
proof fn unit_starts_decreases(s: Seq<char>, i: int) {
    let p = blanks_end(s, i);
    if i <= s.len() {
        lemma_run_end(s, i, |ch: char| is_blank(ch));
    }
    if p < s.len() {
        lemma_unit_end(s, p);
    }
}

/// The units of `s`: where each one starts.
pub open spec fn units(s: Seq<char>) -> Seq<int> {
    unit_starts(s, 0)
}

/// How many of the first `k` units are line breaks.
pub open spec fn newlines_among(s: Seq<char>, starts: Seq<int>, k: int) -> nat
    decreases k,
{
    if k <= 0 {
        0
    } else {
        newlines_among(s, starts, k - 1) + if s[starts[k - 1]] == '\n' {
            1nat
        } else {
            0nat
        }
    }
}

/// The line on which the unit of index `k` starts. Lines are counted from
/// one, and a new one starts after each line break that is a unit of its
/// own.
pub open spec fn line_of(s: Seq<char>, starts: Seq<int>, k: int) -> nat {
    1 + newlines_among(s, starts, k)
}

/// Whether none of the first `k` units is at fault.
pub open spec fn sound_before(s: Seq<char>, starts: Seq<int>, k: int) -> bool {
    forall|j: int| 0 <= j < k ==> (#[trigger] unit_fault(s, starts[j])) is None
}

/// Whether the unit of index `k` is the first one at fault.
pub open spec fn first_fault(s: Seq<char>, starts: Seq<int>, k: int) -> bool {
    &&& 0 <= k < starts.len()
    &&& sound_before(s, starts, k)
    &&& unit_fault(s, starts[k]) is Some
}

/// Whether no unit of `s` is at fault.
pub open spec fn well_formed(s: Seq<char>) -> bool {
    sound_before(s, units(s), units(s).len() as int)
}

/// The tokens of the units of `s`, in order.
pub open spec fn unit_tokens(s: Seq<char>) -> Seq<TokenView> {
    Seq::new(units(s).len(), |k: int| unit_token(s, units(s)[k]))
}

/// What scanning `s` gives: the tokens of its units where none is at fault,
/// else the error for the first unit at fault.
pub open spec fn lex(s: Seq<char>) -> Result<Seq<TokenView>, LexerErrorView> {
    let starts = units(s);
    if well_formed(s) {
        Ok(unit_tokens(s))
    } else {
        let k = choose|k: int| first_fault(s, starts, k);
        Err(fault_report(s, starts[k], line_of(s, starts, k)))
    }
}

/// A run ends inside the text, holds only members, and cannot be made
/// longer.
pub proof fn lemma_run_end(s: Seq<char>, i: int, member: spec_fn(char) -> bool)
    requires
        0 <= i <= s.len(),
    ensures
        i <= run_end(s, i, member) <= s.len(),
        forall|k: int| i <= k < run_end(s, i, member) ==> member(#[trigger] s[k]),
        run_end(s, i, member) < s.len() ==> !member(s[run_end(s, i, member)]),
    decreases s.len() - i,
{
    if i < s.len() && member(s[i]) {
        lemma_run_end(s, i + 1, member);
    }
}

/// A position is the end of the run from `i` if only members stand before
/// it and none stands at it.
pub proof fn lemma_run_end_is(s: Seq<char>, i: int, end: int, member: spec_fn(char) -> bool)
    requires
        0 <= i <= end <= s.len(),
        forall|k: int| i <= k < end ==> member(#[trigger] s[k]),
        end < s.len() ==> !member(s[end]),
    ensures
        run_end(s, i, member) == end,
    decreases end - i,
{
    if i < end {
        lemma_run_end_is(s, i + 1, end, member);
    }
}

/// The first closing quote from `j` on is a closing quote, and none stands
/// between `j` and it; where there is none, no closing quote stands from
/// `j` on.
pub proof fn lemma_first_close(s: Seq<char>, j: int)
    requires
        0 <= j,
    ensures
        match first_close(s, j) {
            Some(c) => j <= c < s.len() && closes(s, c) && forall|k: int|
                j <= k < c ==> !closes(s, k),
            None => forall|k: int| j <= k ==> !closes(s, k),
        },
    decreases s.len() - j,
{
    if j < s.len() && !closes(s, j) {
        lemma_first_close(s, j + 1);
    }
}

/// Every unit holds at least one character and ends inside the text.
pub proof fn lemma_unit_end(s: Seq<char>, p: int)
    requires
        0 <= p < s.len(),
    ensures
        p < unit_end(s, p) <= s.len(),
{
    lemma_first_close(s, p + 1);
    lemma_run_end(s, p, |ch: char| is_digit(ch));
    lemma_run_end(s, p + 1, |ch: char| !ends_word(ch));
}

/// The digits before a longer numeral write no more than the numeral.
pub proof fn lemma_decimal_value_grows(digits: Seq<char>, n: int)
    requires
        0 <= n <= digits.len(),
    ensures
        decimal_value(digits.take(n)) <= decimal_value(digits),
    decreases digits.len() - n,
{
    if n < digits.len() {
        assert(digits.drop_last().take(n) == digits.take(n));
        lemma_decimal_value_grows(digits.drop_last(), n);
    } else {
        assert(digits.take(n) == digits);
    }
}

/// At most one unit is the first one at fault.
pub proof fn lemma_first_fault_unique(s: Seq<char>, starts: Seq<int>, a: int, b: int)
    requires
        first_fault(s, starts, a),
        first_fault(s, starts, b),
    ensures
        a == b,
{
    if a < b {
        assert(unit_fault(s, starts[a]) is None);
    }
    if b < a {
        assert(unit_fault(s, starts[b]) is None);
    }
}

/// No word is a line break.
pub proof fn lemma_word_is_no_newline(word: Seq<char>)
    ensures
        word_token(word) != TokenView::Newline,
{
}

} // verus!
