//! Writing tokens back as source text, and the proof that scanning what
//! was written gives the tokens back.

use crate::error::LexerErrorView;
use crate::grammar::{
    backslashes_before, blanks_end, closes, closing_quote, decimal_value, digit_value,
    ends_word, first_close, is_blank, is_digit, lemma_first_close, lemma_run_end,
    lemma_run_end_is, lemma_unit_end, lex, punctuation, reserved, run_end, unit_end,
    unit_fault, unit_starts, unit_token, unit_tokens, units, well_formed, word_token,
};
use crate::laws::{lemma_reserved_words, lemma_units_tile};
use crate::text::{decimal, digit_char};
use crate::token::TokenView;
use vstd::prelude::*;

verus! {

/// How a token is written in source text: a reserved word or a mark as
/// itself, a string literal and an identifier as they were read, a number
/// in base ten without leading zeros.
pub open spec fn token_text(token: TokenView) -> Seq<char> {
    match token {
        TokenView::If => "if"@,
        TokenView::Loop => "loop"@,
        TokenView::Break => "break"@,
        TokenView::Continue => "continue"@,
        TokenView::Let => "let"@,
        TokenView::LParen => seq!['('],
        TokenView::RParen => seq![')'],
        TokenView::LBrace => seq!['{'],
        TokenView::RBrace => seq!['}'],
        TokenView::Fn => "fn"@,
        TokenView::Macro => "macro"@,
        TokenView::Plus => seq!['+'],
        TokenView::Minus => seq!['-'],
        TokenView::Times => seq!['*'],
        TokenView::Divide => seq!['/'],
        TokenView::Equal => seq!['='],
        TokenView::Less => seq!['<'],
        TokenView::Great => seq!['>'],
        TokenView::Period => seq!['.'],
        TokenView::Comma => seq![','],
        TokenView::Newline => seq!['\n'],
        TokenView::Str(text) => text,
        TokenView::Int(value) => decimal(value as nat),
        TokenView::Bool(value) => if value {
            "true"@
        } else {
            "false"@
        },
        TokenView::Ident(text) => text,
    }
}

/// The source text of a sequence of tokens: each token as it is written,
/// with one space behind it.
pub open spec fn source_of(tokens: Seq<TokenView>) -> Seq<char>
    decreases tokens.len(),
{
    if tokens.len() == 0 {
        Seq::empty()
    } else {
        token_text(tokens[0]) + seq![' '] + source_of(tokens.drop_first())
    }
}

/// Whether `word` can be read as one word: it is not empty, does not start
/// with a digit, and holds no blank and no start of a symbol.
pub open spec fn is_word(word: Seq<char>) -> bool {
    &&& word.len() > 0
    &&& !is_digit(word[0])
    &&& forall|k: int| 0 <= k < word.len() ==> !ends_word(#[trigger] word[k])
}

/// Whether scanning can give this token: a string literal is one literal
/// from its opening to its closing quote, a number is not negative, an
/// identifier is a word that is not reserved.
pub open spec fn scannable(token: TokenView) -> bool {
    match token {
        TokenView::Str(text) => {
            &&& text.len() >= 2
            &&& text[0] == '"'
            &&& closing_quote(text, 0) == Some(text.len() - 1)
        },
        TokenView::Int(value) => value >= 0,
        TokenView::Ident(text) => is_word(text) && reserved(text) is None,
        _ => true,
    }
}

/// The numeral of a number is made of digits and writes that number.
pub proof fn lemma_decimal(n: nat)
    ensures
        decimal(n).len() > 0,
        forall|k: int| 0 <= k < decimal(n).len() ==> is_digit(#[trigger] decimal(n)[k]),
        decimal_value(decimal(n)) == n,
    decreases n,
{
    let d = if n < 10 {
        n
    } else {
        n % 10
    };
    assert(is_digit(digit_char(d)) && digit_value(digit_char(d)) == d);
    if n < 10 {
        assert(decimal(n).drop_last() == Seq::<char>::empty());
        assert(decimal_value(decimal(n).drop_last()) == 0);
    } else {
        lemma_decimal(n / 10);
        assert(decimal(n).drop_last() == decimal(n / 10));
    }
}

/// The backslashes in a row before a position are the same in two texts
/// that agree from a character that is no backslash up to that position.
pub proof fn lemma_backslashes_agree(a: Seq<char>, b: Seq<char>, shift: int, anchor: int, k: int)
    requires
        0 <= anchor < k <= b.len(),
        0 <= shift,
        shift + k <= a.len(),
        b[anchor] != '\\',
        forall|i: int| anchor <= i < k ==> a[shift + i] == b[i],
    ensures
        backslashes_before(a, shift + k) == backslashes_before(b, k),
    decreases k,
{
    if b[k - 1] == '\\' {
        lemma_backslashes_agree(a, b, shift, anchor, k - 1);
    }
}

/// A closing quote with none between `j` and it is the first from `j` on.
pub proof fn lemma_first_close_is(s: Seq<char>, j: int, close: int)
    requires
        0 <= j <= close,
        closes(s, close),
        forall|k: int| j <= k < close ==> !closes(s, k),
    ensures
        first_close(s, j) == Some(close),
    decreases close - j,
{
    if j < close {
        lemma_first_close_is(s, j + 1, close);
    }
}

/// The token of a unit that is not at fault is one that scanning can give.
pub proof fn lemma_unit_token_scannable(s: Seq<char>, p: int)
    requires
        0 <= p < s.len(),
        !is_blank(s[p]),
        unit_fault(s, p) is None,
    ensures
        scannable(unit_token(s, p)),
{
    lemma_unit_end(s, p);
    let end = unit_end(s, p);
    let text = s.subrange(p, end);
    if s[p] == '"' {
        lemma_first_close(s, p + 1);
        let close = closing_quote(s, p)->0;
        assert forall|k: int| 1 <= k < text.len() implies closes(text, k) == closes(
            s,
            p + k,
        ) by {
            lemma_backslashes_agree(s, text, p, 0, k);
        }
        lemma_first_close_is(text, 1, close - p);
    } else if punctuation(s[p]) is Some {
    } else if is_digit(s[p]) {
    } else {
        lemma_run_end(s, p + 1, |ch: char| !ends_word(ch));
        assert(text[0] == s[p]);
        assert forall|k: int| 0 <= k < text.len() implies !ends_word(#[trigger] text[k]) by {
            assert(text[k] == s[p + k]);
        }
        assert(is_word(text));
    }
}

/// Each reserved word can be read as one word.
pub proof fn lemma_reserved_are_words()
    ensures
        is_word("if"@),
        is_word("loop"@),
        is_word("break"@),
        is_word("continue"@),
        is_word("let"@),
        is_word("fn"@),
        is_word("macro"@),
        is_word("true"@),
        is_word("false"@),
{
    reveal_strlit("if");
    reveal_strlit("loop");
    reveal_strlit("break");
    reveal_strlit("continue");
    reveal_strlit("let");
    reveal_strlit("fn");
    reveal_strlit("macro");
    reveal_strlit("true");
    reveal_strlit("false");
    assert("if"@ == seq!['i', 'f']);
    assert("loop"@ == seq!['l', 'o', 'o', 'p']);
    assert("break"@ == seq!['b', 'r', 'e', 'a', 'k']);
    assert("continue"@ == seq!['c', 'o', 'n', 't', 'i', 'n', 'u', 'e']);
    assert("let"@ == seq!['l', 'e', 't']);
    assert("fn"@ == seq!['f', 'n']);
    assert("macro"@ == seq!['m', 'a', 'c', 'r', 'o']);
    assert("true"@ == seq!['t', 'r', 'u', 'e']);
    assert("false"@ == seq!['f', 'a', 'l', 's', 'e']);
}

/// A word with a space behind it is read as that word, whatever follows.
pub proof fn lemma_word_head(word: Seq<char>, rest: Seq<char>)
    requires
        is_word(word),
    ensures
        ({
            let x = word + seq![' '] + rest;
            &&& unit_fault(x, 0) is None
            &&& unit_token(x, 0) == word_token(word)
            &&& unit_end(x, 0) == word.len()
        }),
{
    let x = word + seq![' '] + rest;
    let n = word.len() as int;
    assert(x[0] == word[0]);
    assert(!ends_word(word[0]));
    assert(x[n] == ' ');
    assert forall|k: int| 1 <= k < n implies !ends_word(#[trigger] x[k]) by {
        assert(x[k] == word[k]);
    }
    lemma_run_end_is(x, 1, n, |ch: char| !ends_word(ch));
    assert(x.subrange(0, n) == word);
}

/// A token that scanning can give, written with a space behind it, is read
/// as that token, whatever follows.
pub proof fn lemma_head_unit(token: TokenView, rest: Seq<char>)
    requires
        scannable(token),
    ensures
        ({
            let text = token_text(token);
            let x = text + seq![' '] + rest;
            &&& text.len() > 0
            &&& !is_blank(x[0])
            &&& unit_fault(x, 0) is None
            &&& unit_token(x, 0) == token
            &&& unit_end(x, 0) == text.len()
        }),
{
    let text = token_text(token);
    let x = text + seq![' '] + rest;
    let n = text.len() as int;
    match token {
        TokenView::If
        | TokenView::Loop
        | TokenView::Break
        | TokenView::Continue
        | TokenView::Let
        | TokenView::Fn
        | TokenView::Macro
        | TokenView::Bool(_)
        | TokenView::Ident(_) => {
            lemma_reserved_are_words();
            lemma_reserved_words(text);
            lemma_word_head(text, rest);
            assert(x[0] == text[0]);
            assert(!ends_word(text[0]));
        },
        TokenView::Str(_) => {
            assert(x[0] == '"');
            assert(x[n] == ' ');
            lemma_first_close(text, 1);
            assert forall|k: int| 1 <= k < n implies closes(x, k) == closes(text, k) by {
                lemma_backslashes_agree(x, text, 0, 0, k);
                assert(x[k] == text[k]);
            }
            lemma_first_close_is(x, 1, n - 1);
            assert(x.subrange(0, n) == text);
        },
        TokenView::Int(value) => {
            lemma_decimal(value as nat);
            assert(x[0] == text[0]);
            assert(is_digit(text[0]));
            assert(x[n] == ' ');
            assert forall|k: int| 0 <= k < n implies is_digit(#[trigger] x[k]) by {
                assert(x[k] == text[k]);
            }
            lemma_run_end_is(x, 0, n, |ch: char| is_digit(ch));
            assert(x.subrange(0, n) == text);
        },
        _ => {
            assert(x[0] == text[0]);
        },
    }
}

/// The positions `starts`, each moved `by` characters to the right.
pub open spec fn moved(starts: Seq<int>, by: int) -> Seq<int> {
    Seq::new(starts.len(), |k: int| starts[k] + by)
}

/// A run in a text with something written before it ends where it ended
/// without, moved by the length of what was written before.
pub proof fn lemma_run_end_moves(
    before: Seq<char>,
    s: Seq<char>,
    i: int,
    member: spec_fn(char) -> bool,
)
    requires
        0 <= i <= s.len(),
    ensures
        run_end(before + s, before.len() + i, member) == before.len() + run_end(s, i, member),
    decreases s.len() - i,
{
    if i < s.len() {
        assert((before + s)[before.len() + i] == s[i]);
        if member(s[i]) {
            lemma_run_end_moves(before, s, i + 1, member);
        }
    }
}

/// The first closing quote behind an opening quote at `open` is the same
/// one with something written before the text.
pub proof fn lemma_first_close_moves(before: Seq<char>, s: Seq<char>, open: int, j: int)
    requires
        0 <= open < j,
        open < s.len(),
        s[open] != '\\',
    ensures
        first_close(before + s, before.len() + j) == match first_close(s, j) {
            Some(close) => Some(before.len() + close),
            None => None,
        },
    decreases s.len() - j,
{
    if j < s.len() {
        lemma_backslashes_agree(before + s, s, before.len() as int, open, j);
        assert((before + s)[before.len() + j] == s[j]);
        if !closes(s, j) {
            lemma_first_close_moves(before, s, open, j + 1);
        }
    }
}

/// A unit is the same unit with something written before the text: it has
/// the same token, the same fault, and its end has moved with it.
pub proof fn lemma_unit_moves(before: Seq<char>, s: Seq<char>, p: int)
    requires
        0 <= p < s.len(),
    ensures
        unit_end(before + s, before.len() + p) == before.len() + unit_end(s, p),
        unit_fault(before + s, before.len() + p) == unit_fault(s, p),
        unit_token(before + s, before.len() + p) == unit_token(s, p),
{
    let x = before + s;
    let d = before.len() as int;
    assert(x[d + p] == s[p]);
    lemma_unit_end(s, p);
    if s[p] == '"' {
        lemma_first_close_moves(before, s, p, p + 1);
    }
    lemma_run_end_moves(before, s, p, |ch: char| is_digit(ch));
    lemma_run_end_moves(before, s, p + 1, |ch: char| !ends_word(ch));
    assert(x.subrange(d + p, d + unit_end(s, p)) == s.subrange(p, unit_end(s, p)));
}

/// The units of a text are the same units with something written before
/// the text, each moved by the length of what was written before.
pub proof fn lemma_unit_starts_move(before: Seq<char>, s: Seq<char>, i: int)
    requires
        0 <= i <= s.len(),
    ensures
        unit_starts(before + s, before.len() + i) == moved(
            unit_starts(s, i),
            before.len() as int,
        ),
    decreases s.len() - i,
{
    let x = before + s;
    let d = before.len() as int;
    let p = blanks_end(s, i);
    lemma_run_end(s, i, |ch: char| is_blank(ch));
    lemma_run_end_moves(before, s, i, |ch: char| is_blank(ch));
    if p < s.len() {
        lemma_unit_end(s, p);
        lemma_unit_moves(before, s, p);
        lemma_unit_starts_move(before, s, unit_end(s, p));
        assert(unit_starts(x, d + i) == seq![d + p] + unit_starts(x, d + unit_end(s, p)));
        assert(unit_starts(s, i) == seq![p] + unit_starts(s, unit_end(s, p)));
        assert(seq![d + p] + moved(unit_starts(s, unit_end(s, p)), d) == moved(
            unit_starts(s, i),
            d,
        ));
    } else {
        assert(unit_starts(x, d + i) == Seq::<int>::empty());
        assert(moved(unit_starts(s, i), d) == Seq::<int>::empty());
    }
}

/// Scanning the source text of tokens that scanning can give succeeds and
/// gives exactly those tokens.
pub proof fn lemma_source_scans(tokens: Seq<TokenView>)
    requires
        forall|k: int| 0 <= k < tokens.len() ==> scannable(#[trigger] tokens[k]),
    ensures
        lex(source_of(tokens)) == Ok::<Seq<TokenView>, LexerErrorView>(tokens),
    decreases tokens.len(),
{
    let x = source_of(tokens);
    if tokens.len() == 0 {
        assert(units(x) == Seq::<int>::empty());
        assert(unit_tokens(x) == tokens);
    } else {
        let first = tokens[0];
        let others = tokens.drop_first();
        let rest = source_of(others);
        let text = token_text(first);
        let before = text + seq![' '];
        let d = before.len() as int;
        assert forall|k: int| 0 <= k < others.len() implies scannable(#[trigger] others[k]) by {
            assert(others[k] == tokens[k + 1]);
        }
        lemma_source_scans(others);
        assert(well_formed(rest));
        assert(unit_tokens(rest) == others);
        assert(x == before + rest);
        lemma_head_unit(first, rest);
        assert(blanks_end(x, 0) == 0);
        assert(x[d - 1] == ' ');
        assert(blanks_end(x, d - 1) == blanks_end(x, d));
        assert(unit_starts(x, d - 1) == unit_starts(x, d));
        lemma_unit_starts_move(before, rest, 0);
        lemma_units_tile(rest, 0);
        let starts = units(x);
        assert(starts == seq![0int] + moved(units(rest), d));
        assert forall|j: int| 0 <= j < starts.len() implies (#[trigger] unit_fault(
            x,
            starts[j],
        )) is None && unit_token(x, starts[j]) == tokens[j] by {
            if j > 0 {
                let q = units(rest)[j - 1];
                assert(starts[j] == d + q);
                lemma_unit_moves(before, rest, q);
                assert(unit_fault(rest, q) is None);
                assert(unit_token(rest, q) == unit_tokens(rest)[j - 1]);
                assert(others[j - 1] == tokens[j]);
            }
        }
        assert(well_formed(x));
        assert(units(rest).len() == unit_tokens(rest).len());
        assert(starts.len() == tokens.len());
        assert forall|j: int| 0 <= j < tokens.len() implies unit_tokens(x)[j] == tokens[j] by {
            assert(unit_fault(x, starts[j]) is None);
        }
        assert(unit_tokens(x) == tokens);
    }
}

/// Scanning is stable under writing the tokens back: where a text scans,
/// the source text of its tokens scans to the same tokens, kinds and
/// values alike.
pub proof fn lemma_round_trip(s: Seq<char>)
    requires
        lex(s) is Ok,
    ensures
        lex(source_of(lex(s)->Ok_0)) == lex(s),
{
    let tokens = unit_tokens(s);
    lemma_units_tile(s, 0);
    assert forall|k: int| 0 <= k < tokens.len() implies scannable(#[trigger] tokens[k]) by {
        let p = units(s)[k];
        assert(unit_fault(s, p) is None);
        lemma_unit_token_scannable(s, p);
    }
    lemma_source_scans(tokens);
}

} // verus!
