//! What holds of every text: laws of the grammar, proved once.

use crate::error::{LexerErrorKind, LexerErrorView};
use crate::grammar::{
    blanks_end, ends_word, first_fault, is_blank, is_digit, lemma_run_end, lemma_run_end_is,
    lemma_unit_end, lex, punctuation, reserved, sound_before, starts_symbol, unit_end,
    unit_fault, unit_starts, unit_token, unit_tokens, units, well_formed, word_end,
    word_token,
};
use crate::token::TokenView;
use vstd::prelude::*;

verus! {

/// A text none of whose units is at fault scans to one token for each of
/// its units, in their order: as many tokens as there are words, numbers,
/// string literals, punctuation marks and line breaks in it.
pub proof fn lemma_well_formed_text_scans(s: Seq<char>)
    requires
        well_formed(s),
    ensures
        lex(s) is Ok,
        lex(s)->Ok_0.len() == units(s).len(),
        forall|k: int|
            0 <= k < units(s).len() ==> (#[trigger] lex(s)->Ok_0[k]) == unit_token(
                s,
                units(s)[k],
            ),
{
}

/// A text fails to scan exactly when one of its units is at fault, and the
/// error is then of kind `UnmatchedToken` or `IntegerOverflow`, with a
/// description: running out of text is never an error of the whole scan.
pub proof fn lemma_failure_is_a_fault(s: Seq<char>)
    ensures
        lex(s) is Err <==> exists|k: int| first_fault(s, units(s), k),
        lex(s) is Err ==> {
            let error = lex(s)->Err_0;
            &&& error.kind != LexerErrorKind::EndOfData
            &&& error.desc is Some
        },
{
    let starts = units(s);
    if !well_formed(s) {
        lemma_some_fault_is_first(s, starts, starts.len() as int);
    } else {
        assert forall|k: int| !first_fault(s, starts, k) by {
            if 0 <= k < starts.len() {
                assert(unit_fault(s, starts[k]) is None);
            }
        }
    }
}

/// Where one of the first `n` units is at fault, one of them is the first
/// at fault.
proof fn lemma_some_fault_is_first(s: Seq<char>, starts: Seq<int>, n: int)
    requires
        0 <= n <= starts.len(),
        !sound_before(s, starts, n),
    ensures
        exists|k: int| first_fault(s, starts, k),
    decreases n,
{
    if n > 0 {
        if sound_before(s, starts, n - 1) {
            assert(unit_fault(s, starts[n - 1]) is Some);
            assert(first_fault(s, starts, n - 1));
        } else {
            lemma_some_fault_is_first(s, starts, n - 1);
        }
    }
}

/// The units lie in the text in order, and nothing but blanks lies outside
/// them: the first unit starts where the leading blanks end, each further
/// one where the blanks behind the unit before it end, and behind the last
/// unit only blanks are left. No unit starts with a blank.
pub proof fn lemma_units_tile(s: Seq<char>, i: int)
    requires
        0 <= i <= s.len(),
    ensures
        ({
            let starts = unit_starts(s, i);
            &&& forall|k: int|
                0 <= k < starts.len() ==> i <= (#[trigger] starts[k]) < s.len() && !is_blank(
                    s[starts[k]],
                )
            &&& forall|k: int|
                0 <= k < starts.len() - 1 ==> (#[trigger] starts[k + 1]) == blanks_end(
                    s,
                    unit_end(s, starts[k]),
                )
            &&& if starts.len() == 0 {
                blanks_end(s, i) == s.len()
            } else {
                &&& starts[0] == blanks_end(s, i)
                &&& blanks_end(s, unit_end(s, starts.last())) == s.len()
            }
        }),
    decreases s.len() - i,
{
    let p = blanks_end(s, i);
    lemma_run_end(s, i, |ch: char| is_blank(ch));
    if p < s.len() {
        lemma_unit_end(s, p);
        let next = unit_end(s, p);
        lemma_units_tile(s, next);
        let rest = unit_starts(s, next);
        let starts = unit_starts(s, i);
        assert(starts == seq![p] + rest);
        assert forall|k: int| 0 <= k < starts.len() - 1 implies (#[trigger] starts[k + 1])
            == blanks_end(s, unit_end(s, starts[k])) by {
            if k > 0 {
                assert(starts[k] == rest[k - 1]);
                assert(starts[k + 1] == rest[k - 1 + 1]);
            } else {
                assert(starts[1] == rest[0]);
            }
        }
        assert forall|k: int| 0 <= k < starts.len() implies i <= (#[trigger] starts[k])
            < s.len() && !is_blank(s[starts[k]]) by {
            if k > 0 {
                assert(starts[k] == rest[k - 1]);
            }
        }
        if rest.len() > 0 {
            assert(starts.last() == rest.last());
        }
    }
}

/// Each reserved word has its own token, and no reserved word is an
/// identifier: a word is an identifier exactly when it is not reserved, and
/// then the identifier is the word itself.
pub proof fn lemma_reserved_words(word: Seq<char>)
    ensures
        word == "if"@ ==> word_token(word) == TokenView::If,
        word == "loop"@ ==> word_token(word) == TokenView::Loop,
        word == "break"@ ==> word_token(word) == TokenView::Break,
        word == "continue"@ ==> word_token(word) == TokenView::Continue,
        word == "let"@ ==> word_token(word) == TokenView::Let,
        word == "fn"@ ==> word_token(word) == TokenView::Fn,
        word == "macro"@ ==> word_token(word) == TokenView::Macro,
        word == "true"@ ==> word_token(word) == TokenView::Bool(true),
        word == "false"@ ==> word_token(word) == TokenView::Bool(false),
        word_token(word) is Ident <==> reserved(word) is None,
        word_token(word) is Ident ==> word_token(word) == TokenView::Ident(word),
{
    reveal_strlit("if");
    reveal_strlit("loop");
    reveal_strlit("break");
    reveal_strlit("continue");
    reveal_strlit("let");
    reveal_strlit("fn");
    reveal_strlit("macro");
    reveal_strlit("true");
    reveal_strlit("false");
    assert("if"@.len() == 2 && "if"@[0] == 'i');
    assert("loop"@.len() == 4 && "loop"@[0] == 'l');
    assert("break"@.len() == 5 && "break"@[0] == 'b');
    assert("continue"@.len() == 8);
    assert("let"@.len() == 3);
    assert("fn"@.len() == 2 && "fn"@[0] == 'f');
    assert("macro"@.len() == 5 && "macro"@[0] == 'm');
    assert("true"@.len() == 4 && "true"@[0] == 't');
    assert("false"@.len() == 5 && "false"@[0] == 'f');
}

/// A text that is one word scans to the token of that word: the reserved
/// token where the word is reserved, else the identifier. A word here is a
/// text that is not empty, does not start with a digit and holds no blank
/// and no character that starts a symbol.
pub proof fn lemma_lone_word(word: Seq<char>)
    requires
        word.len() > 0,
        !is_digit(word[0]),
        forall|k: int| 0 <= k < word.len() ==> !ends_word(#[trigger] word[k]),
    ensures
        lex(word) == Ok::<Seq<TokenView>, LexerErrorView>(seq![word_token(word)]),
{
    let len = word.len() as int;
    lemma_run_end_is(word, 0, 0, |ch: char| is_blank(ch));
    lemma_run_end_is(word, 1, len, |ch: char| !ends_word(ch));
    assert(unit_end(word, 0) == len);
    lemma_run_end_is(word, len, len, |ch: char| is_blank(ch));
    assert(unit_starts(word, len) == Seq::<int>::empty());
    assert(units(word) == seq![0int]);
    assert(word.subrange(0, len) == word);
    assert(unit_fault(word, 0) is None);
    assert(well_formed(word));
    assert(unit_tokens(word) == seq![word_token(word)]);
}

/// A symbol wins: where a punctuation mark or a line break stands at the
/// start of a unit, the unit is that one character and its token is the
/// symbol's; where a quote stands there, the unit is a string literal.
pub proof fn lemma_symbol_wins(s: Seq<char>, p: int)
    requires
        0 <= p < s.len(),
        starts_symbol(s[p]),
    ensures
        punctuation(s[p]) is Some ==> unit_token(s, p) == punctuation(s[p])->0 && unit_end(s, p)
            == p + 1 && unit_fault(s, p) is None,
        s[p] == '"' ==> unit_token(s, p) is Str,
        !(unit_token(s, p) is Ident),
        !(unit_token(s, p) is Int),
{
}

/// A word holds no punctuation mark, no line break, no quote and no blank:
/// it ends before the first of them. So does a number.
pub proof fn lemma_word_holds_no_symbol(s: Seq<char>, p: int)
    requires
        0 <= p < s.len(),
        !is_blank(s[p]),
        !starts_symbol(s[p]),
    ensures
        forall|k: int| p <= k < unit_end(s, p) ==> !ends_word(#[trigger] s[k]),
        unit_end(s, p) < s.len() && !is_digit(s[p]) ==> ends_word(s[unit_end(s, p)]),
{
    if is_digit(s[p]) {
        lemma_run_end(s, p, |ch: char| is_digit(ch));
    } else {
        lemma_run_end(s, p + 1, |ch: char| !ends_word(ch));
        assert(unit_end(s, p) == word_end(s, p));
    }
}

} // verus!
