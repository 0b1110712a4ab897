//! What can go wrong while scanning, and the text that reports it.

use vstd::prelude::*;

verus! {

/// Why a scanning step produced no token.
#[derive(Debug, Clone, Copy, PartialEq, Eq, Structural)]
pub enum LexerErrorKind {
    /// Nothing but blanks is left. This ends a scan; it is no failure.
    EndOfData,
    /// A string literal is opened and never closed.
    UnmatchedToken,
    /// A run of digits stands for a number above `i64::MAX`.
    IntegerOverflow,
}

/// A kind of failure with an optional description for a human reader.
#[derive(Debug, Clone, PartialEq, Eq)]
pub struct LexerError {
    kind: LexerErrorKind,
    desc: Option<String>,
}

/// What a [`LexerError`] is in contracts.
pub ghost struct LexerErrorView {
    pub kind: LexerErrorKind,
    pub desc: Option<Seq<char>>,
}

impl View for LexerError {
    type V = LexerErrorView;

    closed spec fn view(&self) -> LexerErrorView {
        LexerErrorView {
            kind: self.kind,
            desc: match self.desc {
                Some(text) => Some(text@),
                None => None,
            },
        }
    }
}

/// The characters of an optional description.
pub open spec fn desc_view(desc: Option<String>) -> Option<Seq<char>> {
    match desc {
        Some(text) => Some(text@),
        None => None,
    }
}

impl LexerError {
    /// An error of the given kind with the given description.
    pub fn new(kind: LexerErrorKind, desc: Option<String>) -> (error: LexerError)
        ensures
            error@ == (LexerErrorView { kind, desc: desc_view(desc) }),
    {
        LexerError { kind, desc }
    }

    /// The kind of this error.
    pub fn kind(&self) -> (kind: LexerErrorKind)
        ensures
            kind == self@.kind,
    {
        self.kind
    }

    /// The description, where there is one.
    pub fn desc(&self) -> (desc: Option<&String>)
        ensures
            match desc {
                Some(text) => self@.desc == Some(text@),
                None => self@.desc is None,
            },
    {
        self.desc.as_ref()
    }

    /// The text to show for this error: the description, or nothing where
    /// there is none.
    pub fn message(&self) -> (text: String)
        ensures
            text@ == match self@.desc {
                Some(desc) => desc,
                None => Seq::<char>::empty(),
            },
    {
        match &self.desc {
            Some(desc) => desc.clone(),
            None => String::new(),
        }
    }
}

} // verus!
