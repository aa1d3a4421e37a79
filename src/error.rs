//! Diagnostics and failures, and the text they read as.

use vstd::prelude::*;
use vstd::string::StringExecFns;

verus! {

/// Diagnostics of the resolver. Locations are source identities.
#[derive(Debug)]
pub enum ParseError {
    BadSource(String),
    NoProgram(String),
    RuleMismatch { expected: String, found: String },
    UnknownAtom(String),
    Redeclared { symbol: String, original: String, conflict: String },
    Redefined { symbol: String, original: String, conflict: String },
    UndeclaredSymbol(String),
    UndefinedSymbol(String),
}

/// What a diagnostic says, with its texts as character sequences.
pub enum ParseErrorView {
    BadSource(Seq<char>),
    NoProgram(Seq<char>),
    RuleMismatch { expected: Seq<char>, found: Seq<char> },
    UnknownAtom(Seq<char>),
    Redeclared { symbol: Seq<char>, original: Seq<char>, conflict: Seq<char> },
    Redefined { symbol: Seq<char>, original: Seq<char>, conflict: Seq<char> },
    UndeclaredSymbol(Seq<char>),
    UndefinedSymbol(Seq<char>),
}

impl View for ParseError {
    type V = ParseErrorView;

    open spec fn view(&self) -> ParseErrorView {
        match self {
            ParseError::BadSource(p) => ParseErrorView::BadSource(p@),
            ParseError::NoProgram(p) => ParseErrorView::NoProgram(p@),
            ParseError::RuleMismatch { expected, found } => ParseErrorView::RuleMismatch {
                expected: expected@,
                found: found@,
            },
            ParseError::UnknownAtom(s) => ParseErrorView::UnknownAtom(s@),
            ParseError::Redeclared { symbol, original, conflict } => ParseErrorView::Redeclared {
                symbol: symbol@,
                original: original@,
                conflict: conflict@,
            },
            ParseError::Redefined { symbol, original, conflict } => ParseErrorView::Redefined {
                symbol: symbol@,
                original: original@,
                conflict: conflict@,
            },
            ParseError::UndeclaredSymbol(s) => ParseErrorView::UndeclaredSymbol(s@),
            ParseError::UndefinedSymbol(s) => ParseErrorView::UndefinedSymbol(s@),
        }
    }
}

/// The message that a diagnostic reads as.
pub open spec fn parse_message(e: ParseErrorView) -> Seq<char> {
    match e {
        ParseErrorView::BadSource(p) => "Error accessing: \""@ + p + "\""@,
        ParseErrorView::NoProgram(p) => "An incorrect program in the file: \""@ + p + "\"."@,
        ParseErrorView::RuleMismatch { expected, found } => "Expected: "@ + expected
            + " and found: "@ + found,
        ParseErrorView::UnknownAtom(s) => "Unknown atom: \""@ + s + "\""@,
        ParseErrorView::Redeclared { symbol, original, conflict } => "'"@ + symbol
            + "' has more than one declaration at \""@ + original + "\" and \""@ + conflict
            + "\""@,
        ParseErrorView::Redefined { symbol, original, conflict } => "'"@ + symbol
            + "' has more than one definition at \""@ + original + "\" and \""@ + conflict
            + "\""@,
        ParseErrorView::UndeclaredSymbol(s) => "Symbol "@ + s + " is not declared"@,
        ParseErrorView::UndefinedSymbol(s) => "Symbol "@ + s + " is declared but not defined"@,
    }
}

/// `pieces` joined into one string.
fn join(pieces: &[&str]) -> (r: String)
    ensures
        r@ == pieces@.fold_left(Seq::<char>::empty(), |acc: Seq<char>, p: &str| acc + p@),
{
    let mut r = String::new();
    let mut i: usize = 0;
    while i < pieces.len()
        invariant
            i <= pieces@.len(),
            r@ == pieces@.take(i as int).fold_left(
                Seq::<char>::empty(),
                |acc: Seq<char>, p: &str| acc + p@,
            ),
        decreases pieces@.len() - i,
    {
        r.append(pieces[i]);
        proof {
            assert(pieces@.take(i + 1).drop_last() =~= pieces@.take(i as int));
        }
        i = i + 1;
    }
    proof {
        assert(pieces@.take(i as int) =~= pieces@);
    }
    r
}

impl ParseError {
    /// The diagnostic as a line of text.
    pub fn message(&self) -> (r: String)
        ensures
            r@ == parse_message(self@),
    {
        let r = match self {
            ParseError::BadSource(p) => join(&["Error accessing: \"", p.as_str(), "\""]),
            ParseError::NoProgram(p) => join(
                &["An incorrect program in the file: \"", p.as_str(), "\"."],
            ),
            ParseError::RuleMismatch { expected, found } => join(
                &["Expected: ", expected.as_str(), " and found: ", found.as_str()],
            ),
            ParseError::UnknownAtom(s) => join(&["Unknown atom: \"", s.as_str(), "\""]),
            ParseError::Redeclared { symbol, original, conflict } => join(
                &[
                    "'",
                    symbol.as_str(),
                    "' has more than one declaration at \"",
                    original.as_str(),
                    "\" and \"",
                    conflict.as_str(),
                    "\"",
                ],
            ),
            ParseError::Redefined { symbol, original, conflict } => join(
                &[
                    "'",
                    symbol.as_str(),
                    "' has more than one definition at \"",
                    original.as_str(),
                    "\" and \"",
                    conflict.as_str(),
                    "\"",
                ],
            ),
            ParseError::UndeclaredSymbol(s) => join(&["Symbol ", s.as_str(), " is not declared"]),
            ParseError::UndefinedSymbol(s) => join(
                &["Symbol ", s.as_str(), " is declared but not defined"],
            ),
        };
        proof {
            reveal_with_fuel(Seq::fold_left, 8);
        }
        r
    }
}

/// Failures of a query on a stored story.
#[derive(Debug)]
pub enum WalkerError {
    /// No act of this name is in the index.
    UnknownScene(String),
    /// The index gives this act a byte range that the blob does not hold.
    BadRange(String),
    /// The bytes stored for this act are not a compressed block.
    BadBlock(String),
    /// The index document could not be read.
    BadIndex,
}

impl WalkerError {
    /// The failure as a line of text.
    pub fn message(&self) -> (r: String)
        ensures
            r@ == match self {
                WalkerError::UnknownScene(s) => "An unknown scene: \""@ + s@ + "\""@,
                WalkerError::BadRange(s) => "The stored range of scene \""@ + s@
                    + "\" lies outside the data"@,
                WalkerError::BadBlock(s) => "The stored data of scene \""@ + s@
                    + "\" is not a compressed block"@,
                WalkerError::BadIndex => "The index could not be read"@,
            },
    {
        let r = match self {
            WalkerError::UnknownScene(s) => join(&["An unknown scene: \"", s.as_str(), "\""]),
            WalkerError::BadRange(s) => join(
                &["The stored range of scene \"", s.as_str(), "\" lies outside the data"],
            ),
            WalkerError::BadBlock(s) => join(
                &["The stored data of scene \"", s.as_str(), "\" is not a compressed block"],
            ),
            WalkerError::BadIndex => join(&["The index could not be read"]),
        };
        proof {
            reveal_with_fuel(Seq::fold_left, 4);
        }
        r
    }
}

/// Failures of the encoder.
#[derive(Debug)]
pub enum EncodeError {
    /// The checks have not run, or did not pass.
    ChecksNotPassed,
    /// This act's record is too large to compress.
    TooLarge(String),
    /// This act's name does not come after the one before it in key order.
    OutOfOrder(String),
    /// The index could not be written as a document.
    IndexDocument,
}

} // verus!
