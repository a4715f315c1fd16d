//! The error model: syntax faults with their byte offset, text-encoding
//! faults, encode-time faults, and carried I/O failures.  Every fault is
//! immediately fatal to the call that met it.

use vstd::prelude::*;

verus! {

/// The kinds of failure the codec reports.
#[derive(Debug, Clone, PartialEq, Eq)]
pub enum ErrorCode {
    /// A byte that the grammar does not allow where it was read.
    UnexpectedToken(u8),
    /// The input ended while a token or container was still open.
    UnexpectedEOF,
    /// Bytes after the root value that no production accounts for.
    UnexpectedTrailingChars,
    /// A primitive that has no wire representation (a boolean).
    UnsupportedType,
    /// A numeric magnitude outside the wire's signed 64-bit range.
    NumberOutOfRange(u64),
}

/// Every failure that decoding or encoding can produce.
#[derive(Debug, Clone, PartialEq, Eq)]
pub enum Error {
    /// A decode-time grammar failure, with the byte offset at which it was found.
    Syntax(ErrorCode, usize),
    /// A failure of an underlying byte source or sink, carried as text.
    Io(String),
    /// A decoded string payload that is not valid UTF-8.
    Utf8,
    /// An encode-time failure.
    Ser(ErrorCode),
}

/// A decode failure as the grammar model states it: the kind of fault and
/// the byte offset, before it is packed into an `Error` value.
pub enum ParseFail {
    Token(u8),
    Eof,
    Trailing,
    Range(u64),
    Text,
}

/// Holds when the error value `e` reports exactly the model failure `f` at offset `p`.
pub open spec fn err_for(e: Error, f: ParseFail, p: int) -> bool {
    match f {
        ParseFail::Token(b) => e matches Error::Syntax(ErrorCode::UnexpectedToken(bb), pp)
            && bb == b && pp as int == p,
        ParseFail::Eof => e matches Error::Syntax(ErrorCode::UnexpectedEOF, pp) && pp as int == p,
        ParseFail::Trailing => e matches Error::Syntax(ErrorCode::UnexpectedTrailingChars, pp)
            && pp as int == p,
        ParseFail::Range(n) => e matches Error::Syntax(ErrorCode::NumberOutOfRange(nn), pp)
            && nn == n && pp as int == p,
        ParseFail::Text => e == Error::Utf8,
    }
}

} // verus!
