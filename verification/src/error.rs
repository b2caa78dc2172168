//! The two error kinds: one for reading, one for writing.

use vstd::prelude::*;

verus! {

/// Why a byte stream could not be read as a list of transactions.
#[derive(Debug)]
pub enum ParseError {
    /// The byte source failed, or handed over text that is not UTF-8.
    IOError(String),
    /// The bytes do not follow the format. The string says where they stray.
    InvalidFormat(String),
}

/// The mathematical value of a [`ParseError`]: the kind, with its message as a
/// sequence of characters.
pub enum ParseErrorView {
    IOError(Seq<char>),
    InvalidFormat(Seq<char>),
}

impl View for ParseError {
    type V = ParseErrorView;

    open spec fn view(&self) -> ParseErrorView {
        match self {
            ParseError::IOError(msg) => ParseErrorView::IOError(msg@),
            ParseError::InvalidFormat(msg) => ParseErrorView::InvalidFormat(msg@),
        }
    }
}

impl ParseError {
    /// The message that the error carries.
    pub fn message(&self) -> (msg: &String)
        ensures
            msg@ == match self@ {
                ParseErrorView::IOError(m) => m,
                ParseErrorView::InvalidFormat(m) => m,
            },
    {
        match self {
            ParseError::IOError(msg) => msg,
            ParseError::InvalidFormat(msg) => msg,
        }
    }
}

/// Why a list of transactions could not be written.
#[derive(Debug, Clone, Copy, PartialEq, Eq, Structural)]
pub enum DumpError {
    /// A record cannot be laid out in the chosen format.
    InternalError,
    /// The byte sink refused the output.
    OutputError,
}

/// A format violation with the given message.
pub fn invalid_format(msg: &str) -> (e: ParseError)
    ensures
        e@ == ParseErrorView::InvalidFormat(msg@),
{
    ParseError::InvalidFormat(msg.to_owned())
}

/// An I/O failure with the given message.
pub fn io_error(msg: &str) -> (e: ParseError)
    ensures
        e@ == ParseErrorView::IOError(msg@),
{
    ParseError::IOError(msg.to_owned())
}

} // verus!
