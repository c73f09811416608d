//! Errors raised while parsing input.
use vstd::prelude::*;

use crate::text::{has_prefix, push_str};

verus! {

#[derive(Debug, PartialEq, Eq, Clone, Copy)]
pub enum ParseErrorKind {
    Io,
    EndOfFile,
    InvalidInput,
    Unsupported,
}

#[derive(Debug)]
pub struct ParseError {
    pub kind: ParseErrorKind,
    pub message: String,
    pub context: String,
}

/// Whether an i/o error is an unexpected end of input (`std::io::Error::kind`).
#[verifier::external_body]
fn io_error_is_eof(error: &std::io::Error) -> bool {
    error.kind() == std::io::ErrorKind::UnexpectedEof
}

/// The text of an i/o error (`ToString::to_string` through `Display`).
/// Nothing is claimed of the text.
#[verifier::external_body]
fn io_error_text(error: &std::io::Error) -> String {
    error.to_string()
}

/// The text `Error while parsing file {message}. \n{context}`.
pub open spec fn parse_error_text(message: Seq<char>, context: Seq<char>) -> Seq<char> {
    "Error while parsing file "@ + message + ". \n"@ + context
}

impl ParseError {
    pub fn new(message: &str, kind: ParseErrorKind) -> (e: ParseError)
        ensures
            e.message@ == message@,
            e.kind == kind,
            e.context@ == Seq::<char>::empty(),
    {
        ParseError { message: message.to_owned(), kind, context: String::new() }
    }

    pub fn invalid(message: &str) -> (e: ParseError)
        ensures
            e.message@ == message@,
            e.kind == ParseErrorKind::InvalidInput,
            e.context@ == Seq::<char>::empty(),
    {
        Self::new(message, ParseErrorKind::InvalidInput)
    }

    pub fn unsupported(message: &str) -> (e: ParseError)
        ensures
            e.message@ == message@,
            e.kind == ParseErrorKind::Unsupported,
            e.context@ == Seq::<char>::empty(),
    {
        Self::new(message, ParseErrorKind::Unsupported)
    }

    pub fn eof(message: &str) -> (e: ParseError)
        ensures
            e.message@ == message@,
            e.kind == ParseErrorKind::EndOfFile,
            e.context@ == Seq::<char>::empty(),
    {
        Self::new(message, ParseErrorKind::EndOfFile)
    }

    /// Converts a read error: an unexpected end of input becomes `EndOfFile`,
    /// anything else `Io`.
    pub fn from_io_error(error: std::io::Error) -> (e: ParseError)
        ensures
            e.kind == ParseErrorKind::EndOfFile || e.kind == ParseErrorKind::Io,
            e.kind == ParseErrorKind::Io ==> has_prefix(e.message@, "Failed to read input: "@),
            e.context@ == Seq::<char>::empty(),
    {
        let text = io_error_text(&error);
        if io_error_is_eof(&error) {
            Self::eof(text.as_str())
        } else {
            let mut message = String::new();
            push_str(&mut message, "Failed to read input: ");
            push_str(&mut message, text.as_str());
            proof {
                assert(message@.take("Failed to read input: "@.len() as int) =~= "Failed to read input: "@);
            }
            Self::new(message.as_str(), ParseErrorKind::Io)
        }
    }

    /// The text the error displays.
    pub fn to_string(&self) -> (s: String)
        ensures
            s@ == parse_error_text(self.message@, self.context@),
    {
        let mut s = String::new();
        push_str(&mut s, "Error while parsing file ");
        push_str(&mut s, self.message.as_str());
        push_str(&mut s, ". \n");
        push_str(&mut s, self.context.as_str());
        s
    }
}

} // verus!
