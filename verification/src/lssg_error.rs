//! Errors raised while generating a site.
use vstd::prelude::*;

use crate::parse_error::{parse_error_text, ParseError};
use crate::text::push_str;

verus! {

#[derive(Debug, Clone, Copy, PartialEq, Eq)]
pub enum LssgErrorKind {
    ParseError,
    /// Render error
    Render,
    Request,
    /// Error with the sitetree
    SiteTree,
    Io,
}

#[derive(Debug)]
pub struct LssgError {
    message: String,
    context: Option<String>,
    kind: LssgErrorKind,
}

/// The text `Error when generating static files: '{message}' {context}`, where
/// a context reads `with context '{context}'`.
pub open spec fn lssg_error_text(message: Seq<char>, context: Option<Seq<char>>) -> Seq<char> {
    let context = match context {
        Some(c) => "with context '"@ + c + "'"@,
        None => Seq::empty(),
    };
    "Error when generating static files: '"@ + message + "' "@ + context
}

impl LssgError {
    pub closed spec fn spec_message(&self) -> Seq<char> {
        self.message@
    }

    pub closed spec fn spec_context(&self) -> Option<Seq<char>> {
        match self.context {
            Some(c) => Some(c@),
            None => None,
        }
    }

    pub closed spec fn spec_kind(&self) -> LssgErrorKind {
        self.kind
    }

    pub fn new(message: &str, kind: LssgErrorKind) -> (e: LssgError)
        ensures
            e.spec_message() == message@,
            e.spec_kind() == kind,
            e.spec_context() is None,
    {
        LssgError { message: message.to_owned(), kind, context: None }
    }

    pub fn sitetree(message: &str) -> (e: LssgError)
        ensures
            e.spec_message() == message@,
            e.spec_kind() == LssgErrorKind::SiteTree,
            e.spec_context() is None,
    {
        Self::new(message, LssgErrorKind::SiteTree)
    }

    pub fn render(message: &str) -> (e: LssgError)
        ensures
            e.spec_message() == message@,
            e.spec_kind() == LssgErrorKind::Render,
            e.spec_context() is None,
    {
        Self::new(message, LssgErrorKind::Render)
    }

    pub fn io(message: &str) -> (e: LssgError)
        ensures
            e.spec_message() == message@,
            e.spec_kind() == LssgErrorKind::Io,
            e.spec_context() is None,
    {
        Self::new(message, LssgErrorKind::Io)
    }

    pub fn with_context(self, context: &str) -> (e: LssgError)
        ensures
            e.spec_message() == self.spec_message(),
            e.spec_kind() == self.spec_kind(),
            e.spec_context() == Some(context@),
    {
        LssgError { message: self.message, kind: self.kind, context: Some(context.to_owned()) }
    }

    /// A parse error becomes a `ParseError` kind error carrying the parse error's text.
    pub fn from_parse_error(error: ParseError) -> (e: LssgError)
        ensures
            e.spec_message() == parse_error_text(error.message@, error.context@),
            e.spec_kind() == LssgErrorKind::ParseError,
            e.spec_context() is None,
    {
        let text = error.to_string();
        Self::new(text.as_str(), LssgErrorKind::ParseError)
    }

    /// The text the error displays.
    pub fn to_string(&self) -> (s: String)
        ensures
            s@ == lssg_error_text(self.spec_message(), self.spec_context()),
    {
        let mut s = String::new();
        push_str(&mut s, "Error when generating static files: '");
        push_str(&mut s, self.message.as_str());
        push_str(&mut s, "' ");
        match &self.context {
            Some(c) => {
                push_str(&mut s, "with context '");
                push_str(&mut s, c.as_str());
                push_str(&mut s, "'");
            },
            None => {},
        }
        s
    }
}

} // verus!
