//! Where the content of a node comes from: a local file or an external url.
use vstd::prelude::*;

use crate::lssg_error::{LssgError, LssgErrorKind};
use crate::path_extension::{path_file_name, path_file_stem, PathExtension};
use crate::text::{ends_with, has_prefix, has_suffix, starts_with, str_chars};

verus! {

/// A local path or an external url.
///
/// An external input also carries the path part of its url, from which its
/// file name is read.
#[derive(Debug, Clone, PartialEq, Eq, Hash)]
pub enum Input {
    Local { path: String },
    External { url: String, path: String },
}

/// Whether a string names a local input: it does not start with `http`.
pub open spec fn local_text(s: Seq<char>) -> bool {
    !has_prefix(s, "http"@)
}

/// Whether a string is a glob pattern over local paths.
pub open spec fn glob_text(s: Seq<char>) -> bool {
    &&& local_text(s)
    &&& (s.contains('*') || s.contains('?') || (s.contains('[') && s.contains(']')))
}

/// Whether a string looks like a local relative path.
pub open spec fn relative_text(s: Seq<char>) -> bool {
    !has_prefix(s, "/"@) && local_text(s)
}

/// Whether a link points to a page: a relative path to a markdown file.
pub open spec fn page_href(s: Seq<char>) -> bool {
    has_suffix(s, ".md"@) && relative_text(s)
}

/// Whether `c` occurs in `s`.
fn contains_char(s: &str, c: char) -> (r: bool)
    ensures
        r == s@.contains(c),
{
    let cs = str_chars(s);
    let mut i: usize = 0;
    while i < cs.len()
        invariant
            i <= cs.len(),
            cs@ == s@,
            forall|j: int| 0 <= j < i ==> cs@[j] != c,
        decreases cs.len() - i,
    {
        if cs[i] == c {
            return true;
        }
        i += 1;
    }
    false
}

impl Input {
    /// The path of the input's file: the local path, or the path part of the url.
    pub open spec fn file_path(&self) -> Seq<char> {
        match self {
            Input::Local { path } => path@,
            Input::External { path, .. } => path@,
        }
    }

    /// The text of the input: the local path or the url.
    pub open spec fn text(&self) -> Seq<char> {
        match self {
            Input::Local { path } => path@,
            Input::External { url, .. } => url@,
        }
    }

    pub fn is_local(input: &str) -> (r: bool)
        ensures
            r == local_text(input@),
    {
        !starts_with(input, "http")
    }

    pub fn is_glob(input: &str) -> (r: bool)
        ensures
            r == glob_text(input@),
    {
        let has_wildcards = contains_char(input, '*') || contains_char(input, '?');
        let has_char_class = contains_char(input, '[') && contains_char(input, ']');
        Self::is_local(input) && (has_wildcards || has_char_class)
    }

    /// Whether the string looks like a local relative path.
    pub fn is_relative(input: &str) -> (r: bool)
        ensures
            r == relative_text(input@),
    {
        !starts_with(input, "/") && Self::is_local(input)
    }

    /// Whether a link points to a page; only relative links to markdown files do.
    pub fn is_href_to_page(href: &str) -> (r: bool)
        ensures
            r == page_href(href@),
    {
        ends_with(href, ".md") && Self::is_relative(href)
    }

    pub fn filestem(&self) -> (r: Result<String, LssgError>)
        ensures
            r is Ok <==> path_file_stem(self.file_path()) is Some,
            r matches Ok(s) ==> path_file_stem(self.file_path()) == Some(s@),
            r matches Err(e) ==> e.spec_kind() == LssgErrorKind::Io,
    {
        match self {
            Input::Local { path } => path.as_str().filestem_from_path(),
            Input::External { path, .. } => path.as_str().filestem_from_path(),
        }
    }

    pub fn filename(&self) -> (r: Result<String, LssgError>)
        ensures
            r is Ok <==> path_file_name(self.file_path()) is Some,
            r matches Ok(s) ==> path_file_name(self.file_path()) == Some(s@),
            r matches Err(e) ==> e.spec_kind() == LssgErrorKind::Io,
    {
        match self {
            Input::Local { path } => path.as_str().filename_from_path(),
            Input::External { path, .. } => path.as_str().filename_from_path(),
        }
    }

    /// The input as text: the local path or the url.
    pub fn to_string(&self) -> (s: String)
        ensures
            s@ == self.text(),
    {
        match self {
            Input::Local { path } => path.clone(),
            Input::External { url, .. } => url.clone(),
        }
    }
}

} // verus!
