//! The character reader of the site generator: positions for `peek_char`
//! count from one.
use vstd::prelude::*;

use crate::char_reader::{all_rejected, callable, ends_with_at, first_accepted, first_match, no_match};
use crate::parse_error::{ParseError, ParseErrorKind};

verus! {

/// The error for input that is not UTF-8.
fn utf8_error() -> (e: ParseError)
    ensures
        e.kind == ParseErrorKind::InvalidInput,
{
    ParseError::invalid("Invalid utf-8 string found")
}

/// Character Reader with peeking functionality.
pub struct CharReader {
    inner: crate::char_reader::CharReader,
}

impl CharReader {
    /// The characters that have not been consumed yet.
    pub closed spec fn chars(self) -> Seq<char> {
        self.inner.chars()
    }

    /// Whether the input was valid UTF-8.
    pub closed spec fn valid(self) -> bool {
        self.inner.valid()
    }

    /// Makes a reader over UTF-8 encoded bytes.
    pub fn new(input: &[u8]) -> (r: CharReader)
        ensures
            r.valid() == vstd::utf8::valid_utf8(input@),
            r.valid() ==> r.chars() == vstd::utf8::decode_utf8(input@),
    {
        CharReader { inner: crate::char_reader::CharReader::new(input) }
    }

    /// This reader never records reads.
    pub fn has_read(&self) -> (r: bool)
        ensures
            !r,
    {
        false
    }

    /// The character at position `pos`, counting from one; `None` for
    /// position zero and past the end.
    pub fn peek_char(&self, pos: usize) -> (r: Result<Option<char>, ParseError>)
        ensures
            r is Err <==> !self.valid(),
            r matches Err(e) ==> e.kind == ParseErrorKind::InvalidInput,
            r matches Ok(c) ==> c == (if 1 <= pos <= self.chars().len() {
                Some(self.chars()[pos - 1])
            } else {
                None::<char>
            }),
    {
        if pos == 0 {
            if !self.inner.peek_char(0).is_ok() {
                return Err(utf8_error());
            }
            return Ok(None);
        }
        match self.inner.peek_char(pos - 1) {
            Ok(c) => Ok(c),
            Err(_) => Err(utf8_error()),
        }
    }

    /// The first `length` characters, fewer at the end of the input.
    pub fn peek_string(&self, length: usize) -> (r: Result<String, ParseError>)
        ensures
            r is Err <==> !self.valid(),
            r matches Err(e) ==> e.kind == ParseErrorKind::InvalidInput,
            r matches Ok(s) ==> s@ == self.chars().take(
                if length < self.chars().len() { length as int } else { self.chars().len() as int },
            ),
    {
        match self.inner.peek_string(length) {
            Ok(s) => Ok(s),
            Err(_) => Err(utf8_error()),
        }
    }

    /// The characters up to and including the first one `op` accepts; `None`
    /// when it accepts none.
    pub fn peek_until<F: Fn(char) -> bool>(&self, op: F) -> (r: Result<Option<String>, ParseError>)
        requires
            callable(op),
        ensures
            r is Err <==> !self.valid(),
            r matches Err(e) ==> e.kind == ParseErrorKind::InvalidInput,
            r matches Ok(Some(s)) ==> s@.len() >= 1 && first_accepted(op, self.chars(), 0, s@.len() - 1)
                && s@ == self.chars().take(s@.len() as int),
            r matches Ok(None) ==> all_rejected(op, self.chars(), 0, self.chars().len() as int),
    {
        match self.inner.peek_until_inclusive(op) {
            Ok(r) => {
                proof {
                    assert(forall|n: int| 0 <= n <= self.chars().len() ==> self.chars().subrange(0, n) =~= self.chars().take(n));
                }
                Ok(r)
            },
            Err(_) => Err(utf8_error()),
        }
    }

    /// Peek until the first occurrence of `pattern`, including it; `None`
    /// when it does not occur.
    pub fn peek_until_match_inclusive(&self, pattern: &str) -> (r: Result<Option<String>, ParseError>)
        requires
            self.valid() && self.chars().len() > 0 ==> pattern@.len() > 0,
        ensures
            r is Err <==> !self.valid(),
            r matches Err(e) ==> e.kind == ParseErrorKind::InvalidInput,
            r matches Ok(Some(s)) ==> s@.len() >= pattern@.len()
                && first_match(self.chars(), pattern@, 0, s@.len() - pattern@.len())
                && s@ == self.chars().take(s@.len() as int),
            r matches Ok(None) ==> no_match(self.chars(), pattern@, 0),
    {
        match self.inner.peek_until_match_inclusive(pattern) {
            Ok(x) => {
                proof {
                    if x is Some {
                        assert(self.chars().subrange(0, x->0@.len() as int) =~= self.chars().take(x->0@.len() as int));
                    }
                }
                Ok(x)
            },
            Err(_) => Err(utf8_error()),
        }
    }

    /// Drop `length` characters.
    pub fn consume(&mut self, length: usize) -> (r: Result<(), ParseError>)
        requires
            old(self).valid() ==> length <= old(self).chars().len(),
        ensures
            r is Err <==> !old(self).valid(),
            r matches Err(e) ==> e.kind == ParseErrorKind::InvalidInput,
            final(self).valid() == old(self).valid(),
            r is Ok ==> final(self).chars() == old(self).chars().skip(length as int),
            r is Err ==> final(self).chars() == old(self).chars(),
    {
        let ghost s = self.chars();
        match self.inner.consume(length) {
            Ok(Some(_)) => Ok(()),
            Ok(None) => {
                proof {
                    assert(s.skip(length as int) =~= s);
                }
                Ok(())
            },
            Err(_) => Err(utf8_error()),
        }
    }

    pub fn consume_char(&mut self) -> (r: Result<Option<char>, ParseError>)
        ensures
            r is Err <==> !old(self).valid(),
            r matches Err(e) ==> e.kind == ParseErrorKind::InvalidInput,
            final(self).valid() == old(self).valid(),
            r matches Ok(None) ==> old(self).chars().len() == 0 && final(self).chars() == old(self).chars(),
            r matches Ok(Some(c)) ==> old(self).chars().len() > 0 && c == old(self).chars()[0]
                && final(self).chars() == old(self).chars().skip(1),
            r is Err ==> final(self).chars() == old(self).chars(),
    {
        match self.inner.consume_char() {
            Ok(c) => Ok(c),
            Err(_) => Err(utf8_error()),
        }
    }

    /// Read `length` characters, fewer at the end of the input.
    pub fn consume_string(&mut self, length: usize) -> (r: Result<String, ParseError>)
        ensures
            r is Err <==> !old(self).valid(),
            r matches Err(e) ==> e.kind == ParseErrorKind::InvalidInput,
            final(self).valid() == old(self).valid(),
            r matches Ok(s) ==> {
                let n = if length < old(self).chars().len() { length as int } else { old(self).chars().len() as int };
                &&& s@ == old(self).chars().take(n)
                &&& final(self).chars() == old(self).chars().skip(n)
            },
            r is Err ==> final(self).chars() == old(self).chars(),
    {
        match self.inner.consume_string(length) {
            Ok(s) => Ok(s),
            Err(_) => Err(utf8_error()),
        }
    }

    /// Will read until eof or `op` is true including the true match
    pub fn consume_until_inclusive<F: Fn(char) -> bool>(&mut self, op: F) -> (r: Result<String, ParseError>)
        requires
            callable(op),
        ensures
            r is Err <==> !old(self).valid(),
            r matches Err(e) ==> e.kind == ParseErrorKind::InvalidInput,
            final(self).valid() == old(self).valid(),
            r is Err ==> final(self).chars() == old(self).chars(),
            r matches Ok(s) ==> {
                &&& s@ == old(self).chars().take(s@.len() as int)
                &&& final(self).chars() == old(self).chars().skip(s@.len() as int)
                &&& (first_accepted(op, old(self).chars(), 0, s@.len() - 1)
                    || (s@.len() == old(self).chars().len()
                        && all_rejected(op, old(self).chars(), 0, old(self).chars().len() as int)))
            },
    {
        match self.inner.consume_until_inclusive(op) {
            Ok(s) => Ok(s),
            Err(_) => Err(utf8_error()),
        }
    }

    /// Will read until `op` is true, excluding the character that matched;
    /// `None`, with nothing read, when `op` accepts no character.
    pub fn consume_until_exclusive<F: Fn(char) -> bool>(&mut self, op: F) -> (r: Result<Option<String>, ParseError>)
        requires
            callable(op),
        ensures
            r is Err <==> !old(self).valid(),
            r matches Err(e) ==> e.kind == ParseErrorKind::InvalidInput,
            final(self).valid() == old(self).valid(),
            r is Err ==> final(self).chars() == old(self).chars(),
            r matches Ok(None) ==> final(self).chars() == old(self).chars()
                && all_rejected(op, old(self).chars(), 0, old(self).chars().len() as int),
            r matches Ok(Some(s)) ==> {
                &&& first_accepted(op, old(self).chars(), 0, s@.len() as int)
                &&& s@ == old(self).chars().take(s@.len() as int)
                &&& final(self).chars() == old(self).chars().skip(s@.len() as int)
            },
    {
        let ghost s0 = self.chars();
        match self.inner.peek_until_exclusive_from(0, op) {
            Ok(Some(s)) => {
                let n = crate::text::str_chars(s.as_str()).len();
                proof {
                    assert(s0.subrange(0, s@.len() as int) =~= s0.take(s@.len() as int));
                }
                match self.inner.consume_string(n) {
                    Ok(t) => Ok(Some(t)),
                    Err(_) => Err(utf8_error()),
                }
            },
            Ok(None) => Ok(None),
            Err(_) => Err(utf8_error()),
        }
    }

    /// Consume until the first occurrence of `pattern` has been read, or to
    /// the end of the input; returns what was consumed.
    pub fn consume_until_match_inclusive(&mut self, pattern: &str) -> (r: Result<String, ParseError>)
        requires
            old(self).valid() && old(self).chars().len() > 0 ==> pattern@.len() > 0,
        ensures
            r is Err <==> !old(self).valid(),
            r matches Err(e) ==> e.kind == ParseErrorKind::InvalidInput,
            final(self).valid() == old(self).valid(),
            r is Err ==> final(self).chars() == old(self).chars(),
            r matches Ok(s) ==> {
                let n = s@.len() as int;
                &&& s@ == old(self).chars().take(n)
                &&& final(self).chars() == old(self).chars().skip(n)
                &&& (ends_with_at(old(self).chars(), pattern@, n) || n == old(self).chars().len())
                &&& forall|j: int| 0 <= j < n ==> !ends_with_at(old(self).chars(), pattern@, j)
            },
    {
        match self.inner.consume_until_match_inclusive(pattern) {
            Ok(s) => Ok(s),
            Err(_) => Err(utf8_error()),
        }
    }
}

} // verus!
