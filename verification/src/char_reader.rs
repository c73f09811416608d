//! Character reader with peeking, used by the markdown and html lexers.
//!
//! The whole input is decoded up front; the reader keeps a cursor into the
//! decoded characters. Everything in front of the cursor has been consumed.
use vstd::prelude::*;

use crate::text::{push_char, str_chars, string_from_range};
#[allow(unused_imports)]
use vstd::string::StringSliceAdditionalSpecFns;

verus! {

#[verifier::external_type_specification]
#[verifier::external_body]
pub struct ExIoError(std::io::Error);

/// Builds the error returned when the input is not valid UTF-8
/// (`std::io::Error::other`). Nothing is claimed of the error value.
#[verifier::external_body]
fn utf8_error() -> std::io::Error {
    std::io::Error::other("Failed to parse utf-8")
}

/// Decodes bytes as UTF-8 (`std::str::from_utf8`): `Some` exactly when the
/// bytes are valid UTF-8, and then the string has these bytes.
#[verifier::external_body]
fn decode_utf8_bytes(bytes: &[u8]) -> (r: Option<&str>)
    ensures
        r is Some <==> vstd::utf8::valid_utf8(bytes@),
        r matches Some(s) ==> s.spec_bytes() == bytes@,
{
    std::str::from_utf8(bytes).ok()
}

/// Whether `pattern` occurs in `s` at index `i`.
pub open spec fn matches_at(s: Seq<char>, pattern: Seq<char>, i: int) -> bool {
    &&& 0 <= i
    &&& i + pattern.len() <= s.len()
    &&& s.subrange(i, i + pattern.len()) == pattern
}

/// The first `j` characters of `s` end with `pattern`.
pub open spec fn ends_with_at(s: Seq<char>, pattern: Seq<char>, j: int) -> bool {
    j >= pattern.len() && matches_at(s, pattern, j - pattern.len())
}

/// `i` is the first index at or after `pos` where `pattern` occurs in `s`.
pub open spec fn first_match(s: Seq<char>, pattern: Seq<char>, pos: int, i: int) -> bool {
    &&& pos <= i
    &&& matches_at(s, pattern, i)
    &&& forall|j: int| pos <= j < i ==> !matches_at(s, pattern, j)
}

/// `pattern` does not occur in `s` at or after `pos`.
pub open spec fn no_match(s: Seq<char>, pattern: Seq<char>, pos: int) -> bool {
    forall|j: int| pos <= j ==> !matches_at(s, pattern, j)
}

/// `op` says `false` on every character of `s[lo..hi]`.
pub open spec fn all_rejected<F: Fn(char) -> bool>(op: F, s: Seq<char>, lo: int, hi: int) -> bool {
    forall|j: int| lo <= j < hi ==> op.ensures((#[trigger] s[j],), false)
}

/// `i` is the first index at or after `pos` whose character `op` accepts.
pub open spec fn first_accepted<F: Fn(char) -> bool>(op: F, s: Seq<char>, pos: int, i: int) -> bool {
    &&& pos <= i < s.len()
    &&& op.ensures((s[i],), true)
    &&& all_rejected(op, s, pos, i)
}

/// `op` can be called on any character.
pub open spec fn callable<F: Fn(char) -> bool>(op: F) -> bool {
    forall|c: char| op.requires((c,))
}

/// The characters of `s` from `pos` up to (excluding) the first newline.
pub open spec fn line_from(s: Seq<char>, pos: int) -> Seq<char>
    decreases s.len() - pos,
{
    if pos < 0 || pos >= s.len() || s[pos] == '\n' {
        Seq::empty()
    } else {
        seq![s[pos]] + line_from(s, pos + 1)
    }
}

/// Index of the first occurrence of `pattern` in `s` at or after `pos`.
pub open spec fn find_pattern(s: Seq<char>, pattern: Seq<char>, pos: int) -> Option<int>
    decreases s.len() + 1 - pos,
{
    if pos < 0 || pos + pattern.len() > s.len() {
        None
    } else if matches_at(s, pattern, pos) {
        Some(pos)
    } else {
        find_pattern(s, pattern, pos + 1)
    }
}

/// Index of the first `c` in `s` at or after `pos`.
pub open spec fn find_char(s: Seq<char>, c: char, pos: int) -> Option<int>
    decreases s.len() - pos,
{
    if pos < 0 || pos >= s.len() {
        None
    } else if s[pos] == c {
        Some(pos)
    } else {
        find_char(s, c, pos + 1)
    }
}

pub proof fn lemma_first_match_find(s: Seq<char>, pattern: Seq<char>, pos: int, i: int)
    requires
        0 <= pos,
        first_match(s, pattern, pos, i),
    ensures
        find_pattern(s, pattern, pos) == Some(i),
    decreases i - pos,
{
    if pos < i {
        assert(!matches_at(s, pattern, pos));
        lemma_first_match_find(s, pattern, pos + 1, i);
    }
}

pub proof fn lemma_no_match_find(s: Seq<char>, pattern: Seq<char>, pos: int)
    requires
        0 <= pos,
        no_match(s, pattern, pos),
    ensures
        find_pattern(s, pattern, pos) is None,
    decreases s.len() + 1 - pos,
{
    if pos + pattern.len() <= s.len() {
        assert(!matches_at(s, pattern, pos));
        lemma_no_match_find(s, pattern, pos + 1);
    }
}

/// `op` answers whether a character is `c`.
pub open spec fn is_char_test<F: Fn(char) -> bool>(op: F, c: char) -> bool {
    forall|x: char, r: bool| op.ensures((x,), r) ==> r == (x == c)
}

pub proof fn lemma_first_accepted_find<F: Fn(char) -> bool>(op: F, c: char, s: Seq<char>, pos: int, i: int)
    requires
        0 <= pos,
        is_char_test(op, c),
        first_accepted(op, s, pos, i),
    ensures
        find_char(s, c, pos) == Some(i),
    decreases i - pos,
{
    if pos < i {
        assert(op.ensures((s[pos],), false));
        lemma_first_accepted_find(op, c, s, pos + 1, i);
    }
}

pub proof fn lemma_all_rejected_find<F: Fn(char) -> bool>(op: F, c: char, s: Seq<char>, pos: int)
    requires
        0 <= pos,
        is_char_test(op, c),
        all_rejected(op, s, pos, s.len() as int),
    ensures
        find_char(s, c, pos) is None,
    decreases s.len() - pos,
{
    if pos < s.len() {
        assert(op.ensures((s[pos],), false));
        lemma_all_rejected_find(op, c, s, pos + 1);
    }
}

/// Character Reader with peeking functionality.
///
/// The input is decoded completely when the reader is made; if it is not
/// valid UTF-8 every peek and consume returns an error.
pub struct CharReader {
    buffer: Vec<char>,
    start: usize,
    has_read: bool,
    valid: bool,
}

impl CharReader {
    #[verifier::type_invariant]
    spec fn inv(self) -> bool {
        self.start <= self.buffer.len()
    }

    /// The characters that have not been consumed yet.
    pub closed spec fn chars(self) -> Seq<char> {
        self.buffer@.skip(self.start as int)
    }

    /// Whether the input was valid UTF-8.
    pub closed spec fn valid(self) -> bool {
        self.valid
    }

    /// Whether anything has been consumed.
    pub closed spec fn read_flag(self) -> bool {
        self.has_read
    }

    /// Makes a reader over UTF-8 encoded bytes.
    pub fn new(input: &[u8]) -> (r: CharReader)
        ensures
            r.valid() == vstd::utf8::valid_utf8(input@),
            r.valid() ==> r.chars() == vstd::utf8::decode_utf8(input@),
            !r.valid() ==> r.chars() == Seq::<char>::empty(),
            !r.read_flag(),
    {
        match decode_utf8_bytes(input) {
            Some(s) => {
                let buffer = str_chars(s);
                proof {
                    vstd::utf8::encode_utf8_decode_utf8(s@);
                    assert(buffer@.skip(0) =~= buffer@);
                }
                CharReader { buffer, start: 0, has_read: false, valid: true }
            },
            None => {
                let r = CharReader { buffer: Vec::new(), start: 0, has_read: false, valid: false };
                proof {
                    assert(r.buffer@.skip(0) =~= Seq::<char>::empty());
                }
                r
            },
        }
    }

    /// Makes a reader over the characters of a string.
    pub fn from_string(input: &str) -> (r: CharReader)
        ensures
            r.valid(),
            r.chars() == input@,
            !r.read_flag(),
    {
        let buffer = str_chars(input);
        proof {
            assert(buffer@.skip(0) =~= buffer@);
        }
        CharReader { buffer, start: 0, has_read: false, valid: true }
    }

    pub fn has_read(&self) -> (r: bool)
        ensures
            r == self.read_flag(),
    {
        self.has_read
    }

    pub fn set_has_read(&mut self, has_read: bool)
        ensures
            final(self).read_flag() == has_read,
            final(self).chars() == old(self).chars(),
            final(self).valid() == old(self).valid(),
    {
        proof {
            use_type_invariant(&*self);
        }
        self.has_read = has_read;
    }

    /// Number of characters left to read.
    pub(crate) fn remaining_len(&self) -> (n: usize)
        ensures
            n == self.chars().len(),
    {
        self.remaining()
    }

    /// Number of characters left to read.
    fn remaining(&self) -> (n: usize)
        ensures
            n == self.chars().len(),
    {
        proof {
            use_type_invariant(self);
        }
        self.buffer.len() - self.start
    }

    /// The character at `pos` of the unread input, read without error checks.
    fn char_at(&self, pos: usize) -> (c: char)
        requires
            pos < self.chars().len(),
        ensures
            c == self.chars()[pos as int],
    {
        proof {
            use_type_invariant(self);
        }
        self.buffer[self.start + pos]
    }

    /// The unread characters `[lo..hi]` as a string, read without error checks.
    fn slice_string(&self, lo: usize, hi: usize) -> (s: String)
        requires
            lo <= hi <= self.chars().len(),
        ensures
            s@ == self.chars().subrange(lo as int, hi as int),
    {
        proof {
            use_type_invariant(self);
        }
        let s = string_from_range(&self.buffer, self.start + lo, self.start + hi);
        assert(s@ =~= self.chars().subrange(lo as int, hi as int));
        s
    }

    /// Read a character. `pos` is 0 indexed.
    pub fn peek_char(&self, pos: usize) -> (r: Result<Option<char>, std::io::Error>)
        ensures
            r is Err <==> !self.valid(),
            r matches Ok(c) ==> c == (if pos < self.chars().len() {
                Some(self.chars()[pos as int])
            } else {
                None::<char>
            }),
    {
        if !self.valid {
            return Err(utf8_error());
        }
        if pos < self.remaining() {
            Ok(Some(self.char_at(pos)))
        } else {
            Ok(None)
        }
    }

    pub fn peek_string(&self, length: usize) -> (r: Result<String, std::io::Error>)
        ensures
            r is Err <==> !self.valid(),
            r matches Ok(s) ==> s@ == self.chars().take(
                if length < self.chars().len() { length as int } else { self.chars().len() as int },
            ),
    {
        let r = self.peek_string_from(0, length);
        assert(forall|n: int| 0 <= n <= self.chars().len() ==> self.chars().subrange(0, n) =~= self.chars().take(n));
        r
    }

    /// Peek `length` characters starting at `pos`; fewer at the end of the input.
    pub fn peek_string_from(&self, pos: usize, length: usize) -> (r: Result<String, std::io::Error>)
        requires
            self.valid() ==> pos <= self.chars().len(),
        ensures
            r is Err <==> !self.valid(),
            r matches Ok(s) ==> s@ == self.chars().subrange(
                pos as int,
                if pos + length < self.chars().len() { pos + length } else { self.chars().len() as int },
            ),
    {
        if !self.valid {
            return Err(utf8_error());
        }
        let n = self.remaining();
        let stop = if length < n - pos { pos + length } else { n };
        Ok(self.slice_string(pos, stop))
    }

    /// peek until \n or eof is reached
    pub fn peek_line(&self) -> (r: Result<String, std::io::Error>)
        ensures
            r is Err <==> !self.valid(),
            r matches Ok(s) ==> s@ == line_from(self.chars(), 0),
    {
        self.peek_line_from(0)
    }

    /// peek until \n or eof is reached
    pub fn peek_line_from(&self, pos: usize) -> (r: Result<String, std::io::Error>)
        ensures
            r is Err <==> !self.valid(),
            r matches Ok(s) ==> s@ == line_from(self.chars(), pos as int),
    {
        if !self.valid {
            return Err(utf8_error());
        }
        let n = self.remaining();
        let mut result = String::new();
        let mut i = pos;
        while i < n && self.char_at(i) != '\n'
            invariant
                n == self.chars().len(),
                pos <= i,
                i < n ==> result@ + line_from(self.chars(), i as int) == line_from(self.chars(), pos as int),
                i >= n ==> result@ == line_from(self.chars(), pos as int),
            decreases n - i,
        {
            let c = self.char_at(i);
            proof {
                assert(line_from(self.chars(), i as int) == seq![c] + line_from(self.chars(), i + 1));
                assert(result@.push(c) + line_from(self.chars(), i + 1) =~= result@ + (seq![c] + line_from(self.chars(), i + 1)));
            }
            push_char(&mut result, c);
            i += 1;
        }
        proof {
            if i < n {
                assert(line_from(self.chars(), i as int) =~= Seq::<char>::empty());
                assert(result@ + Seq::<char>::empty() =~= result@);
            }
        }
        Ok(result)
    }

    /// Index of the first character at or after `pos` that `op` accepts, `None` at eof.
    fn find_accepted<F: Fn(char) -> bool>(&self, pos: usize, op: &F) -> (r: Option<usize>)
        requires
            callable(*op),
        ensures
            r matches Some(i) ==> first_accepted(*op, self.chars(), pos as int, i as int),
            r is None ==> all_rejected(*op, self.chars(), pos as int, self.chars().len() as int),
    {
        let n = self.remaining();
        let mut i = pos;
        while i < n
            invariant
                n == self.chars().len(),
                pos <= i,
                callable(*op),
                all_rejected(*op, self.chars(), pos as int, i as int),
            decreases n - i,
        {
            let c = self.char_at(i);
            if op(c) {
                return Some(i);
            }
            i += 1;
        }
        None
    }

    /// returns None if EOF is reached, to prevent false positives
    pub fn peek_until_exclusive_from<F: Fn(char) -> bool>(&self, pos: usize, op: F) -> (r: Result<Option<String>, std::io::Error>)
        requires
            callable(op),
        ensures
            r is Err <==> !self.valid(),
            r matches Ok(Some(s)) ==> first_accepted(op, self.chars(), pos as int, pos + s@.len())
                && s@ == self.chars().subrange(pos as int, pos + s@.len()),
            r matches Ok(None) ==> all_rejected(op, self.chars(), pos as int, self.chars().len() as int),
    {
        if !self.valid {
            return Err(utf8_error());
        }
        match self.find_accepted(pos, &op) {
            Some(i) => Ok(Some(self.slice_string(pos, i))),
            None => Ok(None),
        }
    }

    /// returns None if EOF is reached, to prevent false positives
    pub fn peek_until_inclusive<F: Fn(char) -> bool>(&self, op: F) -> (r: Result<Option<String>, std::io::Error>)
        requires
            callable(op),
        ensures
            r is Err <==> !self.valid(),
            r matches Ok(Some(s)) ==> s@.len() >= 1 && first_accepted(op, self.chars(), 0, s@.len() - 1)
                && s@ == self.chars().subrange(0, s@.len() as int),
            r matches Ok(None) ==> all_rejected(op, self.chars(), 0, self.chars().len() as int),
    {
        self.peek_until_inclusive_from(0, op)
    }

    /// returns None if EOF is reached, to prevent false positives
    pub fn peek_until_inclusive_from<F: Fn(char) -> bool>(&self, pos: usize, op: F) -> (r: Result<Option<String>, std::io::Error>)
        requires
            callable(op),
        ensures
            r is Err <==> !self.valid(),
            r matches Ok(Some(s)) ==> s@.len() >= 1 && first_accepted(op, self.chars(), pos as int, pos + s@.len() - 1)
                && s@ == self.chars().subrange(pos as int, pos + s@.len()),
            r matches Ok(None) ==> all_rejected(op, self.chars(), pos as int, self.chars().len() as int),
    {
        if !self.valid {
            return Err(utf8_error());
        }
        let _n = self.remaining();
        match self.find_accepted(pos, &op) {
            Some(i) => Ok(Some(self.slice_string(pos, i + 1))),
            None => Ok(None),
        }
    }

    /// Whether `pattern` occurs at index `i` of the unread input.
    fn matches_here(&self, pattern: &Vec<char>, i: usize) -> (r: bool)
        ensures
            r == matches_at(self.chars(), pattern@, i as int),
    {
        let n = self.remaining();
        if i > n || pattern.len() > n - i {
            return false;
        }
        let mut k: usize = 0;
        while k < pattern.len()
            invariant
                n == self.chars().len(),
                i + pattern.len() <= n,
                k <= pattern.len(),
                forall|j: int| 0 <= j < k ==> self.chars()[i + j] == pattern@[j],
            decreases pattern.len() - k,
        {
            if self.char_at(i + k) != pattern[k] {
                assert(self.chars().subrange(i as int, i + pattern.len())[k as int] != pattern@[k as int]);
                return false;
            }
            k += 1;
        }
        assert(self.chars().subrange(i as int, i + pattern.len()) =~= pattern@);
        true
    }

    /// First index at or after `pos` where `pattern` occurs, if any.
    fn find_match(&self, pos: usize, pattern: &Vec<char>) -> (r: Option<usize>)
        ensures
            r matches Some(i) ==> first_match(self.chars(), pattern@, pos as int, i as int),
            r is None ==> no_match(self.chars(), pattern@, pos as int),
    {
        let n = self.remaining();
        let mut i = pos;
        while i <= n
            invariant
                n == self.chars().len(),
                pos <= i,
                forall|j: int| pos <= j < i ==> !matches_at(self.chars(), pattern@, j),
            decreases n + 1 - i,
        {
            if self.matches_here(pattern, i) {
                return Some(i);
            }
            if i == n {
                return None;
            }
            i += 1;
        }
        None
    }

    pub fn peek_until_match_exclusive_from(&self, pos: usize, pattern: &str) -> (r: Result<Option<String>, std::io::Error>)
        ensures
            r is Err <==> !self.valid(),
            r matches Ok(Some(s)) ==> first_match(self.chars(), pattern@, pos as int, pos + s@.len())
                && s@ == self.chars().subrange(pos as int, pos + s@.len()),
            r matches Ok(None) ==> no_match(self.chars(), pattern@, pos as int),
    {
        if !self.valid {
            return Err(utf8_error());
        }
        let chars = str_chars(pattern);
        match self.find_match(pos, &chars) {
            Some(i) => Ok(Some(self.slice_string(pos, i))),
            None => Ok(None),
        }
    }

    /// Peek until matches or return None when not found
    pub fn peek_until_match_inclusive(&self, pattern: &str) -> (r: Result<Option<String>, std::io::Error>)
        ensures
            r is Err <==> !self.valid(),
            r matches Ok(Some(s)) ==> s@.len() >= pattern@.len()
                && first_match(self.chars(), pattern@, 0, s@.len() - pattern@.len())
                && s@ == self.chars().subrange(0, s@.len() as int),
            r matches Ok(None) ==> no_match(self.chars(), pattern@, 0),
    {
        self.peek_until_match_inclusive_from(0, pattern)
    }

    pub fn peek_until_match_inclusive_from(&self, pos: usize, pattern: &str) -> (r: Result<Option<String>, std::io::Error>)
        ensures
            r is Err <==> !self.valid(),
            r matches Ok(Some(s)) ==> s@.len() >= pattern@.len()
                && first_match(self.chars(), pattern@, pos as int, pos + s@.len() - pattern@.len())
                && s@ == self.chars().subrange(pos as int, pos + s@.len()),
            r matches Ok(None) ==> no_match(self.chars(), pattern@, pos as int),
    {
        if !self.valid {
            return Err(utf8_error());
        }
        let chars = str_chars(pattern);
        let _n = self.remaining();
        match self.find_match(pos, &chars) {
            Some(i) => Ok(Some(self.slice_string(pos, i + chars.len()))),
            None => Ok(None),
        }
    }

    /// Drops `length` characters from the front of the unread input.
    fn advance(&mut self, length: usize)
        requires
            length <= old(self).chars().len(),
        ensures
            final(self).chars() == old(self).chars().skip(length as int),
            final(self).valid() == old(self).valid(),
            final(self).read_flag() == old(self).read_flag(),
    {
        proof {
            use_type_invariant(&*self);
        }
        self.start = self.start + length;
        assert(self.buffer@.skip(self.start as int) =~= old(self).chars().skip(length as int));
    }

    /// Drop `length` characters. `None` when nothing was left to read.
    pub fn consume(&mut self, length: usize) -> (r: Result<Option<()>, std::io::Error>)
        requires
            old(self).valid() && old(self).chars().len() > 0 ==> length <= old(self).chars().len(),
        ensures
            r is Err <==> !old(self).valid(),
            final(self).valid() == old(self).valid(),
            final(self).read_flag(),
            r matches Ok(x) ==> (x is None <==> old(self).chars().len() == 0),
            r matches Ok(Some(_)) ==> final(self).chars() == old(self).chars().skip(length as int),
            r matches Ok(None) ==> final(self).chars() == old(self).chars(),
            r is Err ==> final(self).chars() == old(self).chars(),
    {
        proof {
            use_type_invariant(&*self);
        }
        self.has_read = true;
        if !self.valid {
            return Err(utf8_error());
        }
        if self.remaining() == 0 {
            return Ok(None);
        }
        self.advance(length);
        Ok(Some(()))
    }

    pub fn consume_char(&mut self) -> (r: Result<Option<char>, std::io::Error>)
        ensures
            r is Err <==> !old(self).valid(),
            final(self).valid() == old(self).valid(),
            final(self).read_flag(),
            r matches Ok(None) ==> old(self).chars().len() == 0 && final(self).chars() == old(self).chars(),
            r matches Ok(Some(c)) ==> old(self).chars().len() > 0 && c == old(self).chars()[0]
                && final(self).chars() == old(self).chars().skip(1),
            r is Err ==> final(self).chars() == old(self).chars(),
    {
        proof {
            use_type_invariant(&*self);
        }
        self.has_read = true;
        if !self.valid {
            return Err(utf8_error());
        }
        if self.remaining() == 0 {
            return Ok(None);
        }
        let c = self.char_at(0);
        self.advance(1);
        Ok(Some(c))
    }

    /// Read {length} characters returning a smaller string on EOF
    pub fn consume_string(&mut self, length: usize) -> (r: Result<String, std::io::Error>)
        ensures
            r is Err <==> !old(self).valid(),
            final(self).valid() == old(self).valid(),
            final(self).read_flag(),
            r matches Ok(s) ==> {
                let n = if length < old(self).chars().len() { length as int } else { old(self).chars().len() as int };
                &&& s@ == old(self).chars().take(n)
                &&& final(self).chars() == old(self).chars().skip(n)
            },
            r is Err ==> final(self).chars() == old(self).chars(),
    {
        proof {
            use_type_invariant(&*self);
        }
        self.has_read = true;
        if !self.valid {
            return Err(utf8_error());
        }
        let n = self.remaining();
        let k = if length < n { length } else { n };
        let s = self.slice_string(0, k);
        assert(s@ =~= old(self).chars().take(k as int));
        self.advance(k);
        Ok(s)
    }

    /// Will read until eof or `op` is true including the true match
    pub fn consume_until_inclusive<F: Fn(char) -> bool>(&mut self, op: F) -> (r: Result<String, std::io::Error>)
        requires
            callable(op),
        ensures
            r is Err <==> !old(self).valid(),
            final(self).valid() == old(self).valid(),
            final(self).read_flag(),
            r is Err ==> final(self).chars() == old(self).chars(),
            r matches Ok(s) ==> {
                &&& s@ == old(self).chars().take(s@.len() as int)
                &&& final(self).chars() == old(self).chars().skip(s@.len() as int)
                &&& (first_accepted(op, old(self).chars(), 0, s@.len() - 1)
                    || (s@.len() == old(self).chars().len()
                        && all_rejected(op, old(self).chars(), 0, old(self).chars().len() as int)))
            },
    {
        proof {
            use_type_invariant(&*self);
        }
        self.has_read = true;
        if !self.valid {
            return Err(utf8_error());
        }
        let k = match self.find_accepted(0, &op) {
            Some(i) => i + 1,
            None => self.remaining(),
        };
        let s = self.slice_string(0, k);
        assert(s@ =~= old(self).chars().take(k as int));
        self.advance(k);
        Ok(s)
    }

    /// will read until eof or `op` is true excluding the character that matched
    pub fn consume_until_exclusive<F: Fn(char) -> bool>(&mut self, op: F) -> (r: Result<String, std::io::Error>)
        requires
            callable(op),
        ensures
            r is Err <==> !old(self).valid(),
            final(self).valid() == old(self).valid(),
            final(self).read_flag(),
            r is Err ==> final(self).chars() == old(self).chars(),
            r matches Ok(s) ==> {
                &&& s@ == old(self).chars().take(s@.len() as int)
                &&& final(self).chars() == old(self).chars().skip(s@.len() as int)
                &&& (first_accepted(op, old(self).chars(), 0, s@.len() as int)
                    || (s@.len() == old(self).chars().len()
                        && all_rejected(op, old(self).chars(), 0, old(self).chars().len() as int)))
            },
    {
        proof {
            use_type_invariant(&*self);
        }
        self.has_read = true;
        if !self.valid {
            return Err(utf8_error());
        }
        let k = match self.find_accepted(0, &op) {
            Some(i) => i,
            None => self.remaining(),
        };
        let s = self.slice_string(0, k);
        assert(s@ =~= old(self).chars().take(k as int));
        self.advance(k);
        Ok(s)
    }

    /// stop consuming by pattern, if eof returns whatever is captured
    pub fn consume_until_match_inclusive(&mut self, pattern: &str) -> (r: Result<String, std::io::Error>)
        ensures
            r is Err <==> !old(self).valid(),
            final(self).valid() == old(self).valid(),
            final(self).read_flag(),
            r is Err ==> final(self).chars() == old(self).chars(),
            r matches Ok(s) ==> {
                let n = s@.len() as int;
                &&& s@ == old(self).chars().take(n)
                &&& final(self).chars() == old(self).chars().skip(n)
                &&& n <= old(self).chars().len()
                // the first end of the pattern, or everything
                &&& (ends_with_at(old(self).chars(), pattern@, n) || n == old(self).chars().len())
                &&& forall|j: int| 0 <= j < n ==> !ends_with_at(old(self).chars(), pattern@, j)
            },
    {
        proof {
            use_type_invariant(&*self);
        }
        self.has_read = true;
        if !self.valid {
            return Err(utf8_error());
        }
        let chars = str_chars(pattern);
        let m = chars.len();
        let n = self.remaining();
        let mut j: usize = 0;
        while j < n && !(j >= m && self.matches_here(&chars, j - m))
            invariant
                n == self.chars().len(),
                chars@ == pattern@,
                m == chars@.len(),
                0 <= j <= n,
                forall|i: int| 0 <= i < j ==> !ends_with_at(self.chars(), pattern@, i),
            decreases n - j,
        {
            j += 1;
        }
        let s = self.slice_string(0, j);
        assert(s@ =~= old(self).chars().take(j as int));
        self.advance(j);
        Ok(s)
    }
}

} // verus!
