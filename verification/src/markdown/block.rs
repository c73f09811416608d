//! The block level tokenizer of the markdown dialect.
//!
//! Each reader of a block looks at the front of the unread input. When the
//! block is not there it reads nothing and gives `None`.
use vstd::prelude::*;

use crate::char_reader::{callable, find_char, is_char_test, lemma_all_rejected_find, lemma_first_accepted_find, line_from, CharReader};
use crate::html::{blen, byte_len, min, Step};
use crate::markdown::{sanitize_text, sanitized_text, split_char, split_range, trim, trim_bounds, TableAlign, Token};
use crate::parse_error::ParseError;
use crate::text::{push_str, str_chars, string_from_range};

verus! {

/// Where the first character after the indentation of `s` is, counting
/// from `i`: up to three spaces may come first.
pub open spec fn indent_from(s: Seq<char>, i: int) -> Option<int>
    decreases 4 - i,
{
    if i < 0 || i >= 4 || i >= s.len() {
        None
    } else if s[i] == ' ' {
        indent_from(s, i + 1)
    } else {
        Some(i)
    }
}

/// Where a block marker can start: after at most three spaces.
pub open spec fn indent(s: Seq<char>) -> Option<int> {
    indent_from(s, 0)
}

/// How many characters the first line of `s` takes, its newline included.
pub open spec fn line_len(s: Seq<char>) -> int {
    match find_char(s, '\n', 0) {
        Some(i) => i + 1,
        None => s.len() as int,
    }
}

/// `s` from `n` on; empty when `s` is shorter.
pub open spec fn drop(s: Seq<char>, n: int) -> Seq<char> {
    if n <= s.len() {
        s.skip(n)
    } else {
        Seq::empty()
    }
}

/// The number of `#` from `i` on, looking at `left` characters at most, up
/// to a space or the end of the input; `None` when another character comes
/// first.
pub open spec fn hashes(s: Seq<char>, i: int, left: int) -> Option<int>
    decreases left,
{
    if left <= 0 || i < 0 || i >= s.len() || s[i] == ' ' {
        Some(0)
    } else if s[i] == '#' {
        match hashes(s, i + 1, left - 1) {
            Some(d) => Some(d + 1),
            None => None,
        }
    } else {
        None
    }
}

/// A heading `# text` at the front of `s`: its depth, its text and how
/// many characters it takes (its whole line). The text is the line without
/// as many characters as the marker and one more, trimmed.
pub open spec fn heading_step(s: Seq<char>) -> Option<(int, Seq<char>, int)> {
    match indent(s) {
        Some(p) => if s[p] == '#' {
            match hashes(s, p, 7) {
                Some(d) => {
                    let n = line_len(s);
                    Some((d, sanitized_text(drop(s.take(n), d + 1)), n))
                },
                None => None,
            }
        } else {
            None
        },
        None => None,
    }
}

/// `t` is a heading of `depth` with `text` and no tokens yet.
pub open spec fn is_heading(t: Token, depth: int, text: Seq<char>) -> bool {
    t matches Token::Heading { text: x, tokens, depth: d } && x@ == text && tokens@.len() == 0 && d == depth
}

/// Where the indentation of the unread input ends, if a block may start there.
pub(crate) fn indentation(reader: &CharReader) -> (r: Result<Option<usize>, ParseError>)
    ensures
        r is Err <==> !reader.valid(),
        r matches Ok(Some(p)) ==> indent(reader.chars()) == Some(p as int) && p < 4 && p < reader.chars().len(),
        r matches Ok(None) ==> indent(reader.chars()) is None,
{
    let ghost s = reader.chars();
    let mut i: usize = 0;
    while i < 4
        invariant
            s == reader.chars(),
            i <= 4,
            indent_from(s, 0) == indent_from(s, i as int),
        decreases 4 - i,
    {
        match reader.peek_char(i) {
            Ok(Some(' ')) => {},
            Ok(Some(_)) => return Ok(Some(i)),
            Ok(None) => return Ok(None),
            Err(e) => return Err(ParseError::from_io_error(e)),
        }
        i += 1;
    }
    if let Err(e) = reader.peek_char(0) {
        return Err(ParseError::from_io_error(e));
    }
    Ok(None)
}

/// Consume the first line, its newline included.
pub(crate) fn consume_line(reader: &mut CharReader) -> (r: Result<String, ParseError>)
    ensures
        final(reader).valid() == old(reader).valid(),
        r is Err <==> !old(reader).valid(),
        r is Err ==> final(reader).chars() == old(reader).chars(),
        r matches Ok(l) ==> l@ == old(reader).chars().take(line_len(old(reader).chars()))
            && final(reader).chars() == old(reader).chars().skip(line_len(old(reader).chars()))
            && final(reader).read_flag(),
{
    let ghost s = reader.chars();
    let nl = |c: char| -> (r: bool) ensures r == (c == '\n') { c == '\n' };
    match reader.consume_until_inclusive(nl) {
        Ok(l) => {
            proof {
                if l@.len() >= 1 && crate::char_reader::first_accepted(nl, s, 0, l@.len() - 1) {
                    lemma_first_accepted_find(nl, '\n', s, 0, l@.len() - 1);
                } else {
                    lemma_all_rejected_find(nl, '\n', s, 0);
                }
            }
            Ok(l)
        },
        Err(e) => Err(ParseError::from_io_error(e)),
    }
}

/// Heading (#*{depth} {text})
pub fn heading(reader: &mut CharReader) -> (r: Result<Option<Token>, ParseError>)
    ensures
        final(reader).valid() == old(reader).valid(),
        !old(reader).valid() ==> r is Err && final(reader).chars() == old(reader).chars(),
        old(reader).valid() ==> match heading_step(old(reader).chars()) {
            None => r matches Ok(None) && final(reader).chars() == old(reader).chars()
                && final(reader).read_flag() == old(reader).read_flag(),
            Some((depth, text, n)) => r matches Ok(Some(t)) && is_heading(t, depth, text)
                && final(reader).chars() == old(reader).chars().skip(n) && final(reader).read_flag()
                && 1 <= n <= old(reader).chars().len(),
        },
{
    let ghost s = reader.chars();
    let pos = match indentation(reader) {
        Ok(Some(p)) => p,
        Ok(None) => return Ok(None),
        Err(e) => return Err(e),
    };
    proof {
        lemma_line_len_bounds(s);
    }
    match reader.peek_char(pos) {
        Ok(Some('#')) => {},
        Ok(_) => return Ok(None),
        Err(e) => return Err(ParseError::from_io_error(e)),
    }
    // the run of `#` before a space, in the next seven characters
    let mut depth: usize = 0;
    while depth < 7
        invariant
            s == reader.chars(),
            reader.valid(),
            pos < 4,
            indent(s) == Some(pos as int),
            s[pos as int] == '#',
            depth <= 7,
            hashes(s, pos as int, 7) == match hashes(s, pos + depth, 7 - depth) {
                Some(d) => Some(d + depth),
                None => None::<int>,
            },
        ensures
            s == reader.chars(),
            reader.valid(),
            depth <= 7,
            hashes(s, pos as int, 7) == Some(depth as int),
        decreases 7 - depth,
    {
        match reader.peek_char(pos + depth) {
            Ok(Some('#')) => {},
            Ok(Some(' ')) => break,
            Ok(None) => break,
            Ok(Some(_)) => {
                proof {
                    assert(hashes(s, pos + depth, 7 - depth) is None);
                }
                return Ok(None);
            },
            Err(e) => return Err(ParseError::from_io_error(e)),
        }
        depth += 1;
    }
    let line = match consume_line(reader) {
        Ok(l) => l,
        Err(e) => return Err(e),
    };
    let cs = str_chars(line.as_str());
    let from = if depth + 1 < cs.len() { depth + 1 } else { cs.len() };
    let rest = string_from_range(&cs, from, cs.len());
    proof {
        assert(rest@ =~= drop(line@, depth + 1));
    }
    let text = sanitize_text(rest.as_str());
    Ok(Some(Token::Heading { depth: depth as u8, text, tokens: Vec::new() }))
}

pub proof fn lemma_find_char_bounds(s: Seq<char>, c: char, pos: int)
    ensures
        find_char(s, c, pos) matches Some(i) ==> pos <= i < s.len() && s[i] == c,
    decreases s.len() - pos,
{
    if pos >= 0 && pos < s.len() && s[pos] != c {
        lemma_find_char_bounds(s, c, pos + 1);
    }
}

pub proof fn lemma_line_len_bounds(s: Seq<char>)
    ensures
        s.len() > 0 ==> 1 <= line_len(s) <= s.len(),
        s.len() == 0 ==> line_len(s) == 0,
{
    lemma_find_char_bounds(s, '\n', 0);
}

pub proof fn lemma_line_from(s: Seq<char>, pos: int)
    requires
        0 <= pos <= s.len(),
    ensures
        pos + line_from(s, pos).len() <= s.len(),
        line_from(s, pos) == s.subrange(pos, pos + line_from(s, pos).len()),
        forall|j: int| 0 <= j < line_from(s, pos).len() ==> line_from(s, pos)[j] != '\n',
    decreases s.len() - pos,
{
    if pos < s.len() && s[pos] != '\n' {
        lemma_line_from(s, pos + 1);
        assert(line_from(s, pos) =~= s.subrange(pos, pos + line_from(s, pos).len()));
    }
}

/// A string of one ASCII character repeated has as many bytes as characters.
pub proof fn lemma_blen_repeated(s: Seq<char>, c: char)
    requires
        c == '=' || c == '-',
        forall|j: int| 0 <= j < s.len() ==> s[j] == c,
    ensures
        blen(s) == s.len(),
    decreases s.len(),
{
    if s.len() > 0 {
        assert(forall|j: int| 0 <= j < s.drop_first().len() ==> s.drop_first()[j] == s[j + 1]);
        lemma_blen_repeated(s.drop_first(), c);
        assert(('=' as u32) == 61u32 && ('-' as u32) == 45u32);
        assert(vstd::utf8::has_width_1_encoding(s[0] as u32));
        assert(vstd::utf8::encode_utf8(s) =~= vstd::utf8::encode_scalar(s[0] as u32) + vstd::utf8::encode_utf8(s.drop_first()));
    }
}

/// `s` without its spaces.
pub open spec fn without_spaces(s: Seq<char>) -> Seq<char>
    decreases s.len(),
{
    if s.len() == 0 {
        s
    } else if s.last() == ' ' {
        without_spaces(s.drop_last())
    } else {
        without_spaces(s.drop_last()).push(s.last())
    }
}

/// A thematic break `***`, `---` or `___` (spaces between allowed) at the
/// front of `s`, and how many characters it takes: as many as its line has
/// bytes, after the indentation.
pub open spec fn break_step(s: Seq<char>) -> Option<int> {
    match indent(s) {
        Some(p) => if s[p] == '*' || s[p] == '-' || s[p] == '_' {
            let line = line_from(s, p);
            let t = without_spaces(line);
            if t.len() >= 3 && (t.take(3) == "***"@ || t.take(3) == "---"@ || t.take(3) == "___"@) {
                Some(min(p + blen(line), s.len() as int))
            } else {
                None
            }
        } else {
            None
        },
        None => None,
    }
}

/// `s` without its spaces.
fn remove_spaces(s: &str) -> (r: Vec<char>)
    ensures
        r@ == without_spaces(s@),
{
    let cs = str_chars(s);
    let mut r: Vec<char> = Vec::new();
    let mut i: usize = 0;
    while i < cs.len()
        invariant
            i <= cs.len(),
            cs@ == s@,
            r@ == without_spaces(s@.take(i as int)),
        decreases cs.len() - i,
    {
        proof {
            assert(s@.take(i + 1).drop_last() =~= s@.take(i as int));
        }
        if cs[i] != ' ' {
            r.push(cs[i]);
        }
        i += 1;
    }
    proof {
        assert(s@.take(cs.len() as int) =~= s@);
    }
    r
}

/// Whether the first three of `t` are `c`.
fn starts_with_three(t: &Vec<char>, c: char) -> (r: bool)
    ensures
        r == (t@.len() >= 3 && t@.take(3) == seq![c, c, c]),
{
    let r = t.len() >= 3 && t[0] == c && t[1] == c && t[2] == c;
    proof {
        if t@.len() >= 3 && t@.take(3) == seq![c, c, c] {
            assert(t@.take(3)[0] == c && t@.take(3)[1] == c && t@.take(3)[2] == c);
        }
        if r {
            assert(t@.take(3) =~= seq![c, c, c]);
        }
    }
    r
}

/// A thematic break (`***`, `---`, `___`).
pub fn thematic_break(reader: &mut CharReader) -> (r: Result<Option<Token>, ParseError>)
    ensures
        final(reader).valid() == old(reader).valid(),
        !old(reader).valid() ==> r is Err && final(reader).chars() == old(reader).chars(),
        old(reader).valid() ==> match break_step(old(reader).chars()) {
            None => r matches Ok(None) && final(reader).chars() == old(reader).chars()
                && final(reader).read_flag() == old(reader).read_flag(),
            Some(n) => r matches Ok(Some(t)) && t is ThematicBreak && final(reader).chars() == old(reader).chars().skip(n)
                && final(reader).read_flag() && 1 <= n <= old(reader).chars().len(),
        },
{
    let ghost s = reader.chars();
    let pos = match indentation(reader) {
        Ok(Some(p)) => p,
        Ok(None) => return Ok(None),
        Err(e) => return Err(e),
    };
    match reader.peek_char(pos) {
        Ok(Some('*')) | Ok(Some('-')) | Ok(Some('_')) => {},
        Ok(_) => return Ok(None),
        Err(e) => return Err(ParseError::from_io_error(e)),
    }
    let line = match reader.peek_line_from(pos) {
        Ok(l) => l,
        Err(e) => return Err(ParseError::from_io_error(e)),
    };
    let t = remove_spaces(line.as_str());
    proof {
        reveal_strlit("***");
        reveal_strlit("---");
        reveal_strlit("___");
        assert("***"@ =~= seq!['*', '*', '*']);
        assert("---"@ =~= seq!['-', '-', '-']);
        assert("___"@ =~= seq!['_', '_', '_']);
    }
    if !(starts_with_three(&t, '*') || starts_with_three(&t, '-') || starts_with_three(&t, '_')) {
        return Ok(None);
    }
    let bl = byte_len(&line);
    let n = pos.saturating_add(bl);
    let _total = reader.remaining_len();
    proof {
        lemma_line_from(s, pos as int);
        assert(break_step(s) == Some(min(pos + blen(line@), s.len() as int)));
        assert(min(n as int, s.len() as int) == min(pos + blen(line@), s.len() as int));
    }
    match reader.consume_string(n) {
        Ok(_) => {},
        Err(e) => return Err(ParseError::from_io_error(e)),
    }
    Ok(Some(Token::ThematicBreak))
}

/// An underline of `=` (depth 1) or `-` (depth 2) at the front of `s`, three
/// at least, making the paragraph before it a heading: the depth and how
/// many characters the underline takes.
pub open spec fn setext_step(s: Seq<char>) -> Option<(int, int)> {
    match indent(s) {
        Some(p) => {
            let line = line_from(s, p);
            let c = s[p];
            if (c == '=' || c == '-') && line.len() >= 3 && forall|j: int| 0 <= j < line.len() ==> line[j] == c {
                Some((if c == '=' { 1int } else { 2int }, p + line.len()))
            } else {
                None
            }
        },
        None => None,
    }
}

/// Whether every character of `line` is `c`.
fn all_chars(line: &str, c: char) -> (r: bool)
    ensures
        r == forall|j: int| 0 <= j < line@.len() ==> line@[j] == c,
{
    let cs = str_chars(line);
    let mut i: usize = 0;
    while i < cs.len()
        invariant
            i <= cs.len(),
            cs@ == line@,
            forall|j: int| 0 <= j < i ==> line@[j] == c,
        decreases cs.len() - i,
    {
        if cs[i] != c {
            return false;
        }
        i += 1;
    }
    true
}

/// https://spec.commonmark.org/0.30/#setext-heading
///
/// Only after a paragraph: the paragraph is taken off `tokens` and comes
/// back as the heading.
pub fn setext_heading(reader: &mut CharReader, tokens: &mut Vec<Token>) -> (r: Result<Option<Token>, ParseError>)
    ensures
        final(reader).valid() == old(reader).valid(),
        !old(reader).valid() && old(tokens)@.len() > 0 && old(tokens)@.last() is Paragraph ==> r is Err,
        r is Err ==> final(reader).chars() == old(reader).chars() && final(tokens)@ == old(tokens)@,
        old(reader).valid() ==> match (old(tokens)@.last(), setext_step(old(reader).chars())) {
            (Token::Paragraph { text, .. }, Some((depth, n))) if old(tokens)@.len() > 0 => r matches Ok(Some(t))
                && is_heading(t, depth, text@)
                && final(tokens)@ == old(tokens)@.drop_last()
                && final(reader).chars() == old(reader).chars().skip(n) && final(reader).read_flag()
                && 1 <= n <= old(reader).chars().len(),
            _ => r matches Ok(None) && final(reader).chars() == old(reader).chars()
                && final(reader).read_flag() == old(reader).read_flag()
                && final(tokens)@ == old(tokens)@,
        },
{
    let ghost s = reader.chars();
    let text = match tokens.last() {
        Some(Token::Paragraph { text, .. }) => text.clone(),
        _ => return Ok(None),
    };
    let pos = match indentation(reader) {
        Ok(Some(p)) => p,
        Ok(None) => return Ok(None),
        Err(e) => return Err(e),
    };
    let c = match reader.peek_char(pos) {
        Ok(Some(c)) => c,
        Ok(None) => return Ok(None),
        Err(e) => return Err(ParseError::from_io_error(e)),
    };
    if c != '=' && c != '-' {
        return Ok(None);
    }
    let line = match reader.peek_line_from(pos) {
        Ok(l) => l,
        Err(e) => return Err(ParseError::from_io_error(e)),
    };
    if byte_len(&line) < 3 || !all_chars(line.as_str(), c) {
        proof {
            if line@.len() >= 3 && forall|j: int| 0 <= j < line@.len() ==> line@[j] == c {
                lemma_blen_repeated(line@, c);
            }
        }
        return Ok(None);
    }
    let n = str_chars(line.as_str()).len();
    let _total = reader.remaining_len();
    proof {
        lemma_line_from(s, pos as int);
        lemma_blen_repeated(line@, c);
        assert(setext_step(s) == Some((if c == '=' { 1int } else { 2int }, pos + n)));
    }
    match reader.consume_string(pos + n) {
        Ok(_) => {},
        Err(e) => return Err(ParseError::from_io_error(e)),
    }
    tokens.pop();
    let depth: u8 = if c == '=' { 1 } else { 2 };
    Ok(Some(Token::Heading { text, tokens: Vec::new(), depth }))
}

/// Whether `s` starts with four spaces.
pub open spec fn four_spaces(s: Seq<char>) -> bool {
    s.len() >= 4 && s[0] == ' ' && s[1] == ' ' && s[2] == ' ' && s[3] == ' '
}

/// The lines at the front of `s` that start with four spaces: their text
/// without those spaces, and how many characters they take.
pub open spec fn indented_lines(s: Seq<char>) -> (Seq<char>, int)
    decreases s.len(),
{
    let l = line_len(s);
    if four_spaces(s) && 4 <= l <= s.len() {
        let (t, m) = indented_lines(s.skip(l));
        (s.subrange(4, l) + t, l + m)
    } else {
        (Seq::empty(), 0)
    }
}

/// Whether the unread input starts with four spaces.
fn starts_with_four_spaces(reader: &CharReader) -> (r: Result<bool, ParseError>)
    ensures
        r is Err <==> !reader.valid(),
        r matches Ok(b) ==> b == four_spaces(reader.chars()),
{
    match reader.peek_string(4) {
        Ok(p) => {
            let cs = str_chars(p.as_str());
            let r = cs.len() == 4 && cs[0] == ' ' && cs[1] == ' ' && cs[2] == ' ' && cs[3] == ' ';
            proof {
                if reader.chars().len() >= 4 {
                    assert(cs@ == reader.chars().take(4));
                    assert(cs@[0] == reader.chars()[0] && cs@[1] == reader.chars()[1]);
                    assert(cs@[2] == reader.chars()[2] && cs@[3] == reader.chars()[3]);
                }
            }
            Ok(r)
        },
        Err(e) => Err(ParseError::from_io_error(e)),
    }
}

/// `r` is a code block without info and with `text`.
pub open spec fn is_code_block(r: Result<Option<Token>, ParseError>, text: Seq<char>) -> bool {
    r matches Ok(Some(Token::CodeBlock { info: None, text: x })) && x@ == text
}

/// `tokens` ends with a paragraph.
pub open spec fn after_paragraph(tokens: Seq<Token>) -> bool {
    tokens.len() > 0 && tokens.last() is Paragraph
}

/// https://spec.commonmark.org/0.30/#indented-code-blocks
///
/// A paragraph is not interrupted unless a blank line came first. The lines
/// are read even when they hold nothing, and then no block is given.
pub fn indented_code(reader: &mut CharReader, tokens: &[Token], blank_line: bool) -> (r: Result<Option<Token>, ParseError>)
    ensures
        final(reader).valid() == old(reader).valid(),
        after_paragraph(tokens@) && !blank_line ==> (r matches Ok(None)) && final(reader).chars() == old(reader).chars()
            && final(reader).read_flag() == old(reader).read_flag(),
        !(after_paragraph(tokens@) && !blank_line) ==> {
            &&& !old(reader).valid() ==> r is Err && final(reader).chars() == old(reader).chars()
            &&& old(reader).valid() ==> {
                let (t, m) = indented_lines(old(reader).chars());
                &&& final(reader).chars() == old(reader).chars().skip(m)
                &&& m == 0 ==> final(reader).read_flag() == old(reader).read_flag()
                &&& m > 0 ==> final(reader).read_flag()
                &&& 0 <= m <= old(reader).chars().len()
                &&& t.len() > 0 ==> m >= 1
                &&& t.len() == 0 ==> (r matches Ok(None))
                &&& t.len() > 0 ==> is_code_block(r, t)
            }
        },
{
    if tokens.len() > 0 && !blank_line {
        if let Token::Paragraph { .. } = &tokens[tokens.len() - 1] {
            return Ok(None);
        }
    }
    let ghost s = reader.chars();
    let ghost flag = reader.read_flag();
    let mut text = String::new();
    let ghost mut consumed: int = 0;
    loop
        invariant
            reader.valid() == old(reader).valid(),
            s == old(reader).chars(),
            flag == old(reader).read_flag(),
            0 <= consumed <= s.len(),
            reader.chars() == s.skip(consumed),
            consumed == 0 ==> reader.read_flag() == flag,
            consumed > 0 ==> reader.read_flag(),
            text@ + indented_lines(reader.chars()).0 == indented_lines(s).0,
            consumed + indented_lines(reader.chars()).1 == indented_lines(s).1,
            !reader.valid() ==> consumed == 0,
            !(after_paragraph(tokens@) && !blank_line),
        ensures
            reader.valid() == old(reader).valid(),
            reader.valid(),
            0 <= consumed <= s.len(),
            reader.chars() == s.skip(consumed),
            consumed == 0 ==> reader.read_flag() == flag,
            consumed > 0 ==> reader.read_flag(),
            text@ == indented_lines(s).0,
            consumed == indented_lines(s).1,
        decreases reader.chars().len(),
    {
        let four = match starts_with_four_spaces(reader) {
            Ok(b) => b,
            Err(e) => return Err(e),
        };
        let ghost cur = reader.chars();
        proof {
            lemma_line_len_bounds(cur);
            lemma_find_char_bounds(cur, '\n', 0);
        }
        if !four {
            proof {
                assert(text@ + Seq::<char>::empty() =~= text@);
            }
            break;
        }
        let line = match consume_line(reader) {
            Ok(l) => l,
            Err(e) => return Err(e),
        };
        let cs = str_chars(line.as_str());
        let part = string_from_range(&cs, 4, cs.len());
        push_str(&mut text, part.as_str());
        proof {
            let l = line_len(cur);
            assert(4 <= l);
            assert(part@ == cur.subrange(4, l));
            assert(s.skip(consumed + l) =~= cur.skip(l));
            consumed = consumed + l;
        }
    }
    if text.as_str().is_empty() {
        return Ok(None);
    }
    Ok(Some(Token::CodeBlock { info: None, text }))
}

/// The number of `c` in a row from `i` on.
pub open spec fn run_from(s: Seq<char>, i: int, c: char) -> int
    decreases s.len() - i,
{
    if 0 <= i < s.len() && s[i] == c {
        1 + run_from(s, i + 1, c)
    } else {
        0
    }
}

/// Whether `line` closes a fence of `c`: the first character that is not a
/// space, among the first four, is `c`.
pub open spec fn closes_from(line: Seq<char>, i: int, c: char) -> bool
    decreases 4 - i,
{
    if i < 0 || i >= 4 || i >= line.len() {
        false
    } else if line[i] == c {
        true
    } else if line[i] == ' ' {
        closes_from(line, i + 1, c)
    } else {
        false
    }
}

/// The number of spaces `line` starts with, counting from `i`, `k` at most.
pub open spec fn spaces_upto(line: Seq<char>, i: int, k: int) -> int
    decreases k - i,
{
    if 0 <= i < k && i < line.len() && line[i] == ' ' {
        spaces_upto(line, i + 1, k)
    } else {
        i
    }
}

/// The lines of a fenced code block up to its closing line: their text,
/// each without as much of its indentation as the fence had, and how many
/// characters they take, the closing line included.
pub open spec fn fenced_body(s: Seq<char>, c: char, indent: int) -> (Seq<char>, int)
    decreases s.len(),
{
    let l = line_len(s);
    let line = s.take(l);
    if s.len() == 0 || !(1 <= l <= s.len()) {
        (Seq::empty(), 0)
    } else if closes_from(line, 0, c) {
        (Seq::empty(), l)
    } else {
        let (t, m) = fenced_body(s.skip(l), c, indent);
        (line.skip(spaces_upto(line, 0, indent)) + t, l + m)
    }
}

/// A fenced code block at the front of `s`: its info and text, and how many
/// characters it takes. After the fence as many characters are dropped as
/// the trimmed info has bytes, and one more; when that is more than there
/// is, the block overruns the input.
pub open spec fn fence_step(s: Seq<char>) -> Step<(Seq<char>, Seq<char>)> {
    match indent(s) {
        Some(p) => {
            let c = s[p];
            let k = run_from(s, p, c);
            if !(c == '~' || c == '`') || k < 3 {
                Step::NotFound
            } else {
                match find_char(s, '\n', p + k) {
                    None => Step::NotFound,
                    Some(e) => {
                        let info = sanitized_text(s.subrange(p + k, e + 1));
                        let n = p + k + blen(info) + 1;
                        if info.contains(c) {
                            Step::NotFound
                        } else if n > s.len() {
                            Step::Overrun
                        } else {
                            let (text, m) = fenced_body(s.skip(n), c, p);
                            Step::Found((info, text), n + m)
                        }
                    },
                }
            }
        },
        None => Step::NotFound,
    }
}

pub proof fn lemma_run_from_bounds(s: Seq<char>, i: int, c: char)
    requires
        0 <= i <= s.len(),
    ensures
        0 <= run_from(s, i, c) <= s.len() - i,
        forall|j: int| i <= j < i + run_from(s, i, c) ==> s[j] == c,
        i + run_from(s, i, c) < s.len() ==> s[i + run_from(s, i, c)] != c,
    decreases s.len() - i,
{
    if i < s.len() && s[i] == c {
        lemma_run_from_bounds(s, i + 1, c);
    }
}

pub proof fn lemma_fenced_body_len(s: Seq<char>, c: char, indent: int)
    ensures
        0 <= fenced_body(s, c, indent).1 <= s.len(),
    decreases s.len(),
{
    let l = line_len(s);
    if s.len() > 0 && 1 <= l <= s.len() && !closes_from(s.take(l), 0, c) {
        lemma_fenced_body_len(s.skip(l), c, indent);
    }
}

/// Whether `v` holds `c`.
fn contains_char(v: &Vec<char>, c: char) -> (r: bool)
    ensures
        r == v@.contains(c),
{
    let mut i: usize = 0;
    while i < v.len()
        invariant
            i <= v.len(),
            forall|j: int| 0 <= j < i ==> v@[j] != c,
        decreases v.len() - i,
    {
        if v[i] == c {
            assert(v@[i as int] == c);
            return true;
        }
        i += 1;
    }
    false
}

/// The info of a fenced code block: none where the trimmed info is empty.
pub open spec fn info_opt(info: Seq<char>) -> Option<Seq<char>> {
    if info.len() == 0 {
        None
    } else {
        Some(info)
    }
}

/// https://spec.commonmark.org/0.30/#fenced-code-blocks
pub fn fenced_code(reader: &mut CharReader) -> (r: Result<Option<Token>, ParseError>)
    ensures
        final(reader).valid() == old(reader).valid(),
        !old(reader).valid() ==> r is Err && final(reader).chars() == old(reader).chars(),
        old(reader).valid() ==> match fence_step(old(reader).chars()) {
            Step::NotFound => (r matches Ok(None)) && final(reader).chars() == old(reader).chars()
                && final(reader).read_flag() == old(reader).read_flag(),
            Step::Overrun => r is Err && final(reader).chars() == old(reader).chars(),
            Step::Found((info, text), n) => (r matches Ok(Some(Token::CodeBlock { info: i, text: t })))
                && match r->Ok_0->Some_0->CodeBlock_info {
                    Some(x) => info_opt(info) == Some(x@),
                    None => info_opt(info) is None,
                }
                && r->Ok_0->Some_0->CodeBlock_text@ == text
                && final(reader).chars() == old(reader).chars().skip(n) && final(reader).read_flag()
                && 1 <= n <= old(reader).chars().len(),
        },
{
    let ghost s = reader.chars();
    let indent = match indentation(reader) {
        Ok(Some(p)) => p,
        Ok(None) => return Ok(None),
        Err(e) => return Err(e),
    };
    let fence_type = match reader.peek_char(indent) {
        Ok(Some(c)) => c,
        Ok(None) => return Ok(None),
        Err(e) => return Err(ParseError::from_io_error(e)),
    };
    if fence_type != '~' && fence_type != '`' {
        return Ok(None);
    }
    let total = reader.remaining_len();
    proof {
        lemma_run_from_bounds(s, indent as int, fence_type);
    }
    let mut count: usize = 1;
    while indent + count < total
        invariant
            s == reader.chars(),
            reader.valid(),
            total == s.len(),
            indent < s.len(),
            s[indent as int] == fence_type,
            1 <= count,
            indent + count <= total,
            run_from(s, indent as int, fence_type) == count + run_from(s, indent + count, fence_type),
        ensures
            s == reader.chars(),
            reader.valid(),
            1 <= count,
            indent + count <= total,
            run_from(s, indent as int, fence_type) == count,
        decreases total - indent - count,
    {
        match reader.peek_char(indent + count) {
            Ok(Some(c)) => {
                if c != fence_type {
                    break;
                }
            },
            _ => break,
        }
        count += 1;
    }
    if count < 3 {
        return Ok(None);
    }
    let nl = |c: char| -> (r: bool) ensures r == (c == '\n') { c == '\n' };
    let raw = match reader.peek_until_inclusive_from(indent + count, nl) {
        Ok(Some(raw)) => raw,
        Ok(None) => {
            proof {
                lemma_all_rejected_find(nl, '\n', s, indent + count);
            }
            return Ok(None);
        },
        Err(e) => return Err(ParseError::from_io_error(e)),
    };
    let ghost e: int = indent + count + raw@.len() - 1;
    proof {
        lemma_first_accepted_find(nl, '\n', s, indent + count, e);
    }
    let info = sanitize_text(raw.as_str());
    let info_chars = str_chars(info.as_str());
    if contains_char(&info_chars, fence_type) {
        return Ok(None);
    }
    let bi = byte_len(&info);
    if bi >= total - (indent + count) {
        return Err(ParseError::invalid("fenced code block runs past the end of the input"));
    }
    let n = indent + count + bi + 1;
    match reader.consume(n) {
        Ok(_) => {},
        Err(e) => return Err(ParseError::from_io_error(e)),
    }
    let ghost s1 = s.skip(n as int);
    let mut text = String::new();
    let ghost mut consumed: int = 0;
    loop
        invariant_except_break
            0 <= consumed <= s1.len(),
            reader.chars() == s1.skip(consumed),
            text@ + fenced_body(reader.chars(), fence_type, indent as int).0 == fenced_body(s1, fence_type, indent as int).0,
            consumed + fenced_body(reader.chars(), fence_type, indent as int).1 == fenced_body(s1, fence_type, indent as int).1,
        invariant
            reader.valid(),
            reader.read_flag(),
            indent < 4,
        ensures
            reader.valid(),
            reader.read_flag(),
            text@ == fenced_body(s1, fence_type, indent as int).0,
            reader.chars() == s1.skip(fenced_body(s1, fence_type, indent as int).1),
        decreases reader.chars().len(),
    {
        let ghost cur = reader.chars();
        proof {
            lemma_line_len_bounds(cur);
        }
        let line = match consume_line(reader) {
            Ok(l) => l,
            Err(e) => return Err(e),
        };
        let cs = str_chars(line.as_str());
        if cs.len() == 0 {
            proof {
                assert(text@ + Seq::<char>::empty() =~= text@);
            }
            break;
        }
        proof {
            let l = line_len(cur);
            assert(s1.skip(consumed + l) =~= cur.skip(l));
        }
        if closes(&cs, fence_type) {
            proof {
                assert(text@ + Seq::<char>::empty() =~= text@);
                consumed = consumed + line_len(cur);
            }
            break;
        }
        let pos = leading_spaces_upto(&cs, indent);
        let part = string_from_range(&cs, pos, cs.len());
        push_str(&mut text, part.as_str());
        proof {
            assert(part@ == cur.take(line_len(cur)).skip(pos as int));
            consumed = consumed + line_len(cur);
        }
    }
    proof {
        let m = fenced_body(s1, fence_type, indent as int).1;
        lemma_fenced_body_len(s1, fence_type, indent as int);
        assert(raw@ == s.subrange(indent + count, e + 1));
        assert(s1.skip(m) =~= s.skip(n + m));
        assert(fence_step(s) == Step::Found((info@, text@), n + m));
    }
    let info = if info_chars.len() == 0 {
        None
    } else {
        Some(info)
    };
    Ok(Some(Token::CodeBlock { info, text }))
}

/// Whether `line` closes a fence of `c`.
fn closes(line: &Vec<char>, c: char) -> (r: bool)
    ensures
        r == closes_from(line@, 0, c),
{
    let mut i: usize = 0;
    while i < 4 && i < line.len()
        invariant
            i <= 4,
            closes_from(line@, 0, c) == closes_from(line@, i as int, c),
        decreases 4 - i,
    {
        if line[i] == c {
            return true;
        }
        if line[i] != ' ' {
            return false;
        }
        i += 1;
    }
    false
}

/// The number of spaces `line` starts with, `k` at most.
fn leading_spaces_upto(line: &Vec<char>, k: usize) -> (r: usize)
    ensures
        r == spaces_upto(line@, 0, k as int),
        r <= line@.len(),
{
    let mut i: usize = 0;
    while i < k && i < line.len() && line[i] == ' '
        invariant
            i <= k,
            i <= line@.len(),
            spaces_upto(line@, 0, k as int) == spaces_upto(line@, i as int, k as int),
        decreases k - i,
    {
        i += 1;
    }
    i
}

pub proof fn lemma_blen_at_least_len(s: Seq<char>)
    ensures
        blen(s) >= s.len(),
    decreases s.len(),
{
    if s.len() > 0 {
        lemma_blen_at_least_len(s.drop_first());
        assert(vstd::utf8::encode_utf8(s) =~= vstd::utf8::encode_scalar(s[0] as u32) + vstd::utf8::encode_utf8(s.drop_first()));
    }
}

/// `s` without the `|` it starts with.
pub open spec fn trim_start_pipes(s: Seq<char>) -> Seq<char>
    decreases s.len(),
{
    if s.len() > 0 && s[0] == '|' {
        trim_start_pipes(s.skip(1))
    } else {
        s
    }
}

/// `s` without the `|` it ends with.
pub open spec fn trim_end_pipes(s: Seq<char>) -> Seq<char>
    decreases s.len(),
{
    if s.len() > 0 && s.last() == '|' {
        trim_end_pipes(s.drop_last())
    } else {
        s
    }
}

/// The cells of a table row: the trimmed line without its outer `|`, split
/// at each `|`, each piece trimmed.
pub open spec fn row_cells(line: Seq<char>) -> Seq<Seq<char>> {
    let parts = split_char(trim_end_pipes(trim_start_pipes(trim(line))), '|');
    Seq::new(parts.len(), |i: int| trim(parts[i]))
}

/// The pieces of `parts` that are not blank.
pub open spec fn nonblank(parts: Seq<Seq<char>>) -> Seq<Seq<char>>
    decreases parts.len(),
{
    if parts.len() == 0 {
        Seq::empty()
    } else if trim(parts.last()).len() > 0 {
        nonblank(parts.drop_last()).push(parts.last())
    } else {
        nonblank(parts.drop_last())
    }
}

/// The alignment a cell of the delimiter row gives its column: `None` when
/// it is no delimiter (it needs a `-` and only `-`, `:` and spaces).
pub open spec fn column_align(cell: Seq<char>) -> Option<TableAlign> {
    let t = trim(cell);
    if t.len() == 0 || !t.contains('-') || !(forall|j: int| 0 <= j < t.len() ==> #[trigger] t[j] == '-' || t[j] == ':' || t[j] == ' ') {
        None
    } else if t[0] == ':' {
        Some(if t.last() == ':' { TableAlign::Center } else { TableAlign::Left })
    } else {
        Some(if t.last() == ':' { TableAlign::Right } else { TableAlign::NoAlign })
    }
}

/// The alignments of all `cells`, when each is a delimiter.
pub open spec fn column_aligns(cells: Seq<Seq<char>>) -> Option<Seq<TableAlign>>
    decreases cells.len(),
{
    if cells.len() == 0 {
        Some(Seq::empty())
    } else {
        match (column_aligns(cells.drop_last()), column_align(cells.last())) {
            (Some(a), Some(x)) => Some(a.push(x)),
            _ => None,
        }
    }
}

/// The rows of a table at the front of `s`, each line ending in a newline
/// and holding a `|`, and how many characters they take: after each row as
/// many as it has bytes. `None` when that is more than there is.
pub open spec fn table_rows(s: Seq<char>) -> Option<(Seq<Seq<Seq<char>>>, int)>
    decreases s.len(),
{
    match find_char(s, '\n', 0) {
        None => Some((Seq::empty(), 0)),
        Some(e) => {
            let line = s.take(e + 1);
            let b = blen(line);
            if trim(line).len() == 0 || !trim(line).contains('|') {
                Some((Seq::empty(), 0))
            } else if b > s.len() {
                None
            } else {
                proof {
                    lemma_find_char_bounds(s, '\n', 0);
                    lemma_blen_at_least_len(line);
                }
                match table_rows(s.skip(b)) {
                    None => None,
                    Some((rs, m)) => Some((seq![row_cells(line)] + rs, b + m)),
                }
            }
        },
    }
}

/// A table at the front of `s`, when its first character `c` is `|`: the
/// header cells, the alignments and the rows, and how many characters it
/// takes. The header line must hold a `|`; the delimiter row is searched
/// for as many characters after the start as the header line has bytes.
pub open spec fn table_step(c: char, s: Seq<char>) -> Step<(Seq<Seq<char>>, Seq<TableAlign>, Seq<Seq<Seq<char>>>)> {
    if c != '|' {
        Step::NotFound
    } else {
        match find_char(s, '\n', 0) {
            None => Step::NotFound,
            Some(e1) => {
                let header = s.take(e1 + 1);
                let h = blen(header);
                if !header.contains('|') {
                    Step::NotFound
                } else {
                    match find_char(s, '\n', h) {
                        None => Step::NotFound,
                        Some(e2) => {
                            let delim = s.subrange(h, e2 + 1);
                            let dt = trim(delim);
                            if !dt.contains('|') {
                                Step::NotFound
                            } else {
                                match column_aligns(nonblank(split_char(dt, '|'))) {
                                    None => Step::NotFound,
                                    Some(al) => {
                                        let n = h + blen(delim);
                                        if n > s.len() {
                                            Step::Overrun
                                        } else {
                                            match table_rows(s.skip(n)) {
                                                None => Step::Overrun,
                                                Some((rs, m)) => Step::Found((row_cells(header), al, rs), n + m),
                                            }
                                        }
                                    },
                                }
                            }
                        },
                    }
                }
            },
        }
    }
}

/// `t` is the text `x`.
pub open spec fn is_text(t: Token, x: Seq<char>) -> bool {
    t matches Token::Text { text } && text@ == x
}

/// `v` holds one text token for each of `cells`.
pub open spec fn text_cells(v: Seq<Vec<Token>>, cells: Seq<Seq<char>>) -> bool {
    &&& v.len() == cells.len()
    &&& forall|i: int| 0 <= i < v.len() ==> (#[trigger] v[i])@.len() == 1 && is_text(v[i]@[0], cells[i])
}

/// `t` is a table with `header`, `align` and `rows`.
pub open spec fn is_table(t: Token, header: Seq<Seq<char>>, align: Seq<TableAlign>, rows: Seq<Seq<Seq<char>>>) -> bool {
    &&& t is Table
    &&& text_cells(t->Table_header@, header)
    &&& t->Table_align@ == align
    &&& t->Table_rows@.len() == rows.len()
    &&& forall|i: int| 0 <= i < rows.len() ==> text_cells((#[trigger] t->Table_rows@[i])@, rows[i])
}

/// Whether `v[lo..hi]` holds `c`.
fn contains_in(v: &Vec<char>, lo: usize, hi: usize, c: char) -> (r: bool)
    requires
        lo <= hi <= v@.len(),
    ensures
        r == v@.subrange(lo as int, hi as int).contains(c),
{
    let mut i: usize = lo;
    while i < hi
        invariant
            lo <= i <= hi <= v@.len(),
            forall|j: int| lo <= j < i ==> v@[j] != c,
        decreases hi - i,
    {
        if v[i] == c {
            assert(v@.subrange(lo as int, hi as int)[i - lo] == c);
            return true;
        }
        i += 1;
    }
    proof {
        assert forall|j: int| 0 <= j < hi - lo implies v@.subrange(lo as int, hi as int)[j] != c by {
            assert(v@.subrange(lo as int, hi as int)[j] == v@[lo + j]);
        }
    }
    false
}

/// `v[lo..hi]` without its outer `|`: the bounds of what is left.
fn pipe_bounds(v: &Vec<char>, lo: usize, hi: usize) -> (r: (usize, usize))
    requires
        lo <= hi <= v@.len(),
    ensures
        lo <= r.0 <= r.1 <= hi,
        v@.subrange(r.0 as int, r.1 as int) == trim_end_pipes(trim_start_pipes(v@.subrange(lo as int, hi as int))),
{
    let ghost sv = v@.subrange(lo as int, hi as int);
    let mut a: usize = lo;
    proof {
        assert(sv.skip(0) =~= sv);
    }
    while a < hi && v[a] == '|'
        invariant
            lo <= a <= hi <= v@.len(),
            sv == v@.subrange(lo as int, hi as int),
            trim_start_pipes(sv) == trim_start_pipes(sv.skip(a - lo)),
        decreases hi - a,
    {
        proof {
            assert(sv.skip(a - lo).skip(1) =~= sv.skip(a + 1 - lo));
        }
        a += 1;
    }
    let ghost st = sv.skip(a - lo);
    proof {
        assert(trim_start_pipes(sv) == st);
        assert(st.take(st.len() as int) =~= st);
    }
    let mut b: usize = hi;
    while b > a && v[b - 1] == '|'
        invariant
            lo <= a <= b <= hi <= v@.len(),
            sv == v@.subrange(lo as int, hi as int),
            st == sv.skip(a - lo),
            trim_end_pipes(st) == trim_end_pipes(st.take(b - a)),
        decreases b,
    {
        proof {
            assert(st.take(b - a).drop_last() =~= st.take(b - 1 - a));
        }
        b -= 1;
    }
    proof {
        assert(trim_end_pipes(st.take(b - a)) == st.take(b - a));
        assert(st.take(b - a) =~= v@.subrange(a as int, b as int));
    }
    (a, b)
}

/// The cells of a table row, as text tokens.
fn cells_of_line(line: &str) -> (r: Vec<Vec<Token>>)
    ensures
        text_cells(r@, row_cells(line@)),
{
    let cs = str_chars(line);
    let (tlo, thi) = trim_bounds(&cs);
    let (a, b) = pipe_bounds(&cs, tlo, thi);
    let parts = split_range(&cs, a, b, '|');
    let ghost ps = Seq::new(parts@.len(), |k: int| parts@[k]@);
    proof {
        assert(cs@.subrange(tlo as int, thi as int) == trim(line@));
        assert(ps == split_char(trim_end_pipes(trim_start_pipes(trim(line@))), '|'));
    }
    let mut cells: Vec<Vec<Token>> = Vec::new();
    let mut i: usize = 0;
    while i < parts.len()
        invariant
            i <= parts.len(),
            ps == Seq::new(parts@.len(), |k: int| parts@[k]@),
            ps == split_char(trim_end_pipes(trim_start_pipes(trim(line@))), '|'),
            cells@.len() == i,
            forall|k: int| 0 <= k < i ==> (#[trigger] cells@[k])@.len() == 1 && is_text(cells@[k]@[0], trim(ps[k])),
        decreases parts.len() - i,
    {
        let (plo, phi) = trim_bounds(&parts[i]);
        let text = string_from_range(&parts[i], plo, phi);
        let mut cell: Vec<Token> = Vec::new();
        cell.push(Token::Text { text });
        cells.push(cell);
        i += 1;
    }
    cells
}

/// The alignment that a delimiter cell gives its column.
fn cell_align(part: &Vec<char>) -> (r: Option<TableAlign>)
    ensures
        r == column_align(part@),
{
    let (plo, phi) = trim_bounds(part);
    let ghost t = part@.subrange(plo as int, phi as int);
    if plo == phi {
        return None;
    }
    // a delimiter has a `-` and only `-`, `:` and spaces
    let mut dash = false;
    let mut k: usize = plo;
    while k < phi
        invariant
            plo <= k <= phi <= part@.len(),
            t == part@.subrange(plo as int, phi as int),
            t == trim(part@),
            dash == t.take(k - plo).contains('-'),
            forall|j: int| 0 <= j < k - plo ==> #[trigger] t[j] == '-' || t[j] == ':' || t[j] == ' ',
        decreases phi - k,
    {
        let x = part[k];
        assert(t[k - plo] == x);
        if x != '-' && x != ':' && x != ' ' {
            return None;
        }
        proof {
            let a = t.take(k - plo);
            let b = t.take(k + 1 - plo);
            assert(b =~= a.push(x));
            if x == '-' {
                assert(b[k - plo] == '-');
            }
            if a.contains('-') {
                let j = choose|j: int| 0 <= j < a.len() && a[j] == '-';
                assert(b[j] == '-');
            }
            if b.contains('-') && x != '-' {
                let j = choose|j: int| 0 <= j < b.len() && b[j] == '-';
                assert(a[j] == '-');
            }
        }
        if x == '-' {
            dash = true;
        }
        k += 1;
    }
    proof {
        assert(t.take(phi - plo) =~= t);
        assert(t[0] == part@[plo as int]);
        assert(t.last() == part@[phi - 1]);
    }
    if !dash {
        return None;
    }
    let first_colon = part[plo] == ':';
    let last_colon = part[phi - 1] == ':';
    if first_colon {
        if last_colon { Some(TableAlign::Center) } else { Some(TableAlign::Left) }
    } else {
        if last_colon { Some(TableAlign::Right) } else { Some(TableAlign::NoAlign) }
    }
}

/// The alignments of the cells of a delimiter row `v[lo..hi]`, when each
/// cell that is not blank is a delimiter.
fn delimiter_aligns(v: &Vec<char>, lo: usize, hi: usize) -> (r: Option<Vec<TableAlign>>)
    requires
        lo <= hi <= v@.len(),
    ensures
        match column_aligns(nonblank(split_char(v@.subrange(lo as int, hi as int), '|'))) {
            Some(al) => r matches Some(x) && x@ == al,
            None => r is None,
        },
{
    let parts = split_range(v, lo, hi, '|');
    let ghost ps = Seq::new(parts@.len(), |k: int| parts@[k]@);
    let mut aligns: Vec<TableAlign> = Vec::new();
    let mut i: usize = 0;
    while i < parts.len()
        invariant
            i <= parts.len(),
            ps == Seq::new(parts@.len(), |k: int| parts@[k]@),
            ps == split_char(v@.subrange(lo as int, hi as int), '|'),
            column_aligns(nonblank(ps.take(i as int))) == Some(aligns@),
        decreases parts.len() - i,
    {
        proof {
            assert(ps.take(i + 1).drop_last() =~= ps.take(i as int));
            assert(ps.take(i + 1).last() == parts@[i as int]@);
        }
        let (plo, phi) = trim_bounds(&parts[i]);
        if plo < phi {
            proof {
                assert(nonblank(ps.take(i + 1)) == nonblank(ps.take(i as int)).push(parts@[i as int]@));
                assert(nonblank(ps.take(i + 1)).drop_last() == nonblank(ps.take(i as int)));
            }
            match cell_align(&parts[i]) {
                Some(a) => aligns.push(a),
                None => {
                    proof {
                        lemma_column_aligns_none(nonblank(ps.take(i + 1)));
                        lemma_column_aligns_prefix(nonblank(ps.take(i + 1)), ps, i as int + 1);
                    }
                    return None;
                },
            }
        } else {
            proof {
                assert(nonblank(ps.take(i + 1)) == nonblank(ps.take(i as int)));
            }
        }
        i += 1;
    }
    proof {
        assert(ps.take(parts.len() as int) =~= ps);
    }
    Some(aligns)
}

proof fn lemma_column_aligns_none(cells: Seq<Seq<char>>)
    requires
        cells.len() > 0,
        column_align(cells.last()) is None,
    ensures
        column_aligns(cells) is None,
{
}

/// Once a prefix of the parts has no alignments, the whole has none.
proof fn lemma_column_aligns_prefix(prefix_kept: Seq<Seq<char>>, ps: Seq<Seq<char>>, i: int)
    requires
        0 <= i <= ps.len(),
        prefix_kept == nonblank(ps.take(i)),
        column_aligns(prefix_kept) is None,
    ensures
        column_aligns(nonblank(ps)) is None,
    decreases ps.len() - i,
{
    if i < ps.len() {
        assert(ps.take(i + 1).drop_last() =~= ps.take(i));
        let next = nonblank(ps.take(i + 1));
        if trim(ps[i]).len() > 0 {
            assert(next == prefix_kept.push(ps[i]));
            assert(next.drop_last() == prefix_kept);
        } else {
            assert(next == prefix_kept);
        }
        lemma_column_aligns_prefix(next, ps, i + 1);
    } else {
        assert(ps.take(i) =~= ps);
    }
}

/// Parse a GitHub Flavored Markdown table, `c` being the first character
/// of the unread input.
/// https://github.github.com/gfm/#tables-extension-
pub fn table(c: char, reader: &mut CharReader) -> (r: Result<Option<Token>, ParseError>)
    ensures
        final(reader).valid() == old(reader).valid(),
        c != '|' ==> (r matches Ok(None)) && final(reader).chars() == old(reader).chars()
            && final(reader).read_flag() == old(reader).read_flag(),
        c == '|' && !old(reader).valid() ==> r is Err && final(reader).chars() == old(reader).chars(),
        old(reader).valid() ==> match table_step(c, old(reader).chars()) {
            Step::NotFound => (r matches Ok(None)) && final(reader).chars() == old(reader).chars()
                && final(reader).read_flag() == old(reader).read_flag(),
            Step::Overrun => r is Err,
            Step::Found((header, align, rows), n) => (r matches Ok(Some(_)))
                && is_table(r->Ok_0->Some_0, header, align, rows)
                && final(reader).chars() == old(reader).chars().skip(n) && final(reader).read_flag()
                && 1 <= n <= old(reader).chars().len(),
        },
{
    if c != '|' {
        return Ok(None);
    }
    let ghost s = reader.chars();
    let nl = |c: char| -> (r: bool) ensures r == (c == '\n') { c == '\n' };
    // the header row
    let header = match reader.peek_until_inclusive(nl) {
        Ok(Some(h)) => h,
        Ok(None) => {
            proof {
                lemma_all_rejected_find(nl, '\n', s, 0);
            }
            return Ok(None);
        },
        Err(e) => return Err(ParseError::from_io_error(e)),
    };
    proof {
        lemma_first_accepted_find(nl, '\n', s, 0, header@.len() - 1);
        assert(header@ == s.take(header@.len() as int));
    }
    let hcs = str_chars(header.as_str());
    proof {
        assert(hcs@.subrange(0, hcs@.len() as int) =~= hcs@);
    }
    if !contains_in(&hcs, 0, hcs.len(), '|') {
        return Ok(None);
    }
    let h = byte_len(&header);
    // the delimiter row
    let delim = match reader.peek_until_inclusive_from(h, nl) {
        Ok(Some(d)) => d,
        Ok(None) => {
            proof {
                lemma_all_rejected_find(nl, '\n', s, h as int);
            }
            return Ok(None);
        },
        Err(e) => return Err(ParseError::from_io_error(e)),
    };
    proof {
        lemma_first_accepted_find(nl, '\n', s, h as int, h + delim@.len() - 1);
    }
    let dcs = str_chars(delim.as_str());
    let (dlo, dhi) = trim_bounds(&dcs);
    if !contains_in(&dcs, dlo, dhi, '|') {
        return Ok(None);
    }
    let align = match delimiter_aligns(&dcs, dlo, dhi) {
        Some(a) => a,
        None => return Ok(None),
    };
    let header_cells = cells_of_line(header.as_str());
    let db = byte_len(&delim);
    let total = reader.remaining_len();
    if h > total || db > total - h {
        return Err(ParseError::invalid("table runs past the end of the input"));
    }
    let n = h + db;
    match reader.consume(n) {
        Ok(_) => {},
        Err(e) => return Err(ParseError::from_io_error(e)),
    }
    let ghost s1 = s.skip(n as int);
    proof {
        assert(table_step(c, s) == match table_rows(s1) {
            None => Step::Overrun,
            Some((rs, m)) => Step::Found((row_cells(header@), align@, rs), n + m),
        });
    }
    // the rows
    let mut rows: Vec<Vec<Vec<Token>>> = Vec::new();
    let ghost mut rows_spec: Seq<Seq<Seq<char>>> = Seq::empty();
    let ghost mut consumed: int = 0;
    loop
        invariant_except_break
            0 <= consumed <= s1.len(),
            reader.chars() == s1.skip(consumed),
            table_rows(s1) == match table_rows(reader.chars()) {
                None => None,
                Some((rs, m)) => Some((rows_spec + rs, consumed + m)),
            },
        invariant
            reader.valid(),
            reader.read_flag(),
            old(reader).valid(),
            c == '|',
            s == old(reader).chars(),
            table_step(c, s) == match table_rows(s1) {
                None => Step::Overrun,
                Some((rs, m)) => Step::Found((row_cells(header@), align@, rs), n + m),
            },
            callable(nl),
            is_char_test(nl, '\n'),
            rows@.len() == rows_spec.len(),
            forall|i: int| 0 <= i < rows_spec.len() ==> text_cells((#[trigger] rows@[i])@, rows_spec[i]),
        ensures
            reader.valid(),
            reader.read_flag(),
            reader.chars() == s1.skip(consumed),
            0 <= consumed <= s1.len(),
            table_rows(s1) == Some((rows_spec, consumed)),
        decreases reader.chars().len(),
    {
        let ghost cur = reader.chars();
        let row_line = match reader.peek_until_inclusive(nl) {
            Ok(Some(l)) => l,
            Ok(None) => {
                proof {
                    lemma_all_rejected_find(nl, '\n', cur, 0);
                    assert(rows_spec + Seq::<Seq<Seq<char>>>::empty() =~= rows_spec);
                }
                break;
            },
            Err(e) => return Err(ParseError::from_io_error(e)),
        };
        proof {
            lemma_first_accepted_find(nl, '\n', cur, 0, row_line@.len() - 1);
            assert(row_line@ == cur.take(row_line@.len() as int));
        }
        let rcs = str_chars(row_line.as_str());
        let (rlo, rhi) = trim_bounds(&rcs);
        if rlo == rhi || !contains_in(&rcs, rlo, rhi, '|') {
            proof {
                assert(rows_spec + Seq::<Seq<Seq<char>>>::empty() =~= rows_spec);
            }
            break;
        }
        let b = byte_len(&row_line);
        let left = reader.remaining_len();
        if b > left {
            return Err(ParseError::invalid("table row runs past the end of the input"));
        }
        let row = cells_of_line(row_line.as_str());
        rows.push(row);
        match reader.consume(b) {
            Ok(_) => {},
            Err(e) => return Err(ParseError::from_io_error(e)),
        }
        proof {
            lemma_blen_at_least_len(row_line@);
            let line = cur.take(row_line@.len() as int);
            let next = cur.skip(b as int);
            assert(s1.skip(consumed + b) =~= next);
            let old_spec = rows_spec;
            rows_spec = rows_spec.push(row_cells(row_line@));
            match table_rows(next) {
                None => {},
                Some((rs, m)) => {
                    assert(old_spec + (seq![row_cells(row_line@)] + rs) =~= rows_spec + rs);
                },
            }
            consumed = consumed + b;
        }
    }
    proof {
        assert(s1.skip(consumed) =~= s.skip(n + consumed));
        assert(table_step(c, s) == Step::Found((row_cells(header@), align@, rows_spec), n + consumed));
    }
    Ok(Some(Token::Table { header: header_cells, align, rows }))
}

} // verus!
