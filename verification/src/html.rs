//! A small streaming html tokenizer.
//!
//! This is a fairly simplified way of parsing html, ignoring a lot of edge
//! cases and validation normally seen when parsing html. Lengths of matched
//! pieces are taken in bytes (as `str::len` counts), as the reader advances.
use vstd::prelude::*;

use crate::attributes::Attributes;
use crate::char_reader::{
    find_char, find_pattern, first_accepted, all_rejected, is_char_test, matches_at, lemma_all_rejected_find, lemma_first_accepted_find, lemma_first_match_find,
    lemma_no_match_find, CharReader,
};
use crate::parse_error::{ParseError, ParseErrorKind};
use crate::text::{has_prefix, push_char, push_str, str_chars, str_eq, string_from_range};
#[allow(unused_imports)]
use vstd::string::StringSliceAdditionalSpecFns;

verus! {

#[derive(Debug, PartialEq)]
pub enum Html {
    Comment { text: String },
    Text { text: String },
    Element { tag: String, attributes: Attributes, children: Vec<Html> },
}

/// Mathematical form of a parsed html token.
pub enum SpecHtml {
    Comment(Seq<char>),
    Text(Seq<char>),
    Element(Seq<char>, Map<Seq<char>, Seq<char>>, Seq<SpecHtml>),
}

pub open spec fn html_view(h: Html) -> SpecHtml
    decreases h,
{
    match h {
        Html::Comment { text } => SpecHtml::Comment(text@),
        Html::Text { text } => SpecHtml::Text(text@),
        Html::Element { tag, attributes, children } => SpecHtml::Element(
            tag@,
            attributes@,
            Seq::new(
                children@.len(),
                |i: int|
                    if 0 <= i < children@.len() {
                        html_view(children@[i])
                    } else {
                        SpecHtml::Text(Seq::empty())
                    },
            ),
        ),
    }
}

impl View for Html {
    type V = SpecHtml;

    open spec fn view(&self) -> SpecHtml {
        html_view(*self)
    }
}

pub open spec fn htmls_view(v: Seq<Html>) -> Seq<SpecHtml> {
    Seq::new(v.len(), |i: int| html_view(v[i]))
}

/// Number of bytes of the UTF-8 encoding of `s`.
pub open spec fn blen(s: Seq<char>) -> int {
    vstd::utf8::encode_utf8(s).len() as int
}

pub open spec fn min(a: int, b: int) -> int {
    if a < b {
        a
    } else {
        b
    }
}

/// The characters of `s` from `i` up to the first space or newline.
pub open spec fn name_from(s: Seq<char>, i: int) -> Seq<char>
    decreases s.len() - i,
{
    if i < 0 || i >= s.len() || s[i] == ' ' || s[i] == '\n' {
        Seq::empty()
    } else {
        seq![s[i]] + name_from(s, i + 1)
    }
}

/// The tag name at the start of a start tag.
pub open spec fn tag_name(start_tag: Seq<char>) -> Seq<char> {
    name_from(start_tag, 0)
}

/// Reads `key="value"` pairs separated by spaces; `acc` holds the pairs read
/// so far, `key`/`value` the pair being read, `in_value` whether a quoted
/// value is open.
pub open spec fn attrs_from(
    cs: Seq<char>,
    i: int,
    key: Seq<char>,
    value: Seq<char>,
    in_value: bool,
    acc: Map<Seq<char>, Seq<char>>,
) -> Map<Seq<char>, Seq<char>>
    decreases cs.len() - i,
{
    if i < 0 || i >= cs.len() {
        if key.len() > 0 {
            acc.insert(key, value)
        } else {
            acc
        }
    } else {
        let c = cs[i];
        if c == ' ' && !in_value {
            if key.len() > 0 {
                attrs_from(cs, i + 1, Seq::empty(), Seq::empty(), false, acc.insert(key, value))
            } else {
                attrs_from(cs, i + 1, key, value, in_value, acc)
            }
        } else if c == '=' {
            if i + 1 < cs.len() && (cs[i + 1] == '"' || cs[i + 1] == '\'') {
                attrs_from(cs, i + 2, key, value, true, acc)
            } else {
                attrs_from(cs, i + 1, key, value, in_value, acc)
            }
        } else if (c == '\'' || c == '"') && in_value {
            attrs_from(cs, i + 1, key, value, false, acc)
        } else if in_value {
            attrs_from(cs, i + 1, key, value.push(c), in_value, acc)
        } else {
            attrs_from(cs, i + 1, key.push(c), value, in_value, acc)
        }
    }
}

/// The attributes written in the content of a start tag.
pub open spec fn attrs_of(cs: Seq<char>) -> Map<Seq<char>, Seq<char>> {
    attrs_from(cs, 0, Seq::empty(), Seq::empty(), false, Map::empty())
}

pub proof fn lemma_attrs_skip(
    cs: Seq<char>,
    k: int,
    i: int,
    key: Seq<char>,
    value: Seq<char>,
    in_value: bool,
    acc: Map<Seq<char>, Seq<char>>,
)
    requires
        0 <= k <= cs.len(),
        0 <= i,
    ensures
        attrs_from(cs, k + i, key, value, in_value, acc) == attrs_from(cs.skip(k), i, key, value, in_value, acc),
    decreases cs.len() - k - i,
{
    let t = cs.skip(k);
    if k + i < cs.len() {
        assert(t[i] == cs[k + i]);
        if i + 1 < t.len() {
            assert(t[i + 1] == cs[k + i + 1]);
        }
        lemma_attrs_skip(cs, k, i + 1, Seq::empty(), Seq::empty(), false, acc.insert(key, value));
        lemma_attrs_skip(cs, k, i + 1, key, value, in_value, acc);
        if k + i + 1 < cs.len() {
            lemma_attrs_skip(cs, k, i + 2, key, value, true, acc);
        }
        lemma_attrs_skip(cs, k, i + 1, key, value, false, acc);
        lemma_attrs_skip(cs, k, i + 1, key, value.push(cs[k + i]), in_value, acc);
        lemma_attrs_skip(cs, k, i + 1, key.push(cs[k + i]), value, in_value, acc);
    }
}

/// Outcome of reading one construct from the front of the input.
pub enum Step<T> {
    /// The input does not start with the construct; nothing is read.
    NotFound,
    /// The construct's closing text would be read past the end of the input.
    Overrun,
    /// The construct and how many characters it takes.
    Found(T, int),
}

/// The end tag of `tag`.
pub open spec fn end_tag_of(tag: Seq<char>) -> Seq<char> {
    "</"@ + tag + ">"@
}

/// Whether a start tag of `tag` begins at `pos`: `<`, the tag, then `>`, a
/// space or a newline.
pub open spec fn opens_at(s: Seq<char>, tag: Seq<char>, pos: int) -> bool {
    &&& matches_at(s, seq!['<'] + tag, pos)
    &&& pos + 1 + tag.len() < s.len()
    &&& (s[pos + 1 + tag.len()] == '>' || s[pos + 1 + tag.len()] == ' ' || s[pos + 1 + tag.len()] == '\n')
}

/// Where the end tag of `tag` that matches an open element starts, searching
/// from `pos` with `depth` elements of the same tag opened inside it.
pub open spec fn matching_end(s: Seq<char>, tag: Seq<char>, pos: int, depth: nat) -> Option<int>
    decreases s.len() + 1 - pos,
{
    if pos < 0 || pos >= s.len() {
        None
    } else if matches_at(s, end_tag_of(tag), pos) {
        if depth == 0 {
            Some(pos)
        } else {
            proof {
                reveal_strlit("</");
                reveal_strlit(">");
            }
            matching_end(s, tag, pos + end_tag_of(tag).len(), (depth - 1) as nat)
        }
    } else if opens_at(s, tag, pos) {
        matching_end(s, tag, pos + 1 + tag.len(), depth + 1)
    } else {
        matching_end(s, tag, pos + 1, depth)
    }
}

/// An element `<tag attributes>content</tag>` at the front of `s`.
pub open spec fn element_step(s: Seq<char>) -> Step<(Seq<char>, Map<Seq<char>, Seq<char>>, Seq<char>)> {
    if s.len() == 0 || s[0] != '<' {
        Step::NotFound
    } else {
        match find_char(s, '>', 1) {
            None => Step::NotFound,
            Some(i) => {
                let start_tag = s.subrange(1, i);
                let tag = tag_name(start_tag);
                let end_tag = end_tag_of(tag);
                let p = 2 + blen(start_tag);
                match matching_end(s, tag, p, 0) {
                    None => Step::NotFound,
                    Some(j) => {
                        let s1 = s.skip(p);
                        let m1 = min(blen(s.subrange(p, j)), s1.len() as int);
                        let s2 = s1.skip(m1);
                        let e = blen(end_tag);
                        if s2.len() > 0 && e > s2.len() {
                            Step::Overrun
                        } else {
                            Step::Found(
                                (tag, attrs_of(start_tag.skip(tag.len() as int)), s1.take(m1)),
                                p + m1 + if s2.len() == 0 { 0int } else { e },
                            )
                        }
                    },
                }
            },
        }
    }
}

/// A comment `<!--text-->` at the front of `s`.
pub open spec fn comment_step(s: Seq<char>) -> Step<Seq<char>> {
    if s.take(min(4, s.len() as int)) != "<!--"@ {
        Step::NotFound
    } else {
        match find_pattern(s, "-->"@, 4) {
            None => Step::NotFound,
            Some(j) => {
                let s1 = s.skip(4);
                let m1 = min(blen(s.subrange(4, j)), s1.len() as int);
                let s2 = s1.skip(m1);
                if s2.len() > 0 && 3 > s2.len() {
                    Step::Overrun
                } else {
                    Step::Found(s1.take(m1), 4 + m1 + if s2.len() == 0 { 0int } else { 3int })
                }
            },
        }
    }
}

/// Number of characters before the first `<` (all of them if there is none).
pub open spec fn until_lt(s: Seq<char>) -> int {
    match find_char(s, '<', 0) {
        Some(k) => k,
        None => s.len() as int,
    }
}

/// One token at the front of `s`: `None` at the end of the input,
/// `Some(None)` when the input is malformed.
pub open spec fn token_step(s: Seq<char>) -> Option<Option<(SpecHtml, int)>>
    decreases s.len(), 0int,
{
    if s.len() == 0 {
        None
    } else if s[0] == '<' {
        match comment_step(s) {
            Step::Overrun => Some(None),
            Step::Found(text, n) => Some(Some((SpecHtml::Comment(text), n))),
            Step::NotFound => match element_step(s) {
                Step::Overrun => Some(None),
                Step::Found((tag, attrs, content), n) => {
                    if content.len() < s.len() {
                        match tokens_of(content) {
                            Some(children) => Some(Some((SpecHtml::Element(tag, attrs, children), n))),
                            None => Some(None),
                        }
                    } else {
                        Some(None)
                    }
                },
                Step::NotFound => {
                    let rest = s.skip(1);
                    let k = until_lt(rest);
                    Some(Some((SpecHtml::Text(seq!['<'] + rest.take(k)), 1 + k)))
                },
            },
        }
    } else {
        let k = until_lt(s);
        Some(Some((SpecHtml::Text(s.take(k)), k)))
    }
}

/// All tokens of `s`, `None` when the input is malformed.
pub open spec fn tokens_of(s: Seq<char>) -> Option<Seq<SpecHtml>>
    decreases s.len(), 1int,
{
    match token_step(s) {
        None => Some(Seq::empty()),
        Some(None) => None,
        Some(Some((h, n))) => {
            if 0 < n <= s.len() {
                match tokens_of(s.skip(n)) {
                    Some(rest) => Some(seq![h] + rest),
                    None => None,
                }
            } else {
                None
            }
        },
    }
}

/// Adjacent texts joined into one.
pub open spec fn merge_texts(ts: Seq<SpecHtml>) -> Seq<SpecHtml>
    decreases ts.len(),
{
    if ts.len() == 0 {
        Seq::empty()
    } else {
        let m = merge_texts(ts.drop_last());
        let t = ts.last();
        match (t, if m.len() > 0 { Some(m.last()) } else { None }) {
            (SpecHtml::Text(b), Some(SpecHtml::Text(a))) => m.drop_last().push(SpecHtml::Text(a + b)),
            _ => m.push(t),
        }
    }
}

/// Converts a reader error.
fn read_error(e: std::io::Error) -> (r: ParseError)
    ensures
        r.kind == ParseErrorKind::EndOfFile || r.kind == ParseErrorKind::Io,
        r.kind == ParseErrorKind::Io ==> has_prefix(r.message@, "Failed to read input: "@),
        r.context@ == Seq::<char>::empty(),
{
    ParseError::from_io_error(e)
}

/// Number of bytes of a string.
pub(crate) fn byte_len(s: &String) -> (n: usize)
    ensures
        n == blen(s@),
{
    let t = s.as_str();
    proof {
        vstd::utf8::encode_utf8_decode_utf8(t@);
    }
    t.as_bytes().len()
}

/// The map that the first `n` (name, value) pairs make, a later pair winning.
pub open spec fn pairs_to_map(pairs: Seq<(&str, &str)>, n: int) -> Map<Seq<char>, Seq<char>>
    decreases n,
{
    if n <= 0 {
        Map::empty()
    } else {
        pairs_to_map(pairs, n - 1).insert(pairs[n - 1].0@, pairs[n - 1].1@)
    }
}

/// Utility function to build attributes from (name, value) pairs; a later pair wins.
pub fn to_attributes<const N: usize>(arr: [(&str, &str); N]) -> (a: Attributes)
    ensures
        a@ == pairs_to_map(arr@, N as int),
{
    let mut a = Attributes::new();
    let mut i: usize = 0;
    while i < N
        invariant
            i <= N,
            arr@.len() == N,
            a@ == pairs_to_map(arr@, i as int),
        decreases N - i,
    {
        let (k, v) = arr[i];
        a.insert(k.to_owned(), v.to_owned());
        i += 1;
    }
    a
}

/// Reads the attributes out of the characters `cs[i..]`.
fn attributes_from(cs: &Vec<char>, start: usize) -> (a: Attributes)
    requires
        start <= cs.len(),
    ensures
        a@ == attrs_from(cs@, start as int, Seq::empty(), Seq::empty(), false, Map::empty()),
{
    let mut attributes = Attributes::new();
    let mut key = String::new();
    let mut value = String::new();
    let mut in_value = false;
    let mut i = start;
    while i < cs.len()
        invariant
            start <= i,
            attrs_from(cs@, i as int, key@, value@, in_value, attributes@)
                == attrs_from(cs@, start as int, Seq::empty(), Seq::empty(), false, Map::empty()),
        decreases cs.len() - i,
    {
        let c = cs[i];
        if c == ' ' && !in_value {
            if !key.as_str().is_empty() {
                let k = key;
                let v = value;
                attributes.insert(k, v);
                key = String::new();
                value = String::new();
                in_value = false;
            }
        } else if c == '=' {
            if i + 1 < cs.len() && (cs[i + 1] == '"' || cs[i + 1] == '\'') {
                i += 1;
                in_value = true;
            }
        } else if (c == '\'' || c == '"') && in_value {
            in_value = false;
        } else if in_value {
            push_char(&mut value, c);
        } else {
            push_char(&mut key, c);
        }
        i += 1;
    }
    if !key.as_str().is_empty() {
        attributes.insert(key, value);
    }
    attributes
}

/// Reads `key="value"` attributes from the content of a start tag.
pub fn html_attributes(start_tag_content: &str) -> (r: Result<Attributes, ParseError>)
    ensures
        r matches Ok(a) && a@ == attrs_of(start_tag_content@),
{
    let cs = str_chars(start_tag_content);
    Ok(attributes_from(&cs, 0))
}

/// The tag name at the start of `start_tag`.
fn read_tag_name(start_tag: &Vec<char>) -> (r: (String, usize))
    ensures
        r.0@ == tag_name(start_tag@),
        r.1 == r.0@.len(),
        r.1 <= start_tag@.len(),
{
    let mut tag = String::new();
    let mut i: usize = 0;
    while i < start_tag.len() && start_tag[i] != ' ' && start_tag[i] != '\n'
        invariant
            i <= start_tag.len(),
            tag@ + name_from(start_tag@, i as int) == tag_name(start_tag@),
            tag@.len() == i,
        decreases start_tag.len() - i,
    {
        let c = start_tag[i];
        proof {
            assert(name_from(start_tag@, i as int) == seq![c] + name_from(start_tag@, i + 1));
            assert(tag@.push(c) + name_from(start_tag@, i + 1) =~= tag@ + (seq![c] + name_from(start_tag@, i + 1)));
        }
        push_char(&mut tag, c);
        i += 1;
    }
    proof {
        assert(name_from(start_tag@, i as int) =~= Seq::<char>::empty());
        assert(tag@ + Seq::<char>::empty() =~= tag@);
    }
    (tag, i)
}

/// Whether `pattern` occurs in `v` at index `i`.
fn matches_vec(v: &Vec<char>, pattern: &Vec<char>, i: usize) -> (r: bool)
    ensures
        r == matches_at(v@, pattern@, i as int),
{
    if i > v.len() || pattern.len() > v.len() - i {
        return false;
    }
    let mut k: usize = 0;
    while k < pattern.len()
        invariant
            k <= pattern@.len(),
            i + pattern@.len() <= v@.len(),
            i + pattern.len() <= v.len(),
            forall|m: int| 0 <= m < k ==> v@[i + m] == pattern@[m],
        decreases pattern.len() - k,
    {
        if v[i + k] != pattern[k] {
            proof {
                assert(v@.subrange(i as int, i + pattern@.len())[k as int] != pattern@[k as int]);
            }
            return false;
        }
        k += 1;
    }
    proof {
        assert(v@.subrange(i as int, i + pattern@.len()) =~= pattern@);
    }
    true
}

/// Parse an element from start to end and return (tag, attributes, inner html).
pub fn html_element(reader: &mut CharReader) -> (r: Result<Option<(String, Attributes, String)>, ParseError>)
    ensures
        final(reader).valid() == old(reader).valid(),
        !old(reader).valid() ==> r is Err,
        old(reader).valid() ==> match element_step(old(reader).chars()) {
            Step::NotFound => r matches Ok(None) && final(reader).chars() == old(reader).chars()
                && final(reader).read_flag() == old(reader).read_flag(),
            Step::Overrun => r is Err,
            Step::Found((tag, attrs, content), n) => r matches Ok(Some((t, a, c)))
                && t@ == tag && a@ == attrs && c@ == content
                && final(reader).chars() == old(reader).chars().skip(n) && final(reader).read_flag()
                && 2 <= n <= old(reader).chars().len(),
        },
{
    let ghost s = reader.chars();
    let first = match reader.peek_char(0) {
        Ok(c) => c,
        Err(e) => return Err(read_error(e)),
    };
    if first != Some('<') {
        return Ok(None);
    }
    let gt = |c: char| -> (r: bool) ensures r == (c == '>') { c == '>' };
    let start_tag = match reader.peek_until_exclusive_from(1, gt) {
        Ok(Some(t)) => t,
        Ok(None) => {
            proof {
                lemma_all_rejected_find(gt, '>', s, 1);
            }
            return Ok(None);
        },
        Err(e) => return Err(read_error(e)),
    };
    let ghost i: int = 1 + start_tag@.len() as int;
    proof {
        lemma_first_accepted_find(gt, '>', s, 1, i);
        assert(start_tag@ == s.subrange(1, i));
    }
    let start_chars = str_chars(start_tag.as_str());
    let (tag, tag_len) = read_tag_name(&start_chars);
    let mut end_tag = String::new();
    push_str(&mut end_tag, "</");
    push_str(&mut end_tag, tag.as_str());
    push_str(&mut end_tag, ">");
    let stb = byte_len(&start_tag);
    let total = reader.remaining_len();
    if stb > usize::MAX - 2 {
        // the end tag would be searched for past the end of any input
        proof {
            assert(matching_end(s, tag@, 2 + blen(start_tag@), 0) is None);
        }
        return Ok(None);
    }
    let p = 2 + stb;
    let all = match reader.peek_string(total) {
        Ok(a) => str_chars(a.as_str()),
        Err(e) => return Err(read_error(e)),
    };
    let end_chars = str_chars(end_tag.as_str());
    let mut open_chars: Vec<char> = Vec::new();
    open_chars.push('<');
    let tag_chars = str_chars(tag.as_str());
    let ghost flag0 = reader.read_flag();
    let mut q: usize = 0;
    while q < tag_chars.len()
        invariant
            q <= tag_chars@.len(),
            open_chars@ == seq!['<'] + tag_chars@.take(q as int),
        decreases tag_chars@.len() - q,
    {
        open_chars.push(tag_chars[q]);
        proof {
            assert(tag_chars@.take(q + 1) =~= tag_chars@.take(q as int).push(tag_chars@[q as int]));
        }
        q += 1;
    }
    proof {
        assert(tag_chars@.take(tag_chars@.len() as int) =~= tag_chars@);
        assert(all@ =~= s);
        reveal_strlit("</");
        reveal_strlit(">");
        assert(end_chars@ == end_tag_of(tag@));
        assert(end_chars@.len() == 3 + tag@.len());
    }
    let tl = tag_chars.len();
    let mut k: usize = p;
    let mut depth: usize = 0;
    loop
        invariant
            all@ == s,
            total == s.len(),
            end_chars@ == end_tag_of(tag@),
            open_chars@ == seq!['<'] + tag@,
            tl == tag@.len(),
            end_chars@.len() == 3 + tl,
            depth <= k,
            p <= k,
            reader.chars() == s,
            reader.valid(),
            reader.read_flag() == flag0,
            flag0 == old(reader).read_flag(),
            s == old(reader).chars(),
            old(reader).valid(),
            s.len() > 0 && s[0] == '<',
            find_char(s, '>', 1) == Some(i),
            start_tag@ == s.subrange(1, i),
            tag@ == tag_name(start_tag@),
            p == 2 + blen(start_tag@),
            matching_end(s, tag@, p as int, 0) == matching_end(s, tag@, k as int, depth as nat),
        ensures
            matching_end(s, tag@, p as int, 0) == Some(k as int),
            p <= k < total,
            reader.chars() == s,
            reader.valid(),
        decreases total + 1 - k,
    {
        if k >= total {
            return Ok(None);
        }
        if matches_vec(&all, &end_chars, k) {
            if depth == 0 {
                break;
            }
            k = k + end_chars.len();
            depth = depth - 1;
        } else if matches_vec(&all, &open_chars, k) && k + 1 + tl < total
            && (all[k + 1 + tl] == '>' || all[k + 1 + tl] == ' ' || all[k + 1 + tl] == '\n')
        {
            k = k + 1 + tl;
            depth = depth + 1;
        } else {
            k = k + 1;
        }
    }
    let j = k;
    let html_block = string_from_range(&all, p, j);
    match reader.consume(p) {
        Ok(_) => {},
        Err(e) => return Err(read_error(e)),
    }
    let attributes = attributes_from(&start_chars, tag_len);
    proof {
        lemma_attrs_skip(start_chars@, tag_len as int, 0, Seq::empty(), Seq::empty(), false, Map::empty());
    }
    let ghost s1 = reader.chars();
    let bb = byte_len(&html_block);
    let content = match reader.consume_string(bb) {
        Ok(c) => c,
        Err(e) => return Err(read_error(e)),
    };
    let etb = byte_len(&end_tag);
    let left = reader.remaining_len();
    if left > 0 && etb > left {
        return Err(ParseError::invalid("end tag runs past the end of the input"));
    }
    match reader.consume(etb) {
        Ok(_) => {},
        Err(e) => return Err(read_error(e)),
    }
    proof {
        assert(s1 == s.skip(p as int));
        assert(reader.chars() =~= s.skip(
            p + min(blen(s.subrange(p as int, j as int)), s1.len() as int) + if left == 0 { 0 } else { etb as int },
        ));
    }
    Ok(Some((tag, attributes, content)))
}


/// Parse a comment `<!--text-->`.
pub fn html_comment(reader: &mut CharReader) -> (r: Result<Option<Html>, ParseError>)
    ensures
        final(reader).valid() == old(reader).valid(),
        !old(reader).valid() ==> r is Err,
        old(reader).valid() ==> match comment_step(old(reader).chars()) {
            Step::NotFound => r matches Ok(None) && final(reader).chars() == old(reader).chars()
                && final(reader).read_flag() == old(reader).read_flag(),
            Step::Overrun => r is Err,
            Step::Found(text, n) => r matches Ok(Some(h)) && h@ == SpecHtml::Comment(text)
                && final(reader).chars() == old(reader).chars().skip(n) && final(reader).read_flag()
                && 4 <= n <= old(reader).chars().len(),
        },
{
    let ghost s = reader.chars();
    let head = match reader.peek_string(4) {
        Ok(h) => h,
        Err(e) => return Err(read_error(e)),
    };
    if !str_eq(head.as_str(), "<!--") {
        return Ok(None);
    }
    let text = match reader.peek_until_match_exclusive_from(4, "-->") {
        Ok(Some(t)) => t,
        Ok(None) => {
            proof {
                lemma_no_match_find(s, "-->"@, 4);
            }
            return Ok(None);
        },
        Err(e) => return Err(read_error(e)),
    };
    let ghost j: int = 4 + text@.len() as int;
    proof {
        lemma_first_match_find(s, "-->"@, 4, j);
        assert(text@ == s.subrange(4, j));
    }
    match reader.consume(4) {
        Ok(_) => {},
        Err(e) => return Err(read_error(e)),
    }
    let ghost s1 = reader.chars();
    let tb = byte_len(&text);
    let text = match reader.consume_string(tb) {
        Ok(t) => t,
        Err(e) => return Err(read_error(e)),
    };
    let left = reader.remaining_len();
    if left > 0 && 3 > left {
        return Err(ParseError::invalid("comment end runs past the end of the input"));
    }
    match reader.consume(3) {
        Ok(_) => {},
        Err(e) => return Err(read_error(e)),
    }
    proof {
        assert(s1 == s.skip(4));
        assert(reader.chars() =~= s.skip(4 + min(blen(s.subrange(4, j)), s1.len() as int) + if left == 0 { 0int } else { 3int }));
    }
    Ok(Some(Html::Comment { text }))
}

pub proof fn lemma_until_lt<F: Fn(char) -> bool>(op: F, s: Seq<char>, n: int)
    requires
        is_char_test(op, '<'),
        0 <= n <= s.len(),
        first_accepted(op, s, 0, n) || (n == s.len() && all_rejected(op, s, 0, s.len() as int)),
    ensures
        until_lt(s) == n,
{
    if first_accepted(op, s, 0, n) {
        lemma_first_accepted_find(op, '<', s, 0, n);
    } else {
        lemma_all_rejected_find(op, '<', s, 0);
    }
}

/// A token takes at least one character and no more than there are.
pub proof fn lemma_token_step_progress(s: Seq<char>)
    ensures
        token_step(s) matches Some(Some((h, n))) ==> 0 < n <= s.len(),
{
    reveal_strlit("-->");
    reveal_strlit("</");
    reveal_strlit(">");
    if s.len() > 0 {
        if s[0] == '<' {
            lemma_find_pattern_bounds(s, "-->"@, 4);
            lemma_find_char_bounds(s, '>', 1);
            lemma_find_char_bounds(s.skip(1), '<', 0);
            match find_char(s, '>', 1) {
                Some(i) => {
                    let start_tag = s.subrange(1, i);
                    let end_tag = "</"@ + tag_name(start_tag) + ">"@;
                    lemma_find_pattern_bounds(s, end_tag, 2 + blen(start_tag));
                },
                None => {},
            }
        } else {
            lemma_find_char_bounds(s, '<', 0);
        }
    }
}

pub proof fn lemma_find_char_bounds(s: Seq<char>, c: char, pos: int)
    requires
        0 <= pos,
    ensures
        find_char(s, c, pos) matches Some(i) ==> pos <= i < s.len() && s[i] == c,
    decreases s.len() - pos,
{
    if pos < s.len() && s[pos] != c {
        lemma_find_char_bounds(s, c, pos + 1);
    }
}

pub proof fn lemma_find_pattern_bounds(s: Seq<char>, p: Seq<char>, pos: int)
    requires
        0 <= pos,
    ensures
        find_pattern(s, p, pos) matches Some(i) ==> pos <= i && i + p.len() <= s.len(),
    decreases s.len() + 1 - pos,
{
    if pos + p.len() <= s.len() && !matches_at(s, p, pos) {
        lemma_find_pattern_bounds(s, p, pos + 1);
    }
}

/// `tokens_of(s)` with `acc` in front.
pub open spec fn with_prefix(acc: Seq<SpecHtml>, rest: Option<Seq<SpecHtml>>) -> Option<Seq<SpecHtml>> {
    match rest {
        Some(r) => Some(acc + r),
        None => None,
    }
}

/// Reads tokens until the end of the input.
pub fn read_tokens(reader: &mut CharReader) -> (r: Result<Vec<Html>, ParseError>)
    ensures
        final(reader).valid() == old(reader).valid(),
        !old(reader).valid() ==> r is Err,
        old(reader).valid() ==> match tokens_of(old(reader).chars()) {
            Some(ts) => r matches Ok(v) && htmls_view(v@) == ts,
            None => r is Err,
        },
    decreases old(reader).chars().len(), 1int,
{
    let ghost s = reader.chars();
    let mut tokens: Vec<Html> = Vec::new();
    loop
        invariant
            reader.valid() == old(reader).valid(),
            reader.chars().len() <= s.len(),
            s == old(reader).chars(),
            old(reader).valid() ==> tokens_of(s) == with_prefix(htmls_view(tokens@), tokens_of(reader.chars())),
        decreases reader.chars().len(),
    {
        let ghost cur = reader.chars();
        let ghost before = tokens@;
        proof {
            lemma_token_step_progress(cur);
        }
        match read_token(reader) {
            Err(e) => {
                return Err(e);
            },
            Ok(None) => {
                assert(htmls_view(tokens@) + Seq::<SpecHtml>::empty() =~= htmls_view(tokens@));
                return Ok(tokens);
            },
            Ok(Some(h)) => {
                let ghost hv = h@;
                tokens.push(h);
                proof {
                    assert(htmls_view(tokens@) =~= htmls_view(before).push(hv));
                    match tokens_of(reader.chars()) {
                        Some(rest) => {
                            assert(htmls_view(tokens@) + rest =~= htmls_view(before) + (seq![hv] + rest));
                        },
                        None => {},
                    }
                }
            },
        }
    }
}

/// A "simple" streaming html parser function. Reads one token.
///
/// **NOTE: Might return multiple Text tokens one after another.**
pub fn read_token(reader: &mut CharReader) -> (r: Result<Option<Html>, ParseError>)
    ensures
        final(reader).valid() == old(reader).valid(),
        !old(reader).valid() ==> r is Err,
        old(reader).valid() ==> match token_step(old(reader).chars()) {
            None => r matches Ok(None) && final(reader).chars() == old(reader).chars(),
            Some(None) => r is Err,
            Some(Some((h, n))) => r matches Ok(Some(x)) && x@ == h
                && final(reader).chars() == old(reader).chars().skip(n),
        },
    decreases old(reader).chars().len(), 0int,
{
    let ghost s = reader.chars();
    let first = match reader.peek_char(0) {
        Ok(c) => c,
        Err(e) => return Err(read_error(e)),
    };
    let c = match first {
        None => return Ok(None),
        Some(c) => c,
    };
    let lt = |c: char| -> (r: bool) ensures r == (c == '<') { c == '<' };
    if c == '<' {
        match html_comment(reader) {
            Err(e) => return Err(e),
            Ok(Some(comment)) => return Ok(Some(comment)),
            Ok(None) => {},
        }
        match html_element(reader) {
            Err(e) => return Err(e),
            Ok(Some((tag, attributes, content))) => {
                let ghost n = s.len() - reader.chars().len();
                proof {
                    lemma_element_content_shorter(s);
                }
                let mut sub = CharReader::new(content.as_str().as_bytes());
                proof {
                    vstd::utf8::encode_utf8_valid_utf8(content@);
                    vstd::utf8::encode_utf8_decode_utf8(content@);
                }
                let children = match read_tokens(&mut sub) {
                    Ok(children) => children,
                    Err(e) => return Err(e),
                };
                let ghost tv = tag@;
                let ghost av = attributes@;
                let ghost cv = children@;
                let h = Html::Element { tag, attributes, children };
                proof {
                    let hv = html_view(h);
                    assert(hv matches SpecHtml::Element(t, a, cs) && t == tv && a == av && cs =~= htmls_view(cv));
                }
                return Ok(Some(h));
            },
            Ok(None) => {},
        }
        // not html: text that starts with '<'
        match reader.consume(1) {
            Ok(_) => {},
            Err(e) => return Err(read_error(e)),
        }
        let ghost rest = reader.chars();
        let mut text = String::new();
        push_char(&mut text, '<');
        let more = match reader.consume_until_exclusive(lt) {
            Ok(m) => m,
            Err(e) => return Err(read_error(e)),
        };
        proof {
            lemma_until_lt(lt, rest, more@.len() as int);
        }
        push_str(&mut text, more.as_str());
        proof {
            assert(text@ =~= seq!['<'] + rest.take(more@.len() as int));
            assert(reader.chars() =~= s.skip(1 + more@.len() as int));
        }
        return Ok(Some(Html::Text { text }));
    }
    let text = match reader.consume_until_exclusive(lt) {
        Ok(t) => t,
        Err(e) => return Err(read_error(e)),
    };
    proof {
        lemma_until_lt(lt, s, text@.len() as int);
    }
    Ok(Some(Html::Text { text }))
}

/// The content of an element is shorter than the input it was read from.
pub proof fn lemma_element_content_shorter(s: Seq<char>)
    ensures
        element_step(s) matches Step::Found((_, _, content), _) ==> content.len() + 2 <= s.len(),
{
    if s.len() > 0 && s[0] == '<' {
        match find_char(s, '>', 1) {
            Some(i) => {
                lemma_find_char_bounds(s, '>', 1);
            },
            None => {},
        }
    }
}

/// Parses html into tokens, joining adjacent texts.
pub fn parse_html(input: &[u8]) -> (r: Result<Vec<Html>, ParseError>)
    ensures
        !vstd::utf8::valid_utf8(input@) ==> r is Err,
        vstd::utf8::valid_utf8(input@) ==> match tokens_of(vstd::utf8::decode_utf8(input@)) {
            Some(ts) => r matches Ok(v) && htmls_view(v@) == merge_texts(ts),
            None => r is Err,
        },
{
    let mut reader = CharReader::new(input);
    let tokens = read_tokens(&mut reader)?;
    let ghost ts = htmls_view(tokens@);
    let mut reduced: Vec<Html> = Vec::new();
    for token in it: tokens.into_iter()
        invariant
            ts == htmls_view(it.seq()),
            htmls_view(reduced@) == merge_texts(ts.take(it.index() as int)),
    {
        let ghost before = reduced@;
        let ghost tv = token@;
        proof {
            assert(ts.take(it.index() + 1).drop_last() =~= ts.take(it.index() as int));
            assert(ts[it.index() as int] == tv);
        }
        let last = reduced.pop();
        match (last, token) {
            (Some(Html::Text { text: mut a }), Html::Text { text: b }) => {
                push_str(&mut a, b.as_str());
                reduced.push(Html::Text { text: a });
                proof {
                    assert(htmls_view(reduced@) =~= htmls_view(before).drop_last().push(SpecHtml::Text(a@)));
                }
            },
            (last, token) => {
                match last {
                    Some(l) => {
                        reduced.push(l);
                    },
                    None => {},
                }
                reduced.push(token);
                proof {
                    assert(htmls_view(reduced@) =~= htmls_view(before).push(tv));
                }
            },
        }
    }
    proof {
        assert(ts.take(ts.len() as int) =~= ts);
    }
    Ok(reduced)
}

} // verus!
