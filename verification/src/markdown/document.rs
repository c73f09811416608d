//! Reading a whole markdown document into block tokens: the order in which
//! the blocks are tried, and the blocks that hold blocks (lists, block
//! quotes and html elements).
use vstd::prelude::*;

use crate::char_reader::{all_rejected, callable, ends_with_at, find_char, find_pattern, first_accepted, lemma_first_match_find, lemma_no_match_find, line_from, matches_at, CharReader};
use crate::html::{blen, byte_len, comment_step, element_step, html_comment, html_element, Html, SpecHtml, Step};
use crate::parse_error::ParseError;
use crate::text::{push_char, push_str, str_chars, str_eq, string_from_range};
use crate::markdown::block::{
    after_paragraph, break_step, consume_line, fence_step, fenced_code, heading, heading_step, indent, indentation,
    indented_code, indented_lines, lemma_blen_at_least_len, lemma_find_char_bounds, lemma_line_from,
    lemma_line_len_bounds, line_len, setext_heading, setext_step, table, table_step, thematic_break,
};
use crate::markdown::{join_lines, token_view, tokens_view, trim_start, trim_start_from, SpecToken, TableAlign, Token};
use crate::markdown::block::{info_opt, is_heading, is_table, is_text, text_cells};

verus! {

/// What reading a construct that may stop half way gives: an error, nothing
/// (after reading a number of characters), or a value and the number of
/// characters it took.
pub enum Read<T> {
    Fail,
    Nothing(int),
    Got(T, int),
}

/// Whether `toml::from_str` reads `text` as a toml table.
pub uninterp spec fn toml_table(text: Seq<char>) -> bool;

/// `toml::from_str` read as a `toml::Value`: the table when the text is a
/// toml table, whose being one is named `toml_table`. What the table holds
/// is not stated.
#[verifier::external_body]
fn toml_table_of(text: &str) -> (r: Option<toml::map::Map<String, toml::Value>>)
    ensures
        r is Some <==> toml_table(text@),
{
    match toml::from_str::<toml::Value>(text) {
        Ok(toml::Value::Table(table)) => Some(table),
        _ => None,
    }
}

/// Whether `c` is an ASCII digit.
pub open spec fn digit(c: char) -> bool {
    '0' <= c <= '9'
}

/// The number that the decimal digits `s` write.
pub open spec fn decimal(s: Seq<char>) -> int
    decreases s.len(),
{
    if s.len() == 0 {
        0
    } else {
        decimal(s.drop_last()) * 10 + (s.last() as int - '0' as int)
    }
}

/// What `str::parse::<u32>` gives: the number that the digits write, after
/// an optional `+`, when there is at least one digit, nothing else, and the
/// number fits.
pub open spec fn parse_u32(s: Seq<char>) -> Option<u32> {
    if all_digits(unsigned(s)) && decimal(unsigned(s)) <= u32::MAX {
        Some(decimal(unsigned(s)) as u32)
    } else {
        None
    }
}

/// `s` without a `+` in front.
pub open spec fn unsigned(s: Seq<char>) -> Seq<char> {
    if s.len() > 0 && s[0] == '+' {
        s.skip(1)
    } else {
        s
    }
}

/// `d` is one or more decimal digits.
pub open spec fn all_digits(d: Seq<char>) -> bool {
    d.len() > 0 && forall|i: int| 0 <= i < d.len() ==> digit(#[trigger] d[i])
}

/// The number of `\n` and `\r` in a row from `i`.
pub open spec fn newline_run(s: Seq<char>, i: int) -> int
    decreases s.len() - i,
{
    if 0 <= i < s.len() && (s[i] == '\n' || s[i] == '\r') {
        1 + newline_run(s, i + 1)
    } else {
        0
    }
}

/// Attributes at the front of a document: a comment `<!--...-->` holding a
/// toml table. The characters taken are as many as the comment has bytes.
pub open spec fn attributes_step(s: Seq<char>) -> Step<()> {
    if s.len() >= 4 && s.take(4) == seq!['<', '!', '-', '-'] {
        match find_pattern(s, seq!['-', '-', '>'], 0) {
            None => Step::NotFound,
            Some(j) => {
                let comment = s.take(j + 3);
                if comment.len() < 7 {
                    Step::Overrun
                } else if !toml_table(comment.subrange(4, comment.len() - 3)) {
                    Step::NotFound
                } else if blen(comment) > s.len() {
                    Step::Overrun
                } else {
                    Step::Found((), blen(comment))
                }
            },
        }
    } else {
        Step::NotFound
    }
}

/// `s` from `n` on; empty when `s` is shorter.
pub open spec fn from(s: Seq<char>, n: int) -> Seq<char> {
    if 0 <= n <= s.len() {
        s.skip(n)
    } else {
        Seq::empty()
    }
}

/// How a bullet list item starts: no marker, a marker that stops the list
/// (no space after it, or the end of the input within four characters),
/// or an item whose text starts `ident` characters in.
pub enum Marker {
    NoMarker,
    Stop,
    Item(int),
}

/// The first character after the marker at `p` that is not a space, among
/// the next four: its offset, or 0 when they are all spaces; `None` when
/// the input ends first.
pub open spec fn after_marker(s: Seq<char>, p: int, o: int) -> Option<int>
    decreases 5 - o,
{
    if o < 1 || o >= 5 {
        Some(0)
    } else if p + o >= s.len() {
        None
    } else if s[p + o] != ' ' {
        Some(o)
    } else {
        after_marker(s, p, o + 1)
    }
}

/// The marker of a bullet list item at the front of `s`.
pub open spec fn bullet_marker(s: Seq<char>) -> Marker {
    match indent(s) {
        Some(p) => if s[p] == '-' || s[p] == '+' || s[p] == '*' {
            match after_marker(s, p, 1) {
                None => Marker::Stop,
                Some(o) => if o <= 1 {
                    Marker::Stop
                } else {
                    Marker::Item(p + o)
                },
            }
        } else {
            Marker::NoMarker
        },
        None => Marker::NoMarker,
    }
}

/// The lines after the first of a list item: a blank line is kept as it
/// is, a line indented by `ident` spaces is kept without them (and as many
/// characters are taken as it has bytes, and one more). The text kept and
/// the characters taken.
pub open spec fn item_rest(s: Seq<char>, ident: int) -> (Seq<char>, int)
    decreases s.len(),
{
    let line = line_from(s, 0);
    if s.len() == 0 {
        (Seq::empty(), 0)
    } else if line.len() == 0 {
        let (t, m) = item_rest(s.skip(1), ident);
        (seq![s[0]] + t, 1 + m)
    } else if line.len() >= ident && forall|j: int| 0 <= j < ident ==> line[j] == ' ' {
        let k = if blen(line) + 1 < s.len() { blen(line) + 1 } else { s.len() as int };
        let piece = s.take(k);
        if 1 <= k {
            let (t, m) = item_rest(s.skip(k), ident);
            (from(piece, ident) + t, k + m)
        } else {
            (Seq::empty(), 0)
        }
    } else {
        (Seq::empty(), 0)
    }
}

/// The text of a list item whose first line starts its text `ident`
/// characters in, and the characters it takes.
pub open spec fn item_text(s: Seq<char>, ident: int) -> (Seq<char>, int) {
    let l = line_len(s);
    let (t, m) = item_rest(from(s, l), ident);
    (from(s.take(l), ident) + t, l + m)
}

/// Where the digits of an ordered list item marker at `p` end: at a `.` or
/// `)` within the next nine characters (`Some((index, true))`), or after
/// nine more digits (`Some((p, false))`); `None` when another character
/// or the end of the input comes first.
pub open spec fn number_end(s: Seq<char>, p: int, i: int) -> Option<(int, bool)>
    decreases 10 - i,
{
    if i < 1 || i >= 10 {
        Some((p, false))
    } else if p + i >= s.len() {
        None
    } else if digit(s[p + i]) {
        number_end(s, p, i + 1)
    } else if s[p + i] == '.' || s[p + i] == ')' {
        Some((p + i, true))
    } else {
        None
    }
}

/// The first character after the end of an ordered list marker at `q` that
/// is not a space, among the next four: its offset, or 1 when they are all
/// spaces; `None` when the input ends first.
pub open spec fn after_number(s: Seq<char>, q: int, i: int) -> Option<int>
    decreases 5 - i,
{
    if i < 1 || i >= 5 {
        Some(1)
    } else if q + i >= s.len() {
        None
    } else if s[q + i] != ' ' {
        Some(i)
    } else {
        after_number(s, q, i + 1)
    }
}

/// How an ordered list item starts, at the front of `s`: `Some(None)` for
/// no marker; `Some(Some(None))` for a marker that stops the list;
/// `Some(Some(Some((number, ident))))` for an item, with the characters in
/// front of its marker's end (what is read as the first number) and where
/// its text starts.
pub open spec fn ordered_marker(s: Seq<char>) -> Option<Option<(Seq<char>, int)>> {
    match indent(s) {
        Some(p) => if digit(s[p]) {
            match number_end(s, p, 1) {
                None => Some(None),
                Some((q, closing)) => {
                    let number = if closing { s.take(q) } else { s.take(q + 1) };
                    match after_number(s, q, 1) {
                        None => Some(None),
                        Some(n) => Some(Some((number, q + n))),
                    }
                },
            }
        } else {
            None
        },
        None => None,
    }
}

/// Where the `>` of a block quote line at the front of `s` is: after at
/// most two spaces; -1 when there is none.
pub open spec fn quote_start(s: Seq<char>) -> int {
    if s.len() > 0 && s[0] == '>' {
        0int
    } else if s.len() > 1 && s[0] == ' ' && s[1] == '>' {
        1
    } else if s.len() > 2 && s[0] == ' ' && s[1] == ' ' && s[2] == '>' {
        2
    } else {
        -1
    }
}

/// The text lines of a block quote at the front of `s`: each starts with a
/// `>` after at most two spaces and loses everything up to it and the
/// whitespace after it. The lines and the characters they take.
pub open spec fn quote_lines(s: Seq<char>) -> (Seq<Seq<char>>, int)
    decreases s.len(),
{
    let i = quote_start(s);
    let l = line_len(s);
    if i < 0 || !(i < l <= s.len()) {
        (Seq::empty(), 0)
    } else {
        let (ls, m) = quote_lines(s.skip(l));
        (seq![trim_start(s.subrange(i + 1, l))] + ls, l + m)
    }
}

/// The tokens of html content: a paragraph becomes its text.
pub open spec fn inline_paragraphs(ts: Seq<SpecToken>) -> Seq<SpecToken> {
    Seq::new(ts.len(), |i: int| match ts[i] {
        SpecToken::Paragraph(text, _) => SpecToken::Text(text),
        t => t,
    })
}

/// `ts` with `t` at the end, when there is one.
pub open spec fn push_opt(ts: Seq<SpecToken>, t: Option<SpecToken>) -> Seq<SpecToken> {
    match t {
        Some(x) => ts.push(x),
        None => ts,
    }
}

/// The text of the cells of a table, as text tokens.
pub open spec fn text_tokens(cells: Seq<Seq<char>>) -> Seq<Seq<SpecToken>> {
    Seq::new(cells.len(), |i: int| seq![SpecToken::Text(cells[i])])
}

/// The block tokens of a document `s`; `fresh` when nothing was read from
/// it yet (only then can it start with attributes). `None` for an error.
pub open spec fn blocks(s: Seq<char>, fresh: bool) -> Option<Seq<SpecToken>>
    decreases s.len(), 8int,
{
    blocks_from(s, fresh, Seq::empty())
}

/// The block tokens of the rest `s` of a document, after the tokens `acc`.
#[verifier::opaque]
pub open spec fn blocks_from(s: Seq<char>, fresh: bool, acc: Seq<SpecToken>) -> Option<Seq<SpecToken>>
    decreases s.len(), 7int,
{
    if s.len() == 0 {
        Some(acc)
    } else if s[0] == '\n' {
        // a block after a newline follows a blank line
        let t = from(s, newline_run(s, 0));
        if t.len() == 0 {
            Some(acc)
        } else {
            match block_step(true, '\n', t, false, acc) {
                None => None,
                Some((tok, acc2, n)) => if 1 <= n <= t.len() && t.len() <= s.len() {
                    blocks_from(t.skip(n), false, push_opt(acc2, tok))
                } else {
                    None
                },
            }
        }
    } else {
        match block_step(false, s[0], s, fresh, acc) {
            None => None,
            Some((tok, acc2, n)) => if 1 <= n <= s.len() {
                blocks_from(s.skip(n), false, push_opt(acc2, tok))
            } else {
                None
            },
        }
    }
}

/// One block at the front of `s`, after the tokens `acc`, `c` being the
/// character the block was taken to start with: the token it gives (if
/// any), the tokens before it (a paragraph may have grown or become a
/// heading), and the characters taken. The blocks are tried in order.
#[verifier::opaque]
pub open spec fn block_step(blank: bool, c: char, s: Seq<char>, fresh: bool, acc: Seq<SpecToken>) -> Option<(Option<SpecToken>, Seq<SpecToken>, int)>
    decreases s.len(), 6int,
{
    match if fresh { attributes_step(s) } else { Step::NotFound } {
        Step::Overrun => None,
        Step::Found(_, n) => Some((Some(SpecToken::Attributes), acc, n)),
        Step::NotFound => match heading_step(s) {
            Some((d, text, n)) => Some((Some(SpecToken::Heading(text, Seq::empty(), d)), acc, n)),
            None => match comment_step(s) {
                Step::Overrun => None,
                Step::Found(text, n) => Some((Some(SpecToken::Comment(text)), acc, n)),
                Step::NotFound => match element_step(s) {
                    Step::Overrun => None,
                    Step::Found((tag, attrs, content), n) => if content.len() < s.len() {
                        match blocks(content, true) {
                            None => None,
                            Some(ts) => Some((Some(SpecToken::Html(inline_paragraphs(ts), tag, attrs)), acc, n)),
                        }
                    } else {
                        None
                    },
                    Step::NotFound => match (if after_paragraph_spec(acc) { setext_step(s) } else { None }) {
                        Some((d, n)) => Some((Some(SpecToken::Heading(acc.last()->Paragraph_0, Seq::empty(), d)), acc.drop_last(), n)),
                        None => match break_step(s) {
                            Some(n) => Some((Some(SpecToken::ThematicBreak), acc, n)),
                            None => later_blocks(blank, c, s, acc),
                        },
                    },
                },
            },
        },
    }
}

/// `acc` ends with a paragraph.
pub open spec fn after_paragraph_spec(acc: Seq<SpecToken>) -> bool {
    acc.len() > 0 && acc.last() is Paragraph
}

/// The blocks tried after a thematic break: lists, code, block quotes,
/// tables and paragraphs. A list that stops half way is read but gives no
/// token, and the blocks after it are tried on what is left.
#[verifier::opaque]
pub open spec fn later_blocks(blank: bool, c: char, s: Seq<char>, acc: Seq<SpecToken>) -> Option<(Option<SpecToken>, Seq<SpecToken>, int)>
    decreases s.len(), 4int,
{
    match bullet_items(s, Seq::empty()) {
        Read::Fail => None,
        Read::Got(items, n) => Some((Some(SpecToken::BulletList(items)), acc, n)),
        Read::Nothing(k) => after(k, ordered_blocks(blank, c, from(s, k), acc)),
    }
}

/// A step of reading that comes after `k` characters were read.
pub open spec fn after(k: int, r: Option<(Option<SpecToken>, Seq<SpecToken>, int)>) -> Option<(Option<SpecToken>, Seq<SpecToken>, int)> {
    match r {
        None => None,
        Some((t, acc, n)) => Some((t, acc, k + n)),
    }
}

/// The blocks tried after a bullet list: an ordered list first.
#[verifier::opaque]
pub open spec fn ordered_blocks(blank: bool, c: char, s: Seq<char>, acc: Seq<SpecToken>) -> Option<(Option<SpecToken>, Seq<SpecToken>, int)>
    decreases s.len(), 3int,
{
    match ordered_items(s, 0, Seq::empty()) {
        Read::Fail => None,
        Read::Got((items, start), n) => Some((Some(SpecToken::OrderedList(items, start)), acc, n)),
        Read::Nothing(k) => after(k, code_blocks(blank, c, from(s, k), acc)),
    }
}

/// The blocks tried after the lists: indented code first. It does not
/// interrupt a paragraph without a blank line before it.
#[verifier::opaque]
pub open spec fn code_blocks(blank: bool, c: char, s: Seq<char>, acc: Seq<SpecToken>) -> Option<(Option<SpecToken>, Seq<SpecToken>, int)>
    decreases s.len(), 2int,
{
    let (code, k) = if after_paragraph_spec(acc) && !blank {
        (Seq::empty(), 0int)
    } else {
        indented_lines(s)
    };
    if code.len() > 0 {
        Some((Some(SpecToken::CodeBlock(None, code)), acc, k))
    } else {
        after(k, last_blocks(blank, c, from(s, k), acc))
    }
}

/// The last blocks tried: fenced code, block quotes, tables and
/// paragraphs; a paragraph is the rest of the line.
#[verifier::opaque]
pub open spec fn last_blocks(blank: bool, c: char, s: Seq<char>, acc: Seq<SpecToken>) -> Option<(Option<SpecToken>, Seq<SpecToken>, int)>
    decreases s.len(), 1int,
{
    match fence_step(s) {
        Step::Overrun => None,
        Step::Found((info, text), n) => Some((Some(SpecToken::CodeBlock(info_opt(info), text)), acc, n)),
        Step::NotFound => match quote(s) {
            Read::Fail => None,
            Read::Got(ts, n) => Some((Some(SpecToken::BlockQuote(ts)), acc, n)),
            Read::Nothing(_) => match table_step(c, s) {
                Step::Overrun => None,
                Step::Found((header, align, rows), n) => Some((
                    Some(SpecToken::Table(text_tokens(header), align, Seq::new(rows.len(), |i: int| text_tokens(rows[i])))),
                    acc,
                    n,
                )),
                Step::NotFound => {
                    let n = line_len(s);
                    let text = s.take(n);
                    if !blank && after_paragraph_spec(acc) {
                        let last = acc.last()->Paragraph_0;
                        let tokens = acc.last()->Paragraph_1;
                        Some((None, acc.drop_last().push(SpecToken::Paragraph(last + text, tokens)), n))
                    } else {
                        Some((Some(SpecToken::Paragraph(text, Seq::empty())), acc, n))
                    }
                },
            },
        },
    }
}

/// The items of a bullet list at the front of `s`, after the items `acc`.
pub open spec fn bullet_items(s: Seq<char>, acc: Seq<Seq<SpecToken>>) -> Read<Seq<Seq<SpecToken>>>
    decreases s.len(), 0int,
{
    match bullet_marker(s) {
        Marker::NoMarker => if acc.len() == 0 {
            Read::Nothing(0)
        } else {
            Read::Got(acc, 0)
        },
        Marker::Stop => Read::Nothing(0),
        Marker::Item(ident) => {
            let (text, n) = item_text(s, ident);
            if 1 <= n <= s.len() && text.len() < s.len() {
                match blocks(text, true) {
                    None => Read::Fail,
                    Some(ts) => match bullet_items(s.skip(n), acc.push(ts)) {
                        Read::Fail => Read::Fail,
                        Read::Nothing(k) => Read::Nothing(n + k),
                        Read::Got(items, k) => Read::Got(items, n + k),
                    },
                }
            } else {
                Read::Fail
            }
        },
    }
}

/// The items of an ordered list at the front of `s`, after the items `acc`,
/// and its start number: read from the first item while it is 0.
pub open spec fn ordered_items(s: Seq<char>, start: u32, acc: Seq<Seq<SpecToken>>) -> Read<(Seq<Seq<SpecToken>>, u32)>
    decreases s.len(), 0int,
{
    match ordered_marker(s) {
        None => if acc.len() == 0 {
            Read::Nothing(0)
        } else {
            Read::Got((acc, start), 0)
        },
        Some(None) => Read::Nothing(0),
        Some(Some((number, ident))) => {
            let start2 = if start == 0 { parse_u32(number) } else { Some(start) };
            match start2 {
                None => Read::Fail,
                Some(st) => {
                    let (text, n) = item_text(s, ident);
                    if 1 <= n <= s.len() && text.len() < s.len() {
                        match blocks(text, true) {
                            None => Read::Fail,
                            Some(ts) => match ordered_items(s.skip(n), st, acc.push(ts)) {
                                Read::Fail => Read::Fail,
                                Read::Nothing(k) => Read::Nothing(n + k),
                                Read::Got(r, k) => Read::Got(r, n + k),
                            },
                        }
                    } else {
                        Read::Fail
                    }
                },
            }
        },
    }
}

/// A block quote at the front of `s`: its tokens and the characters it
/// takes.
pub open spec fn quote(s: Seq<char>) -> Read<Seq<SpecToken>>
    decreases s.len(), 0int,
{
    let (lines, n) = quote_lines(s);
    let text = join_lines(lines);
    if lines.len() == 0 {
        Read::Nothing(0)
    } else if text.len() < s.len() {
        match blocks(text, true) {
            None => Read::Fail,
            Some(ts) => Read::Got(ts, n),
        }
    } else {
        Read::Fail
    }
}

pub proof fn lemma_decimal_prefix(d: Seq<char>, k: int)
    requires
        0 <= k <= d.len(),
        forall|i: int| 0 <= i < d.len() ==> digit(#[trigger] d[i]),
    ensures
        0 <= decimal(d.take(k)) <= decimal(d),
    decreases d.len(),
{
    if d.len() > 0 {
        assert(forall|i: int| 0 <= i < d.drop_last().len() ==> d.drop_last()[i] == d[i]);
        if k == d.len() {
            assert(d.take(k) =~= d);
            lemma_decimal_prefix(d.drop_last(), 0);
            assert(d.take(0) =~= d.drop_last().take(0));
        } else {
            lemma_decimal_prefix(d.drop_last(), k);
            assert(d.drop_last().take(k) =~= d.take(k));
        }
        assert(digit(d[d.len() - 1]));
        lemma_decimal_prefix(d.drop_last(), d.len() - 1);
        assert(d.drop_last().take(d.len() - 1) =~= d.drop_last());
    } else {
        assert(d.take(k) =~= d);
    }
}

/// `str::parse::<u32>`, for the characters in front of an ordered list
/// marker.
fn parse_number(s: &str) -> (r: Option<u32>)
    ensures
        r == parse_u32(s@),
{
    let cs = str_chars(s);
    let start: usize = if cs.len() > 0 && cs[0] == '+' { 1 } else { 0 };
    let ghost d = unsigned(s@);
    proof {
        if start == 0 {
            assert(s@.skip(0) =~= s@);
        }
        assert(d =~= s@.skip(start as int));
    }
    if start == cs.len() {
        return None;
    }
    let mut value: u64 = 0;
    let mut i: usize = start;
    proof {
        assert(d.take(0) =~= Seq::<char>::empty());
    }
    while i < cs.len()
        invariant
            start <= i <= cs.len(),
            cs@ == s@,
            d == s@.skip(start as int),
            d == unsigned(s@),
            d.len() > 0,
            value == decimal(d.take(i - start)),
            value <= u32::MAX,
            forall|j: int| 0 <= j < i - start ==> digit(#[trigger] d[j]),
        decreases cs.len() - i,
    {
        let c = cs[i];
        assert(d[i - start] == c);
        if !('0' <= c && c <= '9') {
            proof {
                assert(!digit(d[i - start]));
                assert(!all_digits(d));
            }
            return None;
        }
        let dv = (c as u32 - '0' as u32) as u64;
        proof {
            assert(d.take(i + 1 - start).drop_last() =~= d.take(i - start));
            assert(d.take(i + 1 - start).last() == c);
        }
        value = value * 10 + dv;
        if value > 0xffff_ffff {
            proof {
                if all_digits(d) {
                    lemma_decimal_prefix(d, i + 1 - start);
                }
            }
            return None;
        }
        i += 1;
    }
    proof {
        assert(d.take(cs.len() - start) =~= d);
    }
    Some(value as u32)
}

/// Reads the attributes a document may start with: a comment holding a
/// toml table.
fn attributes(reader: &mut CharReader) -> (r: Result<Option<Token>, ParseError>)
    requires
        old(reader).valid(),
    ensures
        final(reader).valid(),
        match attributes_step(old(reader).chars()) {
            Step::NotFound => (r matches Ok(None)) && final(reader).chars() == old(reader).chars()
                && final(reader).read_flag() == old(reader).read_flag(),
            Step::Overrun => r is Err,
            Step::Found(_, n) => (r matches Ok(Some(_))) && r->Ok_0->Some_0 is Attributes
                && final(reader).chars() == old(reader).chars().skip(n) && final(reader).read_flag(),
        },
{
    let ghost s = reader.chars();
    proof {
        reveal_strlit("<!--");
        reveal_strlit("-->");
        assert("<!--"@ =~= seq!['<', '!', '-', '-']);
        assert("-->"@ =~= seq!['-', '-', '>']);
    }
    let head = match reader.peek_string(4) {
        Ok(h) => h,
        Err(e) => return Err(ParseError::from_io_error(e)),
    };
    if !str_eq(head.as_str(), "<!--") {
        return Ok(None);
    }
    let comment = match reader.peek_until_match_inclusive("-->") {
        Ok(Some(c)) => c,
        Ok(None) => {
            proof {
                lemma_no_match_find(s, "-->"@, 0);
            }
            return Ok(None);
        },
        Err(e) => return Err(ParseError::from_io_error(e)),
    };
    proof {
        lemma_first_match_find(s, "-->"@, 0, comment@.len() - 3);
        assert(comment@ =~= s.take(comment@.len() as int));
    }
    let cs = str_chars(comment.as_str());
    if cs.len() < 7 {
        return Err(ParseError::invalid("attributes comment is too short"));
    }
    let inner = string_from_range(&cs, 4, cs.len() - 3);
    let table = match toml_table_of(inner.as_str()) {
        Some(t) => t,
        None => return Ok(None),
    };
    let cb = byte_len(&comment);
    let total = reader.remaining_len();
    if cb > total {
        return Err(ParseError::invalid("attributes run past the end of the input"));
    }
    match reader.consume(cb) {
        Ok(_) => {},
        Err(e) => return Err(ParseError::from_io_error(e)),
    }
    Ok(Some(Token::Attributes { table }))
}

pub proof fn lemma_item_rest_bounds(s: Seq<char>, ident: int)
    requires
        0 <= ident,
    ensures
        0 <= item_rest(s, ident).1 <= s.len(),
        item_rest(s, ident).0.len() <= item_rest(s, ident).1,
    decreases s.len(),
{
    let line = line_from(s, 0);
    lemma_line_from(s, 0);
    if s.len() == 0 {
    } else if line.len() == 0 {
        lemma_item_rest_bounds(s.skip(1), ident);
    } else if line.len() >= ident && forall|j: int| 0 <= j < ident ==> line[j] == ' ' {
        let k = if blen(line) + 1 < s.len() { blen(line) + 1 } else { s.len() as int };
        if 1 <= k {
            lemma_item_rest_bounds(s.skip(k), ident);
        }
    }
}

pub proof fn lemma_item_text_bounds(s: Seq<char>, ident: int)
    requires
        1 <= ident < line_len(s),
    ensures
        1 <= item_text(s, ident).1 <= s.len(),
        item_text(s, ident).0.len() + ident <= item_text(s, ident).1,
{
    lemma_line_len_bounds(s);
    let l = line_len(s);
    lemma_item_rest_bounds(from(s, l), ident);
}

pub proof fn lemma_bullet_items_bounds(s: Seq<char>, acc: Seq<Seq<SpecToken>>)
    ensures
        bullet_items(s, acc) matches Read::Nothing(k) ==> 0 <= k <= s.len(),
        bullet_items(s, acc) matches Read::Got(_, k) ==> 0 <= k <= s.len() && (acc.len() == 0 ==> k >= 1),
    decreases s.len(),
{
    match bullet_marker(s) {
        Marker::Item(ident) => {
            let (text, n) = item_text(s, ident);
            if 1 <= n <= s.len() && text.len() < s.len() {
                lemma_bullet_items_bounds(s.skip(n), acc.push(blocks(text, true)->0));
            }
        },
        _ => {},
    }
}

pub proof fn lemma_ordered_items_bounds(s: Seq<char>, start: u32, acc: Seq<Seq<SpecToken>>)
    ensures
        ordered_items(s, start, acc) matches Read::Nothing(k) ==> 0 <= k <= s.len(),
        ordered_items(s, start, acc) matches Read::Got(_, k) ==> 0 <= k <= s.len() && (acc.len() == 0 ==> k >= 1),
    decreases s.len(),
{
    match ordered_marker(s) {
        Some(Some((number, ident))) => {
            let start2 = if start == 0 { parse_u32(number) } else { Some(start) };
            if let Some(st) = start2 {
                let (text, n) = item_text(s, ident);
                if 1 <= n <= s.len() && text.len() < s.len() {
                    lemma_ordered_items_bounds(s.skip(n), st, acc.push(blocks(text, true)->0));
                }
            }
        },
        _ => {},
    }
}

/// Joining lines after a first one.
pub proof fn lemma_join_lines_prepend(x: Seq<char>, ls: Seq<Seq<char>>)
    ensures
        join_lines(seq![x] + ls) == if ls.len() == 0 { x } else { x + seq!['\n'] + join_lines(ls) },
    decreases ls.len(),
{
    if ls.len() > 0 {
        assert((seq![x] + ls).drop_last() =~= seq![x] + ls.drop_last());
        lemma_join_lines_prepend(x, ls.drop_last());
        if ls.len() > 1 {
            assert(x + seq!['\n'] + join_lines(ls.drop_last()) + seq!['\n'] + ls.last() =~= x + seq!['\n'] + (join_lines(ls.drop_last()) + seq!['\n'] + ls.last()));
        } else {
            assert(ls.drop_last() =~= Seq::<Seq<char>>::empty());
            assert(join_lines(ls) == ls[0]);
        }
    } else {
        assert(seq![x] + ls =~= seq![x]);
    }
}

pub proof fn lemma_quote_lines_bounds(s: Seq<char>)
    ensures
        0 <= quote_lines(s).1 <= s.len(),
        quote_lines(s).0.len() > 0 ==> quote_lines(s).1 >= 1 && join_lines(quote_lines(s).0).len() < quote_lines(s).1,
        quote_lines(s).0.len() == 0 ==> quote_lines(s).1 == 0,
    decreases s.len(),
{
    let i = quote_start(s);
    let l = line_len(s);
    if i >= 0 && i < l <= s.len() {
        lemma_quote_lines_bounds(s.skip(l));
        let (ls, m) = quote_lines(s.skip(l));
        let x = trim_start(s.subrange(i + 1, l));
        lemma_trim_start_len(s.subrange(i + 1, l));
        lemma_join_lines_prepend(x, ls);
    }
}

pub proof fn lemma_trim_start_len(s: Seq<char>)
    ensures
        trim_start(s).len() <= s.len(),
    decreases s.len(),
{
    if s.len() > 0 && crate::markdown::whitespace(s[0]) {
        lemma_trim_start_len(s.skip(1));
    }
}

/// `r` with `k` more characters read in front.
pub open spec fn shifted<T>(r: Read<T>, k: int) -> Read<T> {
    match r {
        Read::Fail => Read::Fail,
        Read::Nothing(n) => Read::Nothing(k + n),
        Read::Got(x, n) => Read::Got(x, k + n),
    }
}

/// The views of the tokens of each item.
pub open spec fn items_view(items: Seq<Vec<Token>>) -> Seq<Seq<SpecToken>> {
    Seq::new(items.len(), |i: int| tokens_view(items[i]@))
}

/// The view of a token, when there is one.
pub open spec fn opt_view(t: Option<Token>) -> Option<SpecToken> {
    match t {
        Some(x) => Some(token_view(x)),
        None => None,
    }
}

/// A line that runs on past `k` characters without a newline is longer.
pub proof fn lemma_line_len_past(s: Seq<char>, k: int)
    requires
        0 <= k < s.len(),
        forall|j: int| 0 <= j < k ==> s[j] != '\n',
    ensures
        k < line_len(s),
{
    lemma_find_char_bounds(s, '\n', 0);
    lemma_find_char_first(s, '\n', 0);
}

pub proof fn lemma_find_char_first(s: Seq<char>, c: char, pos: int)
    requires
        0 <= pos,
    ensures
        find_char(s, c, pos) matches Some(i) ==> forall|j: int| pos <= j < i ==> s[j] != c,
        find_char(s, c, pos) is None ==> forall|j: int| pos <= j < s.len() ==> s[j] != c,
    decreases s.len() - pos,
{
    if pos < s.len() && s[pos] != c {
        lemma_find_char_first(s, c, pos + 1);
    }
}

/// Where the text of a bullet list item starts: `Ok(None)` without a
/// marker, `Ok(Some(None))` for a marker that stops the list.
fn read_bullet_marker(reader: &CharReader) -> (r: Result<Option<Option<usize>>, ParseError>)
    requires
        reader.valid(),
    ensures
        r is Ok,
        r matches Ok(x) ==> match bullet_marker(reader.chars()) {
            Marker::NoMarker => x is None,
            Marker::Stop => x == Some(None::<usize>),
            Marker::Item(ident) => x matches Some(Some(i)) && i == ident && 2 <= ident < line_len(reader.chars()),
        },
{
    let ghost s = reader.chars();
    let pos = match indentation(reader) {
        Ok(Some(p)) => p,
        Ok(None) => return Ok(None),
        Err(e) => return Err(e),
    };
    let c = match reader.peek_char(pos) {
        Ok(Some(c)) => c,
        _ => return Ok(None),
    };
    if !(c == '-' || c == '+' || c == '*') {
        return Ok(None);
    }
    let mut o: usize = 1;
    let mut found: usize = 0;
    while o < 5
        invariant_except_break
            found == 0,
        invariant
            s == reader.chars(),
            reader.valid(),
            pos < 4,
            pos < s.len(),
            crate::markdown::block::indent(s) == Some(pos as int),
            s[pos as int] == '-' || s[pos as int] == '+' || s[pos as int] == '*',
            1 <= o <= 5,
            after_marker(s, pos as int, 1) == after_marker(s, pos as int, o as int),
            forall|j: int| pos < j < pos + o ==> s[j] == ' ',
        ensures
            s == reader.chars(),
            after_marker(s, pos as int, 1) == Some(found as int),
            found > 0 ==> pos + found < s.len(),
            found == 0 || (1 <= found < 5 && s[pos + found] != ' ' && forall|j: int| pos < j < pos + found ==> s[j] == ' '),
        decreases 5 - o,
    {
        match reader.peek_char(pos + o) {
            Ok(Some(' ')) => {},
            Ok(Some(_)) => {
                found = o;
                break;
            },
            _ => return Ok(Some(None)),
        }
        o += 1;
    }
    if found <= 1 {
        return Ok(Some(None));
    }
    proof {
        assert forall|j: int| 0 <= j < pos + found implies s[j] != '\n' by {
            if j < pos {
                assert(crate::markdown::block::indent_from(s, 0) == Some(pos as int));
                lemma_indent_spaces(s, 0, pos as int, j);
            }
        }
        lemma_line_len_past(s, pos + found);
    }
    Ok(Some(Some(pos + found)))
}

pub proof fn lemma_indent_spaces(s: Seq<char>, i: int, p: int, j: int)
    requires
        0 <= i <= j < p,
        crate::markdown::block::indent_from(s, i) == Some(p),
    ensures
        s[j] == ' ',
    decreases p - i,
{
    if i < j {
        lemma_indent_spaces(s, i + 1, p, j);
    }
}

/// The marker of an ordered list item: `Ok(None)` without one,
/// `Ok(Some(None))` for one that stops the list, else how many characters
/// are read as its number and where its text starts.
fn read_ordered_marker(reader: &CharReader) -> (r: Result<Option<Option<(usize, usize)>>, ParseError>)
    requires
        reader.valid(),
    ensures
        r is Ok,
        r matches Ok(x) ==> match ordered_marker(reader.chars()) {
            None => x is None,
            Some(None) => x == Some(None::<(usize, usize)>),
            Some(Some((number, ident))) => x matches Some(Some((k, i))) && number == reader.chars().take(k as int)
                && k <= reader.chars().len() && i == ident && 1 <= ident < line_len(reader.chars()),
        },
{
    let ghost s = reader.chars();
    let pos = match indentation(reader) {
        Ok(Some(p)) => p,
        Ok(None) => return Ok(None),
        Err(e) => return Err(e),
    };
    let c = match reader.peek_char(pos) {
        Ok(Some(c)) => c,
        _ => return Ok(None),
    };
    if !('0' <= c && c <= '9') {
        return Ok(None);
    }
    // the digits up to a `.` or `)`
    proof {
        assert forall|j: int| 0 <= j < pos implies s[j] != '\n' by {
            lemma_indent_spaces(s, 0, pos as int, j);
        }
    }
    let mut i: usize = 1;
    let mut q: usize = pos;
    let mut closing = false;
    while i < 10
        invariant_except_break
            q == pos,
            !closing,
        invariant
            s == reader.chars(),
            reader.valid(),
            pos < 4,
            pos < s.len(),
            crate::markdown::block::indent(s) == Some(pos as int),
            digit(s[pos as int]),
            forall|j: int| 0 <= j < pos ==> s[j] != '\n',
            1 <= i <= 10,
            number_end(s, pos as int, 1) == number_end(s, pos as int, i as int),
            forall|j: int| pos <= j < pos + i ==> digit(s[j]),
        ensures
            s == reader.chars(),
            number_end(s, pos as int, 1) == Some((q as int, closing)),
            pos <= q < s.len(),
            forall|j: int| 0 <= j < q ==> s[j] != '\n',
            forall|j: int| pos <= j <= q ==> digit(s[j]) || j == q,
            crate::markdown::block::indent(s) == Some(pos as int),
            digit(s[pos as int]),
            closing ==> q > pos && (s[q as int] == '.' || s[q as int] == ')'),
            !closing ==> q == pos,
        decreases 10 - i,
    {
        match reader.peek_char(pos + i) {
            Ok(Some(d)) => {
                if '0' <= d && d <= '9' {
                } else if d == '.' || d == ')' {
                    q = pos + i;
                    closing = true;
                    proof {
                        assert forall|j: int| 0 <= j < q implies s[j] != '\n' by {
                            if j < pos {
                                lemma_indent_spaces(s, 0, pos as int, j);
                            }
                        }
                    }
                    break;
                } else {
                    return Ok(Some(None));
                }
            },
            _ => return Ok(Some(None)),
        }
        i += 1;
    }
    proof {
        if !closing {
            assert forall|j: int| 0 <= j < q implies s[j] != '\n' by {
                lemma_indent_spaces(s, 0, pos as int, j);
            }
        }
    }
    let k = if closing { q } else { q + 1 };
    // the first character after the marker that is not a space
    let total = reader.remaining_len();
    let mut o: usize = 1;
    let mut n: usize = 1;
    while o < 5
        invariant_except_break
            n == 1,
        invariant
            s == reader.chars(),
            reader.valid(),
            total == s.len(),
            q < s.len(),
            crate::markdown::block::indent(s) == Some(pos as int),
            digit(s[pos as int]),
            number_end(s, pos as int, 1) == Some((q as int, closing)),
            1 <= o <= 5,
            after_number(s, q as int, 1) == after_number(s, q as int, o as int),
            forall|j: int| q < j < q + o ==> s[j] == ' ',
        ensures
            s == reader.chars(),
            after_number(s, q as int, 1) == Some(n as int),
            1 <= n < 5,
            q + n < s.len(),
            forall|j: int| q < j < q + n ==> s[j] == ' ',
        decreases 5 - o,
    {
        if o >= total - q {
            return Ok(Some(None));
        }
        match reader.peek_char(q + o) {
            Ok(Some(' ')) => {},
            Ok(Some(_)) => {
                n = o;
                break;
            },
            _ => return Ok(Some(None)),
        }
        o += 1;
    }
    proof {
        assert forall|j: int| 0 <= j < q + n implies s[j] != '\n' by {
            if j > q {
                assert(s[j] == ' ');
            } else if j == q {
                if closing {
                } else {
                    assert(digit(s[q as int]));
                }
            }
        }
        lemma_line_len_past(s, q + n);
    }
    Ok(Some(Some((k, q + n))))
}

/// Read the text of a list item whose text starts `ident` characters into
/// its first line, and the blocks it holds.
fn list_item_text(reader: &mut CharReader, ident: usize) -> (r: Result<Vec<Token>, ParseError>)
    requires
        old(reader).valid(),
        1 <= ident < line_len(old(reader).chars()),
    ensures
        final(reader).valid(),
        final(reader).read_flag(),
        final(reader).chars() == old(reader).chars().skip(item_text(old(reader).chars(), ident as int).1),
        match blocks(item_text(old(reader).chars(), ident as int).0, true) {
            None => r is Err,
            Some(ts) => r matches Ok(v) && tokens_view(v@) == ts,
        },
    decreases old(reader).chars().len(), 0int,
{
    let ghost s = reader.chars();
    proof {
        lemma_item_text_bounds(s, ident as int);
        lemma_line_len_bounds(s);
    }
    let first = match consume_line(reader) {
        Ok(l) => l,
        Err(e) => return Err(e),
    };
    let fcs = str_chars(first.as_str());
    let mut content = string_from_range(&fcs, ident, fcs.len());
    let ghost s1 = reader.chars();
    let ghost mut consumed: int = 0;
    proof {
        assert(content@ == from(first@, ident as int));
        assert(s1 == from(s, line_len(s)));
        assert(s1.skip(0) =~= s1);
        assert(content@ + item_rest(s1, ident as int).0 == from(first@, ident as int) + item_rest(s1, ident as int).0);
    }
    loop
        invariant_except_break
            0 <= consumed <= s1.len(),
            reader.chars() == s1.skip(consumed),
            content@ + item_rest(reader.chars(), ident as int).0 == from(first@, ident as int) + item_rest(s1, ident as int).0,
            consumed + item_rest(reader.chars(), ident as int).1 == item_rest(s1, ident as int).1,
        invariant
            reader.valid(),
            reader.read_flag(),
            1 <= ident,
        ensures
            reader.valid(),
            reader.read_flag(),
            content@ == from(first@, ident as int) + item_rest(s1, ident as int).0,
            reader.chars() == s1.skip(item_rest(s1, ident as int).1),
        decreases reader.chars().len(),
    {
        let ghost cur = reader.chars();
        let line = match reader.peek_line() {
            Ok(l) => l,
            Err(e) => return Err(ParseError::from_io_error(e)),
        };
        proof {
            lemma_line_from(cur, 0);
        }
        let lcs = str_chars(line.as_str());
        if lcs.len() == 0 {
            let piece = match reader.consume_string(1) {
                Ok(p) => p,
                Err(e) => return Err(ParseError::from_io_error(e)),
            };
            if piece.as_str().is_empty() {
                proof {
                    assert(content@ + Seq::<char>::empty() =~= content@);
                    assert(cur.len() == 0);
                    assert(s1.skip(consumed) == cur);
                }
                break;
            }
            let ghost before = content@;
            push_str(&mut content, piece.as_str());
            proof {
                assert(piece@ =~= seq![cur[0]]);
                let next = cur.skip(1);
                assert(s1.skip(consumed + 1) =~= next);
                assert(item_rest(cur, ident as int) == (seq![cur[0]] + item_rest(next, ident as int).0, 1 + item_rest(next, ident as int).1));
                assert(content@ + item_rest(next, ident as int).0 =~= before + item_rest(cur, ident as int).0);
                consumed = consumed + 1;
            }
        } else if spaces_prefix(&lcs, ident) {
            let b = byte_len(&line);
            let k = b.saturating_add(1);
            let _left = reader.remaining_len();
            let piece = match reader.consume_string(k) {
                Ok(p) => p,
                Err(e) => return Err(ParseError::from_io_error(e)),
            };
            proof {
                lemma_blen_at_least_len(line@);
            }
            let pcs = str_chars(piece.as_str());
            let part = string_from_range(&pcs, ident, pcs.len());
            let ghost before = content@;
            push_str(&mut content, part.as_str());
            proof {
                let kk = if blen(line@) + 1 < cur.len() { blen(line@) + 1 } else { cur.len() as int };
                assert(piece@ == cur.take(kk));
                assert(part@ == from(cur.take(kk), ident as int));
                let next = cur.skip(kk);
                assert(s1.skip(consumed + kk) =~= next);
                assert(item_rest(cur, ident as int) == (from(cur.take(kk), ident as int) + item_rest(next, ident as int).0, kk + item_rest(next, ident as int).1));
                assert(content@ + item_rest(next, ident as int).0 =~= before + item_rest(cur, ident as int).0);
                consumed = consumed + kk;
            }
        } else {
            proof {
                assert(content@ + Seq::<char>::empty() =~= content@);
            }
            break;
        }
    }
    proof {
        lemma_item_text_bounds(s, ident as int);
        assert(s1.skip(item_rest(s1, ident as int).1) =~= s.skip(item_text(s, ident as int).1));
    }
    let mut inner = CharReader::from_string(content.as_str());
    read_block_tokens(&mut inner)
}

/// Whether `v` starts with `n` spaces.
fn spaces_prefix(v: &Vec<char>, n: usize) -> (r: bool)
    ensures
        r == (v@.len() >= n && forall|j: int| 0 <= j < n ==> v@[j] == ' '),
{
    if v.len() < n {
        return false;
    }
    let mut i: usize = 0;
    while i < n
        invariant
            i <= n <= v@.len(),
            forall|j: int| 0 <= j < i ==> v@[j] == ' ',
        decreases n - i,
    {
        if v[i] != ' ' {
            return false;
        }
        i += 1;
    }
    true
}

/// Read the blocks of `text`.
fn read_text_blocks(text: &str) -> (r: Result<Vec<Token>, ParseError>)
    ensures
        match blocks(text@, true) {
            None => r is Err,
            Some(ts) => r matches Ok(v) && tokens_view(v@) == ts,
        },
    decreases text@.len(), 10int,
{
    let mut inner = CharReader::from_string(text);
    read_block_tokens(&mut inner)
}

/// The views of the lines.
pub open spec fn lines_view(lines: Seq<String>) -> Seq<Seq<char>> {
    Seq::new(lines.len(), |i: int| lines[i]@)
}



/// One line of a block quote read.
pub proof fn lemma_quote_step(cur: Seq<char>, i: int, after: Seq<Seq<char>>, before: Seq<Seq<char>>)
    requires
        quote_start(cur) == i,
        0 <= i < line_len(cur) <= cur.len(),
        after == before.push(trim_start(cur.subrange(i + 1, line_len(cur)))),
    ensures
        after + quote_lines(cur.skip(line_len(cur))).0 == before + quote_lines(cur).0,
        quote_lines(cur).1 == line_len(cur) + quote_lines(cur.skip(line_len(cur))).1,
{
    let l = line_len(cur);
    let x = trim_start(cur.subrange(i + 1, l));
    assert(quote_lines(cur).0 == seq![x] + quote_lines(cur.skip(l)).0);
    assert(after + quote_lines(cur.skip(l)).0 =~= before + quote_lines(cur).0);
}

/// The lines joined by newlines.
fn join_with_newlines(lines: &Vec<String>) -> (r: String)
    ensures
        r@ == join_lines(lines_view(lines@)),
{
    let mut text = String::new();
    let mut j: usize = 0;
    while j < lines.len()
        invariant
            j <= lines.len(),
            text@ == join_lines(lines_view(lines@).take(j as int)),
        decreases lines.len() - j,
    {
        let ghost before = text@;
        if j > 0 {
            push_char(&mut text, '\n');
        }
        push_str(&mut text, lines[j].as_str());
        proof {
            let lv = lines_view(lines@);
            assert(lv.take(j + 1).drop_last() =~= lv.take(j as int));
            assert(lv.take(j + 1).last() == lines@[j as int]@);
            if j == 0 {
                assert(text@ =~= lv.take(1)[0]);
            } else {
                assert(text@ =~= before + seq!['\n'] + lines@[j as int]@);
            }
        }
        j += 1;
    }
    proof {
        assert(lines_view(lines@).take(lines.len() as int) =~= lines_view(lines@));
    }
    text
}

/// The view of a list token.
pub proof fn lemma_list_token_view(t: Token)
    ensures
        t matches Token::BulletList { items } ==> token_view(t) == SpecToken::BulletList(items_view(items@)),
        t matches Token::OrderedList { items, start } ==> token_view(t) == SpecToken::OrderedList(items_view(items@), start),
{
    match t {
        Token::BulletList { items } => {
            let v = token_view(t)->BulletList_0;
            assert forall|i: int| 0 <= i < items@.len() implies v[i] == items_view(items@)[i] by {
                assert(v[i] =~= tokens_view(items@[i]@));
            }
            assert(v =~= items_view(items@));
        },
        Token::OrderedList { items, start } => {
            let v = token_view(t)->OrderedList_0;
            assert forall|i: int| 0 <= i < items@.len() implies v[i] == items_view(items@)[i] by {
                assert(v[i] =~= tokens_view(items@[i]@));
            }
            assert(v =~= items_view(items@));
        },
        _ => {},
    }
}

/// The view of a token that holds tokens.
pub proof fn lemma_block_token_view(t: Token)
    ensures
        t matches Token::BlockQuote { tokens } ==> token_view(t) == SpecToken::BlockQuote(tokens_view(tokens@)),
        t matches Token::Html { tokens, tag, attributes } ==> token_view(t) == SpecToken::Html(tokens_view(tokens@), tag@, attributes@),
{
    match t {
        Token::BlockQuote { tokens } => {
            assert(token_view(t)->BlockQuote_0 =~= tokens_view(tokens@));
        },
        Token::Html { tokens, .. } => {
            assert(token_view(t)->Html_0 =~= tokens_view(tokens@));
        },
        _ => {},
    }
}

/// https://spec.commonmark.org/0.30/#list-items
#[verifier::spinoff_prover]
pub fn bullet_list(reader: &mut CharReader) -> (r: Result<Option<Token>, ParseError>)
    ensures
        final(reader).valid() == old(reader).valid(),
        !old(reader).valid() ==> r is Err,
        old(reader).valid() ==> match bullet_items(old(reader).chars(), Seq::empty()) {
            Read::Fail => r is Err,
            Read::Nothing(k) => (r matches Ok(None)) && final(reader).chars() == old(reader).chars().skip(k)
                && (k == 0 ==> final(reader).read_flag() == old(reader).read_flag()) && (k > 0 ==> final(reader).read_flag()),
            Read::Got(items, k) => (r matches Ok(Some(_))) && token_view(r->Ok_0->Some_0) == SpecToken::BulletList(items)
                && final(reader).chars() == old(reader).chars().skip(k) && final(reader).read_flag(),
        },
    decreases old(reader).chars().len(), 1int,
{
    if let Err(e) = reader.peek_char(0) {
        return Err(ParseError::from_io_error(e));
    }
    let ghost s = reader.chars();
    let ghost flag = reader.read_flag();
    let mut items: Vec<Vec<Token>> = Vec::new();
    let ghost mut consumed: int = 0;
    proof {
        assert(items_view(items@) =~= Seq::<Seq<SpecToken>>::empty());
        assert(s.skip(0) =~= s);
    }
    loop
        invariant
            reader.valid(),
            old(reader).valid(),
            s == old(reader).chars(),
            flag == old(reader).read_flag(),
            0 <= consumed <= s.len(),
            reader.chars() == s.skip(consumed),
            items@.len() == 0 ==> consumed == 0 && reader.read_flag() == flag,
            items@.len() > 0 ==> consumed > 0 && reader.read_flag(),
            bullet_items(s, Seq::empty()) == shifted(bullet_items(reader.chars(), items_view(items@)), consumed),
        ensures
            reader.valid(),
            0 <= consumed <= s.len(),
            reader.chars() == s.skip(consumed),
            items@.len() == 0 ==> consumed == 0 && reader.read_flag() == flag,
            items@.len() > 0 ==> consumed > 0 && reader.read_flag(),
            bullet_items(s, Seq::empty()) == shifted(bullet_items(reader.chars(), items_view(items@)), consumed),
            bullet_marker(reader.chars()) is NoMarker,
        decreases reader.chars().len(),
    {
        let ghost cur = reader.chars();
        let marker = match read_bullet_marker(reader) {
            Ok(m) => m,
            Err(e) => return Err(e),
        };
        let ident = match marker {
            None => break,
            Some(None) => return Ok(None),
            Some(Some(i)) => i,
        };
        proof {
            lemma_item_text_bounds(cur, ident as int);
        }
        let tokens = match list_item_text(reader, ident) {
            Ok(t) => t,
            Err(e) => return Err(e),
        };
        let ghost n = item_text(cur, ident as int).1;
        let ghost before = items_view(items@);
        items.push(tokens);
        proof {
            assert(items_view(items@) =~= before.push(tokens_view(tokens@)));
            assert(s.skip(consumed + n) =~= cur.skip(n));
            consumed = consumed + n;
        }
    }
    if items.len() == 0 {
        return Ok(None);
    }
    let t = Token::BulletList { items };
    proof {
        lemma_list_token_view(t);
    }
    Ok(Some(t))
}

/// https://spec.commonmark.org/0.30/#list-items
#[verifier::spinoff_prover]
pub fn ordered_list(reader: &mut CharReader) -> (r: Result<Option<Token>, ParseError>)
    ensures
        final(reader).valid() == old(reader).valid(),
        !old(reader).valid() ==> r is Err,
        old(reader).valid() ==> match ordered_items(old(reader).chars(), 0, Seq::empty()) {
            Read::Fail => r is Err,
            Read::Nothing(k) => (r matches Ok(None)) && final(reader).chars() == old(reader).chars().skip(k)
                && (k == 0 ==> final(reader).read_flag() == old(reader).read_flag()) && (k > 0 ==> final(reader).read_flag()),
            Read::Got((items, start), k) => (r matches Ok(Some(_))) && token_view(r->Ok_0->Some_0) == SpecToken::OrderedList(items, start)
                && final(reader).chars() == old(reader).chars().skip(k) && final(reader).read_flag(),
        },
    decreases old(reader).chars().len(), 1int,
{
    if let Err(e) = reader.peek_char(0) {
        return Err(ParseError::from_io_error(e));
    }
    let ghost s = reader.chars();
    let ghost flag = reader.read_flag();
    let mut items: Vec<Vec<Token>> = Vec::new();
    let mut start: u32 = 0;
    let ghost mut consumed: int = 0;
    proof {
        assert(items_view(items@) =~= Seq::<Seq<SpecToken>>::empty());
        assert(s.skip(0) =~= s);
    }
    loop
        invariant
            reader.valid(),
            old(reader).valid(),
            s == old(reader).chars(),
            flag == old(reader).read_flag(),
            0 <= consumed <= s.len(),
            reader.chars() == s.skip(consumed),
            items@.len() == 0 ==> consumed == 0 && reader.read_flag() == flag,
            items@.len() > 0 ==> consumed > 0 && reader.read_flag(),
            ordered_items(s, 0, Seq::empty()) == shifted(ordered_items(reader.chars(), start, items_view(items@)), consumed),
        ensures
            reader.valid(),
            0 <= consumed <= s.len(),
            reader.chars() == s.skip(consumed),
            items@.len() == 0 ==> consumed == 0 && reader.read_flag() == flag,
            items@.len() > 0 ==> consumed > 0 && reader.read_flag(),
            ordered_items(s, 0, Seq::empty()) == shifted(ordered_items(reader.chars(), start, items_view(items@)), consumed),
            ordered_marker(reader.chars()) is None,
        decreases reader.chars().len(),
    {
        let ghost cur = reader.chars();
        let marker = match read_ordered_marker(reader) {
            Ok(m) => m,
            Err(e) => return Err(e),
        };
        let (k, ident) = match marker {
            None => break,
            Some(None) => return Ok(None),
            Some(Some(m)) => m,
        };
        if start == 0 {
            let number = match reader.peek_string(k) {
                Ok(n) => n,
                Err(e) => return Err(ParseError::from_io_error(e)),
            };
            match parse_number(number.as_str()) {
                Some(v) => start = v,
                None => return Err(ParseError::invalid("Failed to parse start as number")),
            }
        }
        proof {
            lemma_item_text_bounds(cur, ident as int);
        }
        let tokens = match list_item_text(reader, ident) {
            Ok(t) => t,
            Err(e) => return Err(e),
        };
        let ghost n = item_text(cur, ident as int).1;
        let ghost before = items_view(items@);
        items.push(tokens);
        proof {
            assert(items_view(items@) =~= before.push(tokens_view(tokens@)));
            assert(s.skip(consumed + n) =~= cur.skip(n));
            consumed = consumed + n;
        }
    }
    if items.len() == 0 {
        return Ok(None);
    }
    let t = Token::OrderedList { items, start };
    proof {
        lemma_list_token_view(t);
    }
    Ok(Some(t))
}

/// Where the `>` of a block quote line at the front of the input is.
fn read_quote_start(reader: &CharReader) -> (r: Result<Option<usize>, ParseError>)
    requires
        reader.valid(),
    ensures
        r is Ok,
        r matches Ok(x) ==> if quote_start(reader.chars()) < 0 {
            x is None
        } else {
            x == Some(quote_start(reader.chars()) as usize) && quote_start(reader.chars()) < line_len(reader.chars())
                <= reader.chars().len()
        },
{
    let ghost s = reader.chars();
    proof {
        lemma_line_len_bounds(s);
    }
    let mut i: usize = 0;
    while i < 3
        invariant
            s == reader.chars(),
            reader.valid(),
            i <= 3,
            forall|j: int| 0 <= j < i ==> j < s.len() && s[j] == ' ',
        decreases 3 - i,
    {
        match reader.peek_char(i) {
            Ok(Some('>')) => {
                proof {
                    lemma_line_len_bounds(s);
                    lemma_line_len_past(s, i as int);
                    if i == 1 {
                        assert(s[0] == ' ');
                    }
                    if i == 2 {
                        assert(s[0] == ' ' && s[1] == ' ');
                    }
                }
                return Ok(Some(i));
            },
            Ok(Some(' ')) => {},
            _ => {
                proof {
                    if i >= 1 {
                        assert(s[0] == ' ');
                    }
                    if i >= 2 {
                        assert(s[1] == ' ');
                    }
                }
                return Ok(None);
            },
        }
        i += 1;
    }
    proof {
        assert(s[0] == ' ' && s[1] == ' ' && s[2] == ' ');
    }
    Ok(None)
}

/// Read the lines of a block quote, as `quote_lines` says.
fn read_quote_lines(reader: &mut CharReader) -> (r: Result<Vec<String>, ParseError>)
    requires
        old(reader).valid(),
    ensures
        r is Ok,
        final(reader).valid(),
        r matches Ok(lines) ==> {
            &&& quote_lines(old(reader).chars()).0 == lines_view(lines@)
            &&& final(reader).chars() == old(reader).chars().skip(quote_lines(old(reader).chars()).1)
            &&& lines@.len() == 0 ==> final(reader).read_flag() == old(reader).read_flag()
            &&& lines@.len() > 0 ==> final(reader).read_flag()
        },
{
    let ghost s = reader.chars();
    let ghost flag = reader.read_flag();
    let mut lines: Vec<String> = Vec::new();
    let ghost mut consumed: int = 0;
    proof {
        assert(lines_view(lines@) + quote_lines(s).0 =~= quote_lines(s).0);
        assert(s.skip(0) =~= s);
    }
    loop
        invariant
            reader.valid(),
            s == old(reader).chars(),
            flag == old(reader).read_flag(),
            0 <= consumed <= s.len(),
            reader.chars() == s.skip(consumed),
            lines@.len() == 0 ==> consumed == 0 && reader.read_flag() == flag,
            lines@.len() > 0 ==> consumed > 0 && reader.read_flag(),
            quote_lines(s).0 == lines_view(lines@) + quote_lines(reader.chars()).0,
            quote_lines(s).1 == consumed + quote_lines(reader.chars()).1,
        ensures
            reader.valid(),
            0 <= consumed <= s.len(),
            reader.chars() == s.skip(consumed),
            lines@.len() == 0 ==> consumed == 0 && reader.read_flag() == flag,
            lines@.len() > 0 ==> consumed > 0 && reader.read_flag(),
            quote_lines(s).0 == lines_view(lines@),
            quote_lines(s).1 == consumed,
        decreases reader.chars().len(),
    {
        let ghost cur = reader.chars();
        let i = match read_quote_start(reader) {
            Ok(Some(i)) => i,
            Ok(None) => {
                proof {
                    assert(lines_view(lines@) + Seq::<Seq<char>>::empty() =~= lines_view(lines@));
                }
                break;
            },
            Err(e) => return Err(e),
        };
        let line = match consume_line(reader) {
            Ok(l) => l,
            Err(e) => return Err(e),
        };
        let lcs = str_chars(line.as_str());
        let st = trim_start_from(&lcs, i + 1);
        let text = string_from_range(&lcs, st, lcs.len());
        let ghost before = lines_view(lines@);
        lines.push(text);
        proof {
            let l = line_len(cur);
            let x = trim_start(cur.subrange(i + 1, l));
            assert(lcs@.subrange(i + 1, lcs@.len() as int) =~= cur.subrange(i + 1, l));
            assert(lines_view(lines@) =~= before.push(x));
            assert(s.skip(consumed + l) =~= cur.skip(l));
            lemma_quote_step(cur, i as int, lines_view(lines@), before);
            consumed = consumed + l;
        }
    }
    proof {
        lemma_quote_lines_bounds(s);
    }
    Ok(lines)
}

// https://spec.commonmark.org/0.30/#block-quotes
#[verifier::spinoff_prover]
#[verifier::rlimit(100)]
pub fn blockquote(reader: &mut CharReader) -> (r: Result<Option<Token>, ParseError>)
    ensures
        final(reader).valid() == old(reader).valid(),
        !old(reader).valid() ==> r is Err,
        old(reader).valid() ==> match quote(old(reader).chars()) {
            Read::Fail => r is Err,
            Read::Nothing(_) => (r matches Ok(None)) && final(reader).chars() == old(reader).chars()
                && final(reader).read_flag() == old(reader).read_flag(),
            Read::Got(ts, n) => (r matches Ok(Some(_))) && token_view(r->Ok_0->Some_0) == SpecToken::BlockQuote(ts)
                && final(reader).chars() == old(reader).chars().skip(n) && final(reader).read_flag() && 1 <= n <= old(reader).chars().len(),
        },
    decreases old(reader).chars().len(), 0int,
{
    if let Err(e) = reader.peek_char(0) {
        return Err(ParseError::from_io_error(e));
    }
    let ghost s = reader.chars();
    let lines = match read_quote_lines(reader) {
        Ok(l) => l,
        Err(e) => return Err(e),
    };
    proof {
        lemma_quote_lines_bounds(s);
        assert(s.skip(0) =~= s);
    }
    if lines.len() == 0 {
        return Ok(None);
    }
    let text = join_with_newlines(&lines);
    let tokens = match read_text_blocks(text.as_str()) {
        Ok(t) => t,
        Err(e) => return Err(e),
    };
    let t = Token::BlockQuote { tokens };
    proof {
        lemma_block_token_view(t);
    }
    Ok(Some(t))
}

/// The view of a table of text cells.
pub proof fn lemma_table_view(t: Token, header: Seq<Seq<char>>, align: Seq<TableAlign>, rows: Seq<Seq<Seq<char>>>)
    requires
        is_table(t, header, align, rows),
    ensures
        token_view(t) == SpecToken::Table(text_tokens(header), align, Seq::new(rows.len(), |i: int| text_tokens(rows[i]))),
{
    let h = t->Table_header;
    let rs = t->Table_rows;
    let v = token_view(t);
    assert forall|i: int| 0 <= i < header.len() implies v->Table_0[i] == text_tokens(header)[i] by {
        assert(h@[i]@.len() == 1 && is_text(h@[i]@[0], header[i]));
        assert(token_view(h@[i]@[0]) == SpecToken::Text(header[i]));
        assert(v->Table_0[i][0] == token_view(h@[i]@[0]));
        assert(v->Table_0[i] =~= seq![SpecToken::Text(header[i])]);
    }
    assert(v->Table_0 =~= text_tokens(header));
    let rv = Seq::new(rows.len(), |i: int| text_tokens(rows[i]));
    assert forall|i: int| 0 <= i < rows.len() implies v->Table_2[i] == rv[i] by {
        assert(text_cells(rs@[i]@, rows[i]));
        assert forall|j: int| 0 <= j < rows[i].len() implies v->Table_2[i][j] == rv[i][j] by {
            assert(rs@[i]@[j]@.len() == 1 && is_text(rs@[i]@[j]@[0], rows[i][j]));
            assert(token_view(rs@[i]@[j]@[0]) == SpecToken::Text(rows[i][j]));
            assert(v->Table_2[i][j][0] == token_view(rs@[i]@[j]@[0]));
            assert(v->Table_2[i][j] =~= seq![SpecToken::Text(rows[i][j])]);
        }
        assert(v->Table_2[i] =~= rv[i]);
    }
    assert(v->Table_2 =~= rv);
}

/// The paragraphs of html content become their text.
fn paragraphs_to_text(tokens: Vec<Token>) -> (r: Vec<Token>)
    ensures
        tokens_view(r@) == inline_paragraphs(tokens_view(tokens@)),
{
    let ghost orig = tokens@;
    let mut rest = tokens;
    let mut r: Vec<Token> = Vec::new();
    let ghost mut i: int = 0;
    while rest.len() > 0
        invariant
            0 <= i <= orig.len(),
            rest@ == orig.skip(i),
            tokens_view(r@) == inline_paragraphs(tokens_view(orig)).take(i),
        decreases rest.len(),
    {
        let t = rest.remove(0);
        let u = match t {
            Token::Paragraph { text, .. } => Token::Text { text },
            other => other,
        };
        let ghost before = tokens_view(r@);
        r.push(u);
        proof {
            assert(orig[i] == t);
            assert(tokens_view(r@) =~= before.push(token_view(u)));
            assert(inline_paragraphs(tokens_view(orig)).take(i + 1) =~= inline_paragraphs(tokens_view(orig)).take(i).push(
                inline_paragraphs(tokens_view(orig))[i],
            ));
            assert(orig.skip(i + 1) =~= orig.skip(i).remove(0));
            i = i + 1;
        }
    }
    proof {
        assert(inline_paragraphs(tokens_view(orig)).take(orig.len() as int) =~= inline_paragraphs(tokens_view(orig)));
    }
    r
}

/// The first line of `s`, by the reader's search for a newline.
pub proof fn lemma_newline_match(s: Seq<char>, n: int)
    requires
        0 <= n <= s.len(),
        n >= 1 && ends_with_at(s, seq!['\n'], n) || n == s.len(),
        forall|j: int| 1 <= j < n ==> !ends_with_at(s, seq!['\n'], j),
    ensures
        n == line_len(s),
{
    lemma_find_char_bounds(s, '\n', 0);
    lemma_find_char_first(s, '\n', 0);
    assert forall|j: int| 1 <= j <= s.len() implies (ends_with_at(s, seq!['\n'], j) <==> s[j - 1] == '\n') by {
        if s[j - 1] == '\n' {
            assert(s.subrange(j - 1, j) =~= seq!['\n']);
        }
        if ends_with_at(s, seq!['\n'], j) {
            assert(s.subrange(j - 1, j)[0] == s[j - 1]);
        }
    }
    match find_char(s, '\n', 0) {
        Some(i) => {
            if n < i + 1 {
                if n == s.len() {
                } else {
                    assert(s[n - 1] == '\n');
                }
            } else if n > i + 1 {
                assert(ends_with_at(s, seq!['\n'], i + 1));
            }
        },
        None => {
            if n < s.len() {
                assert(s[n - 1] == '\n');
            }
        },
    }
}

pub proof fn lemma_blen_newline()
    ensures
        blen(seq!['\n']) == 1,
{
    assert(('\n' as u32) == 10u32);
    assert(vstd::utf8::encode_utf8(seq!['\n']) =~= vstd::utf8::encode_scalar('\n' as u32) + vstd::utf8::encode_utf8(seq!['\n'].drop_first()));
}

/// The run of `\n` and `\r` from `i` to `k`.
pub proof fn lemma_newline_run(s: Seq<char>, i: int, k: int)
    requires
        0 <= i <= k <= s.len(),
        forall|j: int| i <= j < k ==> s[j] == '\n' || s[j] == '\r',
        k == s.len() || !(s[k] == '\n' || s[k] == '\r'),
    ensures
        newline_run(s, i) == k - i,
    decreases k - i,
{
    if i < k {
        lemma_newline_run(s, i + 1, k);
    }
}

/// What a reader of blocks gives and leaves, as `step` says of `s` and
/// the tokens `acc` before.
pub open spec fn read_as(
    step: Option<(Option<SpecToken>, Seq<SpecToken>, int)>,
    s: Seq<char>,
    r: Result<Option<Token>, ParseError>,
    tokens: Seq<Token>,
    rest: Seq<char>,
    flag: bool,
) -> bool {
    match step {
        None => r is Err,
        Some((tok, acc, n)) => (r is Ok) && opt_view(r->Ok_0) == tok && tokens_view(tokens) == acc
            && rest == s.skip(n) && flag && 1 <= n <= s.len(),
    }
}

/// The blocks tried after a thematic break, read as `later_blocks` says.
#[verifier::spinoff_prover]
#[verifier::rlimit(100)]
fn later_reader(blank_line: bool, c: char, reader: &mut CharReader, tokens: &mut Vec<Token>) -> (r: Result<Option<Token>, ParseError>)
    requires
        old(reader).valid(),
        old(reader).chars().len() > 0,
    ensures
        final(reader).valid(),
        read_as(later_blocks(blank_line, c, old(reader).chars(), tokens_view(old(tokens)@)), old(reader).chars(), r,
            final(tokens)@, final(reader).chars(), final(reader).read_flag()),
    decreases old(reader).chars().len(), 4int,
{
    proof {
        reveal(later_blocks);
    }
    let ghost s = reader.chars();
    proof {
        lemma_bullet_items_bounds(s, Seq::empty());
    }
    match bullet_list(reader) {
        Ok(Some(t)) => return Ok(Some(t)),
        Ok(None) => {},
        Err(e) => return Err(e),
    }
    let ghost s1 = reader.chars();
    let ghost k = s.len() - s1.len();
    proof {
        assert(s1 == from(s, k));
        assert(s1.len() == 0 ==> k >= 1);
    }
    let ghost acc1 = tokens_view(tokens@);
    let r = ordered_reader(blank_line, c, reader, tokens);
    proof {
        match ordered_blocks(blank_line, c, s1, acc1) {
            Some((_, _, n)) => {
                assert(s1.skip(n) =~= s.skip(k + n));
            },
            None => {},
        }
    }
    r
}

/// The blocks tried after a bullet list, read as `ordered_blocks` says; when
/// nothing is left, the characters read before count.
#[verifier::spinoff_prover]
#[verifier::rlimit(100)]
fn ordered_reader(blank_line: bool, c: char, reader: &mut CharReader, tokens: &mut Vec<Token>) -> (r: Result<Option<Token>, ParseError>)
    requires
        old(reader).valid(),
    ensures
        final(reader).valid(),
        match ordered_blocks(blank_line, c, old(reader).chars(), tokens_view(old(tokens)@)) {
            None => r is Err,
            Some((tok, acc, n)) => (r is Ok) && opt_view(r->Ok_0) == tok && tokens_view(final(tokens)@) == acc
                && final(reader).chars() == old(reader).chars().skip(n) && final(reader).read_flag()
                && 0 <= n <= old(reader).chars().len() && (old(reader).chars().len() > 0 ==> n >= 1),
        },
    decreases old(reader).chars().len(), 3int,
{
    proof {
        reveal(ordered_blocks);
    }
    let ghost s = reader.chars();
    proof {
        lemma_ordered_items_bounds(s, 0, Seq::empty());
    }
    match ordered_list(reader) {
        Ok(Some(t)) => return Ok(Some(t)),
        Ok(None) => {},
        Err(e) => return Err(e),
    }
    let ghost s1 = reader.chars();
    let ghost k = s.len() - s1.len();
    proof {
        assert(s1 == from(s, k));
    }
    let ghost acc1 = tokens_view(tokens@);
    let r = code_reader(blank_line, c, reader, tokens);
    proof {
        match code_blocks(blank_line, c, s1, acc1) {
            Some((_, _, n)) => {
                assert(s1.skip(n) =~= s.skip(k + n));
            },
            None => {},
        }
    }
    r
}

/// The blocks tried after the lists, read as `code_blocks` says.
#[verifier::spinoff_prover]
#[verifier::rlimit(100)]
fn code_reader(blank_line: bool, c: char, reader: &mut CharReader, tokens: &mut Vec<Token>) -> (r: Result<Option<Token>, ParseError>)
    requires
        old(reader).valid(),
    ensures
        final(reader).valid(),
        match code_blocks(blank_line, c, old(reader).chars(), tokens_view(old(tokens)@)) {
            None => r is Err,
            Some((tok, acc, n)) => (r is Ok) && opt_view(r->Ok_0) == tok && tokens_view(final(tokens)@) == acc
                && final(reader).chars() == old(reader).chars().skip(n) && final(reader).read_flag()
                && 0 <= n <= old(reader).chars().len() && (old(reader).chars().len() > 0 ==> n >= 1),
        },
    decreases old(reader).chars().len(), 2int,
{
    proof {
        reveal(code_blocks);
    }
    let ghost s = reader.chars();
    match indented_code(reader, tokens.as_slice(), blank_line) {
        Ok(Some(t)) => return Ok(Some(t)),
        Ok(None) => {},
        Err(e) => return Err(e),
    }
    let ghost s1 = reader.chars();
    let ghost k = s.len() - s1.len();
    proof {
        assert(s1 == from(s, k));
    }
    let ghost acc1 = tokens_view(tokens@);
    let r = last_reader(blank_line, c, reader, tokens);
    proof {
        match last_blocks(blank_line, c, s1, acc1) {
            Some((_, _, n)) => {
                assert(s1.skip(n) =~= s.skip(k + n));
            },
            None => {},
        }
    }
    r
}

/// The last blocks tried, read as `last_blocks` says.
#[verifier::spinoff_prover]
#[verifier::rlimit(60)]
fn last_reader(blank_line: bool, c: char, reader: &mut CharReader, tokens: &mut Vec<Token>) -> (r: Result<Option<Token>, ParseError>)
    requires
        old(reader).valid(),
    ensures
        final(reader).valid(),
        match last_blocks(blank_line, c, old(reader).chars(), tokens_view(old(tokens)@)) {
            None => r is Err,
            Some((tok, acc, n)) => (r is Ok) && opt_view(r->Ok_0) == tok && tokens_view(final(tokens)@) == acc
                && final(reader).chars() == old(reader).chars().skip(n) && final(reader).read_flag()
                && 0 <= n <= old(reader).chars().len()
                && (old(reader).chars().len() > 0 ==> n >= 1),
        },
    decreases old(reader).chars().len(), 1int,
{
    proof {
        reveal(last_blocks);
    }
    let ghost s3 = reader.chars();
    match fenced_code(reader) {
        Ok(Some(t)) => return Ok(Some(t)),
        Ok(None) => {},
        Err(e) => return Err(e),
    }
    match blockquote(reader) {
        Ok(Some(t)) => return Ok(Some(t)),
        Ok(None) => {},
        Err(e) => return Err(e),
    }
    match table(c, reader) {
        Ok(Some(t)) => {
            proof {
                match table_step(c, s3) {
                    Step::Found((header, align, rows), n) => {
                        lemma_table_view(t, header, align, rows);
                    },
                    _ => {},
                }
            }
            return Ok(Some(t));
        },
        Ok(None) => {},
        Err(e) => return Err(e),
    }
    // a paragraph: the rest of the line
    let text = match reader.consume_until_match_inclusive("\n") {
        Ok(t) => t,
        Err(e) => return Err(ParseError::from_io_error(e)),
    };
    proof {
        reveal_strlit("\n");
        assert("\n"@ =~= seq!['\n']);
        lemma_blen_newline();
        lemma_newline_match(s3, text@.len() as int);
        lemma_line_len_bounds(s3);
    }
    if !blank_line && tokens.len() > 0 {
        if let Token::Paragraph { .. } = &tokens[tokens.len() - 1] {
            let ghost before = tokens@;
            let last = tokens.pop().unwrap();
            match last {
                Token::Paragraph { text: last_text, tokens: inner } => {
                    let mut merged = last_text;
                    push_str(&mut merged, text.as_str());
                    let p = Token::Paragraph { text: merged, tokens: inner };
                    tokens.push(p);
                    proof {
                        assert(tokens@ =~= before.drop_last().push(p));
                        assert(tokens_view(tokens@) =~= tokens_view(before).drop_last().push(token_view(p)));
                        assert(token_view(p)->Paragraph_1 =~= token_view(before.last())->Paragraph_1);
                    }
                    return Ok(None);
                },
                other => {
                    tokens.push(other);
                },
            }
        }
    }
    let p = Token::Paragraph { text, tokens: Vec::new() };
    proof {
        assert(token_view(p)->Paragraph_1 =~= Seq::<SpecToken>::empty());
    }
    Ok(Some(p))
}

/// The view of a heading without tokens.
pub proof fn lemma_heading_view(t: Token, depth: int, text: Seq<char>)
    requires
        is_heading(t, depth, text),
    ensures
        token_view(t) == SpecToken::Heading(text, Seq::empty(), depth),
{
    assert(token_view(t)->Heading_1 =~= Seq::<SpecToken>::empty());
}

/// One block at the front of the input, read as `block_step` says.
#[verifier::spinoff_prover]
fn from_reader(blank_line: bool, c: char, reader: &mut CharReader, tokens: &mut Vec<Token>) -> (r: Result<Option<Token>, ParseError>)
    requires
        old(reader).valid(),
        old(reader).chars().len() > 0,
    ensures
        final(reader).valid(),
        read_as(block_step(blank_line, c, old(reader).chars(), !old(reader).read_flag(), tokens_view(old(tokens)@)),
            old(reader).chars(), r, final(tokens)@, final(reader).chars(), final(reader).read_flag()),
    decreases old(reader).chars().len(), 6int,
{
    proof {
        reveal(block_step);
    }
    let ghost s = reader.chars();
    // if starts with comment in toml format it is an attribute
    if !reader.has_read() {
        match attributes(reader) {
            Ok(Some(t)) => return Ok(Some(t)),
            Ok(None) => {},
            Err(e) => return Err(e),
        }
    }
    match heading(reader) {
        Ok(Some(t)) => {
            proof {
                match heading_step(s) {
                    Some((d, text, n)) => lemma_heading_view(t, d, text),
                    None => {},
                }
            }
            return Ok(Some(t));
        },
        Ok(None) => {},
        Err(e) => return Err(e),
    }
    match html_comment(reader) {
        Ok(Some(h)) => match h {
            Html::Comment { text } => return Ok(Some(Token::Comment { raw: text })),
            _ => {},
        },
        Ok(None) => {},
        Err(e) => return Err(e),
    }
    match html_element(reader) {
        Ok(Some((tag, attributes, content))) => {
            let inner = match read_text_blocks(content.as_str()) {
                Ok(ts) => ts,
                Err(e) => return Err(e),
            };
            let inline = paragraphs_to_text(inner);
            let t = Token::Html { tokens: inline, tag, attributes };
            proof {
                lemma_block_token_view(t);
            }
            return Ok(Some(t));
        },
        Ok(None) => {},
        Err(e) => return Err(e),
    }
    let ghost before = tokens@;
    match setext_heading(reader, tokens) {
        Ok(Some(t)) => {
            proof {
                match setext_step(s) {
                    Some((d, n)) => {
                        lemma_heading_view(t, d, token_view(before.last())->Paragraph_0);
                        assert(tokens_view(tokens@) =~= tokens_view(before).drop_last());
                    },
                    None => {},
                }
            }
            return Ok(Some(t));
        },
        Ok(None) => {},
        Err(e) => return Err(e),
    }
    match thematic_break(reader) {
        Ok(Some(t)) => return Ok(Some(t)),
        Ok(None) => {},
        Err(e) => return Err(e),
    }
    later_reader(blank_line, c, reader, tokens)
}

/// Reads the blocks of a markdown document until its end.
#[verifier::spinoff_prover]
pub fn read_block_tokens(reader: &mut CharReader) -> (r: Result<Vec<Token>, ParseError>)
    ensures
        !old(reader).valid() ==> r is Err,
        old(reader).valid() ==> match blocks(old(reader).chars(), !old(reader).read_flag()) {
            None => r is Err,
            Some(ts) => r matches Ok(v) && tokens_view(v@) == ts,
        },
    decreases old(reader).chars().len(), 9int,
{
    if let Err(e) = reader.peek_char(0) {
        return Err(ParseError::from_io_error(e));
    }
    let ghost s = reader.chars();
    let ghost fresh = !reader.read_flag();
    let mut tokens: Vec<Token> = Vec::new();
    proof {
        reveal(blocks_from);
        assert(tokens_view(tokens@) =~= Seq::<SpecToken>::empty());
    }
    loop
        invariant
            reader.valid(),
            old(reader).valid(),
            s == old(reader).chars(),
            fresh == !old(reader).read_flag(),
            reader.chars().len() <= s.len(),
            blocks(s, fresh) == blocks_from(reader.chars(), !reader.read_flag(), tokens_view(tokens@)),
        decreases reader.chars().len(),
    {
        proof {
            reveal(blocks_from);
        }
        let ghost cur = reader.chars();
        let ghost acc = tokens_view(tokens@);
        let ghost fl = !reader.read_flag();
        let c = match reader.peek_char(0) {
            Ok(Some(c)) => c,
            Ok(None) => return Ok(tokens),
            Err(e) => return Err(ParseError::from_io_error(e)),
        };
        if c == '\n' {
            // if you start a new block with a newline skip it
            match reader.consume(0) {
                Ok(_) => {},
                Err(e) => return Err(ParseError::from_io_error(e)),
            }
            let nlr = |x: char| -> (r: bool) ensures r == (x != '\n' && x != '\r') { x != '\n' && x != '\r' };
            let run = match reader.consume_until_exclusive(nlr) {
                Ok(r) => r,
                Err(e) => return Err(ParseError::from_io_error(e)),
            };
            proof {
                assert(cur.skip(0) =~= cur);
                let k = run@.len() as int;
                assert forall|j: int| 0 <= j < k implies cur[j] == '\n' || cur[j] == '\r' by {
                    assert(nlr.ensures((cur[j],), false));
                }
                lemma_newline_run(cur, 0, k);
            }
            // more than one newline means a blank line
            let blank_line = !run.as_str().is_empty();
            match reader.peek_char(0) {
                Ok(None) => return Ok(tokens),
                Ok(Some(_)) => {},
                Err(e) => return Err(ParseError::from_io_error(e)),
            }
            let ghost t = reader.chars();
            let next = match from_reader(blank_line, c, reader, &mut tokens) {
                Ok(n) => n,
                Err(e) => return Err(e),
            };
            if let Some(tok) = next {
                tokens.push(tok);
            }
            proof {
                reveal(blocks_from);
                assert(t == from(cur, newline_run(cur, 0)));
                match block_step(true, '\n', t, false, acc) {
                    Some((tok, acc2, n)) => {
                        assert(tokens_view(tokens@) =~= push_opt(acc2, tok));
                    },
                    None => {},
                }
            }
            continue;
        }
        let next = match from_reader(false, c, reader, &mut tokens) {
            Ok(n) => n,
            Err(e) => return Err(e),
        };
        if let Some(tok) = next {
            tokens.push(tok);
        }
        proof {
            reveal(blocks_from);
            match block_step(false, c, cur, fl, acc) {
                Some((tok, acc2, n)) => {
                    assert(tokens_view(tokens@) =~= push_opt(acc2, tok));
                },
                None => {},
            }
        }
    }
}

} // verus!
