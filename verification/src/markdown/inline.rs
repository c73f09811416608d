//! Inline tokens: what a paragraph, a heading or the inside of an html
//! element holds. Lengths that are taken from read pieces count bytes (as
//! `str::len` does) while the reader advances by characters.
use vstd::prelude::*;

use crate::char_reader::{find_char, CharReader};
use crate::html::{blen, byte_len, comment_step, element_step, html_comment, html_element, min, Html, Step};
use crate::markdown::{is_whitespace, sanitize_text, sanitized_text, token_view, tokens_view, trim_end, SpecToken, Token};
use crate::parse_error::ParseError;
use crate::text::{push_char, str_chars, string_from_range};

verus! {

/// `char::is_alphabetic`: whether `c` has the Unicode `Alphabetic`
/// property.
pub uninterp spec fn alphabetic(c: char) -> bool;

/// `char::is_alphabetic`; the result is the `Alphabetic` property of `c`,
/// which `alphabetic` names.
#[verifier::external_body]
fn is_alphabetic(c: char) -> (r: bool)
    ensures
        r == alphabetic(c),
{
    c.is_alphabetic()
}

/// What reading the inline tokens of a text gives: the tokens, an error, or
/// a panic (a piece counted in bytes runs one character past the end).
pub enum Lexed {
    Tokens(Seq<SpecToken>),
    Fails,
    Panics,
}

/// What the front of a text starts: a token and how many characters it
/// takes, an error, a panic, or a plain character.
pub enum Rule {
    Token(SpecToken, int),
    Fails,
    Panics,
    Char,
}

/// Number of backticks from `i` on.
pub open spec fn backticks(s: Seq<char>, i: int) -> int
    decreases s.len() - i,
{
    if 0 <= i < s.len() && s[i] == '`' {
        1 + backticks(s, i + 1)
    } else {
        0
    }
}

/// Where the first run of exactly `bt` backticks at or after `i` ends,
/// `count` backticks being already counted before `i`.
pub open spec fn code_close(s: Seq<char>, bt: int, i: int, count: int) -> Option<int>
    decreases s.len() - i,
{
    if i < 0 || i >= s.len() {
        None
    } else if s[i] == '`' {
        if i + 1 < s.len() && s[i + 1] == '`' {
            code_close(s, bt, i + 1, count + 1)
        } else if count + 1 == bt {
            Some(i)
        } else {
            code_close(s, bt, i + 1, count + 1)
        }
    } else {
        code_close(s, bt, i + 1, 0)
    }
}

/// The text of a code span: one space taken off each end when it both
/// starts and ends with a space and holds a letter.
pub open spec fn code_text(t: Seq<char>) -> Seq<char> {
    if t.len() >= 2 && t[0] == ' ' && t.last() == ' ' && exists|k: int| 0 <= k < t.len() && alphabetic(#[trigger] t[k]) {
        t.subrange(1, t.len() - 1)
    } else {
        t
    }
}

/// A code span at the front of `s`, which starts with a backtick.
pub open spec fn code_span(s: Seq<char>) -> Option<(SpecToken, int)> {
    let bt = backticks(s, 0);
    match code_close(s, bt, bt, 0) {
        Some(i) => Some((SpecToken::Code(code_text(s.subrange(bt, i + 1 - bt))), i + 1)),
        None => None,
    }
}

/// Whether `link` is the inside of an autolink: it has a scheme (a `:`) and
/// no `<`, `>` or space.
pub open spec fn autolink_ok(link: Seq<char>) -> bool {
    &&& exists|k: int| 0 <= k < link.len() && #[trigger] link[k] == ':'
    &&& forall|k: int| 0 <= k < link.len() ==> #[trigger] link[k] != '<' && link[k] != '>' && link[k] != ' '
}

/// An autolink `<scheme:...>` at the front of `s`, which starts with `<`.
pub open spec fn autolink(s: Seq<char>) -> Option<(SpecToken, int)> {
    match find_char(s, '>', 1) {
        None => None,
        Some(j) => {
            let link = s.subrange(1, j);
            if autolink_ok(link) {
                let m = min(blen(link), s.len() - 1);
                let k = 1 + m + if s.len() - 1 - m > 0 { 1int } else { 0int };
                Some((SpecToken::Link(seq![SpecToken::Text(s.subrange(1, 1 + m))], link, None), k))
            } else {
                None
            }
        },
    }
}

/// Index of the first `**` at or after `i`.
pub open spec fn find_stars(s: Seq<char>, i: int) -> Option<int>
    decreases s.len() - i,
{
    if i < 0 || i + 1 >= s.len() {
        None
    } else if s[i] == '*' && s[i + 1] == '*' {
        Some(i)
    } else {
        find_stars(s, i + 1)
    }
}

/// Strong or plain emphasis at the front of `s`, which starts with `*`:
/// `None` when there is none, `Some(None)` when reading it panics.
pub open spec fn emphasis(s: Seq<char>) -> Option<Option<(SpecToken, int)>> {
    let n = s.len() as int;
    let strong = if n >= 2 && s[1] == '*' {
        match find_stars(s, 2) {
            Some(f) => {
                let m = min(blen(s.subrange(2, f + 2)) - 2, n - 2);
                let r = n - 2 - m;
                if r == 1 {
                    Some(None)
                } else {
                    Some(Some((SpecToken::Bold(s.subrange(2, 2 + m)), 2 + m + if r >= 2 { 2int } else { 0int })))
                }
            },
            None => None,
        }
    } else {
        None
    };
    match strong {
        Some(x) => Some(x),
        None => match find_char(s, '*', 1) {
            Some(e) => {
                let m = min(blen(s.subrange(1, e + 1)) - 1, n - 1);
                let r = n - 1 - m;
                Some(Some((SpecToken::Emphasis(s.subrange(1, 1 + m)), 1 + m + if r > 0 { 1int } else { 0int })))
            },
            None => None,
        },
    }
}

/// Where the `]` that closes the `[` at the front of `s` leaves off, from
/// `i` on with `depth` brackets open.
pub open spec fn close_bracket(s: Seq<char>, i: int, depth: int) -> Option<int>
    decreases s.len() - i,
{
    if i < 0 || i >= s.len() {
        None
    } else if s[i] == '[' {
        close_bracket(s, i + 1, depth + 1)
    } else if s[i] == ']' {
        if depth == 1 {
            Some(i + 1)
        } else {
            close_bracket(s, i + 1, depth - 1)
        }
    } else {
        close_bracket(s, i + 1, depth)
    }
}

/// A link's target and title: after the first space, a text quoted by `"`
/// or `'` on both ends is the title.
pub open spec fn link_title(href: Seq<char>) -> (Seq<char>, Option<Seq<char>>) {
    match find_char(href, ' ', 0) {
        None => (href, None),
        Some(st) => {
            let t = href.skip(st + 1);
            if t.len() >= 2 && ((t[0] == '"' && t.last() == '"') || (t[0] == '\'' && t.last() == '\'')) {
                (href.take(st), Some(t.subrange(1, t.len() - 1)))
            } else {
                (href, None)
            }
        },
    }
}

/// A link `[text](href)` at the front of `s`, which starts with `[`: its
/// text (sanitized), target, title and length.
pub open spec fn link_parts(s: Seq<char>) -> Option<(Seq<char>, Seq<char>, Option<Seq<char>>, int)> {
    let n = s.len() as int;
    match close_bracket(s, 1, 1) {
        None => None,
        Some(e) => if e < n && s[e] == '(' {
            match find_char(s, ')', e + 1) {
                None => None,
                Some(h) => {
                    let m = min(blen(s.subrange(e + 1, h + 1)) - 1, n - (e + 1));
                    let r = n - (e + 1) - m;
                    let (href, title) = link_title(s.subrange(e + 1, e + 1 + m));
                    Some((sanitized_text(s.subrange(1, e - 1)), href, title, e + 1 + m + if r > 0 { 1int } else { 0int }))
                },
            }
        } else {
            None
        },
    }
}

/// An image `![alt](src)` at the front of `s`, which starts with `!`: its
/// alt text, source (sanitized) and length; `Some(None)` when reading it
/// panics.
pub open spec fn image_parts(s: Seq<char>) -> Option<Option<(Seq<char>, Seq<char>, int)>> {
    let n = s.len() as int;
    if n >= 2 && s[1] == '[' {
        match find_char(s, ']', 2) {
            None => None,
            Some(j) => {
                let hs = 2 + blen(s.subrange(2, j + 1));
                if hs < n && s[hs] == '(' {
                    match find_char(s, ')', hs + 1) {
                        None => None,
                        Some(h) => {
                            let m1 = min(blen(s.subrange(2, j + 1)) - 1, n - 2);
                            let r1 = n - 2 - m1;
                            if r1 == 1 {
                                Some(None)
                            } else {
                                let after = 2 + m1 + if r1 >= 2 { 2int } else { 0int };
                                let m2 = min(blen(s.subrange(hs + 1, h + 1)) - 1, n - after);
                                let r3 = n - after - m2;
                                Some(Some((
                                    s.subrange(2, 2 + m1),
                                    sanitized_text(s.subrange(after, after + m2)),
                                    after + m2 + if r3 > 0 { 1int } else { 0int },
                                )))
                            }
                        },
                    }
                } else {
                    None
                }
            },
        }
    } else {
        None
    }
}

/// The rule that applies at the front of `s`.
pub open spec fn inline_rule(s: Seq<char>) -> Rule
    decreases s.len(), 1int,
{
    if s.len() == 0 {
        Rule::Char
    } else if s[0] == '<' {
        match comment_step(s) {
            Step::Overrun => Rule::Fails,
            Step::Found(text, k) => Rule::Token(SpecToken::Comment(text), k),
            Step::NotFound => match element_step(s) {
                Step::Overrun => Rule::Fails,
                Step::Found((tag, attrs, content), k) => {
                    let sub = sanitized_text(content);
                    if sub.len() < s.len() {
                        match inline_of(sub) {
                            Lexed::Tokens(ts) => Rule::Token(SpecToken::Html(ts, tag, attrs), k),
                            Lexed::Fails => Rule::Fails,
                            Lexed::Panics => Rule::Panics,
                        }
                    } else {
                        Rule::Fails
                    }
                },
                Step::NotFound => match autolink(s) {
                    Some((t, k)) => Rule::Token(t, k),
                    None => Rule::Char,
                },
            },
        }
    } else if s[0] == '`' {
        match code_span(s) {
            Some((t, k)) => Rule::Token(t, k),
            None => Rule::Char,
        }
    } else if s[0] == '!' {
        match image_parts(s) {
            None => Rule::Char,
            Some(None) => Rule::Panics,
            Some(Some((alt, src, k))) => if alt.len() < s.len() {
                match inline_of(alt) {
                    Lexed::Tokens(ts) => Rule::Token(SpecToken::Image(ts, src, None), k),
                    Lexed::Fails => Rule::Fails,
                    Lexed::Panics => Rule::Panics,
                }
            } else {
                Rule::Fails
            },
        }
    } else if s[0] == '[' {
        match link_parts(s) {
            None => Rule::Char,
            Some((text, href, title, k)) => if text.len() < s.len() {
                match inline_of(text) {
                    Lexed::Tokens(ts) => Rule::Token(SpecToken::Link(ts, href, title), k),
                    Lexed::Fails => Rule::Fails,
                    Lexed::Panics => Rule::Panics,
                }
            } else {
                Rule::Fails
            },
        }
    } else if s[0] == '*' {
        match emphasis(s) {
            None => Rule::Char,
            Some(None) => Rule::Panics,
            Some(Some((t, k))) => Rule::Token(t, k),
        }
    } else {
        Rule::Char
    }
}

/// The tokens `acc` after a plain character `ch`: a newline ends the line
/// (hard after a backslash or two spaces, soft when more follows), any other
/// character joins the text before it.
pub open spec fn char_step(acc: Seq<SpecToken>, ch: char, more: bool) -> Seq<SpecToken> {
    let soft = if more { acc.push(SpecToken::SoftBreak) } else { acc };
    if acc.len() > 0 && acc.last() is Text {
        let t = acc.last()->Text_0;
        if ch == '\n' {
            if t.len() >= 1 && t.last() == '\\' {
                acc.drop_last().push(SpecToken::Text(t.drop_last())).push(SpecToken::HardBreak)
            } else if t.len() >= 2 && t[t.len() - 1] == ' ' && t[t.len() - 2] == ' ' {
                acc.drop_last().push(SpecToken::Text(trim_end(t))).push(SpecToken::HardBreak)
            } else {
                soft
            }
        } else {
            acc.drop_last().push(SpecToken::Text(t.push(ch)))
        }
    } else if ch == '\n' {
        soft
    } else {
        acc.push(SpecToken::Text(seq![ch]))
    }
}

/// The tokens of `s` added to `acc`.
pub open spec fn inline_from(acc: Seq<SpecToken>, s: Seq<char>) -> Lexed
    decreases s.len(), 2int,
{
    if s.len() == 0 {
        Lexed::Tokens(acc)
    } else {
        match inline_rule(s) {
            Rule::Fails => Lexed::Fails,
            Rule::Panics => Lexed::Panics,
            Rule::Token(t, k) => if 0 < k <= s.len() {
                inline_from(acc.push(t), s.skip(k))
            } else {
                Lexed::Fails
            },
            Rule::Char => inline_from(char_step(acc, s[0], s.len() > 1), s.skip(1)),
        }
    }
}

/// The inline tokens of `s`.
pub open spec fn inline_of(s: Seq<char>) -> Lexed
    decreases s.len(), 3int,
{
    inline_from(Seq::empty(), s)
}

/// Index of the first `c` in `v` at or after `pos`.
fn find_char_in(v: &Vec<char>, c: char, pos: usize) -> (r: Option<usize>)
    ensures
        r matches Some(i) ==> find_char(v@, c, pos as int) == Some(i as int) && pos <= i < v@.len(),
        r is None ==> find_char(v@, c, pos as int) is None,
{
    let mut i = pos;
    while i < v.len()
        invariant
            pos <= i,
            find_char(v@, c, pos as int) == find_char(v@, c, i as int),
        decreases v.len() - i,
    {
        if v[i] == c {
            return Some(i);
        }
        i += 1;
    }
    None
}

/// The characters of `v` from `pos` on.
fn tail(v: &Vec<char>, pos: usize) -> (r: Vec<char>)
    requires
        pos <= v@.len(),
    ensures
        r@ == v@.skip(pos as int),
{
    let mut r: Vec<char> = Vec::new();
    let mut i = pos;
    while i < v.len()
        invariant
            pos <= i <= v@.len(),
            r@ == v@.subrange(pos as int, i as int),
        decreases v.len() - i,
    {
        r.push(v[i]);
        i += 1;
    }
    assert(r@ =~= v@.skip(pos as int));
    r
}

/// The string of the characters `v[lo..hi]`, with its byte length.
fn piece(v: &Vec<char>, lo: usize, hi: usize) -> (r: (String, usize))
    requires
        lo <= hi <= v@.len(),
    ensures
        r.0@ == v@.subrange(lo as int, hi as int),
        r.1 == blen(r.0@),
{
    let s = string_from_range(v, lo, hi);
    let b = byte_len(&s);
    (s, b)
}

proof fn lemma_blen_len(s: Seq<char>)
    ensures
        blen(s) >= s.len(),
{
    crate::markdown::block::lemma_blen_at_least_len(s);
}

/// A code span at the front of `s`.
fn code_span_at(s: &Vec<char>) -> (r: Option<(Token, usize)>)
    requires
        s@.len() > 0,
        s@[0] == '`',
    ensures
        match code_span(s@) {
            Some((t, k)) => r matches Some((tok, kk)) && token_view(tok) == t && kk == k && 0 < k <= s@.len(),
            None => r is None,
        },
{
    let n = s.len();
    let mut bt: usize = 1;
    proof {
        assert(backticks(s@, 0) == 1 + backticks(s@, 1));
    }
    while bt < n && s[bt] == '`'
        invariant
            1 <= bt <= n,
            n == s@.len(),
            backticks(s@, 0) == bt + backticks(s@, bt as int),
        decreases n - bt,
    {
        bt += 1;
    }
    let mut i: usize = bt;
    let mut count: usize = 0;
    while i < n
        invariant
            bt <= i <= n,
            n == s@.len(),
            backticks(s@, 0) == bt,
            count <= i - bt,
            code_close(s@, bt as int, bt as int, 0) == code_close(s@, bt as int, i as int, count as int),
        decreases n - i,
    {
        if s[i] == '`' {
            if i + 1 < n && s[i + 1] == '`' {
                count += 1;
            } else if count + 1 == bt {
                let t = string_from_range(s, bt, i + 1 - bt);
                let tc = str_chars(t.as_str());
                let tl = tc.len();
                let mut text = t;
                if tl >= 2 && tc[0] == ' ' && tc[tl - 1] == ' ' {
                    let mut k: usize = 0;
                    let mut found = false;
                    while k < tl
                        invariant
                            k <= tl,
                            tl == tc@.len(),
                            found == exists|j: int| 0 <= j < k && alphabetic(#[trigger] tc@[j]),
                        decreases tl - k,
                    {
                        if is_alphabetic(tc[k]) {
                            found = true;
                        }
                        k += 1;
                    }
                    if found {
                        text = string_from_range(&tc, 1, tl - 1);
                    }
                }
                proof {
                    assert(tc@ == s@.subrange(bt as int, i + 1 - bt));
                }
                return Some((Token::Code { text }, i + 1));
            } else {
                count += 1;
            }
        } else {
            count = 0;
        }
        i += 1;
    }
    None
}

/// An autolink at the front of `s`.
fn autolink_at(s: &Vec<char>) -> (r: Option<(Token, usize)>)
    requires
        s@.len() > 0,
        s@[0] == '<',
    ensures
        match autolink(s@) {
            Some((t, k)) => r matches Some((tok, kk)) && token_view(tok) == t && kk == k && 0 < k <= s@.len(),
            None => r is None,
        },
{
    let n = s.len();
    let j = match find_char_in(s, '>', 1) {
        Some(j) => j,
        None => return None,
    };
    let mut colon = false;
    let mut clean = true;
    let mut k: usize = 1;
    while k < j
        invariant
            1 <= k <= j < s@.len(),
            colon == exists|x: int| 1 <= x < k && #[trigger] s@[x] == ':',
            clean == forall|x: int| 1 <= x < k ==> #[trigger] s@[x] != '<' && s@[x] != '>' && s@[x] != ' ',
        decreases j - k,
    {
        let c = s[k];
        if c == ':' {
            colon = true;
        }
        if c == '<' || c == '>' || c == ' ' {
            clean = false;
        }
        k += 1;
    }
    let ghost link = s@.subrange(1, j as int);
    proof {
        if colon {
            let x = choose|x: int| 1 <= x < j && #[trigger] s@[x] == ':';
            assert(link[x - 1] == ':');
        }
        if colon && clean {
            let x = choose|x: int| 1 <= x < j && #[trigger] s@[x] == ':';
            assert(link[x - 1] == ':');
            assert forall|y: int| 0 <= y < link.len() implies #[trigger] link[y] != '<' && link[y] != '>' && link[y] != ' ' by {
                assert(s@[y + 1] == link[y]);
            }
            assert(autolink_ok(link));
        }
        if autolink_ok(link) {
            let x = choose|x: int| 0 <= x < link.len() && #[trigger] link[x] == ':';
            assert(s@[x + 1] == ':');
            assert forall|x: int| 1 <= x < j implies #[trigger] s@[x] != '<' && s@[x] != '>' && s@[x] != ' ' by {
                assert(link[x - 1] == s@[x]);
            }
        }
        if !clean {
            let x = choose|x: int| 1 <= x < j && !(#[trigger] s@[x] != '<' && s@[x] != '>' && s@[x] != ' ');
            assert(link[x - 1] == s@[x]);
        }
    }
    if !(colon && clean) {
        return None;
    }
    let (href, b) = piece(s, 1, j);
    let m = if b < n - 1 { b } else { n - 1 };
    let text = string_from_range(s, 1, 1 + m);
    let k = 1 + m + if n - 1 - m > 0 { 1 } else { 0 };
    let tokens = vec![Token::Text { text }];
    let tok = Token::Link { tokens, href, title: None };
    proof {
        assert(tokens_view(tokens@) =~= seq![SpecToken::Text(s@.subrange(1, 1 + m))]);
        assert(token_view(tok) matches SpecToken::Link(ts, h, tt) && ts =~= seq![SpecToken::Text(s@.subrange(1, 1 + m))]
            && h == link && tt is None);
        assert(token_view(tok) == SpecToken::Link(seq![SpecToken::Text(s@.subrange(1, 1 + m))], link, None));
    }
    Some((tok, k))
}

/// Strong or plain emphasis at the front of `s`.
fn emphasis_at(s: &Vec<char>) -> (r: Option<(Token, usize)>)
    requires
        s@.len() > 0,
        s@[0] == '*',
        !(emphasis(s@) matches Some(None)),
    ensures
        match emphasis(s@) {
            Some(Some((t, k))) => r matches Some((tok, kk)) && token_view(tok) == t && kk == k && 0 < k <= s@.len(),
            _ => r is None,
        },
{
    let n = s.len();
    if n >= 2 && s[1] == '*' {
        let mut f: usize = 2;
        while f < n - 1 && !(s[f] == '*' && s[f + 1] == '*')
            invariant
                2 <= f <= n,
                n >= 2,
                n == s@.len(),
                find_stars(s@, 2) == find_stars(s@, f as int),
            decreases n - f,
        {
            f += 1;
        }
        if f < n - 1 {
            let (_t, b) = piece(s, 2, f + 2);
            proof {
                lemma_blen_len(s@.subrange(2, f + 2));
            }
            let m = if b - 2 < n - 2 { b - 2 } else { n - 2 };
            let text = string_from_range(s, 2, 2 + m);
            let k = 2 + m + if n - 2 - m >= 2 { 2 } else { 0 };
            return Some((Token::Bold { text }, k));
        }
    }
    match find_char_in(s, '*', 1) {
        Some(e) => {
            let (_t, b) = piece(s, 1, e + 1);
            proof {
                lemma_blen_len(s@.subrange(1, e + 1));
            }
            let m = if b - 1 < n - 1 { b - 1 } else { n - 1 };
            let text = string_from_range(s, 1, 1 + m);
            let k = 1 + m + if n - 1 - m > 0 { 1 } else { 0 };
            Some((Token::Emphasis { text }, k))
        },
        None => None,
    }
}

/// The characters `v[lo..hi]`.
fn slice_chars(v: &Vec<char>, lo: usize, hi: usize) -> (r: Vec<char>)
    requires
        lo <= hi <= v@.len(),
    ensures
        r@ == v@.subrange(lo as int, hi as int),
{
    let mut r: Vec<char> = Vec::new();
    let mut i = lo;
    while i < hi
        invariant
            lo <= i <= hi <= v@.len(),
            r@ == v@.subrange(lo as int, i as int),
        decreases hi - i,
    {
        r.push(v[i]);
        i += 1;
    }
    r
}

/// A link's target and title, as `link_title` says.
fn split_title(h: &Vec<char>) -> (r: (String, Option<String>))
    ensures
        r.0@ == link_title(h@).0,
        match link_title(h@).1 {
            Some(t) => r.1 matches Some(x) && x@ == t,
            None => r.1 is None,
        },
{
    let n = h.len();
    match find_char_in(h, ' ', 0) {
        None => (string_from_range(h, 0, n), None),
        Some(st) => {
            let tl = n - (st + 1);
            proof {
                let t = h@.skip(st + 1);
                assert(t.len() == tl);
                assert(tl > 0 ==> t[0] == h@[st + 1] && t.last() == h@[n - 1]);
                assert(h@.subrange(0, n as int) =~= h@);
            }
            if tl >= 2 && ((h[st + 1] == '"' && h[n - 1] == '"') || (h[st + 1] == '\'' && h[n - 1] == '\'')) {
                let title = string_from_range(h, st + 2, n - 1);
                proof {
                    assert(h@.skip(st + 1).subrange(1, tl - 1) =~= h@.subrange(st + 2, n - 1));
                    assert(h@.take(st as int) =~= h@.subrange(0, st as int));
                }
                (string_from_range(h, 0, st), Some(title))
            } else {
                (string_from_range(h, 0, n), None)
            }
        },
    }
}

/// What an html comment, element or autolink at the front of `s` gives.
fn html_at(s: &Vec<char>) -> (r: Result<Option<(Token, usize)>, ParseError>)
    requires
        s@.len() > 0,
        s@[0] == '<',
        !(inline_rule(s@) is Panics),
    ensures
        rule_result(inline_rule(s@), r, s@.len() as int),
    decreases s@.len(), 0int,
{
    let n = s.len();
    let whole = string_from_range(s, 0, n);
    proof {
        assert(s@.subrange(0, n as int) =~= s@);
    }
    let mut rd = CharReader::from_string(whole.as_str());
    match html_comment(&mut rd) {
        Err(e) => return Err(e),
        Ok(Some(h)) => {
            let k = n - rd.remaining_len();
            match h {
                Html::Comment { text } => {
                    return Ok(Some((Token::Comment { raw: text }, k)));
                },
                _ => {
                    return Err(ParseError::invalid("a comment was read as another token"));
                },
            }
        },
        Ok(None) => {},
    }
    match html_element(&mut rd) {
        Err(e) => return Err(e),
        Ok(Some((tag, attributes, content))) => {
            let k = n - rd.remaining_len();
            let inner = sanitize_text(content.as_str());
            let sub = str_chars(inner.as_str());
            if sub.len() >= n {
                return Err(ParseError::invalid("the inside of an element is not shorter than the element"));
            }
            match lex_inline(&sub) {
                Ok(tokens) => {
                    let ghost tv = tokens_view(tokens@);
                    let tok = Token::Html { tokens, tag, attributes };
                    proof {
                        assert(token_view(tok) matches SpecToken::Html(ts, _, _) && ts =~= tv);
                    }
                    return Ok(Some((tok, k)));
                },
                Err(e) => return Err(e),
            }
        },
        Ok(None) => {},
    }
    Ok(autolink_at(s))
}

/// What an image at the front of `s` gives.
fn image_at(s: &Vec<char>) -> (r: Result<Option<(Token, usize)>, ParseError>)
    requires
        s@.len() > 0,
        s@[0] == '!',
        !(inline_rule(s@) is Panics),
    ensures
        rule_result(inline_rule(s@), r, s@.len() as int),
    decreases s@.len(), 0int,
{
    let n = s.len();
    if !(n >= 2 && s[1] == '[') {
        return Ok(None);
    }
    let j = match find_char_in(s, ']', 2) {
        Some(j) => j,
        None => return Ok(None),
    };
    let (_raw_text, bt) = piece(s, 2, j + 1);
    proof {
        lemma_blen_len(s@.subrange(2, j + 1));
    }
    if bt >= n || n - bt <= 2 {
        return Ok(None);
    }
    let hs = 2 + bt;
    if s[hs] != '(' {
        return Ok(None);
    }
    let h = match find_char_in(s, ')', hs + 1) {
        Some(h) => h,
        None => return Ok(None),
    };
    let (_raw_href, bh) = piece(s, hs + 1, h + 1);
    proof {
        lemma_blen_len(s@.subrange(hs + 1, h + 1));
    }
    let m1 = if bt - 1 < n - 2 { bt - 1 } else { n - 2 };
    let r1 = n - 2 - m1;
    if r1 == 1 {
        return Ok(None);
    }
    let after = 2 + m1 + if r1 >= 2 { 2 } else { 0 };
    let m2 = if bh - 1 < n - after { bh - 1 } else { n - after };
    let r3 = n - after - m2;
    let k = after + m2 + if r3 > 0 { 1 } else { 0 };
    let alt = slice_chars(s, 2, 2 + m1);
    let raw_src = string_from_range(s, after, after + m2);
    let src = sanitize_text(raw_src.as_str());
    if alt.len() >= n {
        return Err(ParseError::invalid("the text of an image is not shorter than the image"));
    }
    match lex_inline(&alt) {
        Ok(tokens) => {
            let ghost tv = tokens_view(tokens@);
            let tok = Token::Image { tokens, src, title: None };
            proof {
                assert(token_view(tok) matches SpecToken::Image(ts, _, _) && ts =~= tv);
            }
            Ok(Some((tok, k)))
        },
        Err(e) => Err(e),
    }
}

/// What a link at the front of `s` gives.
fn link_at(s: &Vec<char>) -> (r: Result<Option<(Token, usize)>, ParseError>)
    requires
        s@.len() > 0,
        s@[0] == '[',
        !(inline_rule(s@) is Panics),
    ensures
        rule_result(inline_rule(s@), r, s@.len() as int),
    decreases s@.len(), 0int,
{
    let n = s.len();
    let mut i: usize = 1;
    let mut depth: usize = 1;
    let mut e: usize = 0;
    while i < n && e == 0
        invariant
            1 <= i <= n,
            n == s@.len(),
            1 <= depth <= i,
            e == 0 ==> close_bracket(s@, 1, 1) == close_bracket(s@, i as int, depth as int),
            e != 0 ==> close_bracket(s@, 1, 1) == Some(e as int) && 2 <= e <= n,
        decreases n - i, if e == 0 { 1int } else { 0int },
    {
        if s[i] == '[' {
            depth += 1;
        } else if s[i] == ']' {
            if depth == 1 {
                e = i + 1;
            } else {
                depth -= 1;
            }
        }
        i += 1;
    }
    if e == 0 {
        return Ok(None);
    }
    if !(e < n && s[e] == '(') {
        return Ok(None);
    }
    let h = match find_char_in(s, ')', e + 1) {
        Some(h) => h,
        None => return Ok(None),
    };
    let (_raw_href, bh) = piece(s, e + 1, h + 1);
    proof {
        lemma_blen_len(s@.subrange(e + 1, h + 1));
    }
    let m = if bh - 1 < n - (e + 1) { bh - 1 } else { n - (e + 1) };
    let r = n - (e + 1) - m;
    let k = e + 1 + m + if r > 0 { 1 } else { 0 };
    let href_chars = slice_chars(s, e + 1, e + 1 + m);
    let (href, title) = split_title(&href_chars);
    let raw_text = string_from_range(s, 1, e - 1);
    let text = sanitize_text(raw_text.as_str());
    let sub = str_chars(text.as_str());
    if sub.len() >= n {
        return Err(ParseError::invalid("the text of a link is not shorter than the link"));
    }
    match lex_inline(&sub) {
        Ok(tokens) => {
            let ghost tv = tokens_view(tokens@);
            let tok = Token::Link { tokens, href, title };
            proof {
                assert(token_view(tok) matches SpecToken::Link(ts, _, _) && ts =~= tv);
            }
            Ok(Some((tok, k)))
        },
        Err(e) => Err(e),
    }
}

/// What the exec side of a rule gives: the token and its length, an
/// error, or nothing (a plain character).
pub open spec fn rule_result(rule: Rule, r: Result<Option<(Token, usize)>, ParseError>, n: int) -> bool {
    match rule {
        Rule::Token(t, k) => r matches Ok(Some((tok, kk))) && token_view(tok) == t && kk == k && 0 < k <= n,
        Rule::Fails => r is Err,
        Rule::Char => r matches Ok(None),
        Rule::Panics => true,
    }
}

/// The rule at the front of `s`.
fn rule_at(s: &Vec<char>) -> (r: Result<Option<(Token, usize)>, ParseError>)
    requires
        s@.len() > 0,
        !(inline_rule(s@) is Panics),
    ensures
        rule_result(inline_rule(s@), r, s@.len() as int),
    decreases s@.len(), 1int,
{
    let c = s[0];
    if c == '<' {
        html_at(s)
    } else if c == '`' {
        Ok(code_span_at(s))
    } else if c == '!' {
        image_at(s)
    } else if c == '[' {
        link_at(s)
    } else if c == '*' {
        Ok(emphasis_at(s))
    } else {
        Ok(None)
    }
}

/// Adds a plain character to the tokens, as `char_step` says.
fn push_plain(tokens: &mut Vec<Token>, ch: char, more: bool)
    ensures
        tokens_view(final(tokens)@) == char_step(tokens_view(old(tokens)@), ch, more),
{
    let ghost acc = tokens_view(tokens@);
    let last = tokens.pop();
    proof {
        if old(tokens)@.len() > 0 {
            assert(tokens_view(tokens@) =~= acc.drop_last());
            assert(acc.last() == token_view(old(tokens)@.last()));
        }
    }
    match last {
        Some(Token::Text { text }) => {
            let tc = str_chars(text.as_str());
            let tl = tc.len();
            if ch == '\n' {
                if tl >= 1 && tc[tl - 1] == '\\' {
                    tokens.push(Token::Text { text: string_from_range(&tc, 0, tl - 1) });
                    tokens.push(Token::HardBreak);
                    proof {
                        assert(tc@.subrange(0, tl - 1) =~= tc@.drop_last());
                    }
                } else if tl >= 2 && tc[tl - 1] == ' ' && tc[tl - 2] == ' ' {
                    let mut hi = tl;
                    proof {
                        assert(tc@.take(tl as int) =~= tc@);
                    }
                    while hi > 0 && is_whitespace(tc[hi - 1])
                        invariant
                            hi <= tl,
                            tl == tc@.len(),
                            trim_end(tc@) == trim_end(tc@.take(hi as int)),
                        decreases hi,
                    {
                        proof {
                            assert(tc@.take(hi as int).drop_last() =~= tc@.take(hi - 1));
                        }
                        hi -= 1;
                    }
                    proof {
                        assert(tc@.take(hi as int) =~= tc@.subrange(0, hi as int));
                    }
                    tokens.push(Token::Text { text: string_from_range(&tc, 0, hi) });
                    tokens.push(Token::HardBreak);
                } else {
                    tokens.push(Token::Text { text });
                    if more {
                        tokens.push(Token::SoftBreak);
                    }
                }
            } else {
                let mut t = text;
                push_char(&mut t, ch);
                tokens.push(Token::Text { text: t });
            }
        },
        Some(other) => {
            tokens.push(other);
            if ch == '\n' {
                if more {
                    tokens.push(Token::SoftBreak);
                }
            } else {
                let mut t = String::new();
                push_char(&mut t, ch);
                tokens.push(Token::Text { text: t });
            }
        },
        None => {
            if ch == '\n' {
                if more {
                    tokens.push(Token::SoftBreak);
                }
            } else {
                let mut t = String::new();
                push_char(&mut t, ch);
                tokens.push(Token::Text { text: t });
            }
        },
    }
    proof {
        assert(tokens_view(tokens@) =~= char_step(acc, ch, more));
    }
}

/// The inline tokens of the characters `s`.
pub(crate) fn lex_inline(s: &Vec<char>) -> (r: Result<Vec<Token>, ParseError>)
    requires
        !(inline_of(s@) is Panics),
    ensures
        match inline_of(s@) {
            Lexed::Tokens(ts) => r matches Ok(v) && tokens_view(v@) == ts,
            Lexed::Fails => r is Err,
            Lexed::Panics => true,
        },
    decreases s@.len(), 2int,
{
    let n = s.len();
    let mut tokens: Vec<Token> = Vec::new();
    let mut pos: usize = 0;
    proof {
        assert(s@.skip(0) =~= s@);
        assert(tokens_view(tokens@) =~= Seq::<SpecToken>::empty());
    }
    while pos < n
        invariant
            pos <= n,
            n == s@.len(),
            inline_from(tokens_view(tokens@), s@.skip(pos as int)) == inline_of(s@),
            !(inline_of(s@) is Panics),
        decreases n - pos,
    {
        let ghost rest = s@.skip(pos as int);
        let ghost acc = tokens_view(tokens@);
        let c = s[pos];
        let step = if c == '<' || c == '`' || c == '!' || c == '[' || c == '*' {
            let rest_chars = tail(s, pos);
            rule_at(&rest_chars)
        } else {
            Ok(None)
        };
        match step {
            Err(e) => return Err(e),
            Ok(Some((tok, k))) => {
                let ghost t = token_view(tok);
                tokens.push(tok);
                proof {
                    assert(tokens_view(tokens@) =~= acc.push(t));
                    assert(rest.skip(k as int) =~= s@.skip(pos + k));
                }
                pos += k;
            },
            Ok(None) => {
                push_plain(&mut tokens, c, pos + 1 < n);
                proof {
                    assert(rest.skip(1) =~= s@.skip(pos + 1));
                }
                pos += 1;
            },
        }
    }
    proof {
        assert(s@.skip(n as int).len() == 0);
    }
    Ok(tokens)
}

/// Reads the inline tokens of what is left in the reader: html comments and
/// elements, autolinks, code spans, images, links, emphasis, line breaks and
/// text.
pub fn read_inline_tokens(reader: &mut CharReader) -> (r: Result<Vec<Token>, ParseError>)
    requires
        old(reader).valid() ==> !(inline_of(old(reader).chars()) is Panics),
    ensures
        !old(reader).valid() ==> r is Err,
        old(reader).valid() ==> match inline_of(old(reader).chars()) {
            Lexed::Tokens(ts) => r matches Ok(v) && tokens_view(v@) == ts && final(reader).chars().len() == 0,
            Lexed::Fails => r is Err,
            Lexed::Panics => true,
        },
{
    let n = reader.remaining_len();
    match reader.peek_char(0) {
        Err(e) => return Err(ParseError::from_io_error(e)),
        Ok(None) => {
            proof {
                assert(reader.chars() =~= Seq::<char>::empty());
                assert(inline_of(reader.chars()) == Lexed::Tokens(Seq::<SpecToken>::empty()));
                assert(tokens_view(Seq::<Token>::empty()) =~= Seq::<SpecToken>::empty());
            }
            return Ok(Vec::new());
        },
        Ok(Some(_)) => {},
    }
    let ghost s = reader.chars();
    let text = match reader.consume_string(n) {
        Ok(t) => t,
        Err(e) => return Err(ParseError::from_io_error(e)),
    };
    let chars = str_chars(text.as_str());
    proof {
        assert(chars@ =~= s);
    }
    lex_inline(&chars)
}

} // verus!
