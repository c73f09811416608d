//! The markdown dialect of the site generator: its tokens and the tokenizer
//! of its blocks.
use vstd::prelude::*;

use crate::attributes::Attributes;
use crate::char_reader::CharReader;
use crate::parse_error::ParseError;
use crate::text::{push_char, str_chars, string_from_range};

pub mod block;
pub mod document;
pub mod titles;
pub mod inline;
pub mod lexer;

verus! {

/// A table of the toml crate (`toml::map::Map`), carried through as it is.
#[verifier::external_type_specification]
#[verifier::external_body]
#[verifier::reject_recursive_types(K)]
#[verifier::reject_recursive_types(V)]
pub struct ExTomlMap<K, V>(toml::map::Map<K, V>);

/// A value of the toml crate (`toml::Value`), carried through as it is.
#[verifier::external_type_specification]
#[verifier::external_body]
pub struct ExTomlValue(toml::Value);

/// How the cells of a table column are aligned.
#[derive(Debug, Clone, Copy, PartialEq, Eq, Structural)]
pub enum TableAlign {
    Left,
    Center,
    Right,
    NoAlign,
}

/// A token of a markdown document.
#[derive(Debug, PartialEq)]
pub enum Token {
    Attributes { table: toml::map::Map<String, toml::Value> },
    BulletList { items: Vec<Vec<Token>> },
    OrderedList { items: Vec<Vec<Token>>, start: u32 },
    Heading {
        text: String,
        tokens: Vec<Token>,
        /// 0-6
        depth: u8,
    },
    Html { tokens: Vec<Token>, tag: String, attributes: Attributes },
    Paragraph { text: String, tokens: Vec<Token> },
    BlockQuote { tokens: Vec<Token> },
    Code { text: String },
    CodeBlock { info: Option<String>, text: String },
    Bold { text: String },
    Emphasis { text: String },
    Image {
        /// alt, recommended to convert tokens to text
        tokens: Vec<Token>,
        src: String,
        title: Option<String>,
    },
    Link {
        /// The text portion of a link that contains Tokens
        tokens: Vec<Token>,
        href: String,
        title: Option<String>,
    },
    Text { text: String },
    Comment { raw: String },
    ThematicBreak,
    HardBreak,
    /// Indicating of a space between paragraphs
    SoftBreak,
    Table { header: Vec<Vec<Token>>, align: Vec<TableAlign>, rows: Vec<Vec<Vec<Token>>> },
}

/// Mathematical form of a token: strings as character sequences, tokens
/// inside as sequences. `Absent` stands where a sequence has no token.
pub enum SpecToken {
    Attributes,
    BulletList(Seq<Seq<SpecToken>>),
    OrderedList(Seq<Seq<SpecToken>>, u32),
    Heading(Seq<char>, Seq<SpecToken>, int),
    Html(Seq<SpecToken>, Seq<char>, Map<Seq<char>, Seq<char>>),
    Paragraph(Seq<char>, Seq<SpecToken>),
    BlockQuote(Seq<SpecToken>),
    CodeBlock(Option<Seq<char>>, Seq<char>),
    Comment(Seq<char>),
    ThematicBreak,
    Text(Seq<char>),
    Table(Seq<Seq<SpecToken>>, Seq<TableAlign>, Seq<Seq<Seq<SpecToken>>>),
    Code(Seq<char>),
    Bold(Seq<char>),
    Emphasis(Seq<char>),
    Image(Seq<SpecToken>, Seq<char>, Option<Seq<char>>),
    Link(Seq<SpecToken>, Seq<char>, Option<Seq<char>>),
    HardBreak,
    SoftBreak,
    Absent,
}

pub open spec fn token_view(t: Token) -> SpecToken
    decreases t,
{
    match t {
        Token::Attributes { .. } => SpecToken::Attributes,
        Token::BulletList { items } => SpecToken::BulletList(Seq::new(
            items@.len(),
            |i: int| if 0 <= i < items@.len() {
                Seq::new(items@[i]@.len(), |j: int| if 0 <= j < items@[i]@.len() { token_view(items@[i]@[j]) } else { SpecToken::Absent })
            } else {
                Seq::empty()
            },
        )),
        Token::OrderedList { items, start } => SpecToken::OrderedList(Seq::new(
            items@.len(),
            |i: int| if 0 <= i < items@.len() {
                Seq::new(items@[i]@.len(), |j: int| if 0 <= j < items@[i]@.len() { token_view(items@[i]@[j]) } else { SpecToken::Absent })
            } else {
                Seq::empty()
            },
        ), start),
        Token::Heading { text, tokens, depth } => SpecToken::Heading(
            text@,
            Seq::new(tokens@.len(), |i: int| if 0 <= i < tokens@.len() { token_view(tokens@[i]) } else { SpecToken::Absent }),
            depth as int,
        ),
        Token::Html { tokens, tag, attributes } => SpecToken::Html(
            Seq::new(tokens@.len(), |i: int| if 0 <= i < tokens@.len() { token_view(tokens@[i]) } else { SpecToken::Absent }),
            tag@,
            attributes@,
        ),
        Token::Paragraph { text, tokens } => SpecToken::Paragraph(
            text@,
            Seq::new(tokens@.len(), |i: int| if 0 <= i < tokens@.len() { token_view(tokens@[i]) } else { SpecToken::Absent }),
        ),
        Token::BlockQuote { tokens } => SpecToken::BlockQuote(
            Seq::new(tokens@.len(), |i: int| if 0 <= i < tokens@.len() { token_view(tokens@[i]) } else { SpecToken::Absent }),
        ),
        Token::CodeBlock { info, text } => SpecToken::CodeBlock(
            match info {
                Some(x) => Some(x@),
                None => None,
            },
            text@,
        ),
        Token::Comment { raw } => SpecToken::Comment(raw@),
        Token::ThematicBreak => SpecToken::ThematicBreak,
        Token::Text { text } => SpecToken::Text(text@),
        Token::Table { header, align, rows } => SpecToken::Table(
            Seq::new(
                header@.len(),
                |i: int| if 0 <= i < header@.len() {
                    Seq::new(header@[i]@.len(), |j: int| if 0 <= j < header@[i]@.len() { token_view(header@[i]@[j]) } else { SpecToken::Absent })
                } else {
                    Seq::empty()
                },
            ),
            align@,
            Seq::new(
                rows@.len(),
                |i: int| if 0 <= i < rows@.len() {
                    Seq::new(
                        rows@[i]@.len(),
                        |j: int| if 0 <= j < rows@[i]@.len() {
                            Seq::new(
                                rows@[i]@[j]@.len(),
                                |k: int| if 0 <= k < rows@[i]@[j]@.len() { token_view(rows@[i]@[j]@[k]) } else { SpecToken::Absent },
                            )
                        } else {
                            Seq::empty()
                        },
                    )
                } else {
                    Seq::empty()
                },
            ),
        ),
        Token::Code { text } => SpecToken::Code(text@),
        Token::Bold { text } => SpecToken::Bold(text@),
        Token::Emphasis { text } => SpecToken::Emphasis(text@),
        Token::Image { tokens, src, title } => SpecToken::Image(
            Seq::new(tokens@.len(), |i: int| if 0 <= i < tokens@.len() { token_view(tokens@[i]) } else { SpecToken::Absent }),
            src@,
            match title {
                Some(x) => Some(x@),
                None => None,
            },
        ),
        Token::Link { tokens, href, title } => SpecToken::Link(
            Seq::new(tokens@.len(), |i: int| if 0 <= i < tokens@.len() { token_view(tokens@[i]) } else { SpecToken::Absent }),
            href@,
            match title {
                Some(x) => Some(x@),
                None => None,
            },
        ),
        Token::HardBreak => SpecToken::HardBreak,
        Token::SoftBreak => SpecToken::SoftBreak,
    }
}

/// The views of `ts`.
pub open spec fn tokens_view(ts: Seq<Token>) -> Seq<SpecToken> {
    Seq::new(ts.len(), |i: int| token_view(ts[i]))
}

/// The tokens `ts` of each of `items`, one after the other.
pub open spec fn flat(items: Seq<Vec<Token>>) -> Seq<Token>
    decreases items.len(),
{
    if items.len() == 0 {
        Seq::empty()
    } else {
        flat(items.drop_last()) + items.last()@
    }
}

/// The tokens inside `t`: those of a heading, paragraph, link, image or
/// html element, and those of all items of a list.
pub open spec fn child_tokens(t: Token) -> Option<Seq<Token>> {
    match t {
        Token::Heading { tokens, .. } => Some(tokens@),
        Token::Paragraph { tokens, .. } => Some(tokens@),
        Token::Link { tokens, .. } => Some(tokens@),
        Token::Image { tokens, .. } => Some(tokens@),
        Token::Html { tokens, .. } => Some(tokens@),
        Token::BulletList { items } => Some(flat(items@)),
        Token::OrderedList { items, .. } => Some(flat(items@)),
        _ => None,
    }
}

/// The text of a token: for one with tokens inside, the texts of those that
/// have one, one after the other; a bold or text token's text; a space for
/// a soft break; no text for anything else.
pub open spec fn token_text(t: Token) -> Option<Seq<char>>
    decreases t,
{
    match t {
        Token::Heading { tokens, .. } => Some(texts_concat(tokens@)),
        Token::Paragraph { tokens, .. } => Some(texts_concat(tokens@)),
        Token::Link { tokens, .. } => Some(texts_concat(tokens@)),
        Token::Image { tokens, .. } => Some(texts_concat(tokens@)),
        Token::Html { tokens, .. } => Some(texts_concat(tokens@)),
        Token::BulletList { items } => Some(items_concat(items@)),
        Token::OrderedList { items, .. } => Some(items_concat(items@)),
        Token::Bold { text } => Some(text@),
        Token::Text { text } => Some(text@),
        Token::SoftBreak => Some(seq![' ']),
        _ => None,
    }
}

/// The texts of `ts` that have one, one after the other.
pub open spec fn texts_concat(ts: Seq<Token>) -> Seq<char>
    decreases ts,
{
    if ts.len() == 0 {
        Seq::empty()
    } else {
        texts_concat(ts.subrange(0, ts.len() - 1)) + match token_text(ts[ts.len() - 1]) {
            Some(x) => x,
            None => Seq::empty(),
        }
    }
}

/// The texts of the tokens of all `items`, one after the other.
pub open spec fn items_concat(items: Seq<Vec<Token>>) -> Seq<char>
    decreases items,
{
    if items.len() == 0 {
        Seq::empty()
    } else {
        items_concat(items.subrange(0, items.len() - 1)) + texts_concat(items[items.len() - 1]@)
    }
}

impl Token {
    pub fn get_tokens(&self) -> (r: Option<Vec<&Token>>)
        ensures
            match child_tokens(*self) {
                Some(cs) => r matches Some(v) && v@.len() == cs.len() && forall|i: int| 0 <= i < cs.len() ==> *v@[i] == cs[i],
                None => r is None,
            },
    {
        match self {
            Token::Heading { tokens, .. }
            | Token::Paragraph { tokens, .. }
            | Token::Link { tokens, .. }
            | Token::Image { tokens, .. }
            | Token::Html { tokens, .. } => {
                let mut v: Vec<&Token> = Vec::new();
                let mut i: usize = 0;
                while i < tokens.len()
                    invariant
                        i <= tokens.len(),
                        v@.len() == i,
                        forall|k: int| 0 <= k < i ==> *v@[k] == tokens@[k],
                    decreases tokens.len() - i,
                {
                    v.push(&tokens[i]);
                    i += 1;
                }
                Some(v)
            },
            Token::BulletList { items } | Token::OrderedList { items, .. } => {
                let mut v: Vec<&Token> = Vec::new();
                let mut i: usize = 0;
                while i < items.len()
                    invariant
                        i <= items.len(),
                        v@.len() == flat(items@.take(i as int)).len(),
                        forall|k: int| 0 <= k < v@.len() ==> *v@[k] == flat(items@.take(i as int))[k],
                    decreases items.len() - i,
                {
                    let item = &items[i];
                    let ghost before = flat(items@.take(i as int));
                    proof {
                        assert(items@.take(i + 1).drop_last() =~= items@.take(i as int));
                        assert(flat(items@.take(i + 1)) == before + item@);
                    }
                    let mut j: usize = 0;
                    while j < item.len()
                        invariant
                            j <= item.len(),
                            v@.len() == before.len() + j,
                            forall|k: int| 0 <= k < v@.len() ==> *v@[k] == (before + item@)[k],
                        decreases item.len() - j,
                    {
                        v.push(&item[j]);
                        j += 1;
                    }
                    i += 1;
                }
                proof {
                    assert(items@.take(items.len() as int) =~= items@);
                }
                Some(v)
            },
            _ => None,
        }
    }

    pub fn to_text(&self) -> (r: Option<String>)
        ensures
            match token_text(*self) {
                Some(x) => r matches Some(s) && s@ == x,
                None => r is None,
            },
        decreases *self,
    {
        match self {
            Token::Heading { tokens, .. }
            | Token::Paragraph { tokens, .. }
            | Token::Link { tokens, .. }
            | Token::Image { tokens, .. }
            | Token::Html { tokens, .. } => Some(tokens_to_text(tokens)),
            Token::BulletList { items } | Token::OrderedList { items, .. } => {
                let mut result = String::new();
                let mut i: usize = 0;
                proof {
                    assert(decreases_to!(*self => *items));
                }
                while i < items.len()
                    invariant
                        i <= items.len(),
                        result@ == items_concat(items@.take(i as int)),
                        decreases_to!(*self => *items),
                    decreases items.len() - i,
                {
                    proof {
                        assert(items@.take(i + 1).subrange(0, i as int) =~= items@.take(i as int));
                        assert(decreases_to!(*items => items[i as int]));
                    }
                    let t = tokens_to_text(&items[i]);
                    crate::text::push_str(&mut result, t.as_str());
                    i += 1;
                }
                proof {
                    assert(items@.take(items.len() as int) =~= items@);
                }
                Some(result)
            },
            Token::Bold { text } | Token::Text { text } => Some(text.clone()),
            Token::SoftBreak => {
                let mut s = String::new();
                push_char(&mut s, ' ');
                Some(s)
            },
            _ => None,
        }
    }

    pub fn is_block_token(&self) -> (r: bool)
        ensures
            r == (self is Attributes || self is BulletList || self is OrderedList || self is Heading
                || self is Html || self is Paragraph || self is BlockQuote || self is CodeBlock),
    {
        match self {
            Token::Attributes { .. }
            | Token::BulletList { .. }
            | Token::OrderedList { .. }
            | Token::Heading { .. }
            | Token::Html { .. }
            | Token::Paragraph { .. }
            | Token::BlockQuote { .. }
            | Token::CodeBlock { .. } => true,
            _ => false,
        }
    }
}

/// The texts of `ts` that have one, one after the other.
pub fn tokens_to_text(ts: &Vec<Token>) -> (r: String)
    ensures
        r@ == texts_concat(ts@),
    decreases *ts,
{
    let mut result = String::new();
    let mut i: usize = 0;
    while i < ts.len()
        invariant
            i <= ts.len(),
            result@ == texts_concat(ts@.take(i as int)),
        decreases ts.len() - i,
    {
        proof {
            assert(ts@.take(i + 1).subrange(0, i as int) =~= ts@.take(i as int));
            assert(ts@.take(i + 1)[i as int] == ts@[i as int]);
        }
        if let Some(t) = ts[i].to_text() {
            crate::text::push_str(&mut result, t.as_str());
        } else {
            proof {
                assert(result@ + Seq::<char>::empty() =~= result@);
            }
        }
        i += 1;
    }
    proof {
        assert(ts@.take(ts.len() as int) =~= ts@);
    }
    result
}

/// Whether a character has the Unicode `White_Space` property, as
/// `char::is_whitespace` says: tab to carriage return, space, next line,
/// no-break space, ogham space mark, the spaces from en quad to hair space,
/// line and paragraph separators, narrow no-break space, medium
/// mathematical space and ideographic space.
pub open spec fn whitespace(c: char) -> bool {
    let u = c as u32;
    ||| 0x09 <= u <= 0x0D
    ||| u == 0x20
    ||| u == 0x85
    ||| u == 0xA0
    ||| u == 0x1680
    ||| 0x2000 <= u <= 0x200A
    ||| u == 0x2028
    ||| u == 0x2029
    ||| u == 0x202F
    ||| u == 0x205F
    ||| u == 0x3000
}

/// `char::is_whitespace`: whether the character is one of the
/// `White_Space` characters that `whitespace` lists.
#[verifier::external_body]
pub(crate) fn is_whitespace(c: char) -> (r: bool)
    ensures
        r == whitespace(c),
{
    c.is_whitespace()
}

/// `s` without leading whitespace.
pub open spec fn trim_start(s: Seq<char>) -> Seq<char>
    decreases s.len(),
{
    if s.len() > 0 && whitespace(s[0]) {
        trim_start(s.skip(1))
    } else {
        s
    }
}

/// `s` without trailing whitespace.
pub open spec fn trim_end(s: Seq<char>) -> Seq<char>
    decreases s.len(),
{
    if s.len() > 0 && whitespace(s.last()) {
        trim_end(s.drop_last())
    } else {
        s
    }
}

/// `s` without leading and trailing whitespace.
pub open spec fn trim(s: Seq<char>) -> Seq<char> {
    trim_end(trim_start(s))
}

/// The pieces of `s` between the characters `c`.
pub open spec fn split_char(s: Seq<char>, c: char) -> Seq<Seq<char>>
    decreases s.len(),
{
    if s.len() == 0 {
        seq![Seq::empty()]
    } else {
        let p = split_char(s.drop_last(), c);
        if s.last() == c {
            p.push(Seq::empty())
        } else {
            p.update(p.len() - 1, p.last().push(s.last()))
        }
    }
}

/// The lines of `ls`, trimmed, without those that are left empty.
pub open spec fn kept_lines(ls: Seq<Seq<char>>) -> Seq<Seq<char>>
    decreases ls.len(),
{
    if ls.len() == 0 {
        Seq::empty()
    } else {
        let rest = kept_lines(ls.drop_last());
        let t = trim(ls.last());
        if t.len() == 0 {
            rest
        } else {
            rest.push(t)
        }
    }
}

/// The lines `ls` joined by newlines.
pub open spec fn join_lines(ls: Seq<Seq<char>>) -> Seq<char>
    decreases ls.len(),
{
    if ls.len() == 0 {
        Seq::empty()
    } else if ls.len() == 1 {
        ls[0]
    } else {
        join_lines(ls.drop_last()) + seq!['\n'] + ls.last()
    }
}

/// The text with every line trimmed and the empty lines left out.
pub open spec fn sanitized_text(s: Seq<char>) -> Seq<char> {
    join_lines(kept_lines(split_char(s, '\n')))
}


/// `s` trimmed: the indexes of its first and last kept characters.
pub(crate) fn trim_bounds(s: &Vec<char>) -> (r: (usize, usize))
    ensures
        r.0 <= r.1 <= s@.len(),
        s@.subrange(r.0 as int, r.1 as int) == trim(s@),
{
    let ghost sv = s@;
    let mut lo: usize = 0;
    proof {
        assert(sv.skip(0) =~= sv);
    }
    while lo < s.len() && is_whitespace(s[lo])
        invariant
            lo <= s.len(),
            sv == s@,
            trim_start(sv) == trim_start(sv.skip(lo as int)),
        decreases s.len() - lo,
    {
        proof {
            assert(sv.skip(lo as int).skip(1) =~= sv.skip(lo + 1));
        }
        lo += 1;
    }
    let ghost st = sv.skip(lo as int);
    proof {
        assert(trim_start(sv) == st);
        assert(st.take(st.len() as int) =~= st);
    }
    let mut hi: usize = s.len();
    while hi > lo && is_whitespace(s[hi - 1])
        invariant
            lo <= hi <= s.len(),
            sv == s@,
            st == sv.skip(lo as int),
            trim_end(st) == trim_end(st.take(hi - lo)),
        decreases hi,
    {
        proof {
            assert(st.take(hi - lo).drop_last() =~= st.take(hi - 1 - lo));
        }
        hi -= 1;
    }
    proof {
        assert(trim_end(st.take(hi - lo)) == st.take(hi - lo));
        assert(st.take(hi - lo) =~= sv.subrange(lo as int, hi as int));
    }
    (lo, hi)
}

/// Where `v[lo..]` starts once its leading whitespace is left out.
pub(crate) fn trim_start_from(v: &Vec<char>, lo: usize) -> (r: usize)
    requires
        lo <= v@.len(),
    ensures
        lo <= r <= v@.len(),
        v@.subrange(r as int, v@.len() as int) == trim_start(v@.subrange(lo as int, v@.len() as int)),
{
    let ghost sv = v@.subrange(lo as int, v@.len() as int);
    let mut i: usize = lo;
    proof {
        assert(sv.skip(0) =~= sv);
    }
    while i < v.len() && is_whitespace(v[i])
        invariant
            lo <= i <= v@.len(),
            sv == v@.subrange(lo as int, v@.len() as int),
            trim_start(sv) == trim_start(sv.skip(i - lo)),
        decreases v.len() - i,
    {
        proof {
            assert(sv.skip(i - lo).skip(1) =~= sv.skip(i + 1 - lo));
        }
        i += 1;
    }
    proof {
        assert(sv.skip(i - lo) =~= v@.subrange(i as int, v@.len() as int));
    }
    i
}

/// The pieces of `v[lo..hi]` between the characters `c`.
pub(crate) fn split_range(v: &Vec<char>, lo: usize, hi: usize, c: char) -> (r: Vec<Vec<char>>)
    requires
        lo <= hi <= v@.len(),
    ensures
        Seq::new(r@.len(), |k: int| r@[k]@) == split_char(v@.subrange(lo as int, hi as int), c),
{
    let ghost s = v@.subrange(lo as int, hi as int);
    let mut parts: Vec<Vec<char>> = Vec::new();
    let mut cur: Vec<char> = Vec::new();
    let mut i: usize = lo;
    while i < hi
        invariant
            lo <= i <= hi <= v@.len(),
            s == v@.subrange(lo as int, hi as int),
            split_char(s.take(i - lo), c) == Seq::new(parts@.len(), |k: int| parts@[k]@).push(cur@),
        decreases hi - i,
    {
        let x = v[i];
        proof {
            assert(s.take(i + 1 - lo).drop_last() =~= s.take(i - lo));
            assert(s.take(i + 1 - lo).last() == x);
        }
        if x == c {
            let done = cur;
            cur = Vec::new();
            parts.push(done);
            proof {
                assert(Seq::new(parts@.len(), |k: int| parts@[k]@).push(cur@) =~= split_char(s.take(i + 1 - lo), c));
            }
        } else {
            cur.push(x);
            proof {
                assert(Seq::new(parts@.len(), |k: int| parts@[k]@).push(cur@) =~= split_char(s.take(i + 1 - lo), c));
            }
        }
        i += 1;
    }
    parts.push(cur);
    proof {
        assert(s.take(hi - lo) =~= s);
        assert(Seq::new(parts@.len(), |k: int| parts@[k]@) =~= split_char(s, c));
    }
    parts
}

/// Remove any tailing new line or starting and ending spaces
pub fn sanitize_text(text: &str) -> (r: String)
    ensures
        r@ == sanitized_text(text@),
{
    let cs = str_chars(text);
    let ghost s = cs@;
    // the pieces between newlines
    let mut lines: Vec<Vec<char>> = Vec::new();
    let mut cur: Vec<char> = Vec::new();
    let mut i: usize = 0;
    while i < cs.len()
        invariant
            i <= cs.len(),
            s == cs@,
            split_char(s.take(i as int), '\n') == Seq::new(lines@.len(), |k: int| lines@[k]@).push(cur@),
        decreases cs.len() - i,
    {
        let c = cs[i];
        proof {
            assert(s.take(i + 1).drop_last() =~= s.take(i as int));
        }
        if c == '\n' {
            let done = cur;
            cur = Vec::new();
            lines.push(done);
            proof {
                assert(Seq::new(lines@.len(), |k: int| lines@[k]@).push(cur@) =~= split_char(s.take(i + 1), '\n'));
            }
        } else {
            let ghost before = Seq::new(lines@.len(), |k: int| lines@[k]@);
            cur.push(c);
            proof {
                assert(Seq::new(lines@.len(), |k: int| lines@[k]@).push(cur@) =~= split_char(s.take(i + 1), '\n'));
            }
        }
        i += 1;
    }
    lines.push(cur);
    proof {
        assert(s.take(cs.len() as int) =~= s);
        assert(Seq::new(lines@.len(), |k: int| lines@[k]@) == split_char(s, '\n'));
    }
    let ghost ls = split_char(s, '\n');
    // the trimmed lines that are not empty, joined
    let mut out = String::new();
    let mut kept: usize = 0;
    let mut j: usize = 0;
    while j < lines.len()
        invariant
            j <= lines.len(),
            ls == Seq::new(lines@.len(), |k: int| lines@[k]@),
            kept <= j,
            kept == kept_lines(ls.take(j as int)).len(),
            out@ == join_lines(kept_lines(ls.take(j as int))),
        decreases lines.len() - j,
    {
        let (lo, hi) = trim_bounds(&lines[j]);
        proof {
            assert(ls.take(j + 1).drop_last() =~= ls.take(j as int));
            assert(ls.take(j + 1).last() == lines@[j as int]@);
        }
        if lo < hi {
            let t = string_from_range(&lines[j], lo, hi);
            if kept > 0 {
                push_char(&mut out, '\n');
            }
            let ghost before = out@;
            crate::text::push_str(&mut out, t.as_str());
            proof {
                let kl = kept_lines(ls.take(j + 1));
                assert(kl == kept_lines(ls.take(j as int)).push(t@));
                if kept > 0 {
                    assert(kl.drop_last() =~= kept_lines(ls.take(j as int)));
                    assert(out@ =~= join_lines(kl.drop_last()) + seq!['\n'] + kl.last());
                } else {
                    assert(out@ =~= kl[0]);
                }
            }
            kept += 1;
        }
        j += 1;
    }
    proof {
        assert(ls.take(lines.len() as int) =~= ls);
    }
    out
}


/// `i` is where a block marker that `op` accepts begins, after at most three
/// spaces of indentation that `op` does not accept.
pub open spec fn marker_at<F: Fn(char) -> bool>(op: F, s: Seq<char>, i: int) -> bool {
    &&& 0 <= i < 4
    &&& i < s.len()
    &&& op.ensures((s[i],), true)
    &&& forall|j: int| 0 <= j < i ==> s[j] == ' ' && op.ensures((#[trigger] s[j],), false)
}

/// `op` gives one answer for each character.
pub open spec fn deterministic<F: Fn(char) -> bool>(op: F) -> bool {
    forall|c: char, a: bool, b: bool| op.ensures((c,), a) && op.ensures((c,), b) ==> a == b
}

/// ignore up to 4 space idententations returns at which position the match begins
pub fn detect_char_with_ident<F: Fn(char) -> bool>(reader: &CharReader, op: F) -> (r: Result<Option<usize>, ParseError>)
    requires
        forall|c: char| op.requires((c,)),
        deterministic(op),
    ensures
        r is Err <==> !reader.valid(),
        r matches Ok(Some(i)) ==> marker_at(op, reader.chars(), i as int),
        r matches Ok(None) ==> forall|i: int| !marker_at(op, reader.chars(), i),
{
    let ghost s = reader.chars();
    if let Err(e) = reader.peek_char(0) {
        return Err(ParseError::from_io_error(e));
    }
    let mut i: usize = 0;
    while i < 4
        invariant
            s == reader.chars(),
            reader.valid(),
            i <= 4,
            forall|c: char| op.requires((c,)),
            deterministic(op),
            forall|j: int| 0 <= j < i ==> j < s.len() && s[j] == ' ' && op.ensures((#[trigger] s[j],), false),
        decreases 4 - i,
    {
        let c = match reader.peek_char(i) {
            Ok(c) => c,
            Err(e) => return Err(ParseError::from_io_error(e)),
        };
        match c {
            Some(c) => {
                if op(c) {
                    return Ok(Some(i));
                }
                if c != ' ' {
                    proof {
                        assert forall|k: int| !marker_at(op, s, k) by {
                            if marker_at(op, s, k) {
                                if k < i {
                                    assert(op.ensures((s[k],), false));
                                } else if k == i {
                                    assert(op.ensures((s[k],), false));
                                } else {
                                    assert(s[i as int] == ' ');
                                }
                            }
                        }
                    }
                    return Ok(None);
                }
            },
            None => {
                proof {
                    assert forall|k: int| !marker_at(op, s, k) by {
                        if marker_at(op, s, k) {
                            if k < i {
                                assert(op.ensures((s[k],), false));
                            }
                        }
                    }
                }
                return Ok(None);
            },
        }
        i += 1;
    }
    proof {
        assert forall|k: int| !marker_at(op, s, k) by {
            if marker_at(op, s, k) {
                assert(op.ensures((s[k],), false));
            }
        }
    }
    Ok(None)
}

} // verus!
