//! The markdown lexer: the blocks of a document, then the inline tokens of
//! the texts inside them.
use vstd::prelude::*;

use crate::char_reader::CharReader;
use crate::markdown::document::{blocks, read_block_tokens};
use crate::markdown::inline::{inline_of, lex_inline, Lexed};
use crate::markdown::{token_view, tokens_view, SpecToken, Token};
use crate::parse_error::ParseError;
use crate::text::str_chars;

verus! {

/// What reading the inline tokens inside a block gives.
pub enum Parsed {
    Done(SpecToken),
    Fails,
    Panics,
}

/// What reading the inline tokens inside the items of a list gives.
pub enum ParsedItems {
    Done(Seq<Seq<SpecToken>>),
    Fails,
    Panics,
}

/// One token of `ts` read in place, in order; inside an html element a
/// text becomes its inline tokens.
pub open spec fn child_piece(t: SpecToken, in_html: bool) -> Lexed
    decreases t, 1int,
{
    if in_html && t is Text {
        inline_of(t->Text_0)
    } else {
        match block_text(t) {
            Parsed::Done(x) => Lexed::Tokens(seq![x]),
            Parsed::Fails => Lexed::Fails,
            Parsed::Panics => Lexed::Panics,
        }
    }
}

/// The tokens `ts` with the inline tokens inside each read, in order.
pub open spec fn child_texts(ts: Seq<SpecToken>, in_html: bool) -> Lexed
    decreases ts, 2int,
{
    if ts.len() == 0 {
        Lexed::Tokens(Seq::empty())
    } else {
        match child_texts(ts.subrange(0, ts.len() - 1), in_html) {
            Lexed::Tokens(front) => match child_piece(ts[ts.len() - 1], in_html) {
                Lexed::Tokens(more) => Lexed::Tokens(front + more),
                Lexed::Fails => Lexed::Fails,
                Lexed::Panics => Lexed::Panics,
            },
            Lexed::Fails => Lexed::Fails,
            Lexed::Panics => Lexed::Panics,
        }
    }
}

/// The items of a list (or the cells of a table row, whose texts become
/// inline tokens) with the inline tokens inside each read, in order.
pub open spec fn item_texts(items: Seq<Seq<SpecToken>>, in_html: bool) -> ParsedItems
    decreases items, 2int,
{
    if items.len() == 0 {
        ParsedItems::Done(Seq::empty())
    } else {
        match item_texts(items.subrange(0, items.len() - 1), in_html) {
            ParsedItems::Done(front) => match child_texts(items[items.len() - 1], in_html) {
                Lexed::Tokens(x) => ParsedItems::Done(front.push(x)),
                Lexed::Fails => ParsedItems::Fails,
                Lexed::Panics => ParsedItems::Panics,
            },
            ParsedItems::Fails => ParsedItems::Fails,
            ParsedItems::Panics => ParsedItems::Panics,
        }
    }
}

/// What reading the inline tokens inside the rows of a table gives.
pub enum ParsedRows {
    Done(Seq<Seq<Seq<SpecToken>>>),
    Fails,
    Panics,
}

/// The rows of a table with the texts of their cells read into inline
/// tokens, in order.
pub open spec fn row_texts(rows: Seq<Seq<Seq<SpecToken>>>) -> ParsedRows
    decreases rows, 2int,
{
    if rows.len() == 0 {
        ParsedRows::Done(Seq::empty())
    } else {
        match row_texts(rows.subrange(0, rows.len() - 1)) {
            ParsedRows::Done(front) => match item_texts(rows[rows.len() - 1], true) {
                ParsedItems::Done(x) => ParsedRows::Done(front.push(x)),
                ParsedItems::Fails => ParsedRows::Fails,
                ParsedItems::Panics => ParsedRows::Panics,
            },
            ParsedRows::Fails => ParsedRows::Fails,
            ParsedRows::Panics => ParsedRows::Panics,
        }
    }
}

/// A block with the text inside it read into inline tokens: headings and
/// paragraphs get the tokens of their text, quotes, lists and html elements
/// have their tokens read in turn, the texts of table cells become their
/// inline tokens, code, attributes and comments stay; any other token is not
/// a block and is refused.
pub open spec fn block_text(t: SpecToken) -> Parsed
    decreases t, 0int,
{
    match t {
        SpecToken::Html(ts, tag, attrs) => match child_texts(ts, true) {
            Lexed::Tokens(x) => Parsed::Done(SpecToken::Html(x, tag, attrs)),
            Lexed::Fails => Parsed::Fails,
            Lexed::Panics => Parsed::Panics,
        },
        SpecToken::BlockQuote(ts) => match child_texts(ts, false) {
            Lexed::Tokens(x) => Parsed::Done(SpecToken::BlockQuote(x)),
            Lexed::Fails => Parsed::Fails,
            Lexed::Panics => Parsed::Panics,
        },
        SpecToken::BulletList(items) => match item_texts(items, false) {
            ParsedItems::Done(x) => Parsed::Done(SpecToken::BulletList(x)),
            ParsedItems::Fails => Parsed::Fails,
            ParsedItems::Panics => Parsed::Panics,
        },
        SpecToken::OrderedList(items, start) => match item_texts(items, false) {
            ParsedItems::Done(x) => Parsed::Done(SpecToken::OrderedList(x, start)),
            ParsedItems::Fails => Parsed::Fails,
            ParsedItems::Panics => Parsed::Panics,
        },
        SpecToken::Heading(text, _, depth) => match inline_of(text) {
            Lexed::Tokens(x) => Parsed::Done(SpecToken::Heading(text, x, depth)),
            Lexed::Fails => Parsed::Fails,
            Lexed::Panics => Parsed::Panics,
        },
        SpecToken::Paragraph(text, _) => match inline_of(text) {
            Lexed::Tokens(x) => Parsed::Done(SpecToken::Paragraph(text, x)),
            Lexed::Fails => Parsed::Fails,
            Lexed::Panics => Parsed::Panics,
        },
        SpecToken::Table(header, align, rows) => match item_texts(header, true) {
            ParsedItems::Done(h) => match row_texts(rows) {
                ParsedRows::Done(rs) => Parsed::Done(SpecToken::Table(h, align, rs)),
                ParsedRows::Fails => Parsed::Fails,
                ParsedRows::Panics => Parsed::Panics,
            },
            ParsedItems::Fails => Parsed::Fails,
            ParsedItems::Panics => Parsed::Panics,
        },
        SpecToken::CodeBlock(_, _) => Parsed::Done(t),
        SpecToken::Attributes => Parsed::Done(t),
        SpecToken::Comment(_) => Parsed::Done(t),
        _ => Parsed::Fails,
    }
}

proof fn lemma_child_prefix(ts: Seq<SpecToken>, i: int, in_html: bool)
    requires
        0 <= i <= ts.len(),
        !(child_texts(ts.take(i), in_html) is Tokens),
    ensures
        child_texts(ts, in_html) == child_texts(ts.take(i), in_html),
    decreases ts.len(),
{
    if i < ts.len() {
        let front = ts.subrange(0, ts.len() - 1);
        assert(front.take(i) =~= ts.take(i));
        lemma_child_prefix(front, i, in_html);
    } else {
        assert(ts.take(i) =~= ts);
    }
}

proof fn lemma_item_prefix(items: Seq<Seq<SpecToken>>, i: int, in_html: bool)
    requires
        0 <= i <= items.len(),
        !(item_texts(items.take(i), in_html) is Done),
    ensures
        item_texts(items, in_html) == item_texts(items.take(i), in_html),
    decreases items.len(),
{
    if i < items.len() {
        let front = items.subrange(0, items.len() - 1);
        assert(front.take(i) =~= items.take(i));
        lemma_item_prefix(front, i, in_html);
    } else {
        assert(items.take(i) =~= items);
    }
}

proof fn lemma_child_step(tv: Seq<SpecToken>, i: int, in_html: bool, front: Seq<SpecToken>)
    requires
        0 <= i < tv.len(),
        child_texts(tv.take(i), in_html) == Lexed::Tokens(front),
        !(child_texts(tv, in_html) is Panics),
    ensures
        !(child_piece(tv[i], in_html) is Panics),
        child_piece(tv[i], in_html) is Fails ==> child_texts(tv, in_html) is Fails,
        child_piece(tv[i], in_html) matches Lexed::Tokens(more) ==> child_texts(tv.take(i + 1), in_html) == Lexed::Tokens(front + more),
{
    let next = tv.take(i + 1);
    assert(next.subrange(0, next.len() - 1) =~= tv.take(i));
    assert(next[next.len() - 1] == tv[i]);
    if !(child_piece(tv[i], in_html) is Tokens) {
        lemma_child_prefix(tv, i + 1, in_html);
    }
}

proof fn lemma_item_step(iv: Seq<Seq<SpecToken>>, i: int, front: Seq<Seq<SpecToken>>, in_html: bool)
    requires
        0 <= i < iv.len(),
        item_texts(iv.take(i), in_html) == ParsedItems::Done(front),
        !(item_texts(iv, in_html) is Panics),
    ensures
        !(child_texts(iv[i], in_html) is Panics),
        child_texts(iv[i], in_html) is Fails ==> item_texts(iv, in_html) is Fails,
        child_texts(iv[i], in_html) matches Lexed::Tokens(x) ==> item_texts(iv.take(i + 1), in_html) == ParsedItems::Done(front.push(x)),
{
    let next = iv.take(i + 1);
    assert(next.subrange(0, next.len() - 1) =~= iv.take(i));
    assert(next[next.len() - 1] == iv[i]);
    if !(child_texts(iv[i], in_html) is Tokens) {
        lemma_item_prefix(iv, i + 1, in_html);
    }
}

proof fn lemma_row_prefix(rows: Seq<Seq<Seq<SpecToken>>>, i: int)
    requires
        0 <= i <= rows.len(),
        !(row_texts(rows.take(i)) is Done),
    ensures
        row_texts(rows) == row_texts(rows.take(i)),
    decreases rows.len(),
{
    if i < rows.len() {
        let front = rows.subrange(0, rows.len() - 1);
        assert(front.take(i) =~= rows.take(i));
        lemma_row_prefix(front, i);
    } else {
        assert(rows.take(i) =~= rows);
    }
}

proof fn lemma_row_step(rv: Seq<Seq<Seq<SpecToken>>>, i: int, front: Seq<Seq<Seq<SpecToken>>>)
    requires
        0 <= i < rv.len(),
        row_texts(rv.take(i)) == ParsedRows::Done(front),
        !(row_texts(rv) is Panics),
    ensures
        !(item_texts(rv[i], true) is Panics),
        item_texts(rv[i], true) is Fails ==> row_texts(rv) is Fails,
        item_texts(rv[i], true) matches ParsedItems::Done(x) ==> row_texts(rv.take(i + 1)) == ParsedRows::Done(front.push(x)),
{
    let next = rv.take(i + 1);
    assert(next.subrange(0, next.len() - 1) =~= rv.take(i));
    assert(next[next.len() - 1] == rv[i]);
    if !(item_texts(rv[i], true) is Done) {
        lemma_row_prefix(rv, i + 1);
    }
}

/// The views of the token sequences `items`.
pub open spec fn items_view(items: Seq<Vec<Token>>) -> Seq<Seq<SpecToken>> {
    Seq::new(items.len(), |i: int| tokens_view(items[i]@))
}

/// The tokens `ts` with the inline tokens inside each read, in order.
#[verifier::rlimit(40)]
fn parse_children(ts: Vec<Token>, in_html: bool) -> (r: Result<Vec<Token>, ParseError>)
    requires
        !(child_texts(tokens_view(ts@), in_html) is Panics),
    ensures
        match child_texts(tokens_view(ts@), in_html) {
            Lexed::Tokens(x) => r matches Ok(v) && tokens_view(v@) == x,
            Lexed::Fails => r is Err,
            Lexed::Panics => true,
        },
    decreases ts, 2int,
{
    let n0 = ts.len();
    let ghost orig = ts@;
    let ghost tv = tokens_view(orig);
    let mut rest = ts;
    let mut out: Vec<Token> = Vec::new();
    let mut i: usize = 0;
    proof {
        assert(tv.take(0) =~= Seq::<SpecToken>::empty());
        assert(tokens_view(out@) =~= Seq::<SpecToken>::empty());
        assert(orig.skip(0) =~= orig);
    }
    while rest.len() > 0
        invariant
            i <= orig.len(),
            orig.len() == n0,
            orig == ts@,
            tv == tokens_view(orig),
            rest@ == orig.skip(i as int),
            child_texts(tv.take(i as int), in_html) == Lexed::Tokens(tokens_view(out@)),
            !(child_texts(tv, in_html) is Panics),
            decreases_to!(ts => orig),
        decreases rest@.len(),
    {
        proof {
            assert(i < orig.len());
        }
        let elem = rest.remove(0);
        let ghost before = tokens_view(out@);
        proof {
            assert(elem == orig[i as int]);
            assert(rest@ =~= orig.skip(i + 1));
            assert(tv[i as int] == token_view(elem));
            lemma_child_step(tv, i as int, in_html, before);
            assert(decreases_to!(ts => elem)) by {
                assert(decreases_to!(orig => orig[i as int]));
            }
        }
        let is_text = match &elem {
            Token::Text { .. } => true,
            _ => false,
        };
        if in_html && is_text {
            let text = match elem {
                Token::Text { text } => text,
                _ => String::new(),
            };
            let chars = str_chars(text.as_str());
            match lex_inline(&chars) {
                Ok(mut more) => {
                    let ghost mv = tokens_view(more@);
                    out.append(&mut more);
                    proof {
                        assert(tokens_view(out@) =~= before + mv);
                    }
                },
                Err(e) => return Err(e),
            }
        } else {
            match parse_token(elem) {
                Ok(u) => {
                    out.push(u);
                    proof {
                        assert(tokens_view(out@) =~= before + seq![token_view(u)]);
                    }
                },
                Err(e) => return Err(e),
            }
        }
        i += 1;
    }
    proof {
        assert(tv.take(i as int) =~= tv);
    }
    Ok(out)
}

/// The items of a list, or the cells of a table row, with the inline
/// tokens inside each read, in order.
fn parse_items(items: Vec<Vec<Token>>, in_html: bool) -> (r: Result<Vec<Vec<Token>>, ParseError>)
    requires
        !(item_texts(items_view(items@), in_html) is Panics),
    ensures
        match item_texts(items_view(items@), in_html) {
            ParsedItems::Done(x) => r matches Ok(v) && items_view(v@) == x,
            ParsedItems::Fails => r is Err,
            ParsedItems::Panics => true,
        },
    decreases items, 2int,
{
    let n0 = items.len();
    let ghost orig = items@;
    let ghost iv = items_view(orig);
    let mut rest = items;
    let mut out: Vec<Vec<Token>> = Vec::new();
    let mut i: usize = 0;
    proof {
        assert(iv.take(0) =~= Seq::<Seq<SpecToken>>::empty());
        assert(items_view(out@) =~= Seq::<Seq<SpecToken>>::empty());
        assert(orig.skip(0) =~= orig);
    }
    while rest.len() > 0
        invariant
            i <= orig.len(),
            orig.len() == n0,
            orig == items@,
            iv == items_view(orig),
            rest@ == orig.skip(i as int),
            item_texts(iv.take(i as int), in_html) == ParsedItems::Done(items_view(out@)),
            !(item_texts(iv, in_html) is Panics),
            decreases_to!(items => orig),
        decreases rest@.len(),
    {
        proof {
            assert(i < orig.len());
        }
        let item = rest.remove(0);
        let ghost before = items_view(out@);
        proof {
            assert(item == orig[i as int]);
            assert(rest@ =~= orig.skip(i + 1));
            assert(iv[i as int] == tokens_view(item@));
            lemma_item_step(iv, i as int, before, in_html);
            assert(decreases_to!(items => item)) by {
                assert(decreases_to!(orig => orig[i as int]));
            }
        }
        match parse_children(item, in_html) {
            Ok(v) => {
                out.push(v);
                proof {
                    assert(items_view(out@) =~= before.push(tokens_view(v@)));
                }
            },
            Err(e) => {
                proof {
                    assert(child_texts(iv[i as int], in_html) is Fails);
                    assert(item_texts(iv, in_html) is Fails);
                }
                return Err(e);
            },
        }
        i += 1;
    }
    proof {
        assert(iv.take(i as int) =~= iv);
    }
    Ok(out)
}

/// The views of the rows `rows`.
pub open spec fn rows_view(rows: Seq<Vec<Vec<Token>>>) -> Seq<Seq<Seq<SpecToken>>> {
    Seq::new(rows.len(), |i: int| items_view(rows[i]@))
}

/// The rows of a table with the texts of their cells read into inline
/// tokens, in order.
fn parse_rows(rows: Vec<Vec<Vec<Token>>>) -> (r: Result<Vec<Vec<Vec<Token>>>, ParseError>)
    requires
        !(row_texts(rows_view(rows@)) is Panics),
    ensures
        match row_texts(rows_view(rows@)) {
            ParsedRows::Done(x) => r matches Ok(v) && rows_view(v@) == x,
            ParsedRows::Fails => r is Err,
            ParsedRows::Panics => true,
        },
    decreases rows, 2int,
{
    let n0 = rows.len();
    let ghost orig = rows@;
    let ghost rv = rows_view(orig);
    let mut rest = rows;
    let mut out: Vec<Vec<Vec<Token>>> = Vec::new();
    let mut i: usize = 0;
    proof {
        assert(rv.take(0) =~= Seq::<Seq<Seq<SpecToken>>>::empty());
        assert(rows_view(out@) =~= Seq::<Seq<Seq<SpecToken>>>::empty());
        assert(orig.skip(0) =~= orig);
    }
    while rest.len() > 0
        invariant
            i <= orig.len(),
            orig.len() == n0,
            orig == rows@,
            rv == rows_view(orig),
            rest@ == orig.skip(i as int),
            row_texts(rv.take(i as int)) == ParsedRows::Done(rows_view(out@)),
            !(row_texts(rv) is Panics),
            decreases_to!(rows => orig),
        decreases rest@.len(),
    {
        proof {
            assert(i < orig.len());
        }
        let row = rest.remove(0);
        let ghost before = rows_view(out@);
        proof {
            assert(row == orig[i as int]);
            assert(rest@ =~= orig.skip(i + 1));
            assert(rv[i as int] == items_view(row@));
            lemma_row_step(rv, i as int, before);
            assert(decreases_to!(rows => row)) by {
                assert(decreases_to!(orig => orig[i as int]));
            }
        }
        match parse_items(row, true) {
            Ok(v) => {
                out.push(v);
                proof {
                    assert(rows_view(out@) =~= before.push(items_view(v@)));
                }
            },
            Err(e) => {
                proof {
                    assert(item_texts(rv[i as int], true) is Fails);
                    assert(row_texts(rv) is Fails);
                }
                return Err(e);
            },
        }
        i += 1;
    }
    proof {
        assert(rv.take(i as int) =~= rv);
    }
    Ok(out)
}

/// A table with the texts of its cells read into inline tokens.
fn parse_table(t: Token) -> (r: Result<Token, ParseError>)
    requires
        t is Table,
        !(block_text(token_view(t)) is Panics),
    ensures
        match block_text(token_view(t)) {
            Parsed::Done(x) => r matches Ok(u) && token_view(u) == x,
            Parsed::Fails => r is Err,
            Parsed::Panics => true,
        },
    decreases t, 0int,
{
    let ghost tv = token_view(t);
    match t {
        Token::Table { header, align, rows } => {
            proof {
                let hv = items_view(header@);
                let rsv = rows_view(rows@);
                assert(tv matches SpecToken::Table(h2, _, r2) && h2 =~= hv && r2 =~= rsv) by {
                    assert forall|k: int| 0 <= k < hv.len() implies #[trigger] hv[k] =~= (tv->Table_0)[k] by {}
                    assert forall|k: int| 0 <= k < rsv.len() implies #[trigger] rsv[k] =~= (tv->Table_2)[k] by {
                        assert forall|j: int| 0 <= j < rsv[k].len() implies #[trigger] rsv[k][j] =~= (tv->Table_2)[k][j] by {}
                    }
                }
                assert(tv == SpecToken::Table(hv, align@, rsv));
            }
            let h = match parse_items(header, true) {
                Ok(h) => h,
                Err(e) => return Err(e),
            };
            let rs = match parse_rows(rows) {
                Ok(rs) => rs,
                Err(e) => return Err(e),
            };
            let ghost hv = items_view(h@);
            let ghost rsv = rows_view(rs@);
            let u = Token::Table { header: h, align, rows: rs };
            proof {
                let tu = token_view(u);
                assert(tu matches SpecToken::Table(h2, _, r2) && h2 =~= hv && r2 =~= rsv) by {
                    assert forall|k: int| 0 <= k < hv.len() implies #[trigger] hv[k] =~= (tu->Table_0)[k] by {}
                    assert forall|k: int| 0 <= k < rsv.len() implies #[trigger] rsv[k] =~= (tu->Table_2)[k] by {
                        assert forall|j: int| 0 <= j < rsv[k].len() implies #[trigger] rsv[k][j] =~= (tu->Table_2)[k][j] by {}
                    }
                }
            }
            Ok(u)
        },
        _ => Err(ParseError::invalid("not a table")),
    }
}

/// A block with the text inside it read into inline tokens, as
/// `block_text` says.
#[verifier::rlimit(80)]
#[verifier::spinoff_prover]
fn parse_token(t: Token) -> (r: Result<Token, ParseError>)
    requires
        !(block_text(token_view(t)) is Panics),
    ensures
        match block_text(token_view(t)) {
            Parsed::Done(x) => r matches Ok(u) && token_view(u) == x,
            Parsed::Fails => r is Err,
            Parsed::Panics => true,
        },
    decreases t, 1int,
{
    let is_table = match &t {
        Token::Table { .. } => true,
        _ => false,
    };
    if is_table {
        return parse_table(t);
    }
    let ghost tv = token_view(t);
    match t {
        Token::Html { tokens, tag, attributes } => {
            proof {
                assert(tv matches SpecToken::Html(ts, _, _) && ts =~= tokens_view(tokens@));
            }
            match parse_children(tokens, true) {
                Ok(v) => {
                    let ghost x = tokens_view(v@);
                    let u = Token::Html { tokens: v, tag, attributes };
                    proof {
                        assert(token_view(u) matches SpecToken::Html(ts, _, _) && ts =~= x);
                    }
                    Ok(u)
                },
                Err(e) => Err(e),
            }
        },
        Token::BlockQuote { tokens } => {
            proof {
                assert(tv matches SpecToken::BlockQuote(ts) && ts =~= tokens_view(tokens@));
            }
            match parse_children(tokens, false) {
                Ok(v) => {
                    let ghost x = tokens_view(v@);
                    let u = Token::BlockQuote { tokens: v };
                    proof {
                        assert(token_view(u) matches SpecToken::BlockQuote(ts) && ts =~= x);
                    }
                    Ok(u)
                },
                Err(e) => Err(e),
            }
        },
        Token::BulletList { items } => {
            proof {
                assert(tv matches SpecToken::BulletList(its) && its =~= items_view(items@)) by {
                    assert forall|k: int| 0 <= k < items@.len() implies #[trigger] items_view(items@)[k] =~= (tv->BulletList_0)[k] by {}
                }
            }
            match parse_items(items, false) {
                Ok(v) => {
                    let ghost x = items_view(v@);
                    let u = Token::BulletList { items: v };
                    proof {
                        assert(token_view(u) matches SpecToken::BulletList(its) && its =~= x) by {
                            assert forall|k: int| 0 <= k < v@.len() implies #[trigger] x[k] =~= (token_view(u)->BulletList_0)[k] by {}
                        }
                    }
                    Ok(u)
                },
                Err(e) => Err(e),
            }
        },
        Token::OrderedList { items, start } => {
            proof {
                assert(tv matches SpecToken::OrderedList(its, _) && its =~= items_view(items@)) by {
                    assert forall|k: int| 0 <= k < items@.len() implies #[trigger] items_view(items@)[k] =~= (tv->OrderedList_0)[k] by {}
                }
            }
            match parse_items(items, false) {
                Ok(v) => {
                    let ghost x = items_view(v@);
                    let u = Token::OrderedList { items: v, start };
                    proof {
                        assert(token_view(u) matches SpecToken::OrderedList(its, _) && its =~= x) by {
                            assert forall|k: int| 0 <= k < v@.len() implies #[trigger] x[k] =~= (token_view(u)->OrderedList_0)[k] by {}
                        }
                    }
                    Ok(u)
                },
                Err(e) => Err(e),
            }
        },
        Token::Heading { text, tokens: _, depth } => {
            let chars = str_chars(text.as_str());
            match lex_inline(&chars) {
                Ok(v) => {
                    let ghost x = tokens_view(v@);
                    let u = Token::Heading { text, tokens: v, depth };
                    proof {
                        assert(token_view(u) matches SpecToken::Heading(_, ts, _) && ts =~= x);
                    }
                    Ok(u)
                },
                Err(e) => Err(e),
            }
        },
        Token::Paragraph { text, tokens: _ } => {
            let chars = str_chars(text.as_str());
            match lex_inline(&chars) {
                Ok(v) => {
                    let ghost x = tokens_view(v@);
                    let u = Token::Paragraph { text, tokens: v };
                    proof {
                        assert(token_view(u) matches SpecToken::Paragraph(_, ts) && ts =~= x);
                    }
                    Ok(u)
                },
                Err(e) => Err(e),
            }
        },
        Token::CodeBlock { info, text } => Ok(Token::CodeBlock { info, text }),
        Token::Attributes { table } => Ok(Token::Attributes { table }),
        Token::Comment { raw } => Ok(Token::Comment { raw }),
        _ => Err(ParseError::invalid("inline token found when parsing block tokens")),
    }
}

/// Reads the inline tokens of the text inside a block token, in place.
pub fn parse_block_token_text(block_token: &mut Token) -> (r: Result<(), ParseError>)
    requires
        !(block_text(token_view(*old(block_token))) is Panics),
    ensures
        match block_text(token_view(*old(block_token))) {
            Parsed::Done(x) => r is Ok && token_view(*final(block_token)) == x,
            Parsed::Fails => r is Err,
            Parsed::Panics => true,
        },
{
    let mut owned = Token::ThematicBreak;
    std::mem::swap(&mut owned, block_token);
    match parse_token(owned) {
        Ok(u) => {
            *block_token = u;
            Ok(())
        },
        Err(e) => Err(e),
    }
}

/// Reads the blocks of a markdown document, then the inline tokens of the
/// text inside each block.
pub fn read_tokens(reader: &mut CharReader) -> (r: Result<Vec<Token>, ParseError>)
    requires
        old(reader).valid() ==> (blocks(old(reader).chars(), !old(reader).read_flag()) matches Some(bs)
            ==> !(child_texts(bs, false) is Panics)),
    ensures
        !old(reader).valid() ==> r is Err,
        old(reader).valid() ==> match blocks(old(reader).chars(), !old(reader).read_flag()) {
            None => r is Err,
            Some(bs) => match child_texts(bs, false) {
                Lexed::Tokens(ts) => r matches Ok(v) && tokens_view(v@) == ts,
                Lexed::Fails => r is Err,
                Lexed::Panics => true,
            },
        },
{
    let block_tokens = match read_block_tokens(reader) {
        Ok(b) => b,
        Err(e) => return Err(e),
    };
    parse_children(block_tokens, false)
}

} // verus!
