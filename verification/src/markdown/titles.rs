//! Texts that a page shows about its tokens: the title of a slide and how
//! many tokens make output.
use vstd::prelude::*;

use crate::markdown::{texts_concat, tokens_to_text, trim, trim_bounds, Token};
use crate::text::{str_chars, string_from_range};

verus! {

/// The characters of each candidate that is there.
pub open spec fn opt_texts(cs: Seq<Option<String>>) -> Seq<Option<Seq<char>>> {
    cs.map_values(|o: Option<String>| match o {
        Some(s) => Some(s@),
        None => None,
    })
}

/// The first candidate that is there and not blank, trimmed.
pub open spec fn first_non_empty(cs: Seq<Option<Seq<char>>>) -> Option<Seq<char>>
    decreases cs.len(),
{
    if cs.len() == 0 {
        None
    } else if cs[0] is Some && trim(cs[0]->0).len() > 0 {
        Some(trim(cs[0]->0))
    } else {
        first_non_empty(cs.skip(1))
    }
}

/// The first of the candidates that is there and not blank, trimmed.
pub fn first_non_empty_text(candidates: &[Option<String>]) -> (r: Option<String>)
    ensures
        match first_non_empty(opt_texts(candidates@)) {
            Some(x) => r matches Some(s) && s@ == x,
            None => r is None,
        },
{
    let ghost cs = opt_texts(candidates@);
    let mut i: usize = 0;
    proof {
        assert(cs.skip(0) =~= cs);
    }
    while i < candidates.len()
        invariant
            i <= candidates.len(),
            cs == opt_texts(candidates@),
            first_non_empty(cs) == first_non_empty(cs.skip(i as int)),
        decreases candidates.len() - i,
    {
        proof {
            assert(cs.skip(i as int).skip(1) =~= cs.skip(i + 1));
            assert(cs.skip(i as int)[0] == cs[i as int]);
        }
        if let Some(s) = &candidates[i] {
            let chars = str_chars(s.as_str());
            let (lo, hi) = trim_bounds(&chars);
            if lo < hi {
                return Some(string_from_range(&chars, lo, hi));
            }
        }
        i += 1;
    }
    None
}

/// The title that an image gives: its title, else the text of its tokens.
pub open spec fn image_title(t: Token) -> Option<Seq<char>> {
    match t {
        Token::Image { tokens, title, .. } => first_non_empty(
            seq![
                match title {
                    Some(s) => Some(s@),
                    None => None,
                },
                Some(texts_concat(tokens@)),
            ],
        ),
        _ => None,
    }
}

/// The first image title among `ts`.
pub open spec fn nested_image_title(ts: Seq<Token>) -> Option<Seq<char>>
    decreases ts.len(),
{
    if ts.len() == 0 {
        None
    } else if image_title(ts[0]) is Some {
        image_title(ts[0])
    } else {
        nested_image_title(ts.skip(1))
    }
}

/// The value of an attribute, where there is one.
pub open spec fn attribute_value(attributes: Map<Seq<char>, Seq<char>>, key: Seq<char>) -> Option<
    Seq<char>,
> {
    if attributes.contains_key(key) {
        Some(attributes[key])
    } else {
        None
    }
}

/// The title of a slide made of a token.
pub open spec fn carousel_title(t: Token) -> Option<Seq<char>> {
    match t {
        Token::Image { .. } => image_title(t),
        Token::Link { tokens, title, .. } => first_non_empty(
            seq![
                match title {
                    Some(s) => Some(s@),
                    None => None,
                },
                nested_image_title(tokens@),
                Some(texts_concat(tokens@)),
            ],
        ),
        Token::Html { attributes, tokens, .. } => first_non_empty(
            seq![
                attribute_value(attributes@, "title"@),
                attribute_value(attributes@, "alt"@),
                attribute_value(attributes@, "aria-label"@),
                Some(texts_concat(tokens@)),
            ],
        ),
        _ => None,
    }
}

/// The title that an image token gives, if it is an image.
fn token_image_title(t: &Token) -> (r: Option<String>)
    ensures
        match image_title(*t) {
            Some(x) => r matches Some(s) && s@ == x,
            None => r is None,
        },
{
    match t {
        Token::Image { tokens, title, .. } => {
            let candidates = [title.clone(), Some(tokens_to_text(tokens))];
            proof {
                assert(opt_texts(candidates@) =~= seq![
                    match title {
                        Some(s) => Some(s@),
                        None => None,
                    },
                    Some(texts_concat(tokens@)),
                ]);
            }
            first_non_empty_text(&candidates)
        },
        _ => None,
    }
}

/// The first image title among the tokens.
fn first_image_title(ts: &Vec<Token>) -> (r: Option<String>)
    ensures
        match nested_image_title(ts@) {
            Some(x) => r matches Some(s) && s@ == x,
            None => r is None,
        },
{
    let mut i: usize = 0;
    proof {
        assert(ts@.skip(0) =~= ts@);
    }
    while i < ts.len()
        invariant
            i <= ts.len(),
            nested_image_title(ts@) == nested_image_title(ts@.skip(i as int)),
        decreases ts.len() - i,
    {
        proof {
            assert(ts@.skip(i as int).skip(1) =~= ts@.skip(i + 1));
            assert(ts@.skip(i as int)[0] == ts@[i as int]);
        }
        let title = token_image_title(&ts[i]);
        if title.is_some() {
            return title;
        }
        i += 1;
    }
    None
}

/// The value of an attribute of an element, if it has one.
fn attribute_of(attributes: &crate::attributes::Attributes, key: &str) -> (r: Option<String>)
    ensures
        match attribute_value(attributes@, key@) {
            Some(x) => r matches Some(s) && s@ == x,
            None => r is None,
        },
{
    match attributes.get(key) {
        Some(v) => Some(v.clone()),
        None => None,
    }
}

/// The title of a slide made of the token: an image's title or text, a
/// link's title, image or text, an element's title, alt or label
/// attribute or text.
pub fn token_carousel_title(token: &Token) -> (r: Option<String>)
    ensures
        match carousel_title(*token) {
            Some(x) => r matches Some(s) && s@ == x,
            None => r is None,
        },
{
    match token {
        Token::Image { .. } => token_image_title(token),
        Token::Link { tokens, title, .. } => {
            let nested = first_image_title(tokens);
            let candidates = [title.clone(), nested, Some(tokens_to_text(tokens))];
            proof {
                assert(opt_texts(candidates@) =~= seq![
                    match title {
                        Some(s) => Some(s@),
                        None => None,
                    },
                    nested_image_title(tokens@),
                    Some(texts_concat(tokens@)),
                ]);
            }
            first_non_empty_text(&candidates)
        },
        Token::Html { attributes, tokens, .. } => {
            let candidates = [
                attribute_of(attributes, "title"),
                attribute_of(attributes, "alt"),
                attribute_of(attributes, "aria-label"),
                Some(tokens_to_text(tokens)),
            ];
            proof {
                assert(opt_texts(candidates@) =~= seq![
                    attribute_value(attributes@, "title"@),
                    attribute_value(attributes@, "alt"@),
                    attribute_value(attributes@, "aria-label"@),
                    Some(texts_concat(tokens@)),
                ]);
            }
            first_non_empty_text(&candidates)
        },
        _ => None,
    }
}

/// Whether a token makes output: attributes, comments and links without
/// text make none.
pub open spec fn meaningful(t: Token) -> bool {
    match t {
        Token::Link { tokens, .. } => tokens@.len() > 0,
        Token::Attributes { .. } => false,
        Token::Comment { .. } => false,
        _ => true,
    }
}

/// How many of the tokens make output.
pub open spec fn meaningful_count(ts: Seq<Token>) -> nat
    decreases ts.len(),
{
    if ts.len() == 0 {
        0
    } else {
        meaningful_count(ts.drop_last()) + if meaningful(ts.last()) {
            1nat
        } else {
            0nat
        }
    }
}

/// How many of the tokens make output.
pub fn count_meaningful_tokens(tokens: &[Token]) -> (n: usize)
    ensures
        n == meaningful_count(tokens@),
{
    let mut n: usize = 0;
    let mut i: usize = 0;
    while i < tokens.len()
        invariant
            i <= tokens.len(),
            n == meaningful_count(tokens@.take(i as int)),
            n <= i,
        decreases tokens.len() - i,
    {
        proof {
            assert(tokens@.take(i + 1).drop_last() =~= tokens@.take(i as int));
            assert(tokens@.take(i + 1).last() == tokens@[i as int]);
        }
        let keep = match &tokens[i] {
            Token::Link { tokens: inner, .. } => inner.len() > 0,
            Token::Attributes { .. } | Token::Comment { .. } => false,
            _ => true,
        };
        if keep {
            n += 1;
        }
        i += 1;
    }
    proof {
        assert(tokens@.take(tokens@.len() as int) =~= tokens@);
    }
    n
}

} // verus!
