//! Stylesheet representation for resource discovering.
use vstd::prelude::*;

use crate::pattern::{find_matches, groups_view, matches_view, regex_matches};
use crate::raw_map::{distinct_keys, entries_map, RawMap};
use crate::text::{has_prefix, replace_all, replaced, starts_with};

verus! {

#[derive(Debug, PartialEq, Eq)]
pub enum StylesheetLink {
    Import(String),
    Url(String),
}

/// Mathematical form of a stylesheet link.
pub enum SpecStylesheetLink {
    Import(Seq<char>),
    Url(Seq<char>),
}

impl View for StylesheetLink {
    type V = SpecStylesheetLink;

    open spec fn view(&self) -> SpecStylesheetLink {
        match self {
            StylesheetLink::Import(p) => SpecStylesheetLink::Import(p@),
            StylesheetLink::Url(p) => SpecStylesheetLink::Url(p@),
        }
    }
}

/// The regular expression that finds imports and urls in a stylesheet.
pub const STYLESHEET_LINK_PATTERN: &'static str = r#"@import ['"](.*)['"]|@import url\(['"]([^")]*)['"]\)|url\(['"]([^")]*)['"]\)"#;

/// The link that one match stands for, keyed by the matched text: an import
/// (of group 1, else group 2) unless its path starts with `http`, else a url
/// (of group 3). `None` for a skipped import, or when the groups are missing.
pub open spec fn stylesheet_link(g: Seq<Option<Seq<char>>>) -> Option<(Seq<char>, SpecStylesheetLink)> {
    if g.len() == 0 || g[0] is None {
        None
    } else {
        let raw = g[0]->0;
        if has_prefix(raw, seq!['@', 'i', 'm', 'p', 'o', 'r', 't']) {
            let path = if g.len() > 1 && g[1] is Some {
                g[1]
            } else if g.len() > 2 {
                g[2]
            } else {
                None
            };
            match path {
                Some(p) => if has_prefix(p, seq!['h', 't', 't', 'p']) {
                    None
                } else {
                    Some((raw, SpecStylesheetLink::Import(p)))
                },
                None => None,
            }
        } else if g.len() > 3 && g[3] is Some {
            Some((raw, SpecStylesheetLink::Url(g[3]->0)))
        } else {
            None
        }
    }
}

/// The links of a sequence of matches; a later match of the same text wins.
pub open spec fn stylesheet_links(ms: Seq<Seq<Option<Seq<char>>>>) -> Map<Seq<char>, SpecStylesheetLink>
    decreases ms.len(),
{
    if ms.len() == 0 {
        Map::empty()
    } else {
        let m = stylesheet_links(ms.drop_last());
        match stylesheet_link(ms.last()) {
            Some((raw, link)) => m.insert(raw, link),
            None => m,
        }
    }
}

/// The links found in `content`: none when the pattern does not compile.
pub open spec fn stylesheet_links_in(content: Seq<char>) -> Map<Seq<char>, SpecStylesheetLink> {
    match regex_matches(STYLESHEET_LINK_PATTERN@, content) {
        Some(ms) => stylesheet_links(ms),
        None => Map::empty(),
    }
}

/// The link of one match.
fn link_of(g: &Vec<Option<String>>) -> (r: Option<(String, StylesheetLink)>)
    ensures
        r is None <==> stylesheet_link(groups_view(g@)) is None,
        r matches Some((raw, link)) ==> stylesheet_link(groups_view(g@)) == Some((raw@, link@)),
{
    let ghost gv = groups_view(g@);
    if g.len() == 0 {
        return None;
    }
    let raw = match &g[0] {
        Some(raw) => raw,
        None => return None,
    };
    let is_import = starts_with(raw.as_str(), "@import");
    proof {
        reveal_strlit("@import");
        reveal_strlit("http");
        assert("@import"@ =~= seq!['@', 'i', 'm', 'p', 'o', 'r', 't']);
        assert("http"@ =~= seq!['h', 't', 't', 'p']);
        assert(gv[0] == Some(raw@));
    }
    if is_import {
        let path = if g.len() > 1 && g[1].is_some() {
            &g[1]
        } else if g.len() > 2 {
            &g[2]
        } else {
            return None;
        };
        match path {
            Some(p) => {
                if starts_with(p.as_str(), "http") {
                    None
                } else {
                    Some((raw.clone(), StylesheetLink::Import(p.clone())))
                }
            },
            None => None,
        }
    } else {
        if g.len() > 3 {
            match &g[3] {
                Some(u) => Some((raw.clone(), StylesheetLink::Url(u.clone()))),
                None => None,
            }
        } else {
            None
        }
    }
}

/// The links of the matches `ms`, keyed by the matched text.
pub fn links_from_matches(ms: &Vec<Vec<Option<String>>>) -> (r: RawMap<StylesheetLink>)
    ensures
        r@ == stylesheet_links(matches_view(ms@)),
{
    let ghost mv = matches_view(ms@);
    let mut r: RawMap<StylesheetLink> = RawMap::new();
    let mut k: usize = 0;
    while k < ms.len()
        invariant
            k <= ms.len(),
            mv == matches_view(ms@),
            r@ == stylesheet_links(mv.take(k as int)),
        decreases ms.len() - k,
    {
        let l = link_of(&ms[k]);
        proof {
            assert(mv.take(k + 1).drop_last() =~= mv.take(k as int));
            assert(mv.take(k + 1).last() == groups_view(ms@[k as int]@));
        }
        match l {
            Some((raw, link)) => r.insert(raw, link),
            None => {},
        }
        k += 1;
    }
    proof {
        assert(mv.take(ms@.len() as int) =~= mv);
    }
    r
}

/// The imports and urls of a stylesheet, keyed by the text that refers to them.
pub fn links(content: &str) -> (r: RawMap<StylesheetLink>)
    ensures
        r@ == stylesheet_links_in(content@),
{
    match find_matches(STYLESHEET_LINK_PATTERN, content) {
        Some(ms) => links_from_matches(&ms),
        None => RawMap::new(),
    }
}

/// Stylesheet representation for resource discovering and condensing multiple stylesheets into one
#[derive(Debug)]
pub struct Stylesheet {
    content: String,
    /// map from raw matching string to path
    links: RawMap<StylesheetLink>,
}

impl Stylesheet {
    pub closed spec fn content(&self) -> Seq<char> {
        self.content@
    }

    pub closed spec fn link_map(&self) -> Map<Seq<char>, SpecStylesheetLink> {
        self.links@
    }

    /// A stylesheet of the text read from a source, with its links.
    pub fn from_readable(content: String) -> (s: Stylesheet)
        ensures
            s.content() == content@,
            s.link_map() == stylesheet_links_in(content@),
    {
        let links = links(content.as_str());
        Stylesheet { content, links }
    }

    /// The (text, link) pairs, in the order the texts were first found.
    pub closed spec fn link_entries(&self) -> Seq<(String, StylesheetLink)> {
        self.links.pairs()
    }

    /// The links, in the order their texts were first found.
    pub fn links(&self) -> (r: Vec<&StylesheetLink>)
        ensures
            r@.len() == self.link_entries().len(),
            forall|i: int| 0 <= i < r@.len() ==> *r@[i] == self.link_entries()[i].1,
            self.link_map() == entries_map(self.link_entries()),
            distinct_keys(self.link_entries()),
    {
        self.links.values()
    }

    /// Update a resource input path to a new one
    pub fn update_resource(&mut self, raw_path: &str, updated_path: &str)
        ensures
            final(self).content() == replaced(old(self).content(), raw_path@, updated_path@),
            final(self).link_map() == old(self).link_map(),
    {
        self.content = replace_all(self.content.as_str(), raw_path, updated_path);
    }

    /// The text of the stylesheet.
    pub fn as_str(&self) -> (s: &str)
        ensures
            s@ == self.content(),
    {
        self.content.as_str()
    }
}

} // verus!
