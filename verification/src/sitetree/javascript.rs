//! JavaScript links and how a script is loaded.
use vstd::prelude::*;

use crate::pattern::{find_matches, groups_view, matches_view, regex_matches};
use crate::raw_map::RawMap;

verus! {

#[derive(Debug, PartialEq, Eq)]
pub enum JavascriptLink {
    Import(String),
    DynamicImport(String),
}

/// Mathematical form of a script link.
pub enum SpecJavascriptLink {
    Import(Seq<char>),
    DynamicImport(Seq<char>),
}

impl View for JavascriptLink {
    type V = SpecJavascriptLink;

    open spec fn view(&self) -> SpecJavascriptLink {
        match self {
            JavascriptLink::Import(p) => SpecJavascriptLink::Import(p@),
            JavascriptLink::DynamicImport(p) => SpecJavascriptLink::DynamicImport(p@),
        }
    }
}

impl JavascriptLink {
    /// The linked path.
    pub fn to_string(&self) -> (s: String)
        ensures
            s@ == match self@ {
                SpecJavascriptLink::Import(p) => p,
                SpecJavascriptLink::DynamicImport(p) => p,
            },
    {
        match self {
            JavascriptLink::Import(s) => s.clone(),
            JavascriptLink::DynamicImport(s) => s.clone(),
        }
    }
}

/// The regular expression that finds static imports (`import ... from '...'`)
/// and dynamic imports (`import('...')`).
pub const JAVASCRIPT_LINK_PATTERN: &'static str = r#"(?:import\s+.*?\s+from\s+['"]([^'"]*)['"]|import\(['"]([^'"]*)['"]\))"#;

/// The link that one match stands for, keyed by the matched text: a static
/// import of group 1, else a dynamic import of group 2.
pub open spec fn javascript_link(g: Seq<Option<Seq<char>>>) -> Option<(Seq<char>, SpecJavascriptLink)> {
    if g.len() == 0 || g[0] is None {
        None
    } else if g.len() > 1 && g[1] is Some {
        Some((g[0]->0, SpecJavascriptLink::Import(g[1]->0)))
    } else if g.len() > 2 && g[2] is Some {
        Some((g[0]->0, SpecJavascriptLink::DynamicImport(g[2]->0)))
    } else {
        None
    }
}

/// The links of a sequence of matches; a later match of the same text wins.
pub open spec fn javascript_links(ms: Seq<Seq<Option<Seq<char>>>>) -> Map<Seq<char>, SpecJavascriptLink>
    decreases ms.len(),
{
    if ms.len() == 0 {
        Map::empty()
    } else {
        let m = javascript_links(ms.drop_last());
        match javascript_link(ms.last()) {
            Some((raw, link)) => m.insert(raw, link),
            None => m,
        }
    }
}

/// The links found in `content`: none when the pattern does not compile.
pub open spec fn javascript_links_in(content: Seq<char>) -> Map<Seq<char>, SpecJavascriptLink> {
    match regex_matches(JAVASCRIPT_LINK_PATTERN@, content) {
        Some(ms) => javascript_links(ms),
        None => Map::empty(),
    }
}

fn link_of(g: &Vec<Option<String>>) -> (r: Option<(String, JavascriptLink)>)
    ensures
        r is None <==> javascript_link(groups_view(g@)) is None,
        r matches Some((raw, link)) ==> javascript_link(groups_view(g@)) == Some((raw@, link@)),
{
    if g.len() == 0 {
        return None;
    }
    let raw = match &g[0] {
        Some(raw) => raw,
        None => return None,
    };
    if g.len() > 1 {
        if let Some(p) = &g[1] {
            return Some((raw.clone(), JavascriptLink::Import(p.clone())));
        }
    }
    if g.len() > 2 {
        if let Some(p) = &g[2] {
            return Some((raw.clone(), JavascriptLink::DynamicImport(p.clone())));
        }
    }
    None
}

/// The links of the matches `ms`, keyed by the matched text.
pub fn links_from_matches(ms: &Vec<Vec<Option<String>>>) -> (r: RawMap<JavascriptLink>)
    ensures
        r@ == javascript_links(matches_view(ms@)),
{
    let ghost mv = matches_view(ms@);
    let mut r: RawMap<JavascriptLink> = RawMap::new();
    let mut k: usize = 0;
    while k < ms.len()
        invariant
            k <= ms.len(),
            mv == matches_view(ms@),
            r@ == javascript_links(mv.take(k as int)),
        decreases ms.len() - k,
    {
        let l = link_of(&ms[k]);
        proof {
            assert(mv.take(k + 1).drop_last() =~= mv.take(k as int));
            assert(mv.take(k + 1).last() == groups_view(ms@[k as int]@));
        }
        match l {
            Some((raw, link)) => r.insert(raw, link),
            None => {},
        }
        k += 1;
    }
    proof {
        assert(mv.take(ms@.len() as int) =~= mv);
    }
    r
}

/// The imports of a script, keyed by the text that refers to them.
pub fn parse_links(content: &str) -> (r: RawMap<JavascriptLink>)
    ensures
        r@ == javascript_links_in(content@),
{
    match find_matches(JAVASCRIPT_LINK_PATTERN, content) {
        Some(ms) => links_from_matches(&ms),
        None => RawMap::new(),
    }
}

/// Defines how a JavaScript file should be loaded in HTML
#[derive(Debug, Clone, Copy, PartialEq, Eq, Structural)]
pub enum ScriptMode {
    /// `<script src="..." defer></script>` - Classic deferred (default)
    Defer,
    /// `<script src="..." async></script>` - Classic async
    Async,
    /// `<script src="..."></script>` - Classic blocking
    Blocking,
    /// `<script type="module" src="..."></script>` - ES6 module (auto-deferred)
    Module,
    /// `<script type="module" src="..."></script>` in body before content
    ModuleBlocking,
}

impl Default for ScriptMode {
    fn default() -> (m: ScriptMode)
        ensures
            m == ScriptMode::Defer,
    {
        ScriptMode::Defer
    }
}

/// The script tag attributes of each mode.
pub open spec fn script_mode_attributes(m: ScriptMode) -> Seq<(Seq<char>, Seq<char>)> {
    match m {
        ScriptMode::Defer => seq![(seq!['d', 'e', 'f', 'e', 'r'], Seq::empty())],
        ScriptMode::Async => seq![(seq!['a', 's', 'y', 'n', 'c'], Seq::empty())],
        ScriptMode::Blocking => Seq::empty(),
        ScriptMode::Module | ScriptMode::ModuleBlocking => seq![(seq!['t', 'y', 'p', 'e'], seq!['m', 'o', 'd', 'u', 'l', 'e'])],
    }
}

impl ScriptMode {
    /// Returns the HTML attributes for this script mode
    pub fn attributes(&self) -> (r: Vec<(&'static str, &'static str)>)
        ensures
            Seq::new(r@.len(), |i: int| (r@[i].0@, r@[i].1@)) == script_mode_attributes(*self),
    {
        match self {
            ScriptMode::Defer => {
                let r = vec![("defer", "")];
                proof {
                    reveal_strlit("defer");
                    assert("defer"@ =~= seq!['d', 'e', 'f', 'e', 'r']);
                    reveal_strlit("");
                    assert(""@ =~= Seq::<char>::empty());
                    assert(Seq::new(r@.len(), |i: int| (r@[i].0@, r@[i].1@)) =~= script_mode_attributes(*self));
                }
                r
            },
            ScriptMode::Async => {
                let r = vec![("async", "")];
                proof {
                    reveal_strlit("async");
                    assert("async"@ =~= seq!['a', 's', 'y', 'n', 'c']);
                    reveal_strlit("");
                    assert(""@ =~= Seq::<char>::empty());
                    assert(Seq::new(r@.len(), |i: int| (r@[i].0@, r@[i].1@)) =~= script_mode_attributes(*self));
                }
                r
            },
            ScriptMode::Blocking => {
                let r: Vec<(&'static str, &'static str)> = vec![];
                proof {
                    assert(Seq::new(r@.len(), |i: int| (r@[i].0@, r@[i].1@)) =~= script_mode_attributes(*self));
                }
                r
            },
            ScriptMode::Module | ScriptMode::ModuleBlocking => {
                let r = vec![("type", "module")];
                proof {
                    reveal_strlit("type");
                    assert("type"@ =~= seq!['t', 'y', 'p', 'e']);
                    reveal_strlit("module");
                    assert("module"@ =~= seq!['m', 'o', 'd', 'u', 'l', 'e']);
                    assert(Seq::new(r@.len(), |i: int| (r@[i].0@, r@[i].1@)) =~= script_mode_attributes(*self));
                }
                r
            },
        }
    }

    /// Returns true if this script should be placed in body (before content)
    pub fn in_body(&self) -> (r: bool)
        ensures
            r == (*self == ScriptMode::ModuleBlocking),
    {
        matches!(self, ScriptMode::ModuleBlocking)
    }
}

} // verus!
