//! The hierarchy of the nodes of a site and how they are related.
use vstd::prelude::*;

use crate::path_extension::{canonical_path, file_name_of, join_path, join_slash, path_file_name, path_joined, PathExtension};
use crate::sitetree::relational_graph::{starting_at, with_link, Link, Relation, RelationalGraph, SpecLink, SpecRelation};
use crate::sitetree::site_id::SiteId;
use crate::text::{ends_with, has_suffix, push_char, push_str, str_chars, str_eq};

verus! {

/// What a node of the site is.
#[derive(Debug, Clone, Copy, PartialEq, Eq, Structural)]
pub enum SiteNodeKind {
    Stylesheet,
    Javascript,
    Page,
    Resource,
    Folder,
}

impl SiteNodeKind {
    pub fn input_is_page(input: &str) -> (r: bool)
        ensures
            r == has_suffix(input@, ".md"@),
    {
        ends_with(input, ".md")
    }

    pub fn input_is_stylesheet(input: &str) -> (r: bool)
        ensures
            r == has_suffix(input@, ".css"@),
    {
        ends_with(input, ".css")
    }

    pub fn input_is_javascript(input: &str) -> (r: bool)
        ensures
            r == has_suffix(input@, ".js"@),
    {
        ends_with(input, ".js")
    }

    pub fn is_page(&self) -> (r: bool)
        ensures
            r == (*self == SiteNodeKind::Page),
    {
        matches!(self, SiteNodeKind::Page)
    }

    /// The name of the kind.
    pub fn to_string(&self) -> (s: String)
        ensures
            s@ == match *self {
                SiteNodeKind::Stylesheet => "Stylesheet"@,
                SiteNodeKind::Javascript => "Javascript"@,
                SiteNodeKind::Page => "Page"@,
                SiteNodeKind::Resource => "Resource"@,
                SiteNodeKind::Folder => "Folder"@,
            },
    {
        match self {
            SiteNodeKind::Stylesheet => "Stylesheet".to_owned(),
            SiteNodeKind::Javascript => "Javascript".to_owned(),
            SiteNodeKind::Page => "Page".to_owned(),
            SiteNodeKind::Resource => "Resource".to_owned(),
            SiteNodeKind::Folder => "Folder".to_owned(),
        }
    }
}

/// Whether a character is alphanumeric, as `char::is_alphanumeric` says.
pub uninterp spec fn alphanumeric(c: char) -> bool;

/// `char::is_alphanumeric`; its result is named `alphanumeric`.
#[verifier::external_body]
fn is_alphanumeric(c: char) -> (r: bool)
    ensures
        r == alphanumeric(c),
{
    c.is_alphanumeric()
}

/// Characters a name may keep; anything else becomes `_`.
pub open spec fn safe_char(c: char) -> char {
    if alphanumeric(c) || c == '-' || c == '_' || c == '.' || c == ' ' {
        c
    } else {
        '_'
    }
}

/// `s` without leading dots and spaces.
pub open spec fn trim_start_dots(s: Seq<char>) -> Seq<char>
    decreases s.len(),
{
    if s.len() > 0 && (s[0] == '.' || s[0] == ' ') {
        trim_start_dots(s.skip(1))
    } else {
        s
    }
}

/// `s` without trailing dots and spaces.
pub open spec fn trim_end_dots(s: Seq<char>) -> Seq<char>
    decreases s.len(),
{
    if s.len() > 0 && (s.last() == '.' || s.last() == ' ') {
        trim_end_dots(s.drop_last())
    } else {
        s
    }
}

/// A file system safe name: the last part of `name` taken as a path, with
/// unsafe characters replaced, without leading or trailing dots and spaces,
/// and `unnamed` when nothing is left.
pub open spec fn sanitized_name(name: Seq<char>) -> Seq<char> {
    let base = match path_file_name(name) {
        Some(f) => f,
        None => name,
    };
    let t = trim_end_dots(trim_start_dots(Seq::new(base.len(), |i: int| safe_char(base[i]))));
    if t.len() == 0 {
        "unnamed"@
    } else {
        t
    }
}

/// A node of the site.
#[derive(Debug)]
pub struct SiteNode {
    /// Unique name within children of node
    name: String,
    pub parent: Option<SiteId>,
    pub children: Vec<SiteId>,
    pub kind: SiteNodeKind,
}

impl SiteNode {
    pub closed spec fn spec_name(&self) -> Seq<char> {
        self.name@
    }

    pub closed spec fn spec_parent(&self) -> Option<SiteId> {
        self.parent
    }

    pub closed spec fn spec_children(&self) -> Seq<SiteId> {
        self.children@
    }

    pub closed spec fn spec_kind(&self) -> SiteNodeKind {
        self.kind
    }

    /// Sanitize name to only include filesystem-safe characters
    fn sanitize_name(name: &str) -> (r: String)
        ensures
            r@ == sanitized_name(name@),
    {
        let base = match file_name_of(name) {
            Some(f) => f,
            None => name.to_owned(),
        };
        let cs = str_chars(base.as_str());
        let mut safe: Vec<char> = Vec::new();
        let mut i: usize = 0;
        while i < cs.len()
            invariant
                i <= cs.len(),
                safe@ == Seq::new(i as nat, |k: int| safe_char(cs@[k])),
            decreases cs.len() - i,
        {
            let c = cs[i];
            let keep = is_alphanumeric(c) || c == '-' || c == '_' || c == '.' || c == ' ';
            safe.push(if keep { c } else { '_' });
            proof {
                assert(safe@ =~= Seq::new((i + 1) as nat, |k: int| safe_char(cs@[k])));
            }
            i += 1;
        }
        let ghost sv = safe@;
        let mut lo: usize = 0;
        proof {
            assert(sv.skip(0) =~= sv);
        }
        while lo < safe.len() && (safe[lo] == '.' || safe[lo] == ' ')
            invariant
                lo <= safe.len(),
                sv == safe@,
                trim_start_dots(sv) == trim_start_dots(sv.skip(lo as int)),
            decreases safe.len() - lo,
        {
            proof {
                assert(sv.skip(lo as int).skip(1) =~= sv.skip(lo + 1));
            }
            lo += 1;
        }
        let ghost st = sv.skip(lo as int);
        proof {
            assert(trim_start_dots(sv) == st);
            assert(st.take(st.len() as int) =~= st);
        }
        let mut hi: usize = safe.len();
        while hi > lo && (safe[hi - 1] == '.' || safe[hi - 1] == ' ')
            invariant
                lo <= hi <= safe.len(),
                sv == safe@,
                st == sv.skip(lo as int),
                trim_end_dots(st) == trim_end_dots(st.take(hi - lo)),
            decreases hi,
        {
            proof {
                assert(st.take(hi - lo).drop_last() =~= st.take(hi - 1 - lo));
            }
            hi -= 1;
        }
        proof {
            assert(trim_end_dots(st.take(hi - lo)) == st.take(hi - lo));
            assert(st.take(hi - lo) =~= sv.subrange(lo as int, hi as int));
            assert(cs@ == base@);
            assert(sv =~= Seq::new(base@.len(), |k: int| safe_char(base@[k])));
        }
        if hi == lo {
            proof {
                reveal_strlit("unnamed");
            }
            "unnamed".to_owned()
        } else {
            crate::text::string_from_range(&safe, lo, hi)
        }
    }

    pub fn name(&self) -> (r: &String)
        ensures
            r@ == self.spec_name(),
    {
        &self.name
    }

    /// What the node is.
    pub fn kind(&self) -> (k: SiteNodeKind)
        ensures
            k == self.spec_kind(),
    {
        self.kind
    }

    pub fn set_name(&mut self, name: &str)
        ensures
            final(self).spec_name() == sanitized_name(name@),
            final(self).spec_parent() == old(self).spec_parent(),
            final(self).spec_children() == old(self).spec_children(),
            final(self).spec_kind() == old(self).spec_kind(),
    {
        self.name = Self::sanitize_name(name)
    }

    fn with_kind(name: &str, parent: Option<SiteId>, kind: SiteNodeKind) -> (n: SiteNode)
        ensures
            n.spec_name() == sanitized_name(name@),
            n.spec_parent() == parent,
            n.spec_children().len() == 0,
            n.spec_kind() == kind,
    {
        SiteNode { name: Self::sanitize_name(name), parent, children: vec![], kind }
    }

    pub fn stylesheet(name: &str, parent: SiteId) -> (n: SiteNode)
        ensures
            n.spec_name() == sanitized_name(name@),
            n.spec_parent() == Some(parent),
            n.spec_children().len() == 0,
            n.spec_kind() == SiteNodeKind::Stylesheet,
    {
        Self::with_kind(name, Some(parent), SiteNodeKind::Stylesheet)
    }

    pub fn javascript(name: &str, parent: SiteId) -> (n: SiteNode)
        ensures
            n.spec_name() == sanitized_name(name@),
            n.spec_parent() == Some(parent),
            n.spec_children().len() == 0,
            n.spec_kind() == SiteNodeKind::Javascript,
    {
        Self::with_kind(name, Some(parent), SiteNodeKind::Javascript)
    }

    pub fn resource(name: &str, parent: SiteId) -> (n: SiteNode)
        ensures
            n.spec_name() == sanitized_name(name@),
            n.spec_parent() == Some(parent),
            n.spec_children().len() == 0,
            n.spec_kind() == SiteNodeKind::Resource,
    {
        Self::with_kind(name, Some(parent), SiteNodeKind::Resource)
    }

    pub fn folder(name: &str, parent: SiteId) -> (n: SiteNode)
        ensures
            n.spec_name() == sanitized_name(name@),
            n.spec_parent() == Some(parent),
            n.spec_children().len() == 0,
            n.spec_kind() == SiteNodeKind::Folder,
    {
        Self::with_kind(name, Some(parent), SiteNodeKind::Folder)
    }

    pub fn page(name: &str, parent: SiteId) -> (n: SiteNode)
        ensures
            n.spec_name() == sanitized_name(name@),
            n.spec_parent() == Some(parent),
            n.spec_children().len() == 0,
            n.spec_kind() == SiteNodeKind::Page,
    {
        Self::with_kind(name, Some(parent), SiteNodeKind::Page)
    }

    /// The root page: a page without a parent.
    pub fn root(name: &str) -> (n: SiteNode)
        ensures
            n.spec_name() == sanitized_name(name@),
            n.spec_parent() is None,
            n.spec_children().len() == 0,
            n.spec_kind() == SiteNodeKind::Page,
    {
        Self::with_kind(name, None, SiteNodeKind::Page)
    }
}

/// The first of `ids` whose node is named `name`.
pub open spec fn first_named(t: SiteTree, ids: Seq<usize>, name: Seq<char>) -> Option<usize>
    decreases ids.len(),
{
    if ids.len() == 0 {
        None
    } else if t.name_of(ids[0] as int) == name {
        Some(ids[0])
    } else {
        first_named(t, ids.drop_first(), name)
    }
}

/// The ancestors of `id`, its parent first.
pub open spec fn ancestors(t: SiteTree, id: int) -> Seq<usize>
    decreases id,
{
    match t.parent_of(id) {
        Some(p) => if 0 <= p < id {
            seq![p] + ancestors(t, p as int)
        } else {
            Seq::empty()
        },
        None => Seq::empty(),
    }
}

/// The first page among `ids`.
pub open spec fn first_page(t: SiteTree, ids: Seq<usize>) -> Option<usize>
    decreases ids.len(),
{
    if ids.len() == 0 {
        None
    } else if t.kind_of(ids[0] as int) == SiteNodeKind::Page {
        Some(ids[0])
    } else {
        first_page(t, ids.drop_first())
    }
}

/// The names of the nodes `ids`.
pub open spec fn names_of(t: SiteTree, ids: Seq<usize>) -> Seq<Seq<char>> {
    Seq::new(ids.len(), |i: int| t.name_of(ids[i] as int))
}

/// The absolute path of a node: the names from below the top node down to
/// the node, joined by slashes, after a slash.
pub open spec fn absolute_path(t: SiteTree, id: int) -> Seq<char> {
    let chain = seq![id as usize] + ancestors(t, id);
    seq!['/'] + join_slash(names_of(t, chain.reverse().drop_first()))
}

/// Index of `x` in `s`, if there.
pub open spec fn position(s: Seq<usize>, x: usize) -> Option<int> {
    if s.contains(x) {
        Some(s.index_of(x))
    } else {
        None
    }
}

/// Index of the first `x` in `s`.
pub open spec fn first_index(s: Seq<usize>, x: usize) -> int
    decreases s.len(),
{
    if s.len() == 0 || s[0] == x {
        0
    } else {
        1 + first_index(s.drop_first(), x)
    }
}

/// The first node of `chain` that is among `targets`, as (index in `chain`,
/// index in `targets`).
pub open spec fn first_shared(chain: Seq<usize>, targets: Seq<usize>) -> Option<(int, int)>
    decreases chain.len(),
{
    if chain.len() == 0 {
        None
    } else if targets.contains(chain[0]) {
        Some((0, first_index(targets, chain[0])))
    } else {
        match first_shared(chain.drop_first(), targets) {
            Some((i, d)) => Some((i + 1, d)),
            None => None,
        }
    }
}

/// `n` steps up: `../` `n` times.
pub open spec fn ups(n: nat) -> Seq<char>
    decreases n,
{
    if n == 0 {
        Seq::empty()
    } else {
        ups((n - 1) as nat) + seq!['.', '.', '/']
    }
}

/// The ids whose names lead down to `to`, from the first ancestor of `to`
/// that the way up meets (`to_depth` steps above `to`).
pub open spec fn down_ids(to: usize, up: Seq<usize>, to_depth: int) -> Seq<usize> {
    (seq![to] + up.take(up.len() - 1)).take(to_depth + 1).reverse()
}

/// The relative path from node `from` to node `to`: up from `from` to the
/// first ancestor of `to` on the way, then down to `to`.
pub open spec fn relative_path(t: SiteTree, from: int, to: int) -> Seq<char> {
    let up = ancestors(t, to);
    let chain = seq![from as usize] + ancestors(t, from);
    let (depth, to_depth) = match first_shared(chain, up) {
        Some((i, d)) => (i, d),
        None => (chain.len() as int, if up.len() > 0 { up.len() - 1 } else { 0 }),
    };
    let (depth, down) = if up.len() > 0 {
        (depth, join_slash(names_of(t, down_ids(to as usize, up, to_depth))))
    } else {
        (depth - 1, Seq::empty())
    };
    if depth > 0 {
        ups(depth as nat) + down
    } else {
        seq!['.', '/'] + down
    }
}

/// `f` is `o` with nothing changed.
pub open spec fn same_tree(o: SiteTree, f: SiteTree) -> bool {
    &&& f.size() == o.size()
    &&& forall|i: int| 0 <= i < o.size() ==> #[trigger] f.name_of(i) == o.name_of(i)
    &&& forall|i: int| 0 <= i < o.size() ==> #[trigger] f.kind_of(i) == o.kind_of(i)
    &&& forall|i: int| 0 <= i < o.size() ==> #[trigger] f.parent_of(i) == o.parent_of(i)
    &&& forall|i: int| 0 <= i < o.size() ==> #[trigger] f.children_of(i) == o.children_of(i)
}

/// `f` is `o` with node `id` added at the end, as a child of `parent` when it has one.
pub open spec fn appended(o: SiteTree, f: SiteTree, name: Seq<char>, parent: Option<usize>, kind: SiteNodeKind, id: usize) -> bool {
    &&& id == o.size()
    &&& f.size() == o.size() + 1
    &&& f.name_of(id as int) == name
    &&& f.kind_of(id as int) == kind
    &&& f.parent_of(id as int) == parent
    &&& f.children_of(id as int).len() == 0
    &&& forall|i: int| 0 <= i < o.size() ==> #[trigger] f.name_of(i) == o.name_of(i)
    &&& forall|i: int| 0 <= i < o.size() ==> #[trigger] f.kind_of(i) == o.kind_of(i)
    &&& forall|i: int| 0 <= i < o.size() ==> #[trigger] f.parent_of(i) == o.parent_of(i)
    &&& forall|i: int| 0 <= i < o.size() ==> #[trigger] f.children_of(i) == (if parent == Some(i as usize) {
        o.children_of(i).push(id)
    } else {
        o.children_of(i)
    })
}

/// Code representation of all nodes within the site (hierarchy and how nodes are related)
#[derive(Debug)]
pub struct SiteTree {
    nodes: Vec<SiteNode>,
    root: SiteId,
    rel_graph: RelationalGraph,
}

impl SiteTree {
    pub closed spec fn size(&self) -> nat {
        self.nodes@.len()
    }

    pub closed spec fn name_of(&self, i: int) -> Seq<char> {
        self.nodes@[i].name@
    }

    pub closed spec fn kind_of(&self, i: int) -> SiteNodeKind {
        self.nodes@[i].kind
    }

    pub closed spec fn parent_of(&self, i: int) -> Option<usize> {
        match self.nodes@[i].parent {
            Some(p) => Some(p.0),
            None => None,
        }
    }

    pub closed spec fn children_of(&self, i: int) -> Seq<usize> {
        Seq::new(self.nodes@[i].children@.len(), |k: int| self.nodes@[i].children@[k].0)
    }

    /// The links between nodes, by node.
    pub closed spec fn links(&self) -> Seq<Seq<SpecLink>> {
        self.rel_graph@
    }

    #[verifier::type_invariant]
    spec fn tree_ok(self) -> bool {
        &&& self.root.0 == 0
        &&& forall|i: int| #![trigger self.nodes@[i]] 0 <= i < self.size() ==> (self.parent_of(i) matches Some(p) ==> p < i
            && self.children_of(p as int).contains(i as usize))
        &&& forall|i: int, k: int| #![trigger self.nodes@[i].children@[k]] 0 <= i < self.size() && 0 <= k < self.children_of(i).len() ==> {
            let c = self.children_of(i)[k];
            &&& i < c < self.size()
            &&& self.parent_of(c as int) == Some(i as usize)
        }
        &&& forall|i: int| #![trigger self.nodes@[i]] 0 <= i < self.size() ==> self.children_of(i).no_duplicates()
    }

    /// An empty tree: the first node added becomes its root.
    pub fn new() -> (t: SiteTree)
        ensures
            t.size() == 0,
            t.links() == seq![Seq::<SpecLink>::empty()],
    {
        SiteTree { nodes: Vec::new(), root: SiteId(0), rel_graph: RelationalGraph::new() }
    }

    pub fn len(&self) -> (n: usize)
        ensures
            n == self.size(),
    {
        self.nodes.len()
    }

    pub fn is_empty(&self) -> (r: bool)
        ensures
            r == (self.size() == 0),
    {
        self.nodes.len() == 0
    }

    pub fn root(&self) -> (r: SiteId)
        ensures
            r == SiteId(0),
    {
        proof {
            use_type_invariant(self);
        }
        self.root
    }

    pub fn get(&self, id: SiteId) -> (r: Option<&SiteNode>)
        ensures
            r is Some <==> id.0 < self.size(),
            r matches Some(n) ==> n.spec_name() == self.name_of(id.0 as int) && n.spec_kind() == self.kind_of(id.0 as int),
    {
        if id.0 < self.nodes.len() {
            Some(&self.nodes[id.0])
        } else {
            None
        }
    }

    pub fn ids(&self) -> (r: Vec<SiteId>)
        ensures
            r@.len() == self.size(),
            forall|i: int| 0 <= i < r@.len() ==> #[trigger] r@[i] == SiteId(i as usize),
    {
        let mut r: Vec<SiteId> = Vec::new();
        let mut i: usize = 0;
        while i < self.nodes.len()
            invariant
                i <= self.nodes.len(),
                r@.len() == i,
                forall|j: int| 0 <= j < i ==> #[trigger] r@[j] == SiteId(j as usize),
            decreases self.nodes.len() - i,
        {
            r.push(SiteId(i));
            i += 1;
        }
        r
    }

    /// get a node by name by checking the children of `id`
    pub fn get_by_name(&self, name: &str, id: SiteId) -> (r: Option<SiteId>)
        requires
            id.0 < self.size(),
        ensures
            r matches Some(c) ==> first_named(*self, self.children_of(id.0 as int), name@) == Some(c.0),
            r is None ==> first_named(*self, self.children_of(id.0 as int), name@) is None,
    {
        proof {
            use_type_invariant(self);
        }
        let children = &self.nodes[id.0].children;
        let ghost cs = self.children_of(id.0 as int);
        let mut k: usize = 0;
        proof {
            assert(cs.skip(0) =~= cs);
            assert forall|j: int| 0 <= j < cs.len() implies #[trigger] cs[j] < self.size() by {
                assert(0 <= id.0 < self.size() && 0 <= j < self.children_of(id.0 as int).len());
            }
        }
        while k < children.len()
            invariant
                k <= children.len(),
                cs == self.children_of(id.0 as int),
                cs.len() == children@.len(),
                forall|j: int| 0 <= j < cs.len() ==> #[trigger] cs[j] == children@[j].0,
                forall|j: int| 0 <= j < cs.len() ==> #[trigger] cs[j] < self.size(),
                first_named(*self, cs, name@) == first_named(*self, cs.skip(k as int), name@),
            decreases children.len() - k,
        {
            let c = children[k];
            proof {
                assert(cs.skip(k as int).drop_first() =~= cs.skip(k + 1));
                assert(cs.skip(k as int)[0] == cs[k as int]);
            }
            if str_eq(self.nodes[c.0].name.as_str(), name) {
                return Some(c);
            }
            k += 1;
        }
        proof {
            assert(cs.skip(k as int) =~= Seq::<usize>::empty());
        }
        None
    }

    /// The ancestors of `id`, its parent first.
    fn ancestor_ids(&self, id: SiteId) -> (r: Vec<usize>)
        requires
            id.0 < self.size(),
        ensures
            r@ == ancestors(*self, id.0 as int),
            forall|k: int| 0 <= k < r@.len() ==> #[trigger] r@[k] < self.size(),
    {
        proof {
            use_type_invariant(self);
        }
        let mut r: Vec<usize> = Vec::new();
        let mut cur = id.0;
        let mut parent = self.nodes[cur].parent;
        while parent.is_some()
            invariant
                cur < self.size(),
                parent == self.nodes@[cur as int].parent,
                r@ + ancestors(*self, cur as int) == ancestors(*self, id.0 as int),
                forall|k: int| 0 <= k < r@.len() ==> #[trigger] r@[k] < self.size(),
            decreases cur,
        {
            let p = parent.unwrap();
            proof {
                use_type_invariant(self);
                assert(self.parent_of(cur as int) == Some(p.0));
                assert(p.0 < cur);
                assert(ancestors(*self, cur as int) == seq![p.0] + ancestors(*self, p.0 as int));
                assert(r@.push(p.0) + ancestors(*self, p.0 as int) =~= r@ + (seq![p.0] + ancestors(*self, p.0 as int)));
            }
            r.push(p.0);
            cur = p.0;
            parent = self.nodes[cur].parent;
        }
        proof {
            assert(self.parent_of(cur as int) is None);
            assert(r@ + Seq::<usize>::empty() =~= r@);
        }
        r
    }

    /// Get all parents from a node going up from `id` to root
    pub fn parents(&self, id: SiteId) -> (r: Vec<SiteId>)
        requires
            id.0 < self.size(),
        ensures
            Seq::new(r@.len(), |k: int| r@[k].0) == ancestors(*self, id.0 as int),
    {
        let a = self.ancestor_ids(id);
        let mut r: Vec<SiteId> = Vec::new();
        let mut k: usize = 0;
        while k < a.len()
            invariant
                k <= a.len(),
                r@.len() == k,
                forall|j: int| 0 <= j < k ==> #[trigger] r@[j].0 == a@[j],
            decreases a.len() - k,
        {
            r.push(SiteId(a[k]));
            k += 1;
        }
        proof {
            assert(Seq::new(r@.len(), |j: int| r@[j].0) =~= a@);
        }
        r
    }

    /// Check if node `id` has `parent_id` as (grand)parent node
    pub fn is_parent(&self, id: SiteId, parent_id: SiteId) -> (r: bool)
        requires
            id.0 < self.size(),
        ensures
            r == ancestors(*self, id.0 as int).contains(parent_id.0),
    {
        let a = self.ancestor_ids(id);
        let mut k: usize = 0;
        while k < a.len()
            invariant
                k <= a.len(),
                a@ == ancestors(*self, id.0 as int),
                forall|j: int| 0 <= j < k ==> a@[j] != parent_id.0,
            decreases a.len() - k,
        {
            if a[k] == parent_id.0 {
                return true;
            }
            k += 1;
        }
        false
    }

    /// get next parent of page
    pub fn page_parent(&self, id: SiteId) -> (r: Option<SiteId>)
        requires
            id.0 < self.size(),
        ensures
            r matches Some(p) ==> first_page(*self, ancestors(*self, id.0 as int)) == Some(p.0),
            r is None ==> first_page(*self, ancestors(*self, id.0 as int)) is None,
    {
        let a = self.ancestor_ids(id);
        let mut k: usize = 0;
        proof {
            assert(a@.skip(0) =~= a@);
        }
        while k < a.len()
            invariant
                k <= a.len(),
                a@ == ancestors(*self, id.0 as int),
                forall|j: int| 0 <= j < a@.len() ==> #[trigger] a@[j] < self.size(),
                first_page(*self, a@) == first_page(*self, a@.skip(k as int)),
            decreases a.len() - k,
        {
            proof {
                assert(a@.skip(k as int).drop_first() =~= a@.skip(k + 1));
                assert(a@.skip(k as int)[0] == a@[k as int]);
            }
            if self.nodes[a[k]].kind.is_page() {
                return Some(SiteId(a[k]));
            }
            k += 1;
        }
        proof {
            assert(a@.skip(k as int) =~= Seq::<usize>::empty());
        }
        None
    }
}

/// Every ancestor of a node comes before it.
pub(crate) proof fn lemma_ancestors_below(t: SiteTree, id: int)
    requires
        0 <= id,
    ensures
        forall|k: int| 0 <= k < ancestors(t, id).len() ==> #[trigger] ancestors(t, id)[k] < id,
    decreases id,
{
    if let Some(p) = t.parent_of(id) {
        if 0 <= p < id {
            lemma_ancestors_below(t, p as int);
            let a = ancestors(t, id);
            assert forall|k: int| 0 <= k < a.len() implies #[trigger] a[k] < id by {
                if k > 0 {
                    assert(a[k] == ancestors(t, p as int)[k - 1]);
                }
            }
        }
    }
}

proof fn lemma_ancestors_len(t: SiteTree, id: int)
    requires
        0 <= id,
    ensures
        ancestors(t, id).len() <= id,
    decreases id,
{
    if let Some(p) = t.parent_of(id) {
        if 0 <= p < id {
            lemma_ancestors_len(t, p as int);
        }
    }
}

proof fn lemma_first_shared(chain: Seq<usize>, targets: Seq<usize>, s: int)
    requires
        0 <= s <= chain.len(),
        forall|j: int| 0 <= j < s ==> !targets.contains(#[trigger] chain[j]),
    ensures
        s < chain.len() && targets.contains(chain[s]) ==> first_shared(chain, targets) == Some((s, first_index(targets, chain[s]))),
        s == chain.len() ==> first_shared(chain, targets) is None,
    decreases s,
{
    if s > 0 {
        let rest = chain.drop_first();
        assert forall|j: int| 0 <= j < s - 1 implies !targets.contains(#[trigger] rest[j]) by {
            assert(rest[j] == chain[j + 1]);
        }
        lemma_first_shared(rest, targets, s - 1);
        assert(!targets.contains(chain[0]));
        if s < chain.len() {
            assert(rest[s - 1] == chain[s]);
        }
    } else if chain.len() > 0 && targets.contains(chain[0]) {
    }
}

proof fn lemma_join_push(parts: Seq<Seq<char>>, x: Seq<char>)
    ensures
        join_slash(parts.push(x)) == if parts.len() == 0 { x } else { join_slash(parts) + seq!['/'] + x },
{
    assert(parts.push(x).drop_last() =~= parts);
}

impl SiteTree {
    /// Joins the names of `ids` with slashes onto `out`.
    fn push_names(&self, out: &mut String, ids: &Vec<usize>)
        requires
            forall|k: int| 0 <= k < ids@.len() ==> #[trigger] ids@[k] < self.size(),
        ensures
            final(out)@ == old(out)@ + join_slash(names_of(*self, ids@)),
    {
        let ghost start = out@;
        let mut k: usize = 0;
        proof {
            assert(names_of(*self, ids@.take(0)) =~= Seq::<Seq<char>>::empty());
        }
        while k < ids.len()
            invariant
                k <= ids.len(),
                forall|j: int| 0 <= j < ids@.len() ==> #[trigger] ids@[j] < self.size(),
                out@ == start + join_slash(names_of(*self, ids@.take(k as int))),
            decreases ids.len() - k,
        {
            let ghost before = names_of(*self, ids@.take(k as int));
            if k > 0 {
                push_str(out, "/");
            }
            push_str(out, self.nodes[ids[k]].name.as_str());
            proof {
                reveal_strlit("/");
                assert(names_of(*self, ids@.take(k + 1)) =~= before.push(self.name_of(ids@[k as int] as int)));
                lemma_join_push(before, self.name_of(ids@[k as int] as int));
                assert(out@ =~= start + join_slash(names_of(*self, ids@.take(k + 1))));
            }
            k += 1;
        }
        proof {
            assert(ids@.take(ids@.len() as int) =~= ids@);
        }
    }

    /// Get the absolute path of a node
    pub fn path(&self, id: SiteId) -> (r: String)
        requires
            id.0 < self.size(),
        ensures
            r@ == absolute_path(*self, id.0 as int),
    {
        let a = self.ancestor_ids(id);
        let n = a.len();
        let ghost chain = seq![id.0] + a@;
        let ghost rd = chain.reverse().drop_first();
        let mut ids: Vec<usize> = Vec::new();
        if n > 0 {
            let mut j = n - 1;
            while j > 0
                invariant
                    0 <= j < n,
                    n == a@.len(),
                    ids@.len() == n - 1 - j,
                    forall|m: int| 0 <= m < ids@.len() ==> #[trigger] ids@[m] == a@[n - 2 - m],
                decreases j,
            {
                ids.push(a[j - 1]);
                j -= 1;
            }
            ids.push(id.0);
        }
        proof {
            assert(ids@ =~= rd) by {
                assert(rd.len() == n);
                assert forall|m: int| 0 <= m < n implies ids@[m] == #[trigger] rd[m] by {
                    assert(rd[m] == chain[n - 1 - m]);
                }
            }
            assert forall|k: int| 0 <= k < ids@.len() implies #[trigger] ids@[k] < self.size() by {
                assert(rd[k] == chain[n - 1 - k]);
            }
        }
        let mut out = String::new();
        push_char(&mut out, '/');
        self.push_names(&mut out, &ids);
        out
    }

    /// Position of the first `x` in `v`.
    fn index_in(v: &Vec<usize>, x: usize) -> (r: Option<usize>)
        ensures
            r matches Some(k) ==> v@.contains(x) && k == first_index(v@, x) && k < v@.len() && v@[k as int] == x,
            r is None ==> !v@.contains(x),
    {
        let mut k: usize = 0;
        proof {
            assert(v@.skip(0) =~= v@);
        }
        while k < v.len()
            invariant
                k <= v.len(),
                forall|j: int| 0 <= j < k ==> v@[j] != x,
                first_index(v@, x) == k + first_index(v@.skip(k as int), x),
            decreases v.len() - k,
        {
            proof {
                assert(v@.skip(k as int)[0] == v@[k as int]);
                assert(v@.skip(k as int).drop_first() =~= v@.skip(k + 1));
            }
            if v[k] == x {
                proof {
                    assert(v@[k as int] == x);
                }
                return Some(k);
            }
            k += 1;
        }
        None
    }

    /// Get the relative path between two nodes
    pub fn rel_path(&self, from: SiteId, to: SiteId) -> (r: String)
        requires
            from.0 < self.size(),
            to.0 < self.size(),
        ensures
            r@ == relative_path(*self, from.0 as int, to.0 as int),
    {
        let up = self.ancestor_ids(to);
        let fa = self.ancestor_ids(from);
        let ghost chain = seq![from.0] + fa@;
        // find the first node on the way up from `from` that `to` is below
        let _n = self.nodes.len();
        proof {
            lemma_ancestors_len(*self, from.0 as int);
        }
        let mut shared: Option<(usize, usize)> = None;
        let mut s: usize = 0;
        match Self::index_in(&up, from.0) {
            Some(d) => {
                shared = Some((0, d));
            },
            None => {
                s = 1;
                while s <= fa.len() && shared.is_none()
                    invariant
                        1 <= s <= fa@.len() + 1,
                        fa@.len() < usize::MAX,
                        chain == seq![from.0] + fa@,
                        forall|j: int| 0 <= j < s ==> !up@.contains(#[trigger] chain[j]),
                        shared matches Some((i, d)) ==> i == s && s < chain.len() && up@.contains(chain[s as int])
                            && d == first_index(up@, chain[s as int]) && d < up@.len(),
                    decreases fa.len() + 1 - s, if shared is None { 1int } else { 0int },
                {
                    let c = fa[s - 1];
                    proof {
                        assert(c == chain[s as int]);
                    }
                    match Self::index_in(&up, c) {
                        Some(d) => {
                            shared = Some((s, d));
                        },
                        None => {
                            s += 1;
                        },
                    }
                }
            },
        }
        proof {
            assert(shared matches Some((i, d)) ==> d < up@.len());
            if shared is None {
                assert(s == chain.len());
            } else {
                assert(s < chain.len());
                assert(up@.contains(chain[s as int]));
            }
            lemma_first_shared(chain, up@, s as int);
        }
        let to_path_len = up.len();
        let (depth, to_depth) = match shared {
            Some((i, d)) => (i, d),
            None => (fa.len() + 1, if up.len() > 0 { up.len() - 1 } else { 0 }),
        };
        proof {
            match shared {
                Some((i, d)) => {
                    assert(i == s);
                    assert(first_shared(chain, up@) == Some((i as int, d as int)));
                },
                None => {},
            }
        }
        let mut out = String::new();
        if up.len() > 0 {
            let mut k: usize = 0;
            while k < depth
                invariant
                    k <= depth,
                    out@ == ups(k as nat),
                decreases depth - k,
            {
                push_str(&mut out, "../");
                proof {
                    reveal_strlit("../");
                }
                k += 1;
            }
            if depth == 0 {
                push_str(&mut out, "./");
                proof {
                    reveal_strlit("./");
                }
            }
            // the names from the shared node down to `to`
            let _ul = up.len();
            let mut ids: Vec<usize> = Vec::new();
            let ghost base = seq![to.0] + up@.take(up@.len() - 1);
            let ghost b = base.take(to_depth + 1).reverse();
            proof {
                if shared is Some {
                    assert(to_depth < up@.len());
                }
            }
            let mut m: usize = 0;
            while m <= to_depth
                invariant
                    to_depth < up@.len(),
                    up@.len() <= usize::MAX,
                    m <= to_depth + 1,
                    base == seq![to.0] + up@.take(up@.len() - 1),
                    b == base.take(to_depth + 1).reverse(),
                    ids@ == b.take(m as int),
                decreases to_depth + 1 - m,
            {
                let j = to_depth - m;
                let x = if j == 0 { to.0 } else { up[j - 1] };
                proof {
                    assert(x == base[j as int]);
                    assert(b[m as int] == base[j as int]);
                    assert(b.take(m + 1) =~= b.take(m as int).push(x));
                }
                ids.push(x);
                m += 1;
            }
            proof {
                assert(b.take(to_depth + 1) =~= b);
            }
            proof {
                assert(ids@ =~= down_ids(to.0, up@, to_depth as int));
                assert forall|m: int| 0 <= m < ids@.len() implies #[trigger] ids@[m] < self.size() by {
                    assert(ids@[m] == b[m]);
                    assert(b[m] == base[to_depth - m]);
                }
            }
            self.push_names(&mut out, &ids);
        } else {
            let d = depth - 1;
            let mut k: usize = 0;
            while k < d
                invariant
                    k <= d,
                    out@ == ups(k as nat),
                decreases d - k,
            {
                push_str(&mut out, "../");
                proof {
                    reveal_strlit("../");
                }
                k += 1;
            }
            if d == 0 {
                push_str(&mut out, "./");
                proof {
                    reveal_strlit("./");
                }
            }
            proof {
                assert(out@ + Seq::<char>::empty() =~= out@);
            }
        }
        out
    }

    /// Utility function to add a node, create a id and add to parent children.
    /// A node whose parent already has a child of that name is not added; the
    /// id of that child is returned.
    pub fn add(&mut self, node: SiteNode) -> (r: SiteId)
        requires
            node.spec_parent() matches Some(p) ==> p.0 < old(self).size(),
            node.spec_children().len() == 0,
        ensures
            final(self).links() == old(self).links(),
            ({
                let parent = match node.spec_parent() {
                    Some(p) => Some(p.0),
                    None => None,
                };
                let existing = match parent {
                    Some(p) => first_named(*old(self), old(self).children_of(p as int), node.spec_name()),
                    None => None,
                };
                match existing {
                    Some(c) => r.0 == c && same_tree(*old(self), *final(self)),
                    None => appended(*old(self), *final(self), node.spec_name(), parent, node.spec_kind(), r.0),
                }
            }),
    {
        proof {
            use_type_invariant(&*self);
        }
        if let Some(parent) = node.parent {
            if let Some(id) = self.get_by_name(node.name.as_str(), parent) {
                return id;
            }
        }
        let ghost o = *self;
        let id = SiteId(self.nodes.len());
        let mut nodes: Vec<SiteNode> = Vec::new();
        std::mem::swap(&mut nodes, &mut self.nodes);
        let ghost old_nodes = nodes@;
        if let Some(parent) = node.parent {
            let mut pn = SiteNode { name: String::new(), parent: None, children: Vec::new(), kind: SiteNodeKind::Folder };
            std::mem::swap(&mut pn, &mut nodes[parent.0]);
            pn.children.push(id);
            nodes.set(parent.0, pn);
        }
        let ghost mid = nodes@;
        nodes.push(node);
        proof {
            let f = SiteTree { nodes, root: o.root, rel_graph: o.rel_graph };
            let parent = match node.spec_parent() {
                Some(p) => Some(p.0),
                None => None,
            };
            assert(f.size() == o.size() + 1);
            assert forall|i: int| 0 <= i < o.size() implies #[trigger] f.name_of(i) == o.name_of(i)
                && f.kind_of(i) == o.kind_of(i) && f.parent_of(i) == o.parent_of(i) by {
                assert(nodes@[i] == mid[i]);
            }
            assert forall|i: int| 0 <= i < o.size() implies #[trigger] f.children_of(i) == (if parent == Some(i as usize) {
                o.children_of(i).push(id.0)
            } else {
                o.children_of(i)
            }) by {
                assert(nodes@[i] == mid[i]);
                if parent == Some(i as usize) {
                    assert(f.children_of(i) =~= o.children_of(i).push(id.0));
                } else {
                    assert(mid[i] == old_nodes[i]);
                    assert(f.children_of(i) =~= o.children_of(i));
                }
            }
            assert(f.children_of(id.0 as int) =~= Seq::<usize>::empty());
            // the tree stays well formed
            assert forall|i: int| 0 <= i < f.size() implies (#[trigger] f.parent_of(i) matches Some(p) ==> p < i
                && f.children_of(p as int).contains(i as usize)) by {
                if i < o.size() {
                    if let Some(p) = o.parent_of(i) {
                        assert(o.children_of(p as int).contains(i as usize));
                        let k = choose|k: int| 0 <= k < o.children_of(p as int).len() && o.children_of(p as int)[k] == i as usize;
                        assert(f.children_of(p as int)[k] == i as usize);
                    }
                } else {
                    if let Some(p) = parent {
                        assert(f.children_of(p as int).last() == id.0);
                    }
                }
            }
            assert forall|i: int, k: int| 0 <= i < f.size() && 0 <= k < f.children_of(i).len() implies {
                let c = #[trigger] f.children_of(i)[k];
                &&& i < c < f.size()
                &&& f.parent_of(c as int) == Some(i as usize)
            } by {
                if i < o.size() {
                    if parent == Some(i as usize) && k == o.children_of(i).len() {
                    } else {
                        assert(f.children_of(i)[k] == o.children_of(i)[k]);
                        assert(0 <= i < o.size() && 0 <= k < o.children_of(i).len());
                    }
                }
            }
            assert forall|i: int| 0 <= i < f.size() implies (#[trigger] f.children_of(i)).no_duplicates() by {
                if i < o.size() && parent == Some(i as usize) {
                    assert(o.children_of(i).no_duplicates());
                    assert forall|a: int, b: int| 0 <= a < b < f.children_of(i).len() implies f.children_of(i)[a] != f.children_of(i)[b] by {
                        if b == o.children_of(i).len() {
                            assert(0 <= i < o.size() && 0 <= a < o.children_of(i).len());
                        }
                    }
                } else if i < o.size() {
                    assert(o.children_of(i).no_duplicates());
                }
            }
        }
        self.nodes = nodes;
        id
    }

    /// Whether two relations are the same.
    fn same_relation(a: &Relation, b: &Relation) -> (r: bool)
        ensures
            r == (a@ == b@),
    {
        match (a, b) {
            (Relation::Family, Relation::Family) => true,
            (Relation::External, Relation::External) => true,
            (Relation::Discovered { raw_path: x }, Relation::Discovered { raw_path: y }) => str_eq(x.as_str(), y.as_str()),
            _ => false,
        }
    }

    /// add an external relation between two site nodes, unless the same link is there
    pub fn add_link(&mut self, from: SiteId, to: SiteId, relation: Relation)
        requires
            from.0 < old(self).links().len(),
            from.0 < usize::MAX,
            to.0 < usize::MAX,
        ensures
            same_tree(*old(self), *final(self)),
            ({
                let l = (from.0, to.0, relation@);
                let present = exists|k: int| 0 <= k < starting_at(old(self).links()[from.0 as int], from.0).len()
                    && #[trigger] starting_at(old(self).links()[from.0 as int], from.0)[k].1 == to.0
                    && starting_at(old(self).links()[from.0 as int], from.0)[k].2 == relation@;
                &&& present ==> final(self).links() == old(self).links()
                &&& !present ==> final(self).links() == with_link(old(self).links(), l)
            }),
    {
        proof {
            use_type_invariant(&*self);
        }
        let ghost sl = starting_at(self.links()[from.0 as int], from.0);
        let present = {
            let links = self.rel_graph.links_from(from);
            let mut found = false;
            let mut k: usize = 0;
            while k < links.len()
                invariant
                    k <= links.len(),
                    Seq::new(links@.len(), |j: int| links@[j]@) == sl,
                    found <==> exists|j: int| 0 <= j < k && #[trigger] sl[j].1 == to.0 && sl[j].2 == relation@,
                decreases links.len() - k,
            {
                assert(sl[k as int] == links@[k as int]@);
                let hit = links[k].to == to && Self::same_relation(&links[k].relation, &relation);
                proof {
                    assert(hit == (sl[k as int].1 == to.0 && sl[k as int].2 == relation@));
                }
                if hit {
                    found = true;
                }
                k += 1;
            }
            found
        };
        if present {
            return;
        }
        proof {
            use_type_invariant(&*self);
        }
        let mut g = RelationalGraph::new();
        std::mem::swap(&mut g, &mut self.rel_graph);
        g.add(from, to, relation);
        self.rel_graph = g;
    }

    /// Get all the relations from a single node to other nodes
    pub fn links_from(&self, from: SiteId) -> (r: Vec<&Link>)
        requires
            from.0 < self.links().len(),
        ensures
            Seq::new(r@.len(), |k: int| r@[k]@) == starting_at(self.links()[from.0 as int], from.0),
    {
        self.rel_graph.links_from(from)
    }
}


/// Whether the parents of `id` lead up to the root.
pub open spec fn reaches_root(t: SiteTree, id: int) -> bool
    decreases id,
{
    if id <= 0 {
        id == 0
    } else {
        match t.parent_of(id) {
            Some(p) => if 0 <= p < id {
                reaches_root(t, p as int)
            } else {
                false
            },
            None => false,
        }
    }
}

/// The node under which pages below `id` are listed when the tree is
/// flattened to pages: `id` itself when it is a page, else the nearest page
/// above it, else the root.
pub open spec fn page_holder(t: SiteTree, id: int) -> int
    decreases id,
{
    if id <= 0 {
        0
    } else if t.kind_of(id) == SiteNodeKind::Page {
        id
    } else {
        match t.parent_of(id) {
            Some(p) => if 0 <= p < id {
                page_holder(t, p as int)
            } else {
                0
            },
            None => 0,
        }
    }
}

/// The pages among `cs`, in order.
pub open spec fn pages_among(t: SiteTree, cs: Seq<usize>) -> Seq<SiteId>
    decreases cs.len(),
{
    if cs.len() == 0 {
        Seq::empty()
    } else {
        let rest = pages_among(t, cs.drop_last());
        if t.kind_of(cs.last() as int) == SiteNodeKind::Page {
            rest.push(SiteId(cs.last()))
        } else {
            rest
        }
    }
}

/// The pages listed under `p` after the nodes of `order` were walked: each
/// walked node adds its page children, in order, to the list of the node
/// that holds its pages.
pub open spec fn flat_list(t: SiteTree, order: Seq<usize>, p: int) -> Seq<SiteId>
    decreases order.len(),
{
    if order.len() == 0 {
        Seq::empty()
    } else {
        let x = order.last() as int;
        flat_list(t, order.drop_last(), p) + if page_holder(t, x) == p {
            pages_among(t, t.children_of(x))
        } else {
            Seq::empty()
        }
    }
}

/// Whether page `q` is listed under node `p` when the tree is flattened to
/// pages.
pub open spec fn flat_child(t: SiteTree, p: int, q: int) -> bool {
    &&& 0 < q < t.size()
    &&& reaches_root(t, q)
    &&& t.kind_of(q) == SiteNodeKind::Page
    &&& t.parent_of(q) matches Some(par) && page_holder(t, par as int) == p
}

proof fn lemma_page_holder_bounds(t: SiteTree, id: int)
    ensures
        0 <= page_holder(t, id) <= if id < 0 { 0 } else { id },
    decreases id,
{
    if id > 0 && t.kind_of(id) != SiteNodeKind::Page {
        if let Some(p) = t.parent_of(id) {
            if 0 <= p < id {
                lemma_page_holder_bounds(t, p as int);
            }
        }
    }
}

impl SiteTree {
    /// Every node that the root reaches is among `seen` when `seen` holds the
    /// root and the children of each of its nodes.
    proof fn lemma_reached_seen(self, seen: Set<int>, r: int)
        requires
            self.tree_ok(),
            seen.contains(0),
            forall|x: int, k: int| #![trigger seen.contains(x), self.children_of(x)[k]]
                seen.contains(x) && 0 <= x < self.size() && 0 <= k < self.children_of(x).len()
                    ==> seen.contains(self.children_of(x)[k] as int),
            self.size() <= usize::MAX,
            0 <= r < self.size(),
            reaches_root(self, r),
        ensures
            seen.contains(r),
        decreases r,
    {
        if r > 0 {
            let pp = self.parent_of(r);
            assert(pp is Some);
            let p = pp->0 as int;
            assert(0 <= p < r);
            assert(self.nodes@[r] == self.nodes@[r]);
            assert(self.children_of(p).contains(r as usize));
            self.lemma_reached_seen(seen, p);
            let k = choose|k: int| 0 <= k < self.children_of(p).len() && self.children_of(p)[k] == r as usize;
            assert(seen.contains(self.children_of(p)[k] as int));
        }
    }

    /// For each node, the pages listed under it: the pages below it, down to
    /// and not past the next pages.
    pub fn flatten_to_pages(&self) -> (r: Vec<Vec<SiteId>>)
        requires
            self.size() > 0,
        ensures
            r@.len() == self.size(),
            forall|p: int, q: int| 0 <= p < self.size() && 0 <= q < self.size()
                ==> (r@[p]@.contains(SiteId(q as usize)) <==> flat_child(*self, p, q)),
            forall|p: int, k: int| 0 <= p < self.size() && 0 <= k < r@[p]@.len()
                ==> #[trigger] r@[p]@[k].0 < self.size(),
            forall|p: int| 0 <= p < self.size() ==> (#[trigger] r@[p]@).no_duplicates(),
            forall|p: int| 0 <= p < self.size() ==> (#[trigger] r@[p]@) == flat_list(*self, visit(*self, 0), p),
    {
        proof {
            use_type_invariant(self);
        }
        let n = self.nodes.len();
        let mut map: Vec<Vec<SiteId>> = Vec::new();
        while map.len() < n
            invariant
                map@.len() <= n,
                forall|p: int| 0 <= p < map@.len() ==> (#[trigger] map@[p]@).len() == 0,
            decreases n - map@.len(),
        {
            map.push(Vec::new());
        }
        let mut stack: Vec<(SiteId, SiteId)> = Vec::new();
        stack.push((self.root, self.root));
        let ghost mut done: Set<int> = Set::empty();
        let ghost mut order: Seq<usize> = Seq::empty();
        proof {
            let st = Seq::new(stack@.len(), |k: int| stack@[k].0.0);
            assert(st =~= seq![0usize]);
            assert(st.drop_last() =~= Seq::<usize>::empty());
            assert(stack_visits(*self, st) == visit(*self, 0) + stack_visits(*self, Seq::<usize>::empty()));
            assert(visit(*self, 0) =~= order + stack_visits(*self, st));
            assert forall|p: int| 0 <= p < n implies (#[trigger] map@[p]@) == flat_list(*self, order, p) by {
                assert(map@[p]@ =~= Seq::<SiteId>::empty());
            }
        }
        while stack.len() > 0
            invariant
                self.tree_ok(),
                n == self.size(),
                map@.len() == n,
                done.finite(),
                visit(*self, 0) == order + stack_visits(*self, Seq::new(stack@.len(), |k: int| stack@[k].0.0)),
                forall|p: int| 0 <= p < n ==> (#[trigger] map@[p]@) == flat_list(*self, order, p),
                forall|k: int| 0 <= k < stack@.len() ==> {
                    let e = #[trigger] stack@[k];
                    &&& 0 <= e.0.0 < n
                    &&& reaches_root(*self, e.0.0 as int)
                    &&& e.1.0 == page_holder(*self, e.0.0 as int)
                    &&& !done.contains(e.0.0 as int)
                    &&& (e.0.0 == 0 || (self.parent_of(e.0.0 as int) matches Some(par) && done.contains(par as int)))
                },
                forall|k1: int, k2: int| 0 <= k1 < k2 < stack@.len() ==> (#[trigger] stack@[k1]).0 != (#[trigger] stack@[k2]).0,
                forall|x: int| #[trigger] done.contains(x) ==> 0 <= x < n && reaches_root(*self, x)
                    && (x == 0 || (self.parent_of(x) matches Some(par) && done.contains(par as int))),
                done.contains(0) || (stack@.len() == 1 && stack@[0].0 == SiteId(0)),
                forall|x: int, k: int| #![trigger done.contains(x), self.children_of(x)[k]]
                    done.contains(x) && 0 <= k < self.children_of(x).len() ==> {
                        let c = self.children_of(x)[k];
                        done.contains(c as int) || exists|j: int| 0 <= j < stack@.len() && #[trigger] stack@[j].0 == SiteId(c)
                    },
                forall|p: int, q: int| 0 <= p < n && 0 <= q < n
                    ==> (#[trigger] map@[p]@.contains(SiteId(q as usize)) <==> (flat_child(*self, p, q)
                        && (self.parent_of(q) matches Some(par) && done.contains(par as int)))),
                forall|p: int, k: int| 0 <= p < n && 0 <= k < map@[p]@.len() ==> #[trigger] map@[p]@[k].0 < n,
                forall|p: int| 0 <= p < n ==> (#[trigger] map@[p]@).no_duplicates(),
            decreases n - done.len(),
        {
            let ghost old_stack = stack@;
            let ghost old_done = done;
            let (id, holder) = stack.pop().unwrap();
            proof {
                assert(old_stack.last() == (id, holder));
                assert(stack@ =~= old_stack.drop_last());
                done = done.insert(id.0 as int);
                vstd::set_lib::lemma_int_range(0, n as int);
                vstd::set_lib::lemma_len_subset(done, vstd::set_lib::set_int_range(0, n as int));
                assert(self.nodes@[id.0 as int] == self.nodes@[id.0 as int]);
            }
            let mut pages: Vec<SiteId> = Vec::new();
            let children = &self.nodes[id.0].children;
            let ghost mid_stack = stack@;
            let mut j: usize = 0;
            while j < children.len()
                invariant
                    self.tree_ok(),
                    n == self.size(),
                    0 <= id.0 < n,
                    j <= children@.len(),
                    children@ == self.nodes@[id.0 as int].children@,
                    stack@.len() == mid_stack.len() + j,
                    forall|k: int| 0 <= k < mid_stack.len() ==> #[trigger] stack@[k] == mid_stack[k],
                    forall|k: int| 0 <= k < j ==> {
                        let c = children@[k];
                        #[trigger] stack@[mid_stack.len() + k] == (c, if self.kind_of(c.0 as int) == SiteNodeKind::Page { c } else { holder })
                    },
                    forall|q: int| 0 <= q < n ==> (#[trigger] pages@.contains(SiteId(q as usize)) <==> (self.kind_of(q) == SiteNodeKind::Page
                        && exists|k: int| 0 <= k < j && #[trigger] children@[k] == SiteId(q as usize))),
                    forall|k: int| 0 <= k < pages@.len() ==> (self.parent_of((#[trigger] pages@[k]).0 as int) == Some(id.0) && pages@[k].0 < n),
                    pages@.no_duplicates(),
                    pages@ == pages_among(*self, self.children_of(id.0 as int).take(j as int)),
                decreases children.len() - j,
            {
                let child = children[j];
                proof {
                    assert(self.children_of(id.0 as int)[j as int] == child.0);
                    assert(self.nodes@[child.0 as int] == self.nodes@[child.0 as int]);
                    if pages@.contains(child) {
                        let k = choose|k: int| 0 <= k < j && #[trigger] children@[k] == child;
                        assert(self.children_of(id.0 as int)[k] == child.0);
                        assert(false);
                    }
                }
                let ghost old_pages = pages@;
                let child_holder = if self.nodes[child.0].kind.is_page() {
                    pages.push(child);
                    child
                } else {
                    holder
                };
                stack.push((child, child_holder));
                proof {
                    let cs = self.children_of(id.0 as int);
                    assert(cs.take(j + 1).drop_last() =~= cs.take(j as int));
                    assert(cs.take(j + 1).last() == child.0);
                    if self.kind_of(child.0 as int) == SiteNodeKind::Page {
                        assert(pages@ == old_pages.push(child));
                    } else {
                        assert(pages@ == old_pages);
                    }
                    assert forall|q: int| 0 <= q < n implies (#[trigger] pages@.contains(SiteId(q as usize)) <==> (self.kind_of(q) == SiteNodeKind::Page
                        && exists|k: int| 0 <= k < j + 1 && #[trigger] children@[k] == SiteId(q as usize))) by {
                        if q == child.0 as int {
                            assert(children@[j as int] == SiteId(q as usize));
                            if self.kind_of(q) == SiteNodeKind::Page {
                                assert(pages@ == old_pages.push(child));
                                assert(pages@[pages@.len() - 1] == SiteId(q as usize));
                            } else {
                                assert(pages@ == old_pages);
                            }
                        } else {
                            broadcast use vstd::seq_lib::lemma_seq_contains_after_push;
                            if self.kind_of(child.0 as int) == SiteNodeKind::Page {
                                assert(pages@ == old_pages.push(child));
                            } else {
                                assert(pages@ == old_pages);
                            }
                            assert(pages@.contains(SiteId(q as usize)) == old_pages.contains(SiteId(q as usize)));
                            if exists|k: int| 0 <= k < j + 1 && #[trigger] children@[k] == SiteId(q as usize) {
                                let k = choose|k: int| 0 <= k < j + 1 && #[trigger] children@[k] == SiteId(q as usize);
                                assert(k < j);
                            }
                        }
                    }
                }
                j += 1;
            }
            proof {
                lemma_page_holder_bounds(*self, id.0 as int);
                assert(0 <= id.0 < n);
                assert(!old_done.contains(id.0 as int));
                assert forall|k: int| 0 <= k < stack@.len() implies {
                    let e = #[trigger] stack@[k];
                    &&& 0 <= e.0.0 < n
                    &&& reaches_root(*self, e.0.0 as int)
                    &&& e.1.0 == page_holder(*self, e.0.0 as int)
                    &&& !done.contains(e.0.0 as int)
                    &&& (e.0.0 == 0 || (self.parent_of(e.0.0 as int) matches Some(par) && done.contains(par as int)))
                } by {
                    if k < mid_stack.len() {
                        assert(stack@[k] == old_stack[k]);
                        assert(old_stack[k].0 != old_stack[old_stack.len() - 1].0);
                    } else {
                        let kk = k - mid_stack.len();
                        let c = children@[kk];
                        assert(stack@[mid_stack.len() + kk] == stack@[k]);
                        assert(self.children_of(id.0 as int)[kk] == c.0);
                        assert(self.nodes@[id.0 as int] == self.nodes@[id.0 as int]);
                        assert(id.0 < c.0 < n);
                        assert(self.parent_of(c.0 as int) == Some(id.0));
                        if old_done.contains(c.0 as int) {
                            assert(old_done.contains(id.0 as int));
                        }
                    }
                }
                assert forall|k1: int, k2: int| 0 <= k1 < k2 < stack@.len() implies (#[trigger] stack@[k1]).0 != (#[trigger] stack@[k2]).0 by {
                    if k2 < mid_stack.len() {
                        assert(stack@[k1] == old_stack[k1]);
                        assert(stack@[k2] == old_stack[k2]);
                    } else if k1 < mid_stack.len() {
                        let kk = k2 - mid_stack.len();
                        let c = children@[kk];
                        assert(stack@[mid_stack.len() + kk] == stack@[k2]);
                        assert(self.children_of(id.0 as int)[kk] == c.0);
                        assert(self.nodes@[id.0 as int] == self.nodes@[id.0 as int]);
                        assert(self.parent_of(c.0 as int) == Some(id.0));
                        assert(stack@[k1] == old_stack[k1]);
                        assert(old_stack[k1].0 != old_stack[old_stack.len() - 1].0);
                    } else {
                        let ka = k1 - mid_stack.len();
                        let kb = k2 - mid_stack.len();
                        assert(stack@[mid_stack.len() + ka] == stack@[k1]);
                        assert(stack@[mid_stack.len() + kb] == stack@[k2]);
                        assert(self.children_of(id.0 as int)[ka] == children@[ka].0);
                        assert(self.children_of(id.0 as int)[kb] == children@[kb].0);
                        assert(self.nodes@[id.0 as int] == self.nodes@[id.0 as int]);
                    }
                }
                assert forall|x: int, k: int| #![trigger done.contains(x), self.children_of(x)[k]]
                    done.contains(x) && 0 <= k < self.children_of(x).len() implies {
                        let c = self.children_of(x)[k];
                        done.contains(c as int) || exists|jj: int| 0 <= jj < stack@.len() && #[trigger] stack@[jj].0 == SiteId(c)
                    } by {
                    let c = self.children_of(x)[k];
                    if x == id.0 as int {
                        assert(children@[k].0 == c);
                        assert(stack@[mid_stack.len() + k].0 == SiteId(c));
                    } else {
                        assert(old_done.contains(x));
                        if !old_done.contains(c as int) {
                            let jj = choose|jj: int| 0 <= jj < old_stack.len() && #[trigger] old_stack[jj].0 == SiteId(c);
                            if jj < mid_stack.len() {
                                assert(stack@[jj] == old_stack[jj]);
                            }
                        }
                    }
                }
            }
            let ghost old_map = map@;
            let ghost added = pages@;
            map[holder.0].append(&mut pages);
            proof {
                broadcast use vstd::seq_lib::lemma_seq_concat_contains_all_elements;
                assert forall|p: int| 0 <= p < n && p != holder.0 implies #[trigger] map@[p] == old_map[p] by {}
                assert(map@[holder.0 as int]@ == old_map[holder.0 as int]@ + added);
                assert forall|p: int, q: int| 0 <= p < n && 0 <= q < n implies
                    (#[trigger] map@[p]@.contains(SiteId(q as usize)) <==> (flat_child(*self, p, q)
                        && (self.parent_of(q) matches Some(par) && done.contains(par as int)))) by {
                    assert(self.nodes@[q] == self.nodes@[q]);
                    let on_id = self.parent_of(q) == Some(id.0);
                    if on_id {
                        assert(id.0 < q);
                        assert(old_map[p]@.contains(SiteId(q as usize)) == false);
                        assert(self.children_of(id.0 as int).contains(q as usize));
                        let k = choose|k: int| 0 <= k < self.children_of(id.0 as int).len() && self.children_of(id.0 as int)[k] == q as usize;
                        assert(children@[k] == SiteId(q as usize));
                    } else {
                        if added.contains(SiteId(q as usize)) {
                            let k = choose|k: int| 0 <= k < added.len() && added[k] == SiteId(q as usize);
                            assert(self.parent_of(added[k].0 as int) == Some(id.0));
                        }
                    }
                    if p == holder.0 as int {
                        assert(map@[p]@.contains(SiteId(q as usize)) <==> (old_map[p]@.contains(SiteId(q as usize)) || added.contains(SiteId(q as usize))));
                    }
                }
                assert forall|p: int, k: int| 0 <= p < n && 0 <= k < map@[p]@.len() implies #[trigger] map@[p]@[k].0 < n by {
                    if p == holder.0 as int && k >= old_map[p]@.len() {
                        assert(map@[p]@[k] == added[k - old_map[p]@.len()]);
                    }
                }
                assert forall|p: int| 0 <= p < n implies (#[trigger] map@[p]@).no_duplicates() by {
                    if p == holder.0 as int {
                        let a = old_map[p]@;
                        assert forall|i1: int, i2: int| 0 <= i1 < i2 < map@[p]@.len() implies map@[p]@[i1] != map@[p]@[i2] by {
                            if i1 < a.len() && i2 >= a.len() {
                                let q = map@[p]@[i2];
                                assert(q == added[i2 - a.len()]);
                                assert(self.parent_of(q.0 as int) == Some(id.0));
                                assert(a[i1] == map@[p]@[i1]);
                                assert(a.contains(a[i1]));
                                assert(a[i1].0 < n);
                            } else if i1 >= a.len() {
                                assert(map@[p]@[i1] == added[i1 - a.len()]);
                                assert(map@[p]@[i2] == added[i2 - a.len()]);
                            } else {
                                assert(map@[p]@[i1] == a[i1]);
                                assert(map@[p]@[i2] == a[i2]);
                            }
                        }
                    }
                }
            }
            proof {
                let ids = Seq::new(old_stack.len(), |k: int| old_stack[k].0.0);
                let rest = Seq::new(mid_stack.len(), |k: int| mid_stack[k].0.0);
                let cs = self.children_of(id.0 as int);
                assert(ids.drop_last() =~= rest);
                assert(ids.last() == id.0);
                assert(old_stack[old_stack.len() - 1] == (id, holder));
                assert(holder.0 == page_holder(*self, id.0 as int));
                assert forall|k: int| 0 <= k < cs.len() implies id.0 < #[trigger] cs[k] < self.size() by {
                    assert(cs[k] == children@[k].0);
                    assert(self.nodes@[id.0 as int] == self.nodes@[id.0 as int]);
                }
                lemma_stack_push_children(*self, rest, id.0 as int, cs);
                let now = Seq::new(stack@.len(), |k: int| stack@[k].0.0);
                assert(now =~= rest + cs) by {
                    assert forall|k: int| 0 <= k < now.len() implies now[k] == (rest + cs)[k] by {
                        if k >= rest.len() {
                            assert(stack@[mid_stack.len() + (k - rest.len())].0 == children@[k - rest.len()]);
                            assert(cs[k - rest.len()] == children@[k - rest.len()].0);
                        } else {
                            assert(stack@[k] == mid_stack[k]);
                        }
                    }
                }
                assert(stack_visits(*self, ids) == visit(*self, id.0 as int) + stack_visits(*self, rest));
                assert(visit(*self, id.0 as int) == seq![id.0] + visit_list(*self, id.0 as int, cs));
                let old_order = order;
                order = order.push(id.0);
                assert(visit(*self, 0) =~= order + stack_visits(*self, now));
                assert(cs.take(cs.len() as int) =~= cs);
                assert(added == pages_among(*self, cs));
                assert(order.drop_last() =~= old_order);
                assert forall|p: int| 0 <= p < n implies (#[trigger] map@[p]@) == flat_list(*self, order, p) by {
                    assert(old_map[p]@ == flat_list(*self, old_order, p));
                    if p == holder.0 as int {
                        assert(map@[p]@ == old_map[p]@ + added);
                    } else {
                        assert(map@[p] == old_map[p]);
                        assert(flat_list(*self, old_order, p) + Seq::<SiteId>::empty() =~= flat_list(*self, old_order, p));
                    }
                }
            }
        }
        proof {
            assert forall|r: int| 0 <= r < n && reaches_root(*self, r) implies done.contains(r) by {
                self.lemma_reached_seen(done, r);
            }
            assert(Seq::new(stack@.len(), |k: int| stack@[k].0.0) =~= Seq::<usize>::empty());
            assert(visit(*self, 0) =~= order);
        }
        map
    }
}


/// The order in which the nodes below `id` are written out: `id`, then what
/// its children lead to, the last child first.
pub open spec fn visit(t: SiteTree, id: int) -> Seq<usize>
    decreases t.size() - id, t.children_of(id).len() + 1,
{
    if 0 <= id < t.size() {
        seq![id as usize] + visit_list(t, id, t.children_of(id))
    } else {
        Seq::empty()
    }
}

/// What the children `cs` of `parent` lead to, the last child first.
pub open spec fn visit_list(t: SiteTree, parent: int, cs: Seq<usize>) -> Seq<usize>
    decreases t.size() - parent, cs.len(),
{
    if cs.len() == 0 || !(0 <= parent < t.size()) {
        Seq::empty()
    } else {
        let c = cs.last();
        (if parent < c < t.size() {
            visit(t, c as int)
        } else {
            Seq::empty()
        }) + visit_list(t, parent, cs.drop_last())
    }
}

/// What the nodes of a stack lead to, the top first.
pub open spec fn stack_visits(t: SiteTree, st: Seq<usize>) -> Seq<usize>
    decreases st.len(),
{
    if st.len() == 0 {
        Seq::empty()
    } else {
        visit(t, st.last() as int) + stack_visits(t, st.drop_last())
    }
}

proof fn lemma_stack_push_children(t: SiteTree, rest: Seq<usize>, x: int, cs: Seq<usize>)
    requires
        0 <= x < t.size(),
        forall|k: int| 0 <= k < cs.len() ==> x < #[trigger] cs[k] < t.size(),
    ensures
        stack_visits(t, rest + cs) == visit_list(t, x, cs) + stack_visits(t, rest),
    decreases cs.len(),
{
    if cs.len() == 0 {
        assert(rest + cs =~= rest);
    } else {
        let front = cs.drop_last();
        assert((rest + cs).drop_last() =~= rest + front);
        assert((rest + cs).last() == cs.last());
        lemma_stack_push_children(t, rest, x, front);
    }
}

impl SiteTree {
    /// The nodes in the order they are written out: the root first, then,
    /// from a stack, each node and after it what its children lead to, the
    /// last child first.
    pub fn output_order(&self) -> (r: Vec<SiteId>)
        requires
            self.size() > 0,
        ensures
            r@.len() == visit(*self, 0).len(),
            forall|k: int| 0 <= k < r@.len() ==> (#[trigger] r@[k]).0 == visit(*self, 0)[k] && r@[k].0 < self.size(),
            forall|k1: int, k2: int| 0 <= k1 < k2 < r@.len() ==> (#[trigger] r@[k1]).0 != (#[trigger] r@[k2]).0,
            forall|k: int| 0 <= k < r@.len() ==> reaches_root(*self, (#[trigger] r@[k]).0 as int),
            forall|id: int| 0 <= id < self.size() && #[trigger] reaches_root(*self, id)
                ==> exists|k: int| 0 <= k < r@.len() && (#[trigger] r@[k]).0 == id,
    {
        proof {
            use_type_invariant(self);
        }
        let mut order: Vec<SiteId> = Vec::new();
        let mut stack: Vec<SiteId> = Vec::new();
        stack.push(self.root);
        let ghost mut seen: Set<int> = Set::empty();
        proof {
            let st = Seq::new(stack@.len(), |k: int| stack@[k].0);
            assert(st =~= seq![0usize]);
            assert(st.drop_last() =~= Seq::<usize>::empty());
            assert(stack_visits(*self, st) == visit(*self, 0) + stack_visits(*self, Seq::<usize>::empty()));
            assert(Seq::new(order@.len(), |k: int| order@[k].0) =~= Seq::<usize>::empty());
            assert(visit(*self, 0) =~= Seq::new(order@.len(), |k: int| order@[k].0) + stack_visits(*self, st));
        }
        while stack.len() > 0
            invariant
                self.tree_ok(),
                forall|k: int| 0 <= k < stack@.len() ==> (#[trigger] stack@[k]).0 < self.size(),
                forall|k: int| 0 <= k < order@.len() ==> (#[trigger] order@[k]).0 < self.size(),
                visit(*self, 0) == Seq::new(order@.len(), |k: int| order@[k].0)
                    + stack_visits(*self, Seq::new(stack@.len(), |k: int| stack@[k].0)),
                forall|k: int| 0 <= k < order@.len() ==> seen.contains((#[trigger] order@[k]).0 as int),
                forall|x: int| #[trigger] seen.contains(x) ==> exists|k: int| 0 <= k < order@.len() && (#[trigger] order@[k]).0 == x,
                forall|k1: int, k2: int| 0 <= k1 < k2 < order@.len() ==> (#[trigger] order@[k1]).0 != (#[trigger] order@[k2]).0,
                forall|k: int| 0 <= k < stack@.len() ==> {
                    let e = (#[trigger] stack@[k]).0;
                    &&& !seen.contains(e as int)
                    &&& reaches_root(*self, e as int)
                    &&& (e == 0 || (self.parent_of(e as int) matches Some(p) && seen.contains(p as int)))
                },
                forall|k1: int, k2: int| 0 <= k1 < k2 < stack@.len() ==> (#[trigger] stack@[k1]).0 != (#[trigger] stack@[k2]).0,
                forall|x: int| #[trigger] seen.contains(x) ==> 0 <= x < self.size() && reaches_root(*self, x)
                    && (x == 0 || (self.parent_of(x) matches Some(p) && seen.contains(p as int))),
                seen.contains(0) || (stack@.len() == 1 && stack@[0].0 == 0),
                forall|x: int, k: int| #![trigger seen.contains(x), self.children_of(x)[k]]
                    seen.contains(x) && 0 <= k < self.children_of(x).len() ==> {
                        let c = self.children_of(x)[k];
                        seen.contains(c as int) || exists|j: int| 0 <= j < stack@.len() && (#[trigger] stack@[j]).0 == c
                    },
            decreases visit(*self, 0).len() - order@.len(),
        {
            let ghost ids = Seq::new(stack@.len(), |k: int| stack@[k].0);
            let ghost done = Seq::new(order@.len(), |k: int| order@[k].0);
            let ghost old_stack = stack@;
            let ghost old_order = order@;
            let ghost old_seen = seen;
            let x = stack.pop().unwrap();
            let ghost rest = Seq::new(stack@.len(), |k: int| stack@[k].0);
            proof {
                assert(ids.drop_last() =~= rest);
                assert(ids.last() == x.0);
                assert(old_stack[old_stack.len() - 1] == x);
                assert(self.nodes@[x.0 as int] == self.nodes@[x.0 as int]);
            }
            let children = &self.nodes[x.0].children;
            let mut j: usize = 0;
            while j < children.len()
                invariant
                    self.tree_ok(),
                    x.0 < self.size(),
                    j <= children@.len(),
                    children@ == self.nodes@[x.0 as int].children@,
                    stack@.len() == rest.len() + j,
                    forall|k: int| 0 <= k < rest.len() ==> #[trigger] stack@[k].0 == rest[k],
                    forall|k: int| 0 <= k < rest.len() ==> #[trigger] stack@[k] == old_stack[k],
                    forall|k: int| 0 <= k < j ==> #[trigger] stack@[rest.len() + k] == children@[k],
                    forall|k: int| 0 <= k < stack@.len() ==> (#[trigger] stack@[k]).0 < self.size(),
                decreases children.len() - j,
            {
                proof {
                    assert(self.children_of(x.0 as int)[j as int] == children@[j as int].0);
                }
                stack.push(children[j]);
                j += 1;
            }
            order.push(x);
            proof {
                seen = seen.insert(x.0 as int);
                let cs = self.children_of(x.0 as int);
                assert forall|k: int| 0 <= k < cs.len() implies x.0 < #[trigger] cs[k] < self.size() by {
                    assert(cs[k] == children@[k].0);
                }
                lemma_stack_push_children(*self, rest, x.0 as int, cs);
                let now = Seq::new(stack@.len(), |k: int| stack@[k].0);
                assert(now =~= rest + cs) by {
                    assert forall|k: int| 0 <= k < now.len() implies now[k] == (rest + cs)[k] by {
                        if k >= rest.len() {
                            assert(stack@[rest.len() + (k - rest.len())] == children@[k - rest.len()]);
                        }
                    }
                }
                assert(stack_visits(*self, ids) == visit(*self, x.0 as int) + stack_visits(*self, rest));
                assert(visit(*self, x.0 as int) == seq![x.0] + visit_list(*self, x.0 as int, cs));
                assert(Seq::new(order@.len(), |k: int| order@[k].0) =~= done.push(x.0));
                // bookkeeping of what was written and what waits
                assert(order@[order@.len() - 1] == x);
                assert forall|k: int| 0 <= k < order@.len() implies seen.contains((#[trigger] order@[k]).0 as int) by {
                    if k < old_order.len() {
                        assert(order@[k] == old_order[k]);
                    }
                }
                assert forall|y: int| #[trigger] seen.contains(y) implies exists|k: int| 0 <= k < order@.len() && (#[trigger] order@[k]).0 == y by {
                    if y == x.0 as int {
                        assert(order@[order@.len() - 1].0 == y);
                    } else {
                        let k = choose|k: int| 0 <= k < old_order.len() && (#[trigger] old_order[k]).0 == y;
                        assert(order@[k] == old_order[k]);
                    }
                }
                assert forall|k1: int, k2: int| 0 <= k1 < k2 < order@.len() implies (#[trigger] order@[k1]).0 != (#[trigger] order@[k2]).0 by {
                    assert(order@[k1] == old_order[k1]);
                    if k2 < old_order.len() {
                        assert(order@[k2] == old_order[k2]);
                    } else {
                        assert(old_seen.contains(old_order[k1].0 as int));
                    }
                }
                assert forall|k: int| 0 <= k < stack@.len() implies {
                    let e = (#[trigger] stack@[k]).0;
                    &&& !seen.contains(e as int)
                    &&& reaches_root(*self, e as int)
                    &&& (e == 0 || (self.parent_of(e as int) matches Some(p) && seen.contains(p as int)))
                } by {
                    if k < rest.len() {
                        assert(stack@[k] == old_stack[k]);
                        assert(old_stack[k].0 != old_stack[old_stack.len() - 1].0);
                    } else {
                        let kk = k - rest.len();
                        let c = children@[kk];
                        assert(stack@[rest.len() + kk] == stack@[k]);
                        assert(cs[kk] == c.0);
                        assert(self.nodes@[x.0 as int] == self.nodes@[x.0 as int]);
                        assert(self.parent_of(c.0 as int) == Some(x.0));
                        if old_seen.contains(c.0 as int) {
                            assert(old_seen.contains(x.0 as int));
                        }
                    }
                }
                assert forall|k1: int, k2: int| 0 <= k1 < k2 < stack@.len() implies (#[trigger] stack@[k1]).0 != (#[trigger] stack@[k2]).0 by {
                    if k2 < rest.len() {
                        assert(stack@[k1] == old_stack[k1]);
                        assert(stack@[k2] == old_stack[k2]);
                    } else if k1 < rest.len() {
                        let kk = k2 - rest.len();
                        assert(stack@[rest.len() + kk] == stack@[k2]);
                        assert(cs[kk] == children@[kk].0);
                        assert(self.parent_of(children@[kk].0 as int) == Some(x.0));
                        assert(stack@[k1] == old_stack[k1]);
                        assert(old_stack[k1].0 != old_stack[old_stack.len() - 1].0);
                    } else {
                        let ka = k1 - rest.len();
                        let kb = k2 - rest.len();
                        assert(stack@[rest.len() + ka] == stack@[k1]);
                        assert(stack@[rest.len() + kb] == stack@[k2]);
                        assert(cs[ka] == children@[ka].0);
                        assert(cs[kb] == children@[kb].0);
                    }
                }
                assert forall|y: int, k: int| #![trigger seen.contains(y), self.children_of(y)[k]]
                    seen.contains(y) && 0 <= k < self.children_of(y).len() implies {
                        let c = self.children_of(y)[k];
                        seen.contains(c as int) || exists|jj: int| 0 <= jj < stack@.len() && (#[trigger] stack@[jj]).0 == c
                    } by {
                    let c = self.children_of(y)[k];
                    if y == x.0 as int {
                        assert(children@[k].0 == c);
                        assert(stack@[rest.len() + k].0 == c);
                    } else {
                        assert(old_seen.contains(y));
                        if !old_seen.contains(c as int) {
                            let jj = choose|jj: int| 0 <= jj < old_stack.len() && (#[trigger] old_stack[jj]).0 == c;
                            if jj < rest.len() {
                                assert(stack@[jj] == old_stack[jj]);
                            }
                        }
                    }
                }
            }
        }
        let n = self.nodes.len();
        proof {
            assert(n == self.size());
            assert(Seq::new(stack@.len(), |k: int| stack@[k].0) =~= Seq::<usize>::empty());
            assert(visit(*self, 0) =~= Seq::new(order@.len(), |k: int| order@[k].0));
            assert forall|id: int| 0 <= id < self.size() && #[trigger] reaches_root(*self, id)
                implies exists|k: int| 0 <= k < order@.len() && (#[trigger] order@[k]).0 == id by {
                self.lemma_reached_seen(seen, id);
            }
            assert forall|k: int| 0 <= k < order@.len() implies reaches_root(*self, (#[trigger] order@[k]).0 as int) by {
                assert(seen.contains(order@[k].0 as int));
            }
        }
        order
    }
}


/// The imports of a script or stylesheet whose parent is `parent`, as they
/// are written and as they are rewritten: relative to the parent, the path
/// to the node each link was discovered to point to.
pub open spec fn rewrites_of(t: SiteTree, parent: int, ls: Seq<SpecLink>) -> Seq<(Seq<char>, Seq<char>)>
    decreases ls.len(),
{
    if ls.len() == 0 {
        Seq::empty()
    } else {
        let rest = rewrites_of(t, parent, ls.drop_last());
        match ls.last().2 {
            SpecRelation::Discovered(raw) => rest.push((raw, relative_path(t, parent, ls.last().1 as int))),
            _ => rest,
        }
    }
}

/// Where a node is written: its path from the root, joined to the output
/// directory, with `.` and `..` resolved.
pub open spec fn output_path(t: SiteTree, out: Seq<char>, id: int) -> Seq<char> {
    canonical_path(path_joined(out, relative_path(t, 0, id)))
}

/// Whether a node can be written out: a script or stylesheet has a parent,
/// links, and links that it discovered point into the tree.
pub open spec fn writable_node(t: SiteTree, id: int) -> bool {
    (t.kind_of(id) == SiteNodeKind::Javascript || t.kind_of(id) == SiteNodeKind::Stylesheet) ==> {
        &&& t.parent_of(id) is Some
        &&& id < t.links().len()
        &&& forall|k: int| 0 <= k < starting_at(t.links()[id], id as usize).len()
            ==> (#[trigger] starting_at(t.links()[id], id as usize)[k]).2 is Discovered
            ==> starting_at(t.links()[id], id as usize)[k].1 < t.size()
    }
}

/// What writing out one node takes.
pub struct OutputStep {
    pub id: SiteId,
    pub kind: SiteNodeKind,
    /// Where the node is written; for a page, its folder.
    pub path: String,
    /// For a page, the html file in its folder.
    pub html_path: Option<String>,
    /// For a script or stylesheet, each import as written and as it becomes.
    pub rewrites: Vec<(String, String)>,
}

/// The text pairs of a list of rewrites.
pub open spec fn pairs_view(v: Seq<(String, String)>) -> Seq<(Seq<char>, Seq<char>)> {
    Seq::new(v.len(), |i: int| (v[i].0@, v[i].1@))
}

/// Whether `step` is how node `id` is written to `out`.
pub open spec fn output_step(t: SiteTree, out: Seq<char>, id: int, step: OutputStep) -> bool {
    &&& step.id.0 == id
    &&& step.kind == t.kind_of(id)
    &&& step.path@ == output_path(t, out, id)
    &&& match step.html_path {
        Some(h) => t.kind_of(id) == SiteNodeKind::Page && h@ == canonical_path(path_joined(step.path@, "index.html"@)),
        None => t.kind_of(id) != SiteNodeKind::Page,
    }
    &&& pairs_view(step.rewrites@) == if t.kind_of(id) == SiteNodeKind::Javascript || t.kind_of(id) == SiteNodeKind::Stylesheet {
        rewrites_of(t, t.parent_of(id)->0 as int, starting_at(t.links()[id], id as usize))
    } else {
        Seq::empty()
    }
}

impl SiteTree {
    /// How each node is written out to `output_directory`, in the order the
    /// site is written: where to, and for scripts and stylesheets how their
    /// imports are rewritten.
    pub fn output_plan(&self, output_directory: &str) -> (r: Vec<OutputStep>)
        requires
            self.size() > 0,
            forall|k: int| 0 <= k < visit(*self, 0).len() ==> writable_node(*self, #[trigger] visit(*self, 0)[k] as int),
        ensures
            r@.len() == visit(*self, 0).len(),
            forall|k: int| 0 <= k < r@.len() ==> output_step(*self, output_directory@, visit(*self, 0)[k] as int, #[trigger] r@[k]),
            forall|k1: int, k2: int| 0 <= k1 < k2 < r@.len() ==> (#[trigger] r@[k1]).id != (#[trigger] r@[k2]).id,
            forall|id: int| 0 <= id < self.size() && #[trigger] reaches_root(*self, id)
                ==> exists|k: int| 0 <= k < r@.len() && (#[trigger] r@[k]).id.0 == id,
    {
        let order = self.output_order();
        let mut steps: Vec<OutputStep> = Vec::new();
        let mut k: usize = 0;
        while k < order.len()
            invariant
                k <= order@.len(),
                order@.len() == visit(*self, 0).len(),
                forall|j: int| 0 <= j < order@.len() ==> (#[trigger] order@[j]).0 == visit(*self, 0)[j] && order@[j].0 < self.size(),
                forall|j: int| 0 <= j < visit(*self, 0).len() ==> writable_node(*self, #[trigger] visit(*self, 0)[j] as int),
                steps@.len() == k,
                forall|j: int| 0 <= j < k ==> output_step(*self, output_directory@, visit(*self, 0)[j] as int, #[trigger] steps@[j]),
                forall|j: int| 0 <= j < k ==> (#[trigger] steps@[j]).id == order@[j],
            decreases order.len() - k,
        {
            let id = order[k];
            proof {
                assert(order@[k as int].0 == visit(*self, 0)[k as int]);
                assert(writable_node(*self, visit(*self, 0)[k as int] as int));
            }
            let rel = self.rel_path(SiteId(0), id);
            let joined = join_path(output_directory, rel.as_str());
            let path = joined.as_str().canonicalize_nonexistent_path();
            let kind = self.nodes[id.0].kind;
            let html_path = if kind.is_page() {
                let file = join_path(path.as_str(), "index.html");
                Some(file.as_str().canonicalize_nonexistent_path())
            } else {
                None
            };
            let mut rewrites: Vec<(String, String)> = Vec::new();
            let script_or_style = match kind {
                SiteNodeKind::Javascript | SiteNodeKind::Stylesheet => true,
                _ => false,
            };
            if script_or_style {
                proof {
                    use_type_invariant(self);
                    assert(self.nodes@[id.0 as int] == self.nodes@[id.0 as int]);
                }
                let parent = match self.nodes[id.0].parent {
                    Some(p) => p,
                    None => SiteId(0),
                };
                let links = self.links_from(id);
                let ghost ls = starting_at(self.links()[id.0 as int], id.0);
                let mut i: usize = 0;
                while i < links.len()
                    invariant
                        i <= links@.len(),
                        Seq::new(links@.len(), |j: int| links@[j]@) == ls,
                        ls == starting_at(self.links()[id.0 as int], id.0),
                        writable_node(*self, id.0 as int),
                        self.kind_of(id.0 as int) == SiteNodeKind::Javascript || self.kind_of(id.0 as int) == SiteNodeKind::Stylesheet,
                        self.parent_of(id.0 as int) == Some(parent.0),
                        parent.0 < self.size(),
                        pairs_view(rewrites@) == rewrites_of(*self, parent.0 as int, ls.take(i as int)),
                    decreases links.len() - i,
                {
                    proof {
                        assert(ls.take(i + 1).drop_last() =~= ls.take(i as int));
                        assert(ls.take(i + 1).last() == links@[i as int]@);
                        assert(ls[i as int] == links@[i as int]@);
                    }
                    if let Relation::Discovered { raw_path } = &links[i].relation {
                        let to = self.rel_path(parent, links[i].to);
                        let ghost before = rewrites@;
                        rewrites.push((raw_path.clone(), to));
                        proof {
                            assert(pairs_view(rewrites@) =~= pairs_view(before).push((raw_path@, to@)));
                        }
                    }
                    i += 1;
                }
                proof {
                    assert(ls.take(ls.len() as int) =~= ls);
                }
            }
            steps.push(OutputStep { id, kind, path, html_path, rewrites });
            proof {
                if !script_or_style {
                    assert(pairs_view(steps@[k as int].rewrites@) =~= Seq::<(Seq<char>, Seq<char>)>::empty());
                }
            }
            k += 1;
        }
        proof {
            assert forall|k1: int, k2: int| 0 <= k1 < k2 < steps@.len() implies (#[trigger] steps@[k1]).id != (#[trigger] steps@[k2]).id by {
                assert(steps@[k1].id == order@[k1]);
                assert(steps@[k2].id == order@[k2]);
            }
            assert forall|id: int| 0 <= id < self.size() && #[trigger] reaches_root(*self, id)
                implies exists|k: int| 0 <= k < steps@.len() && (#[trigger] steps@[k]).id.0 == id by {
                let k = choose|k: int| 0 <= k < order@.len() && (#[trigger] order@[k]).0 == id;
                assert(steps@[k].id == order@[k]);
            }
        }
        steps
    }
}

} // verus!
