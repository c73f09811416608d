//! Tree representation of html (DOM), kept in an arena of nodes.
use vstd::prelude::*;

use crate::attributes::Attributes;
use crate::html::{Html, SpecHtml};
use crate::text::{push_str, str_eq};
use crate::tree::{Dfs, Node, Tree};

verus! {

#[derive(Debug)]
pub enum DomNodeKind {
    Text { text: String },
    Element { tag: String, attributes: Attributes },
}

#[derive(Debug)]
pub struct DomNode {
    pub kind: DomNodeKind,
    children: Vec<usize>,
    parent: Option<usize>,
}

pub type DomId = usize;

impl Node for DomNode {
    closed spec fn spec_children(&self) -> Seq<usize> {
        self.children@
    }

    closed spec fn spec_parent(&self) -> Option<usize> {
        self.parent
    }

    fn children(&self) -> (c: &Vec<usize>) {
        &self.children
    }

    fn parent(&self) -> (p: Option<usize>) {
        self.parent
    }
}

/// Tree representation of html (DOM).
///
/// Ids of removed nodes are never reused; a node's children have larger ids than the node.
#[derive(Debug)]
pub struct DomTree {
    root: DomId,
    nodes: Vec<Option<DomNode>>,
}

impl DomTree {
    /// The node with id `id`, if it exists and was not removed.
    pub closed spec fn node(&self, id: int) -> Option<DomNode> {
        if 0 <= id < self.nodes@.len() {
            self.nodes@[id]
        } else {
            None
        }
    }

    pub open spec fn live(&self, id: int) -> bool {
        self.node(id) is Some
    }

    pub closed spec fn kind_of(&self, id: int) -> DomNodeKind {
        self.node(id)->0.kind
    }

    pub closed spec fn children_of(&self, id: int) -> Seq<usize> {
        self.node(id)->0.spec_children()
    }

    pub closed spec fn parent_of(&self, id: int) -> Option<usize> {
        self.node(id)->0.spec_parent()
    }

    /// The node with id `id`, to change its kind.
    pub fn get_mut(&mut self, id: DomId) -> (r: &mut DomNode)
        requires
            old(self).live(id as int),
        ensures
            *r == old(self).node(id as int)->0,
            final(self).size() == old(self).size(),
            final(self).spec_root() == old(self).spec_root(),
            final(self).node(id as int) == Some(*final(r)),
            forall|i: int| i != id ==> #[trigger] final(self).node(i) == old(self).node(i),
    {
        self.nodes[id].as_mut().unwrap()
    }

    /// Number of ids handed out so far.
    pub closed spec fn size(&self) -> nat {
        self.nodes@.len()
    }

    /// Parent and child links agree, children have larger ids, and the root
    /// is the only node without a parent.
    pub open spec fn wf(&self) -> bool {
        &&& self.spec_root() == 0
        &&& self.live(0)
        &&& self.parent_of(0) is None
        &&& forall|id: int| #[trigger] self.live(id) ==> 0 <= id < self.size() && id <= usize::MAX
        &&& forall|id: int| #[trigger] self.live(id) && id != 0 ==> {
            &&& self.parent_of(id) matches Some(p)
            &&& p < id
            &&& self.live(p as int)
            &&& self.children_of(p as int).contains(id as usize)
        }
        &&& forall|id: int, k: int| #[trigger] self.live(id) && 0 <= k < self.children_of(id).len() ==> {
            let c = #[trigger] self.children_of(id)[k];
            &&& id < c
            &&& self.live(c as int)
            &&& self.parent_of(c as int) == Some(id as usize)
        }
        &&& forall|id: int| #[trigger] self.live(id) ==> self.children_of(id).no_duplicates()
    }

    /// Depth-first order of the subtree at `id`: the node, then its children's
    /// subtrees, the last child first.
    pub open spec fn preorder(&self, id: int) -> Seq<usize>
        decreases self.size() - id, self.children_of(id).len() + 1,
    {
        if !self.live(id) || id < 0 || id >= self.size() {
            Seq::empty()
        } else {
            seq![id as usize] + self.preorder_children(id, 0)
        }
    }

    /// Subtrees of the children of `id`, from the `k`-th last child on.
    pub open spec fn preorder_children(&self, id: int, k: int) -> Seq<usize>
        decreases self.size() - id, self.children_of(id).len() - k,
    {
        let cs = self.children_of(id);
        if k < 0 || k >= cs.len() || id < 0 {
            Seq::empty()
        } else {
            let c = cs[cs.len() - 1 - k];
            if c > id && c <= self.size() {
                self.preorder(c as int) + self.preorder_children(id, k + 1)
            } else {
                Seq::empty()
            }
        }
    }
}

impl Tree for DomTree {
    type Node = DomNode;

    closed spec fn spec_root(&self) -> usize {
        self.root
    }

    closed spec fn has(&self, id: usize) -> bool {
        self.live(id as int)
    }

    closed spec fn spec_get(&self, id: usize) -> DomNode {
        self.node(id as int)->0
    }

    fn root(&self) -> (r: usize) {
        self.root
    }

    fn get(&self, id: usize) -> (n: &DomNode) {
        self.nodes[id].as_ref().unwrap()
    }
}

/// Keeps the ids of element nodes with tag `tag`.
pub open spec fn with_tag(t: DomTree, ids: Seq<usize>, tag: Seq<char>) -> Seq<usize>
    decreases ids.len(),
{
    if ids.len() == 0 {
        Seq::empty()
    } else {
        let rest = with_tag(t, ids.drop_last(), tag);
        match t.kind_of(ids.last() as int) {
            DomNodeKind::Element { tag: tg, .. } => if tg@ == tag {
                rest.push(ids.last())
            } else {
                rest
            },
            _ => rest,
        }
    }
}

/// `f` is `o` with node `id` of kind `kind` added as the last child of `parent`.
pub open spec fn added(o: DomTree, f: DomTree, parent: usize, kind: DomNodeKind, id: usize) -> bool {
    &&& id == o.size()
    &&& f.size() == o.size() + 1
    &&& f.live(id as int)
    &&& f.kind_of(id as int) == kind
    &&& f.children_of(id as int).len() == 0
    &&& f.parent_of(id as int) == Some(parent)
    &&& f.children_of(parent as int) == o.children_of(parent as int).push(id)
    &&& forall|i: int| 0 <= i < o.size() ==> #[trigger] f.live(i) == o.live(i)
    &&& forall|i: int| 0 <= i < o.size() ==> #[trigger] f.kind_of(i) == o.kind_of(i)
    &&& forall|i: int| 0 <= i < o.size() ==> #[trigger] f.parent_of(i) == o.parent_of(i)
    &&& forall|i: int| 0 <= i < o.size() && i != parent ==> #[trigger] f.children_of(i) == o.children_of(i)
}

/// `f` is `o` with node `id` removed: its children take its place at the end
/// of its parent's children.
pub open spec fn removed(o: DomTree, f: DomTree, id: usize) -> bool {
    &&& f.size() == o.size()
    &&& !f.live(id as int)
    &&& ({
        let p = o.parent_of(id as int)->0 as int;
        let pc = o.children_of(p);
        let cs = o.children_of(id as int);
        &&& f.children_of(p) == pc.remove(pc.index_of(id)) + cs
        &&& forall|c: usize| cs.contains(c) ==> #[trigger] f.parent_of(c as int) == Some(p as usize)
        &&& forall|i: int| i != id && i != p ==> #[trigger] f.children_of(i) == o.children_of(i)
        &&& forall|i: int| i != id && !cs.contains(i as usize) ==> #[trigger] f.parent_of(i) == o.parent_of(i)
    })
    &&& forall|i: int| i != id ==> #[trigger] f.live(i) == o.live(i)
    &&& forall|i: int| i != id ==> #[trigger] f.kind_of(i) == o.kind_of(i)
}

/// Removing a node right after adding it gives back the tree as it was; the
/// id that was handed out stays used.
pub proof fn law_remove_undoes_add(o: DomTree, m: DomTree, f: DomTree, parent: usize, kind: DomNodeKind, id: usize)
    requires
        o.wf(),
        o.live(parent as int),
        added(o, m, parent, kind, id),
        removed(m, f, id),
    ensures
        f.size() == o.size() + 1,
        !f.live(id as int),
        forall|i: int| i != id ==> #[trigger] same_node(f, o, i),
{
    let pc = m.children_of(parent as int);
    let oc = o.children_of(parent as int);
    assert(m.parent_of(id as int) == Some(parent));
    assert(!oc.contains(id)) by {
        if oc.contains(id) {
            let k = choose|k: int| 0 <= k < oc.len() && oc[k] == id;
            assert(o.live(parent as int) && 0 <= k < o.children_of(parent as int).len());
        }
    }
    assert(pc.index_of(id) == oc.len()) by {
        assert(pc[oc.len() as int] == id);
        pc.index_of_first_ensures(id);
        if pc.index_of(id) < oc.len() {
            assert(oc[pc.index_of(id)] == id);
        }
    }
    assert(pc.remove(oc.len() as int) =~= oc);
    assert(m.children_of(id as int) =~= Seq::<usize>::empty());
    assert(f.children_of(parent as int) =~= oc);
    assert forall|i: int| i != id implies #[trigger] same_node(f, o, i) by {
        if 0 <= i < o.size() {
            assert(!m.children_of(id as int).contains(i as usize));
        } else {
            assert(!o.live(i));
            assert(!m.live(i));
        }
    }
}

/// The subtree at `id` holds the parsed html `h`: a text node for a text, and
/// for an element an element node with its tag and attributes whose children
/// hold the element's children, comments left out.
pub open spec fn holds(t: DomTree, id: int, h: SpecHtml) -> bool
    decreases h,
{
    match h {
        SpecHtml::Comment(_) => false,
        SpecHtml::Text(s) => {
            &&& t.live(id)
            &&& t.kind_of(id) matches DomNodeKind::Text { text } && text@ == s
            &&& t.children_of(id).len() == 0
        },
        SpecHtml::Element(tag, attrs, children) => {
            &&& t.live(id)
            &&& t.kind_of(id) matches DomNodeKind::Element { tag: tg, attributes } && tg@ == tag && attributes@ == attrs
            &&& holds_all(t, t.children_of(id), children)
        },
    }
}

/// The subtrees at `ids` hold the html pieces `hs` that are not comments, in order.
pub open spec fn holds_all(t: DomTree, ids: Seq<usize>, hs: Seq<SpecHtml>) -> bool
    decreases hs,
{
    if hs.len() == 0 {
        ids.len() == 0
    } else if hs[hs.len() - 1] is Comment {
        holds_all(t, ids, hs.subrange(0, hs.len() - 1))
    } else {
        &&& ids.len() > 0
        &&& holds(t, ids[ids.len() - 1] as int, hs[hs.len() - 1])
        &&& holds_all(t, ids.subrange(0, ids.len() - 1), hs.subrange(0, hs.len() - 1))
    }
}

/// `f` is `o` with nodes added: the nodes of `o` keep their kind, parent and
/// children, except that node `p` may have gained children.
pub open spec fn grows(o: DomTree, f: DomTree, p: int) -> bool {
    &&& f.size() >= o.size()
    &&& forall|i: int| 0 <= i < o.size() ==> #[trigger] f.live(i) == o.live(i)
    &&& forall|i: int| 0 <= i < o.size() ==> #[trigger] f.kind_of(i) == o.kind_of(i)
    &&& forall|i: int| 0 <= i < o.size() ==> #[trigger] f.parent_of(i) == o.parent_of(i)
    &&& forall|i: int| 0 <= i < o.size() && i != p ==> #[trigger] f.children_of(i) == o.children_of(i)
}

proof fn lemma_holds_grows(t1: DomTree, t2: DomTree, e: int, id: int, h: SpecHtml)
    requires
        t1.wf(),
        grows(t1, t2, e),
        e < id,
        holds(t1, id, h),
    ensures
        holds(t2, id, h),
    decreases h,
{
    assert(0 <= id < t1.size());
    match h {
        SpecHtml::Comment(_) => {},
        SpecHtml::Text(_) => {},
        SpecHtml::Element(tag, attrs, children) => {
            let cs = t1.children_of(id);
            assert forall|k: int| 0 <= k < cs.len() implies e < #[trigger] cs[k] && t1.live(cs[k] as int) by {
                assert(t1.live(id) && 0 <= k < t1.children_of(id).len());
            }
            lemma_holds_all_grows(t1, t2, e, cs, children);
        },
    }
}

proof fn lemma_holds_all_grows(t1: DomTree, t2: DomTree, e: int, ids: Seq<usize>, hs: Seq<SpecHtml>)
    requires
        t1.wf(),
        grows(t1, t2, e),
        forall|k: int| 0 <= k < ids.len() ==> e < #[trigger] ids[k] && t1.live(ids[k] as int),
        holds_all(t1, ids, hs),
    ensures
        holds_all(t2, ids, hs),
    decreases hs,
{
    if hs.len() == 0 {
    } else if hs[hs.len() - 1] is Comment {
        lemma_holds_all_grows(t1, t2, e, ids, hs.subrange(0, hs.len() - 1));
    } else {
        let rest = ids.subrange(0, ids.len() - 1);
        assert forall|k: int| 0 <= k < rest.len() implies e < #[trigger] rest[k] && t1.live(rest[k] as int) by {
            assert(rest[k] == ids[k]);
        }
        lemma_holds_grows(t1, t2, e, ids[ids.len() - 1] as int, hs[hs.len() - 1]);
        lemma_holds_all_grows(t1, t2, e, rest, hs.subrange(0, hs.len() - 1));
    }
}

/// `name="value"`, or just `name` for an empty value.
pub open spec fn attribute_text(name: Seq<char>, value: Seq<char>) -> Seq<char> {
    if value.len() > 0 {
        name + seq!['=', '"'] + value + seq!['"']
    } else {
        name
    }
}

/// The attribute texts of `ps` joined by single spaces.
pub open spec fn attributes_text(ps: Seq<(String, String)>) -> Seq<char>
    decreases ps.len(),
{
    if ps.len() == 0 {
        Seq::empty()
    } else if ps.len() == 1 {
        attribute_text(ps[0].0@, ps[0].1@)
    } else {
        attributes_text(ps.drop_last()) + seq![' '] + attribute_text(ps.last().0@, ps.last().1@)
    }
}

/// Html text of the subtree at `id`. Childless `link` and `meta` elements
/// are written self-closing.
pub open spec fn html_content(t: DomTree, id: int) -> Seq<char>
    decreases t.size() - id, t.children_of(id).len() + 1,
{
    if !t.live(id) || id < 0 || id >= t.size() {
        Seq::empty()
    } else {
        match t.kind_of(id) {
            DomNodeKind::Text { text } => text@,
            DomNodeKind::Element { tag, attributes } => {
                let a = attributes_text(attributes.pairs());
                let sp = if a.len() > 0 { seq![' '] } else { Seq::empty() };
                if t.children_of(id).len() == 0 && (tag@ == seq!['l', 'i', 'n', 'k'] || tag@ == seq!['m', 'e', 't', 'a']) {
                    seq!['<'] + tag@ + sp + a + seq!['/', '>']
                } else {
                    seq!['<'] + tag@ + sp + a + seq!['>'] + children_content(t, id, 0) + seq!['<', '/'] + tag@ + seq!['>']
                }
            },
        }
    }
}

/// Html text of the children of `id` from the `k`-th on.
pub open spec fn children_content(t: DomTree, id: int, k: int) -> Seq<char>
    decreases t.size() - id, t.children_of(id).len() - k,
{
    let cs = t.children_of(id);
    if k < 0 || k >= cs.len() || id < 0 {
        Seq::empty()
    } else {
        let c = cs[k];
        if c > id && c <= t.size() {
            html_content(t, c as int) + children_content(t, id, k + 1)
        } else {
            Seq::empty()
        }
    }
}

/// The document text: a doctype followed by the html of the whole tree.
pub open spec fn document_text(t: DomTree) -> Seq<char> {
    "<!DOCTYPE html>"@ + html_content(t, 0)
}

/// `a` is `i` or one of its ancestors; every node on the way is live.
pub open spec fn anc(t: DomTree, i: int, a: int) -> bool
    decreases i,
{
    t.live(i) && (i == a || (t.parent_of(i) matches Some(p) && 0 <= p < i && anc(t, p as int, a)))
}

/// Kinds of nodes that validation may remove: empty texts and paragraphs.
pub open spec fn removable(k: DomNodeKind) -> bool {
    match k {
        DomNodeKind::Text { text } => text@.len() == 0,
        DomNodeKind::Element { tag, .. } => tag@ == seq!['p'],
    }
}

/// Whether a node is a paragraph.
pub open spec fn is_paragraph(k: DomNodeKind) -> bool {
    match k {
        DomNodeKind::Element { tag, .. } => tag@ == seq!['p'],
        _ => false,
    }
}

/// None of the children that node `i` has in `o` is live in `f`.
pub open spec fn children_gone(o: DomTree, f: DomTree, i: int) -> bool {
    forall|m: int| 0 <= m < o.children_of(i).len() ==> !f.live(#[trigger] o.children_of(i)[m] as int)
}

/// Node `i` is neither an empty text nor a paragraph without children.
pub open spec fn clean(t: DomTree, i: int) -> bool {
    match t.kind_of(i) {
        DomNodeKind::Text { text } => text@.len() > 0,
        DomNodeKind::Element { tag, .. } => tag@ != seq!['p'] || t.children_of(i).len() > 0,
    }
}

/// Node `i` is the same in `a` and `b`.
pub open spec fn same_node(a: DomTree, b: DomTree, i: int) -> bool {
    &&& a.live(i) == b.live(i)
    &&& a.live(i) ==> {
        &&& a.kind_of(i) == b.kind_of(i)
        &&& a.children_of(i) == b.children_of(i)
        &&& a.parent_of(i) == b.parent_of(i)
    }
}

proof fn lemma_anc_le(t: DomTree, i: int, a: int)
    requires
        anc(t, i, a),
    ensures
        a <= i,
    decreases i,
{
    if i != a {
        lemma_anc_le(t, t.parent_of(i)->0 as int, a);
    }
}

proof fn lemma_anc_trans(t: DomTree, i: int, b: int, a: int)
    requires
        anc(t, i, b),
        anc(t, b, a),
    ensures
        anc(t, i, a),
    decreases i,
{
    if i != b {
        lemma_anc_trans(t, t.parent_of(i)->0 as int, b, a);
    }
}

proof fn lemma_anc_linear(t: DomTree, i: int, a: int, b: int)
    requires
        anc(t, i, a),
        anc(t, i, b),
    ensures
        anc(t, a, b) || anc(t, b, a),
    decreases i,
{
    if i != a && i != b {
        lemma_anc_linear(t, t.parent_of(i)->0 as int, a, b);
    }
}

proof fn lemma_anc_child(t: DomTree, x: int, k: int)
    requires
        t.wf(),
        t.live(x),
        0 <= k < t.children_of(x).len(),
    ensures
        anc(t, t.children_of(x)[k] as int, x),
{
    let c = t.children_of(x)[k];
    assert(t.live(x) && 0 <= k < t.children_of(x).len());
    assert(t.live(c as int) && t.parent_of(c as int) == Some(x as usize) && x < c);
    assert(anc(t, x, x));
}

/// The subtrees of two different children of a node do not meet.
proof fn lemma_anc_disjoint(t: DomTree, x: int, j: int, k: int, i: int)
    requires
        t.wf(),
        t.live(x),
        0 <= j < t.children_of(x).len(),
        0 <= k < t.children_of(x).len(),
        j != k,
        anc(t, i, t.children_of(x)[j] as int),
    ensures
        !anc(t, i, t.children_of(x)[k] as int),
{
    let cj = t.children_of(x)[j] as int;
    let ck = t.children_of(x)[k] as int;
    assert(t.children_of(x).no_duplicates());
    assert(cj != ck);
    if anc(t, i, ck) {
        lemma_anc_linear(t, i, cj, ck);
        lemma_anc_child(t, x, j);
        lemma_anc_child(t, x, k);
        if anc(t, cj, ck) {
            // cj's parent is x, which is below ck
            assert(t.parent_of(cj) == Some(x as usize));
            lemma_anc_le(t, x, ck);
        } else {
            assert(t.parent_of(ck) == Some(x as usize));
            lemma_anc_le(t, x, cj);
        }
    }
}

/// A depth first walk from a live node visits exactly the nodes below it,
/// each once: the node itself, then the subtrees of its children, the last
/// child first.
pub proof fn law_preorder_exactly_once(t: DomTree, id: int)
    requires
        t.wf(),
        t.live(id),
    ensures
        t.preorder(id).no_duplicates(),
        forall|x: usize| #[trigger] t.preorder(id).contains(x) <==> anc(t, x as int, id),
    decreases t.size() - id, t.children_of(id).len() + 1,
{
    let cs = t.children_of(id);
    lemma_preorder_children_once(t, id, 0);
    let rest = t.preorder_children(id, 0);
    let p = t.preorder(id);
    assert(p == seq![id as usize] + rest);
    assert(0 <= id);
    assert forall|x: usize| #[trigger] p.contains(x) <==> anc(t, x as int, id) by {
        if p.contains(x) {
            let i = choose|i: int| 0 <= i < p.len() && p[i] == x;
            if i > 0 {
                assert(rest[i - 1] == x);
                assert(rest.contains(x));
                let j = choose|j: int| 0 <= j < cs.len() && anc(t, x as int, #[trigger] cs[j] as int);
                lemma_anc_child(t, id, j);
                lemma_anc_trans(t, x as int, cs[j] as int, id);
            } else {
                assert(anc(t, id, id));
            }
        }
        if anc(t, x as int, id) {
            if x as int == id {
                assert(p[0] == x);
            } else {
                lemma_anc_cover(t, id, x as int);
                let j = choose|j: int| 0 <= j < cs.len() && anc(t, x as int, #[trigger] cs[j] as int);
                assert(rest.contains(x));
                let i = choose|i: int| 0 <= i < rest.len() && rest[i] == x;
                assert(p[i + 1] == x);
            }
        }
    }
    assert forall|a: int, b: int| 0 <= a < b < p.len() implies p[a] != p[b] by {
        if a == 0 {
            assert(rest.contains(p[b])) by {
                assert(rest[b - 1] == p[b]);
            }
            let j = choose|j: int| 0 <= j < cs.len() && anc(t, p[b] as int, #[trigger] cs[j] as int);
            lemma_anc_le(t, p[b] as int, cs[j] as int);
            lemma_anc_child(t, id, j);
            assert(t.live(id) && 0 <= j < cs.len());
        } else {
            assert(p[a] == rest[a - 1]);
            assert(p[b] == rest[b - 1]);
        }
    }
}

/// The subtrees of the children of `id` from the `k`-th last child on hold
/// each node below those children once.
proof fn lemma_preorder_children_once(t: DomTree, id: int, k: int)
    requires
        t.wf(),
        t.live(id),
        0 <= k,
    ensures
        t.preorder_children(id, k).no_duplicates(),
        forall|x: usize| #[trigger] t.preorder_children(id, k).contains(x) <==> exists|j: int|
            0 <= j < t.children_of(id).len() - k && anc(t, x as int, #[trigger] t.children_of(id)[j] as int),
    decreases t.size() - id, t.children_of(id).len() - k,
{
    let cs = t.children_of(id);
    if k >= cs.len() {
        assert forall|x: usize| #[trigger] t.preorder_children(id, k).contains(x) <==> exists|j: int|
            0 <= j < cs.len() - k && anc(t, x as int, #[trigger] cs[j] as int) by {}
    } else {
        let jj = cs.len() - 1 - k;
        let c = cs[jj];
        lemma_anc_child(t, id, jj);
        assert(t.live(id) && 0 <= jj < cs.len());
        assert(id < c < t.size());
        law_preorder_exactly_once(t, c as int);
        lemma_preorder_children_once(t, id, k + 1);
        let a = t.preorder(c as int);
        let b = t.preorder_children(id, k + 1);
        let r = t.preorder_children(id, k);
        assert(r == a + b);
        assert forall|x: usize| #[trigger] r.contains(x) <==> exists|j: int|
            0 <= j < cs.len() - k && anc(t, x as int, #[trigger] cs[j] as int) by {
            if r.contains(x) {
                let i = choose|i: int| 0 <= i < r.len() && r[i] == x;
                if i < a.len() {
                    assert(a[i] == x);
                    assert(a.contains(x));
                    assert(anc(t, x as int, cs[jj] as int));
                } else {
                    assert(b[i - a.len()] == x);
                    assert(b.contains(x));
                }
            }
            if exists|j: int| 0 <= j < cs.len() - k && anc(t, x as int, #[trigger] cs[j] as int) {
                let j = choose|j: int| 0 <= j < cs.len() - k && anc(t, x as int, #[trigger] cs[j] as int);
                if j == jj {
                    assert(a.contains(x));
                    let i = choose|i: int| 0 <= i < a.len() && a[i] == x;
                    assert(r[i] == x);
                } else {
                    assert(b.contains(x));
                    let i = choose|i: int| 0 <= i < b.len() && b[i] == x;
                    assert(r[a.len() + i] == x);
                }
            }
        }
        assert forall|u: int, v: int| 0 <= u < v < r.len() implies r[u] != r[v] by {
            if u < a.len() && v >= a.len() {
                let x = r[v];
                assert(b[v - a.len()] == x);
                assert(b.contains(x));
                let j = choose|j: int| 0 <= j < cs.len() - (k + 1) && anc(t, x as int, #[trigger] cs[j] as int);
                assert(a[u] == r[u]);
                assert(a.contains(r[u]));
                if r[u] == x {
                    lemma_anc_disjoint(t, id, j, jj, x as int);
                }
            } else if v < a.len() {
                assert(r[u] == a[u] && r[v] == a[v]);
            } else {
                assert(r[u] == b[u - a.len()] && r[v] == b[v - a.len()]);
            }
        }
    }
}

/// A node below `x` other than `x` is below one of `x`'s children.
proof fn lemma_anc_cover(t: DomTree, x: int, i: int)
    requires
        t.wf(),
        anc(t, i, x),
        i != x,
    ensures
        exists|k: int| 0 <= k < t.children_of(x).len() && anc(t, i, #[trigger] t.children_of(x)[k] as int),
    decreases i,
{
    let p = t.parent_of(i)->0 as int;
    assert(t.live(i) && i != 0) by {
        lemma_anc_le(t, i, x);
    }
    assert(t.children_of(p).contains(i as usize));
    if p == x {
        let k = t.children_of(x).index_of(i as usize);
        t.children_of(x).index_of_first_ensures(i as usize);
        assert(anc(t, i, i));
    } else {
        lemma_anc_cover(t, x, p);
        let k = choose|k: int| 0 <= k < t.children_of(x).len() && anc(t, p, #[trigger] t.children_of(x)[k] as int);
        assert(anc(t, i, t.children_of(x)[k] as int));
    }
}

/// Every live node of a well-formed tree is below the root.
proof fn lemma_anc_root(t: DomTree, i: int)
    requires
        t.wf(),
        t.live(i),
    ensures
        anc(t, i, 0),
    decreases i,
{
    if i != 0 {
        let p = t.parent_of(i)->0 as int;
        assert(t.live(i) && i != 0);
        lemma_anc_root(t, p);
    }
}

/// The order in which a depth first traversal visits the subtrees of the
/// pending ids `stack`, the last one first.
pub open spec fn stack_order(t: DomTree, stack: Seq<usize>) -> Seq<usize>
    decreases stack.len(),
{
    if stack.len() == 0 {
        Seq::empty()
    } else {
        t.preorder(stack.last() as int) + stack_order(t, stack.drop_last())
    }
}

/// Pushing the children of `id` on a stack puts their subtrees, last child
/// first, in front of what was pending.
pub proof fn lemma_stack_children(t: DomTree, id: int, rest: Seq<usize>, k: int)
    requires
        t.wf(),
        t.live(id),
        0 <= k <= t.children_of(id).len(),
    ensures
        stack_order(t, rest + t.children_of(id).subrange(0, t.children_of(id).len() - k))
            == t.preorder_children(id, k) + stack_order(t, rest),
    decreases t.children_of(id).len() - k,
{
    let cs = t.children_of(id);
    let n = cs.len() as int;
    let s = rest + cs.subrange(0, n - k);
    if k == n {
        assert(s =~= rest);
        assert(t.preorder_children(id, k) + stack_order(t, rest) =~= stack_order(t, rest));
    } else {
        lemma_stack_children(t, id, rest, k + 1);
        assert(s.drop_last() =~= rest + cs.subrange(0, n - (k + 1)));
        assert(s.last() == cs[n - 1 - k]);
        let c = cs[n - 1 - k];
        assert(t.live(id) && 0 <= n - 1 - k < t.children_of(id).len());
        assert(c > id && t.live(c as int));
        assert(c < t.size());
        assert(t.preorder(c as int) + (t.preorder_children(id, k + 1) + stack_order(t, rest))
            =~= (t.preorder(c as int) + t.preorder_children(id, k + 1)) + stack_order(t, rest));
    }
}

proof fn lemma_with_tag_append(t: DomTree, a: Seq<usize>, b: Seq<usize>, tag: Seq<char>)
    ensures
        with_tag(t, a + b, tag) == with_tag(t, a, tag) + with_tag(t, b, tag),
    decreases b.len(),
{
    if b.len() == 0 {
        assert(a + b =~= a);
        assert(with_tag(t, a, tag) + Seq::<usize>::empty() =~= with_tag(t, a, tag));
    } else {
        assert((a + b).drop_last() =~= a + b.drop_last());
        lemma_with_tag_append(t, a, b.drop_last(), tag);
        let x = with_tag(t, a, tag);
        let y = with_tag(t, b.drop_last(), tag);
        match t.kind_of(b.last() as int) {
            DomNodeKind::Element { tag: tg, .. } => if tg@ == tag {
                assert(x + y.push(b.last()) =~= (x + y).push(b.last()));
            },
            _ => {},
        }
    }
}

impl DomTree {
    pub fn new() -> (t: DomTree)
        ensures
            t.wf(),
            t.size() == 3,
            t.children_of(0) == seq![1usize, 2usize],
            t.kind_of(0) matches DomNodeKind::Element { tag, attributes } && tag@ == "html"@ && attributes@.len() == 0,
            t.kind_of(1) matches DomNodeKind::Element { tag, attributes } && tag@ == "head"@ && attributes@.len() == 0,
            t.kind_of(2) matches DomNodeKind::Element { tag, attributes } && tag@ == "body"@ && attributes@.len() == 0,
            t.children_of(1).len() == 0,
            t.children_of(2).len() == 0,
    {
        let mut tree = DomTree {
            root: 0,
            nodes: vec![Some(DomNode {
                kind: DomNodeKind::Element { tag: "html".to_string(), attributes: Attributes::new() },
                children: vec![],
                parent: None,
            })],
        };
        proof {
            assert(tree.wf());
        }
        tree.add_element(0, "head");
        tree.add_element(0, "body");
        proof {
            assert(tree.children_of(0) =~= seq![1usize, 2usize]);
        }
        tree
    }

    /// The node with id `id`; `None` for removed and unknown ids.
    pub fn try_get(&self, id: DomId) -> (r: Option<&DomNode>)
        ensures
            r matches Some(n) ==> self.node(id as int) == Some(*n),
            r is None ==> self.node(id as int) is None,
    {
        if id < self.nodes.len() {
            match &self.nodes[id] {
                Some(n) => Some(n),
                None => None,
            }
        } else {
            None
        }
    }

    /// The node with id `id`.
    pub fn index(&self, id: DomId) -> (r: &DomNode)
        requires
            self.live(id as int),
        ensures
            self.node(id as int) == Some(*r),
    {
        self.nodes[id].as_ref().unwrap()
    }

    /// Number of ids handed out so far (removed nodes included).
    pub fn len(&self) -> (n: usize)
        ensures
            n == self.size(),
    {
        self.nodes.len()
    }

    /// Sets the kind of node `id`.
    pub fn set_kind(&mut self, id: DomId, kind: DomNodeKind)
        requires
            old(self).wf(),
            old(self).live(id as int),
        ensures
            final(self).wf(),
            final(self).size() == old(self).size(),
            final(self).kind_of(id as int) == kind,
            forall|i: int| #[trigger] final(self).live(i) == old(self).live(i),
            forall|i: int| #[trigger] final(self).children_of(i) == old(self).children_of(i),
            forall|i: int| #[trigger] final(self).parent_of(i) == old(self).parent_of(i),
            forall|i: int| i != id ==> #[trigger] final(self).kind_of(i) == old(self).kind_of(i),
    {
        let mut slot: Option<DomNode> = None;
        std::mem::swap(&mut slot, &mut self.nodes[id]);
        let node = slot.unwrap();
        let DomNode { kind: _, children, parent } = node;
        self.nodes.set(id, Some(DomNode { kind, children, parent }));
        proof {
            assert forall|i: int| #[trigger] self.live(i) == old(self).live(i) by {}
        }
    }

    /// Add a node to the tree, return the id (index) of the node
    pub fn add(&mut self, parent_id: DomId, kind: DomNodeKind) -> (id: usize)
        requires
            old(self).wf(),
            old(self).live(parent_id as int),
        ensures
            final(self).wf(),
            added(*old(self), *final(self), parent_id, kind, id),
    {
        let id = self.nodes.len();
        let mut slot: Option<DomNode> = None;
        std::mem::swap(&mut slot, &mut self.nodes[parent_id]);
        let mut parent = slot.unwrap();
        parent.children.push(id);
        self.nodes.set(parent_id, Some(parent));
        self.nodes.push(Some(DomNode { kind, children: vec![], parent: Some(parent_id) }));
        proof {
            let o = old(self);
            assert forall|i: int| 0 <= i < o.size() && i != parent_id implies #[trigger] self.node(i) == o.node(i) by {}
            assert(self.live(parent_id as int));
            assert(self.kind_of(parent_id as int) == o.kind_of(parent_id as int));
            assert(self.parent_of(parent_id as int) == o.parent_of(parent_id as int));
            assert(self.children_of(parent_id as int) == o.children_of(parent_id as int).push(id));
            assert forall|i: int| 0 <= i < o.size() implies #[trigger] self.live(i) == o.live(i) by {
                if i != parent_id {
                    assert(self.node(i) == o.node(i));
                }
            }
            assert forall|i: int| #[trigger] self.live(i) && i != 0 implies {
                &&& self.parent_of(i) matches Some(p)
                &&& p < i
                &&& self.live(p as int)
                &&& self.children_of(p as int).contains(i as usize)
            } by {
                if i < o.size() {
                    assert(o.live(i));
                    if i != parent_id {
                        assert(self.node(i) == o.node(i));
                    }
                    let p = o.parent_of(i)->0;
                    if p != parent_id {
                        assert(self.node(p as int) == o.node(p as int));
                    }
                    if p == parent_id {
                        assert(o.children_of(p as int).contains(i as usize));
                        let k = choose|k: int| 0 <= k < o.children_of(p as int).len() && o.children_of(p as int)[k] == i as usize;
                        assert(self.children_of(p as int)[k] == i as usize);
                    }
                } else {
                    assert(self.children_of(parent_id as int).last() == id);
                }
            }
            assert forall|i: int, k: int| #[trigger] self.live(i) && 0 <= k < self.children_of(i).len() implies {
                let c = #[trigger] self.children_of(i)[k];
                &&& i < c
                &&& self.live(c as int)
                &&& self.parent_of(c as int) == Some(i as usize)
            } by {
                if i == parent_id && k == o.children_of(i).len() {
                } else if i < o.size() {
                    assert(self.children_of(i)[k] == o.children_of(i)[k]);
                    let c = o.children_of(i)[k];
                    assert(o.live(i) && 0 <= k < o.children_of(i).len());
                }
            }
            assert forall|i: int| #[trigger] self.live(i) implies self.children_of(i).no_duplicates() by {
                if i == parent_id {
                    assert forall|a: int, b: int| 0 <= a < b < self.children_of(i).len() implies self.children_of(i)[a] != self.children_of(i)[b] by {
                        if b == o.children_of(i).len() {
                            let c = o.children_of(i)[a];
                            assert(o.live(i) && 0 <= a < o.children_of(i).len());
                            assert(c < o.size());
                        }
                    }
                }
            }
        }
        id
    }

    /// Add an element node to the tree, return its id
    pub fn add_element(&mut self, parent_id: DomId, tag: &str) -> (id: usize)
        requires
            old(self).wf(),
            old(self).live(parent_id as int),
        ensures
            final(self).wf(),
            id == old(self).size(),
            final(self).size() == old(self).size() + 1,
            final(self).live(id as int),
            final(self).kind_of(id as int) matches DomNodeKind::Element { tag: t, attributes }
                && t@ == tag@ && attributes@.len() == 0,
            final(self).children_of(id as int).len() == 0,
            final(self).parent_of(id as int) == Some(parent_id),
            final(self).children_of(parent_id as int) == old(self).children_of(parent_id as int).push(id),
            forall|i: int| 0 <= i < old(self).size() ==> #[trigger] final(self).live(i) == old(self).live(i),
            forall|i: int| 0 <= i < old(self).size() ==> #[trigger] final(self).kind_of(i) == old(self).kind_of(i),
            forall|i: int| 0 <= i < old(self).size() ==> #[trigger] final(self).parent_of(i) == old(self).parent_of(i),
            forall|i: int| 0 <= i < old(self).size() && i != parent_id ==> #[trigger] final(self).children_of(i) == old(self).children_of(i),
    {
        self.add(parent_id, DomNodeKind::Element { tag: tag.to_owned(), attributes: Attributes::new() })
    }

    pub fn add_element_with_attributes(&mut self, parent_id: DomId, tag: &str, attributes: Attributes) -> (id: DomId)
        requires
            old(self).wf(),
            old(self).live(parent_id as int),
        ensures
            final(self).wf(),
            id == old(self).size(),
            final(self).size() == old(self).size() + 1,
            final(self).live(id as int),
            final(self).kind_of(id as int) matches DomNodeKind::Element { tag: t, attributes: a }
                && t@ == tag@ && a@ == attributes@,
            final(self).children_of(id as int).len() == 0,
            final(self).parent_of(id as int) == Some(parent_id),
            final(self).children_of(parent_id as int) == old(self).children_of(parent_id as int).push(id),
            forall|i: int| 0 <= i < old(self).size() ==> #[trigger] final(self).live(i) == old(self).live(i),
            forall|i: int| 0 <= i < old(self).size() ==> #[trigger] final(self).kind_of(i) == old(self).kind_of(i),
            forall|i: int| 0 <= i < old(self).size() ==> #[trigger] final(self).parent_of(i) == old(self).parent_of(i),
            forall|i: int| 0 <= i < old(self).size() && i != parent_id ==> #[trigger] final(self).children_of(i) == old(self).children_of(i),
    {
        self.add(parent_id, DomNodeKind::Element { tag: tag.to_owned(), attributes })
    }

    /// Add a text node to the tree, return its id
    pub fn add_text(&mut self, parent_id: DomId, text: &str) -> (id: usize)
        requires
            old(self).wf(),
            old(self).live(parent_id as int),
        ensures
            final(self).wf(),
            id == old(self).size(),
            final(self).size() == old(self).size() + 1,
            final(self).live(id as int),
            final(self).kind_of(id as int) matches DomNodeKind::Text { text: t } && t@ == text@,
            final(self).children_of(id as int).len() == 0,
            final(self).parent_of(id as int) == Some(parent_id),
            final(self).children_of(parent_id as int) == old(self).children_of(parent_id as int).push(id),
            forall|i: int| 0 <= i < old(self).size() ==> #[trigger] final(self).live(i) == old(self).live(i),
            forall|i: int| 0 <= i < old(self).size() ==> #[trigger] final(self).kind_of(i) == old(self).kind_of(i),
            forall|i: int| 0 <= i < old(self).size() ==> #[trigger] final(self).parent_of(i) == old(self).parent_of(i),
            forall|i: int| 0 <= i < old(self).size() && i != parent_id ==> #[trigger] final(self).children_of(i) == old(self).children_of(i),
    {
        self.add(parent_id, DomNodeKind::Text { text: text.to_owned() })
    }
}


impl DomTree {
    /// Get all elements with a certain html tag, in depth first order.
    #[verifier::spinoff_prover]
    #[verifier::rlimit(60)]
    pub fn get_elements_by_tag_name(&self, tag_name: &str) -> (r: Vec<DomId>)
        requires
            self.wf(),
        ensures
            r@ == with_tag(*self, self.preorder(0), tag_name@),
    {
        let mut out: Vec<DomId> = Vec::new();
        let mut dfs = Dfs::new(self);
        let ghost mut visited: Seq<usize> = Seq::empty();
        proof {
            assert(seq![0usize].drop_last() =~= Seq::<usize>::empty());
            assert(stack_order(*self, seq![0usize]) =~= self.preorder(0) + stack_order(*self, Seq::empty()));
            assert(self.preorder(0) + Seq::<usize>::empty() =~= self.preorder(0));
        }
        loop
            invariant
                self.wf(),
                dfs.tree() == *self,
                forall|i: int| 0 <= i < dfs.pending().len() ==> self.live(#[trigger] dfs.pending()[i] as int),
                visited + stack_order(*self, dfs.pending()) == self.preorder(0),
                out@ == with_tag(*self, visited, tag_name@),
            decreases stack_order(*self, dfs.pending()).len(),
        {
            let ghost before = dfs.pending();
            proof {
                if before.len() > 0 {
                    assert(self.live(before[before.len() - 1] as int));
                }
            }
            match dfs.next() {
                None => {
                    proof {
                        assert(visited + Seq::<usize>::empty() =~= visited);
                    }
                    return out;
                },
                Some(id) => {
                    let ghost rest = before.drop_last();
                    let ghost cs = self.children_of(id as int);
                    proof {
                        assert(self.live(id as int));
                        assert(id == before.last());
                        assert(stack_order(*self, before) == self.preorder(id as int) + stack_order(*self, rest));
                        assert(dfs.pending() == rest + cs);
                        lemma_stack_children(*self, id as int, rest, 0);
                        assert(cs.subrange(0, cs.len() as int) =~= cs);
                        assert(self.preorder(id as int) == seq![id] + self.preorder_children(id as int, 0));
                        assert(visited.push(id) + stack_order(*self, dfs.pending())
                            =~= visited + (seq![id] + self.preorder_children(id as int, 0) + stack_order(*self, rest)));
                        assert forall|i: int| 0 <= i < dfs.pending().len() implies self.live(#[trigger] dfs.pending()[i] as int) by {
                            if i < rest.len() {
                                assert(dfs.pending()[i] == before[i]);
                            } else {
                                assert(dfs.pending()[i] == cs[i - rest.len()]);
                                assert(self.live(id as int) && 0 <= i - rest.len() < self.children_of(id as int).len());
                            }
                        }
                    }
                    let ghost old_visited = visited;
                    proof {
                        visited = visited.push(id);
                        assert(visited.drop_last() =~= old_visited);
                    }
                    let node = self.get(id);
                    match &node.kind {
                        DomNodeKind::Element { tag, .. } => {
                            if str_eq(tag.as_str(), tag_name) {
                                out.push(id);
                            }
                        },
                        DomNodeKind::Text { .. } => {},
                    }
                    proof {
                        assert(node.kind == self.kind_of(id as int));
                    }
                },
            }
        }
    }
}

impl DomTree {
    /// Add parsed html to the tree, under `parent_id`. Comments are left out.
    pub fn add_html(&mut self, parent_id: DomId, html: Html) -> (r: Option<usize>)
        requires
            old(self).wf(),
            old(self).live(parent_id as int),
        ensures
            final(self).wf(),
            grows(*old(self), *final(self), parent_id as int),
            html@ is Comment ==> r is None && *final(self) == *old(self),
            !(html@ is Comment) ==> {
                &&& r == Some(old(self).size() as usize)
                &&& holds(*final(self), old(self).size() as int, html@)
                &&& final(self).parent_of(old(self).size() as int) == Some(parent_id)
                &&& final(self).children_of(parent_id as int) == old(self).children_of(parent_id as int).push(
                    old(self).size() as usize,
                )
            },
        decreases html,
    {
        let ghost h = html@;
        let ghost hv = html;
        match html {
            Html::Comment { .. } => None,
            Html::Text { text } => {
                let id = self.add_text(parent_id, text.as_str());
                Some(id)
            },
            Html::Element { tag, attributes, children } => {
                let ghost o = *self;
                let ghost orig = children@;
                let ghost hs = h->Element_2;
                proof {
                    assert(hs.len() == orig.len());
                    assert forall|k: int| 0 <= k < orig.len() implies #[trigger] hs[k] == orig[k]@ by {}
                }
                let element = self.add_element_with_attributes(parent_id, tag.as_str(), attributes);
                let ghost e = element as int;
                proof {
                    assert(holds_all(*self, self.children_of(e), hs.subrange(0, 0)));
                    assert(self.children_of(parent_id as int) == o.children_of(parent_id as int).push(element));
                }
                let mut rest = children;
                let n = rest.len();
                let mut k: usize = 0;
                while k < n
                    invariant
                        hv == html,
                        hv is Element,
                        orig == hv->Element_children@,
                        n == orig.len(),
                        k <= n,
                        rest@ == orig.subrange(k as int, n as int),
                        hs.len() == n,
                        forall|j: int| 0 <= j < n ==> #[trigger] hs[j] == orig[j]@,
                        e == o.size(),
                        element == e,
                        self.wf(),
                        self.live(e),
                        self.kind_of(e) matches DomNodeKind::Element { tag: tg, attributes: a } && tg@ == tag@ && a@ == h->Element_1,
                        self.parent_of(e) == Some(parent_id),
                        holds_all(*self, self.children_of(e), hs.subrange(0, k as int)),
                        grows(o, *self, parent_id as int),
                        self.children_of(parent_id as int) == o.children_of(parent_id as int).push(element),
                        self.size() > e,
                    decreases n - k,
                {
                    let child = rest.remove(0);
                    proof {
                        assert(child == orig[k as int]);
                        assert(decreases_to!(hv => child)) by {
                            assert(hv is Element);
                            assert(orig == hv->Element_children@);
                            assert(decreases_to!(hv => hv->Element_children));
                            assert(decreases_to!(hv->Element_children => hv->Element_children@));
                            assert(decreases_to!(hv->Element_children@ => hv->Element_children@[k as int]));
                        }
                    }
                    let ghost before = *self;
                    let ghost ids = self.children_of(e);
                    let r = self.add_html(element, child);
                    proof {
                        assert(hs.subrange(0, k + 1).subrange(0, k as int) =~= hs.subrange(0, k as int));
                        assert(hs.subrange(0, k + 1)[k as int] == child@);
                        let cs = before.children_of(e);
                        assert forall|j: int| 0 <= j < cs.len() implies e < #[trigger] cs[j] && before.live(cs[j] as int) by {
                            assert(before.live(e) && 0 <= j < before.children_of(e).len());
                        }
                        if child@ is Comment {
                        } else {
                            lemma_holds_all_grows(before, *self, e, ids, hs.subrange(0, k as int));
                            let nids = self.children_of(e);
                            assert(nids.subrange(0, nids.len() - 1) =~= ids);
                        }
                        assert(rest@ =~= orig.subrange(k + 1, n as int));
                    }
                    k += 1;
                }
                proof {
                    assert(hs.subrange(0, n as int) =~= hs);
                }
                Some(element)
            },
        }
    }
}

impl DomTree {
    /// Appends the attribute texts of `ps`, joined by spaces, to `out`.
    fn push_attributes(out: &mut String, ps: &Vec<(String, String)>)
        ensures
            final(out)@ == old(out)@ + attributes_text(ps@),
    {
        let ghost start = out@;
        let mut k: usize = 0;
        while k < ps.len()
            invariant
                k <= ps.len(),
                out@ == start + attributes_text(ps@.subrange(0, k as int)),
            decreases ps.len() - k,
        {
            let ghost before = out@;
            if k > 0 {
                push_str(out, " ");
            }
            push_str(out, ps[k].0.as_str());
            if !ps[k].1.as_str().is_empty() {
                push_str(out, "=\"");
                push_str(out, ps[k].1.as_str());
                push_str(out, "\"");
            }
            proof {
                reveal_strlit(" ");
                reveal_strlit("=\"");
                reveal_strlit("\"");
                let sub = ps@.subrange(0, k + 1);
                assert(sub.drop_last() =~= ps@.subrange(0, k as int));
                assert(sub.last() == ps@[k as int]);
                if k == 0 {
                    assert(attributes_text(ps@.subrange(0, 0)) =~= Seq::<char>::empty());
                }
                assert(out@ =~= start + attributes_text(sub));
            }
            k += 1;
        }
        proof {
            assert(ps@.subrange(0, ps@.len() as int) =~= ps@);
        }
    }

    #[verifier::spinoff_prover]
    #[verifier::rlimit(40)]
    fn to_html_content_recurs(&self, id: DomId, out: &mut String)
        requires
            self.wf(),
            self.live(id as int),
        ensures
            final(out)@ == old(out)@ + html_content(*self, id as int),
        decreases self.size() - id,
    {
        let node = self.get(id);
        proof {
            assert(0 <= id < self.size());
            assert(node.kind == self.kind_of(id as int));
            assert(node.spec_children() == self.children_of(id as int));
        }
        match &node.kind {
            DomNodeKind::Text { text } => {
                push_str(out, text.as_str());
            },
            DomNodeKind::Element { tag, attributes } => {
                let mut a = String::new();
                Self::push_attributes(&mut a, attributes.entries());
                let ghost start = out@;
                push_str(out, "<");
                push_str(out, tag.as_str());
                if !a.as_str().is_empty() {
                    push_str(out, " ");
                }
                push_str(out, a.as_str());
                let children = node.children();
                let self_closing = str_eq(tag.as_str(), "link") || str_eq(tag.as_str(), "meta");
                proof {
                    reveal_strlit("<");
                    reveal_strlit(" ");
                    reveal_strlit("link");
                    reveal_strlit("meta");
                    assert(a@ =~= attributes_text(attributes.pairs()));
                    assert("link"@ =~= seq!['l', 'i', 'n', 'k']);
                    assert("meta"@ =~= seq!['m', 'e', 't', 'a']);
                    assert(self_closing == (tag@ == seq!['l', 'i', 'n', 'k'] || tag@ == seq!['m', 'e', 't', 'a']));
                    assert(self.kind_of(id as int) == DomNodeKind::Element { tag: *tag, attributes: *attributes });
                }
                if children.len() == 0 && self_closing {
                    push_str(out, "/>");
                    proof {
                        reveal_strlit("/>");
                        assert(html_content(*self, id as int) == seq!['<'] + tag@ + (if a@.len() > 0 { seq![' '] } else { Seq::empty() }) + a@ + seq!['/', '>']);
                        assert(out@ =~= start + html_content(*self, id as int));
                    }
                    return;
                }
                push_str(out, ">");
                let ghost mid = out@;
                let mut k: usize = 0;
                while k < children.len()
                    invariant
                        self.wf(),
                        self.live(id as int),
                        0 <= id < self.size(),
                        children@ == self.children_of(id as int),
                        k <= children.len(),
                        mid + children_content(*self, id as int, 0) == out@ + children_content(*self, id as int, k as int),
                    decreases children.len() - k,
                {
                    let c = children[k];
                    proof {
                        assert(self.live(id as int) && 0 <= k < self.children_of(id as int).len());
                        assert(c > id && self.live(c as int) && c < self.size());
                    }
                    let ghost before = out@;
                    self.to_html_content_recurs(c, out);
                    proof {
                        assert(before + children_content(*self, id as int, k as int)
                            =~= out@ + children_content(*self, id as int, k + 1));
                    }
                    k += 1;
                }
                proof {
                    assert(out@ + children_content(*self, id as int, children.len() as int) =~= out@);
                }
                push_str(out, "</");
                push_str(out, tag.as_str());
                push_str(out, ">");
                proof {
                    reveal_strlit(">");
                    reveal_strlit("</");
                    assert(html_content(*self, id as int) == seq!['<'] + tag@ + (if a@.len() > 0 { seq![' '] } else { Seq::empty() }) + a@ + seq!['>']
                        + children_content(*self, id as int, 0) + seq!['<', '/'] + tag@ + seq!['>']);
                    assert(out@ =~= start + html_content(*self, id as int));
                }
            },
        }
    }

    /// The html document of the tree.
    pub fn to_html_string(self) -> (r: String)
        requires
            self.wf(),
        ensures
            r@ == document_text(self),
    {
        let mut out = String::new();
        push_str(&mut out, "<!DOCTYPE html>");
        self.to_html_content_recurs(0, &mut out);
        out
    }
}

impl DomTree {
    /// A copy of a list of ids.
    fn copy_ids(v: &Vec<usize>) -> (r: Vec<usize>)
        ensures
            r@ == v@,
    {
        let mut r: Vec<usize> = Vec::new();
        let mut i: usize = 0;
        while i < v.len()
            invariant
                i <= v.len(),
                r@ == v@.take(i as int),
            decreases v.len() - i,
        {
            r.push(v[i]);
            proof {
                assert(v@.take(i + 1) =~= v@.take(i as int).push(v@[i as int]));
            }
            i += 1;
        }
        proof {
            assert(v@.take(v@.len() as int) =~= v@);
        }
        r
    }

    /// Validates the subtree at `id`, children first: empty texts and
    /// paragraphs left without children are removed. `o` is the tree as it
    /// was before validation began; the subtree at `id` is still as it was.
    #[verifier::spinoff_prover]
    #[verifier::rlimit(80)]
    fn validate_recurs(&mut self, id: DomId, Ghost(o): Ghost<DomTree>)
        requires
            old(self).wf(),
            o.wf(),
            old(self).size() == o.size(),
            o.live(id as int),
            forall|i: int| anc(o, i, id as int) ==> #[trigger] same_node(*old(self), o, i),
            id == 0 ==> !removable(o.kind_of(0)),
        ensures
            final(self).wf(),
            final(self).size() == old(self).size(),
            forall|i: int| !anc(o, i, id as int) && (id == 0 || i != o.parent_of(id as int)->0)
                ==> #[trigger] same_node(*final(self), *old(self), i),
            id != 0 ==> ({
                let q = o.parent_of(id as int)->0 as int;
                &&& final(self).live(q)
                &&& final(self).kind_of(q) == old(self).kind_of(q)
                &&& final(self).parent_of(q) == old(self).parent_of(q)
                &&& forall|k: int| 0 <= k < final(self).children_of(q).len() ==>
                    old(self).children_of(q).contains(#[trigger] final(self).children_of(q)[k])
                        || anc(o, final(self).children_of(q)[k] as int, id as int)
            }),
            forall|i: int| #[trigger] anc(o, i, id as int) ==> {
                &&& final(self).live(i) ==> {
                    &&& final(self).kind_of(i) == o.kind_of(i)
                    &&& clean(*final(self), i)
                    &&& forall|k: int| 0 <= k < final(self).children_of(i).len() ==>
                        anc(o, #[trigger] final(self).children_of(i)[k] as int, id as int)
                }
                &&& !final(self).live(i) ==> removable(o.kind_of(i))
                &&& !removable(o.kind_of(i)) ==> final(self).live(i)
            },
            id != 0 ==> forall|x: usize| #[trigger] old(self).children_of(o.parent_of(id as int)->0 as int).contains(x)
                && (x != id || final(self).live(id as int))
                ==> final(self).children_of(o.parent_of(id as int)->0 as int).contains(x),
            forall|i: int| #[trigger] anc(o, i, id as int) && !final(self).live(i) && is_paragraph(o.kind_of(i))
                ==> children_gone(o, *final(self), i),
        decreases o.size() - id,
    {
        let ghost t0 = *self;
        let ghost idi = id as int;
        proof {
            assert(anc(o, idi, idi));
            assert(same_node(t0, o, idi));
        }
        let cs = Self::copy_ids(self.index(id).children());
        let ghost csv = cs@;
        proof {
            assert(csv == o.children_of(idi));
            assert forall|i: int| anc(o, i, idi) && i != idi && (forall|j: int| 0 <= j < 0 ==> !anc(o, i, #[trigger] csv[j] as int))
                implies #[trigger] same_node(*self, o, i) by {}
            assert(self.children_of(idi) == csv);
            assert forall|j: int| 0 <= j < csv.len() implies self.children_of(idi).contains(#[trigger] csv[j]) by {
                assert(self.children_of(idi)[j] == csv[j]);
            }
        }
        let mut k: usize = 0;
        while k < cs.len()
            invariant
                o.wf(),
                o.live(idi),
                idi == id,
                csv == cs@,
                csv == o.children_of(idi),
                k <= cs.len(),
                self.wf(),
                self.size() == o.size(),
                t0.size() == o.size(),
                id == 0 ==> !removable(o.kind_of(0)),
                forall|i: int| !anc(o, i, idi) ==> #[trigger] same_node(*self, t0, i),
                self.live(idi),
                self.kind_of(idi) == o.kind_of(idi),
                self.parent_of(idi) == o.parent_of(idi),
                forall|m: int| 0 <= m < self.children_of(idi).len() ==>
                    anc(o, #[trigger] self.children_of(idi)[m] as int, idi) && self.children_of(idi)[m] != id,
                forall|i: int| anc(o, i, idi) && i != idi && (forall|j: int| 0 <= j < k ==> !anc(o, i, #[trigger] csv[j] as int))
                    ==> #[trigger] same_node(*self, o, i),
                forall|i: int, j: int| 0 <= j < k && #[trigger] anc(o, i, csv[j] as int) ==> {
                    &&& self.live(i) ==> {
                        &&& self.kind_of(i) == o.kind_of(i)
                        &&& clean(*self, i)
                        &&& forall|m: int| 0 <= m < self.children_of(i).len() ==>
                            anc(o, #[trigger] self.children_of(i)[m] as int, csv[j] as int)
                    }
                    &&& !self.live(i) ==> removable(o.kind_of(i))
                    &&& !removable(o.kind_of(i)) ==> self.live(i)
                },
                forall|j: int| 0 <= j < k && self.live(#[trigger] csv[j] as int) ==> self.children_of(idi).contains(csv[j]),
                forall|j: int| k <= j < csv.len() ==> self.children_of(idi).contains(#[trigger] csv[j]),
                forall|i: int, j: int| 0 <= j < k && #[trigger] anc(o, i, csv[j] as int) && !self.live(i) && is_paragraph(o.kind_of(i))
                    ==> children_gone(o, *self, i),
            decreases cs.len() - k,
        {
            let c = cs[k];
            let ghost ci = c as int;
            let ghost before = *self;
            proof {
                lemma_anc_child(o, idi, k as int);
                assert(o.live(idi) && 0 <= k < o.children_of(idi).len());
                assert(o.live(ci) && ci > idi && ci < o.size());
                assert forall|i: int| anc(o, i, ci) implies #[trigger] same_node(*self, o, i) by {
                    lemma_anc_trans(o, i, ci, idi);
                    lemma_anc_le(o, i, ci);
                    assert forall|j: int| 0 <= j < k implies !anc(o, i, #[trigger] csv[j] as int) by {
                        lemma_anc_disjoint(o, idi, k as int, j, i);
                    }
                }
            }
            self.validate_recurs(c, Ghost(o));
            proof {
                assert(o.parent_of(ci) == Some(id));
                // outside the subtree of `c`, only `id` may have changed
                assert(anc(o, idi, idi));
                assert forall|i: int| !anc(o, i, idi) implies #[trigger] same_node(*self, t0, i) by {
                    if anc(o, i, ci) {
                        lemma_anc_trans(o, i, ci, idi);
                    }
                    assert(i != idi);
                    assert(same_node(*self, before, i));
                    assert(same_node(before, t0, i));
                }
                assert forall|m: int| 0 <= m < self.children_of(idi).len() implies
                    anc(o, #[trigger] self.children_of(idi)[m] as int, idi) && self.children_of(idi)[m] != id by {
                    let ch = self.children_of(idi)[m];
                    if before.children_of(idi).contains(ch) {
                        let m2 = choose|m2: int| 0 <= m2 < before.children_of(idi).len() && before.children_of(idi)[m2] == ch;
                        assert(anc(o, before.children_of(idi)[m2] as int, idi));
                    } else {
                        assert(anc(o, ch as int, ci));
                        lemma_anc_trans(o, ch as int, ci, idi);
                        lemma_anc_le(o, ch as int, ci);
                    }
                }
                assert forall|i: int| anc(o, i, idi) && i != idi && (forall|j: int| 0 <= j < k + 1 ==> !anc(o, i, #[trigger] csv[j] as int))
                    implies #[trigger] same_node(*self, o, i) by {
                    assert(!anc(o, i, csv[k as int] as int));
                    assert(same_node(*self, before, i));
                    assert forall|j: int| 0 <= j < k implies !anc(o, i, #[trigger] csv[j] as int) by {
                        assert(0 <= j < k + 1);
                    }
                    assert(same_node(before, o, i));
                }
                assert forall|i: int, j: int| 0 <= j < k + 1 && #[trigger] anc(o, i, csv[j] as int) implies {
                    &&& self.live(i) ==> {
                        &&& self.kind_of(i) == o.kind_of(i)
                        &&& clean(*self, i)
                        &&& forall|m: int| 0 <= m < self.children_of(i).len() ==>
                            anc(o, #[trigger] self.children_of(i)[m] as int, csv[j] as int)
                    }
                    &&& !self.live(i) ==> removable(o.kind_of(i))
                    &&& !removable(o.kind_of(i)) ==> self.live(i)
                } by {
                    if j < k {
                        lemma_anc_disjoint(o, idi, j, k as int, i);
                        lemma_anc_le(o, i, csv[j] as int);
                        lemma_anc_child(o, idi, j);
                        assert(same_node(*self, before, i));
                        assert(anc(o, i, csv[j] as int));
                    } else {
                        assert(anc(o, i, ci));
                    }
                }
            }
            proof {
                assert(o.children_of(idi).no_duplicates());
                assert forall|j: int| 0 <= j < k + 1 && self.live(#[trigger] csv[j] as int) implies self.children_of(idi).contains(csv[j]) by {
                    if j < k {
                        lemma_anc_child(o, idi, j);
                        assert(anc(o, csv[j] as int, csv[j] as int));
                        lemma_anc_disjoint(o, idi, j, k as int, csv[j] as int);
                        assert(csv[j] != ci);
                        assert(same_node(*self, before, csv[j] as int));
                        assert(before.children_of(idi).contains(csv[j]));
                    } else {
                        assert(before.children_of(idi).contains(csv[k as int]));
                    }
                }
                assert forall|j: int| k + 1 <= j < csv.len() implies self.children_of(idi).contains(#[trigger] csv[j]) by {
                    assert(csv[j] != ci);
                    assert(before.children_of(idi).contains(csv[j]));
                }
                assert forall|i: int, j: int| 0 <= j < k + 1 && #[trigger] anc(o, i, csv[j] as int) && !self.live(i) && is_paragraph(o.kind_of(i))
                    implies children_gone(o, *self, i) by {
                    if j < k {
                        lemma_anc_disjoint(o, idi, j, k as int, i);
                        lemma_anc_le(o, i, csv[j] as int);
                        lemma_anc_child(o, idi, j);
                        assert(same_node(*self, before, i));
                        assert(children_gone(o, before, i));
                        assert forall|m: int| 0 <= m < o.children_of(i).len() implies !self.live(#[trigger] o.children_of(i)[m] as int) by {
                            let ch = o.children_of(i)[m] as int;
                            assert(o.live(i));
                            lemma_anc_child(o, i, m);
                            lemma_anc_trans(o, ch, i, csv[j] as int);
                            lemma_anc_disjoint(o, idi, j, k as int, ch);
                            lemma_anc_le(o, ch, csv[j] as int);
                            assert(same_node(*self, before, ch));
                        }
                    }
                }
            }
            k += 1;
        }
        proof {
            assert forall|i: int| #[trigger] anc(o, i, idi) && i != idi implies
                exists|j: int| 0 <= j < cs.len() && anc(o, i, #[trigger] csv[j] as int) by {
                lemma_anc_cover(o, idi, i);
            }
        }
        let remove_it = {
            let node = self.index(id);
            match &node.kind {
                DomNodeKind::Text { text } => text.as_str().is_empty(),
                DomNodeKind::Element { tag, .. } => str_eq(tag.as_str(), "p") && node.children().len() == 0,
            }
        };
        proof {
            reveal_strlit("p");
            assert("p"@ =~= seq!['p']);
            assert(remove_it ==> removable(o.kind_of(idi)));
            assert(!remove_it ==> clean(*self, idi));
        }
        if remove_it {
            let ghost pre = *self;
            proof {
                assert(id != 0);
            }
            self.remove(id);
            proof {
                let q = o.parent_of(idi)->0 as int;
                let ccs = pre.children_of(idi);
                assert(pre.parent_of(idi) == Some(q as usize));
                assert(!anc(o, q, idi)) by {
                    assert(o.live(idi) && idi != 0);
                    if anc(o, q, idi) {
                        lemma_anc_le(o, q, idi);
                    }
                }
                assert(anc(o, idi, idi));
                assert forall|i: int| !anc(o, i, idi) && (id == 0 || i != o.parent_of(idi)->0)
                    implies #[trigger] same_node(*self, t0, i) by {
                    assert(same_node(pre, t0, i));
                    assert(i != idi);
                    if pre.live(i) {
                        assert(0 <= i <= usize::MAX);
                        assert(!ccs.contains(i as usize)) by {
                            if ccs.contains(i as usize) {
                                let m = choose|m: int| 0 <= m < ccs.len() && ccs[m] == i as usize;
                                assert(anc(o, ccs[m] as int, idi));
                            }
                        }
                    }
                }
                assert(same_node(pre, t0, q));
                assert forall|x: usize| #[trigger] t0.children_of(q).contains(x) && (x != id || self.live(idi))
                    implies self.children_of(q).contains(x) by {
                    let pc = pre.children_of(q);
                    assert(pc.contains(id)) by {
                        assert(pre.live(idi) && pre.parent_of(idi) == Some(q as usize));
                    }
                    let idx = pc.index_of(id);
                    assert(0 <= idx < pc.len() && pc[idx] == id);
                    let r = pc.remove(idx);
                    let m = choose|m: int| 0 <= m < pc.len() && pc[m] == x;
                    assert(m != idx);
                    if m < idx {
                        assert(r[m] == x);
                        assert(self.children_of(q)[m] == x);
                    } else {
                        assert(r[m - 1] == x);
                        assert(self.children_of(q)[m - 1] == x);
                    }
                }
                assert forall|m: int| 0 <= m < self.children_of(q).len() implies
                    t0.children_of(q).contains(#[trigger] self.children_of(q)[m])
                        || anc(o, self.children_of(q)[m] as int, idi) by {
                    let pc = pre.children_of(q);
                    let r = pc.remove(pc.index_of(id));
                    if m < r.len() {
                        let ch = self.children_of(q)[m];
                        assert(ch == r[m]);
                        let j = if m < pc.index_of(id) { m } else { m + 1 };
                        assert(pc[j] == ch);
                    } else {
                        assert(self.children_of(q)[m] == ccs[m - r.len()]);
                        assert(anc(o, ccs[m - r.len()] as int, idi));
                    }
                }
                assert(!ccs.contains(q as usize)) by {
                    if ccs.contains(q as usize) {
                        let m = choose|m: int| 0 <= m < ccs.len() && ccs[m] == q as usize;
                        assert(anc(o, ccs[m] as int, idi));
                    }
                }
                assert forall|i: int| #[trigger] anc(o, i, idi) implies {
                    &&& self.live(i) ==> {
                        &&& self.kind_of(i) == o.kind_of(i)
                        &&& clean(*self, i)
                        &&& forall|m: int| 0 <= m < self.children_of(i).len() ==>
                            anc(o, #[trigger] self.children_of(i)[m] as int, idi)
                    }
                    &&& !self.live(i) ==> removable(o.kind_of(i))
                    &&& !removable(o.kind_of(i)) ==> self.live(i)
                } by {
                    if i != idi {
                        let j = choose|j: int| 0 <= j < cs.len() && anc(o, i, #[trigger] csv[j] as int);
                        assert(i != q) by {
                            lemma_anc_le(o, i, idi);
                        }
                        assert(pre.children_of(i) == self.children_of(i));
                        if self.live(i) {
                            assert forall|m: int| 0 <= m < self.children_of(i).len() implies
                                anc(o, #[trigger] self.children_of(i)[m] as int, idi) by {
                                lemma_anc_child(o, idi, j);
                                lemma_anc_trans(o, self.children_of(i)[m] as int, csv[j] as int, idi);
                            }
                        }
                    }
                }
            }
        } else {
            proof {
                assert forall|i: int| #[trigger] anc(o, i, idi) implies {
                    &&& self.live(i) ==> {
                        &&& self.kind_of(i) == o.kind_of(i)
                        &&& clean(*self, i)
                        &&& forall|m: int| 0 <= m < self.children_of(i).len() ==>
                            anc(o, #[trigger] self.children_of(i)[m] as int, idi)
                    }
                    &&& !self.live(i) ==> removable(o.kind_of(i))
                    &&& !removable(o.kind_of(i)) ==> self.live(i)
                } by {
                    if i != idi {
                        let j = choose|j: int| 0 <= j < cs.len() && anc(o, i, #[trigger] csv[j] as int);
                        if self.live(i) {
                            assert forall|m: int| 0 <= m < self.children_of(i).len() implies
                                anc(o, #[trigger] self.children_of(i)[m] as int, idi) by {
                                lemma_anc_child(o, idi, j);
                                lemma_anc_trans(o, self.children_of(i)[m] as int, csv[j] as int, idi);
                            }
                        }
                    }
                }
                if id != 0 {
                    let q = o.parent_of(idi)->0 as int;
                    assert(!anc(o, q, idi)) by {
                        assert(o.live(idi) && idi != 0);
                        if anc(o, q, idi) {
                            lemma_anc_le(o, q, idi);
                        }
                    }
                    assert(same_node(*self, t0, q));
                    assert(o.live(q));
                }
            }
        }
    }

    /// Remove empty texts, and paragraphs left without children, children first.
    pub fn validate(&mut self)
        requires
            old(self).wf(),
            !removable(old(self).kind_of(0)),
        ensures
            final(self).wf(),
            final(self).size() == old(self).size(),
            forall|i: int| #[trigger] final(self).live(i) ==> {
                &&& old(self).live(i)
                &&& final(self).kind_of(i) == old(self).kind_of(i)
                &&& clean(*final(self), i)
            },
            forall|i: int| old(self).live(i) && !final(self).live(i) ==> #[trigger] removable(old(self).kind_of(i)),
            forall|i: int| old(self).live(i) && !removable(old(self).kind_of(i)) ==> #[trigger] final(self).live(i),
            forall|i: int| old(self).live(i) && !final(self).live(i) && is_paragraph(old(self).kind_of(i))
                ==> #[trigger] children_gone(*old(self), *final(self), i),
    {
        let ghost o = *self;
        proof {
            assert forall|i: int| anc(o, i, 0) implies #[trigger] same_node(*self, o, i) by {}
        }
        self.validate_recurs(0, Ghost(o));
        proof {
            assert forall|i: int| #[trigger] self.live(i) implies {
                &&& o.live(i)
                &&& self.kind_of(i) == o.kind_of(i)
                &&& clean(*self, i)
            } by {
                if !anc(o, i, 0) {
                    assert(same_node(*self, o, i));
                    lemma_anc_root(o, i);
                } else {
                    assert(o.live(i));
                }
            }
            assert forall|i: int| o.live(i) implies anc(o, i, 0) by {
                lemma_anc_root(o, i);
            }
            assert forall|i: int| o.live(i) && !self.live(i) && is_paragraph(o.kind_of(i))
                implies #[trigger] children_gone(o, *self, i) by {
                lemma_anc_root(o, i);
            }
        }
    }
}

impl DomTree {
    /// Position of `x` in `v`.
    fn position_of(v: &Vec<usize>, x: usize) -> (r: Option<usize>)
        ensures
            r matches Some(k) ==> k < v.len() && v@[k as int] == x,
            r is None ==> !v@.contains(x),
    {
        let mut k: usize = 0;
        while k < v.len()
            invariant
                k <= v.len(),
                forall|j: int| 0 <= j < k ==> v@[j] != x,
            decreases v.len() - k,
        {
            if v[k] == x {
                return Some(k);
            }
            k += 1;
        }
        None
    }

    /// Takes node `id` out of the arena.
    fn take_node(&mut self, id: DomId) -> (n: DomNode)
        requires
            old(self).live(id as int),
        ensures
            Some(n) == old(self).node(id as int),
            final(self).size() == old(self).size(),
            final(self).root == old(self).root,
            final(self).node(id as int) is None,
            forall|i: int| i != id ==> #[trigger] final(self).node(i) == old(self).node(i),
    {
        let mut slot: Option<DomNode> = None;
        std::mem::swap(&mut slot, &mut self.nodes[id]);
        slot.unwrap()
    }

    /// Remove node `id`; its children become children of its parent.
    pub fn remove(&mut self, id: DomId)
        requires
            old(self).wf(),
            old(self).live(id as int),
            id != 0,
        ensures
            final(self).wf(),
            removed(*old(self), *final(self), id),
    {
        let ghost o = *self;
        let node = self.take_node(id);
        let p = node.parent.unwrap();
        let ghost cs = node.children@;
        proof {
            assert(o.live(id as int) && id != 0);
            assert(p < id);
            assert(o.live(p as int));
        }
        let mut parent = self.take_node(p);
        let ghost pc = parent.children@;
        let pos = Self::position_of(&parent.children, id).unwrap();
        proof {
            assert(parent.kind == o.kind_of(p as int));
            assert(parent.parent == o.parent_of(p as int));
            assert(o.children_of(p as int) == pc);
            assert(pc.no_duplicates());
            assert(pc.index_of(id) == pos) by {
                pc.index_of_first_ensures(id);
            }
        }
        parent.children.remove(pos);
        let mut k: usize = 0;
        while k < node.children.len()
            invariant
                k <= node.children.len(),
                parent.children@ == pc.remove(pos as int) + node.children@.subrange(0, k as int),
                parent.kind == o.kind_of(p as int),
                parent.parent == o.parent_of(p as int),
            decreases node.children.len() - k,
        {
            parent.children.push(node.children[k]);
            proof {
                assert(pc.remove(pos as int) + node.children@.subrange(0, k + 1) =~= (pc.remove(pos as int) + node.children@.subrange(0, k as int)).push(node.children@[k as int]));
            }
            k += 1;
        }
        proof {
            assert(node.children@.subrange(0, node.children@.len() as int) =~= node.children@);
        }
        let ghost new_parent = parent;
        let ghost prev = *self;
        proof {
            assert(self.node(id as int) is None);
            assert(forall|i: int| i != id && i != p ==> #[trigger] self.node(i) == o.node(i));
        }
        self.nodes.set(p, Some(parent));
        proof {
            assert(self.nodes@ == prev.nodes@.update(p as int, Some(new_parent)));
            assert(self.node(id as int) is None);
            assert forall|i: int| i != id && i != p implies #[trigger] self.node(i) == o.node(i) by {
                assert(prev.node(i) == o.node(i));
                if 0 <= i < self.nodes@.len() {
                    assert(self.nodes@[i] == prev.nodes@[i]);
                }
            }
            assert(o.children_of(id as int) == cs);
            assert forall|j: int| 0 <= j < cs.len() implies #[trigger] cs[j] > id && o.live(cs[j] as int) && o.parent_of(cs[j] as int) == Some(id) by {
                assert(o.live(id as int) && 0 <= j < o.children_of(id as int).len());
            }
        }
        let mut k: usize = 0;
        while k < node.children.len()
            invariant
                k <= node.children.len(),
                cs == node.children@,
                cs.no_duplicates(),
                p < id,
                forall|j: int| 0 <= j < cs.len() ==> #[trigger] cs[j] > id && o.live(cs[j] as int) && o.parent_of(cs[j] as int) == Some(id),
                self.size() == o.size(),
                self.root == o.root,
                self.node(id as int) is None,
                self.node(p as int) == Some(new_parent),
                forall|i: int| i != id && i != p && !cs.subrange(0, k as int).contains(i as usize) ==> #[trigger] self.node(i) == o.node(i),
                forall|j: int| 0 <= j < k ==> #[trigger] moved_to(*self, o, cs[j] as int, p),
            decreases node.children.len() - k,
        {
            let c = node.children[k];
            let ghost old_self = *self;
            proof {
                assert(cs[k as int] == c);
                assert(!cs.subrange(0, k as int).contains(c)) by {
                    if cs.subrange(0, k as int).contains(c) {
                        let j = choose|j: int| 0 <= j < k && cs.subrange(0, k as int)[j] == c;
                        assert(cs[j] == cs[k as int]);
                    }
                }
                assert(c != p);
                assert(self.node(c as int) == o.node(c as int));
            }
            let mut child = self.take_node(c);
            let ghost mid = *self;
            child.parent = Some(p);
            let ghost child_val = child;
            self.nodes.set(c, Some(child));
            proof {
                assert(self.nodes@ == mid.nodes@.update(c as int, Some(child_val)));
                assert forall|i: int| i != c implies #[trigger] self.node(i) == mid.node(i) by {
                    if 0 <= i < self.nodes@.len() {
                        assert(self.nodes@[i] == mid.nodes@[i]);
                    }
                }
                assert(self.node(c as int) == Some(child_val));
                assert(moved_to(*self, o, c as int, p));
                assert forall|i: int| i != id && i != p && !cs.subrange(0, k + 1).contains(i as usize) implies #[trigger] self.node(i) == o.node(i) by {
                    assert(cs.subrange(0, k + 1)[k as int] == c);
                    if cs.subrange(0, k as int).contains(i as usize) {
                        let j = choose|j: int| 0 <= j < k && cs.subrange(0, k as int)[j] == i as usize;
                        assert(cs.subrange(0, k + 1)[j] == i as usize);
                    }
                }
                assert forall|j: int| 0 <= j < k + 1 implies #[trigger] moved_to(*self, o, cs[j] as int, p) by {
                    if j < k {
                        assert(cs[j] != c);
                        assert(moved_to(old_self, o, cs[j] as int, p));
                    }
                }
            }
            k += 1;
        }
        let _n = self.nodes.len();
        proof {
            lemma_remove_frame(o, *self, id, p, pos as int, cs, pc);
        }
    }
}

/// Node `c` of `f` is node `c` of `o` with parent `p`.
spec fn moved_to(f: DomTree, o: DomTree, c: int, p: usize) -> bool {
    f.node(c) matches Some(n) && n.kind == o.kind_of(c) && n.children@ == o.children_of(c) && n.parent == Some(p)
}

proof fn lemma_remove_frame(o: DomTree, f: DomTree, id: usize, p: usize, pos: int, cs: Seq<usize>, pc: Seq<usize>)
    requires
        o.wf(),
        o.live(id as int),
        id != 0,
        o.parent_of(id as int) == Some(p),
        p < id,
        cs == o.children_of(id as int),
        pc == o.children_of(p as int),
        0 <= pos < pc.len(),
        pc[pos] == id,
        pc.index_of(id) == pos,
        f.size() == o.size(),
        o.size() <= usize::MAX,
        f.spec_root() == o.spec_root(),
        f.node(id as int) is None,
        (f.node(p as int) matches Some(n) && n.kind == o.kind_of(p as int) && n.parent == o.parent_of(p as int)
            && n.children@ == pc.remove(pos) + cs),
        forall|i: int| i != id && i != p && !cs.contains(i as usize) ==> #[trigger] f.node(i) == o.node(i),
        forall|j: int| 0 <= j < cs.len() ==> #[trigger] moved_to(f, o, cs[j] as int, p),
    ensures
        f.wf(),
        !f.live(id as int),
        f.children_of(p as int) == pc.remove(pc.index_of(id)) + cs,
        forall|c: usize| cs.contains(c) ==> #[trigger] f.parent_of(c as int) == Some(p as usize),
        forall|i: int| i != id && i != p ==> #[trigger] f.children_of(i) == o.children_of(i),
        forall|i: int| i != id && !cs.contains(i as usize) ==> #[trigger] f.parent_of(i) == o.parent_of(i),
        forall|i: int| i != id ==> #[trigger] f.live(i) == o.live(i),
        forall|i: int| i != id ==> #[trigger] f.kind_of(i) == o.kind_of(i),
{
    assert(o.live(p as int));
    // children of `id` are live, larger than `id`, and have parent `id`
    assert forall|j: int| 0 <= j < cs.len() implies #[trigger] cs[j] > id && o.live(cs[j] as int) && o.parent_of(cs[j] as int) == Some(id) by {
        assert(o.live(id as int) && 0 <= j < o.children_of(id as int).len());
    }
    assert forall|c: usize| cs.contains(c) implies #[trigger] f.parent_of(c as int) == Some(p as usize) && f.live(c as int) by {
        let j = cs.index_of(c);
        cs.index_of_first_ensures(c);
        assert(moved_to(f, o, cs[j] as int, p));
    }
    // a node that is not a child of `id` has another parent
    assert forall|i: int| o.live(i) && o.parent_of(i) == Some(id) implies cs.contains(i as usize) by {
        assert(o.live(i) && i != 0);
    }
    assert forall|i: int| i != id implies #[trigger] f.live(i) == o.live(i) by {
        if !(0 <= i < o.size()) {
        } else if cs.contains(i as usize) {
            let j = cs.index_of(i as usize);
            cs.index_of_first_ensures(i as usize);
            assert(moved_to(f, o, cs[j] as int, p));
        } else if i != p {
            assert(f.node(i) == o.node(i));
        } else {
            assert(f.node(p as int) is Some);
        }
    }
    assert forall|i: int| i != id implies #[trigger] f.kind_of(i) == o.kind_of(i) by {
        if !(0 <= i < o.size()) {
        } else if cs.contains(i as usize) {
            let j = cs.index_of(i as usize);
            cs.index_of_first_ensures(i as usize);
            assert(moved_to(f, o, cs[j] as int, p));
        } else if i != p {
            assert(f.node(i) == o.node(i));
        } else {
            assert(f.node(p as int) is Some);
        }
    }
    assert forall|i: int| i != id && i != p implies #[trigger] f.children_of(i) == o.children_of(i) by {
        if cs.contains(i as usize) {
            let j = cs.index_of(i as usize);
            cs.index_of_first_ensures(i as usize);
            assert(moved_to(f, o, cs[j] as int, p));
        } else {
            assert(f.node(i) == o.node(i));
        }
    }
    assert forall|i: int| i != id && !cs.contains(i as usize) implies #[trigger] f.parent_of(i) == o.parent_of(i) by {
        if i != p {
            assert(f.node(i) == o.node(i));
        }
    }
    // parents
    assert forall|i: int| #[trigger] f.live(i) && i != 0 implies {
        &&& f.parent_of(i) matches Some(q)
        &&& q < i
        &&& f.live(q as int)
        &&& f.children_of(q as int).contains(i as usize)
    } by {
        assert(o.live(i));
        if cs.contains(i as usize) {
            assert(f.children_of(p as int)[pc.remove(pos).len() + cs.index_of(i as usize)] == i as usize) by {
                cs.index_of_first_ensures(i as usize);
            }
            cs.index_of_first_ensures(i as usize);
            assert(i > id);
        } else {
            let q = o.parent_of(i)->0;
            assert(q != id);
            if q == p {
                assert(pc.contains(i as usize));
                let j = pc.index_of(i as usize);
                pc.index_of_first_ensures(i as usize);
                assert(i != id);
                assert(j != pos);
                if j < pos {
                    assert(pc.remove(pos)[j] == i as usize);
                    assert(f.children_of(p as int)[j] == i as usize);
                } else {
                    assert(pc.remove(pos)[j - 1] == i as usize);
                    assert(f.children_of(p as int)[j - 1] == i as usize);
                }
            } else {
                assert(o.live(q as int));
                if cs.contains(q) {
                    cs.index_of_first_ensures(q);
                    assert(o.children_of(q as int).contains(i as usize));
                }
            }
        }
    }
    // children
    assert forall|i: int, k: int| #[trigger] f.live(i) && 0 <= k < f.children_of(i).len() implies {
        let c = #[trigger] f.children_of(i)[k];
        &&& i < c
        &&& f.live(c as int)
        &&& f.parent_of(c as int) == Some(i as usize)
    } by {
        assert(o.live(i));
        let c = f.children_of(i)[k];
        if i == p {
            let r = pc.remove(pos);
            if k < r.len() {
                let j = if k < pos { k } else { k + 1 };
                assert(r[k] == pc[j]);
                assert(o.live(p as int) && 0 <= j < o.children_of(p as int).len());
                assert(pc[j] != id);
                assert(!cs.contains(c)) by {
                    if cs.contains(c) {
                        cs.index_of_first_ensures(c);
                    }
                }
            } else {
                assert(cs[k - r.len()] == c);
            }
        } else {
            assert(f.children_of(i) == o.children_of(i));
            assert(o.live(i) && 0 <= k < o.children_of(i).len());
            assert(c != id);
            assert(!cs.contains(c)) by {
                if cs.contains(c) {
                    cs.index_of_first_ensures(c);
                }
            }
            if c == p {
                assert(f.parent_of(p as int) == o.parent_of(p as int));
            }
        }
    }
    // no duplicates
    assert forall|i: int| #[trigger] f.live(i) implies f.children_of(i).no_duplicates() by {
        assert(o.live(i));
        if i == p {
            let r = pc.remove(pos);
            let all = r + cs;
            assert forall|a: int, b: int| 0 <= a < b < all.len() implies all[a] != all[b] by {
                if b < r.len() {
                    let ja = if a < pos { a } else { a + 1 };
                    let jb = if b < pos { b } else { b + 1 };
                    assert(r[a] == pc[ja] && r[b] == pc[jb]);
                } else if a < r.len() {
                    let ja = if a < pos { a } else { a + 1 };
                    assert(r[a] == pc[ja]);
                    assert(o.live(p as int) && 0 <= ja < o.children_of(p as int).len());
                    assert(all[b] == cs[b - r.len()]);
                } else {
                    assert(all[a] == cs[a - r.len()] && all[b] == cs[b - r.len()]);
                }
            }
        } else {
            assert(f.children_of(i) == o.children_of(i));
        }
    }
}

} // verus!
