//! Generic functionality over tree structures whose nodes are named by ids.
use vstd::prelude::*;

verus! {

/// Implement this trait to get generic functionality over tree structures
pub trait Node {
    /// The children, in order.
    open spec fn spec_children(&self) -> Seq<usize> {
        Seq::empty()
    }

    open spec fn spec_parent(&self) -> Option<usize> {
        None
    }

    fn children(&self) -> (c: &Vec<usize>)
        ensures
            c@ == self.spec_children(),
    ;

    fn parent(&self) -> (p: Option<usize>)
        ensures
            p == self.spec_parent(),
    ;
}

/// Implement this trait to get generic functionality over tree structures
pub trait Tree {
    type Node: Node;

    open spec fn spec_root(&self) -> usize {
        0
    }

    /// Whether `id` names a node of the tree.
    open spec fn has(&self, id: usize) -> bool {
        false
    }

    /// The node named `id`.
    open spec fn spec_get(&self, id: usize) -> Self::Node {
        arbitrary()
    }

    fn root(&self) -> (r: usize)
        ensures
            r == self.spec_root(),
    ;

    fn get(&self, id: usize) -> (n: &Self::Node)
        requires
            self.has(id),
        ensures
            *n == self.spec_get(id),
    ;
}

/// Depth first traversal of a tree with an explicit stack: a node is visited,
/// then its children are pushed, so the last child is visited next.
pub struct Dfs<'n, T: Tree> {
    stack: Vec<usize>,
    tree: &'n T,
}

impl<'n, T: Tree> Dfs<'n, T> {
    /// Ids still to be visited; the last one is visited next.
    pub closed spec fn pending(&self) -> Seq<usize> {
        self.stack@
    }

    pub closed spec fn tree(&self) -> T {
        *self.tree
    }

    pub fn new(tree: &'n T) -> (d: Self)
        ensures
            d.pending() == seq![tree.spec_root()],
            d.tree() == *tree,
    {
        let stack = vec![tree.root()];
        Dfs { stack, tree }
    }

    pub fn from_node(tree: &'n T, start: usize) -> (d: Self)
        ensures
            d.pending() == seq![start],
            d.tree() == *tree,
    {
        let stack = vec![start];
        Dfs { stack, tree }
    }

    /// Visits the next node: pops it and pushes its children in order.
    pub fn next(&mut self) -> (r: Option<usize>)
        requires
            old(self).pending().len() > 0 ==> old(self).tree().has(old(self).pending().last()),
        ensures
            final(self).tree() == old(self).tree(),
            old(self).pending().len() == 0 ==> r is None && final(self).pending() == old(self).pending(),
            old(self).pending().len() > 0 ==> {
                let id = old(self).pending().last();
                &&& r == Some(id)
                &&& final(self).pending() == old(self).pending().drop_last()
                    + old(self).tree().spec_get(id).spec_children()
            },
    {
        match self.stack.pop() {
            None => None,
            Some(id) => {
                let node = self.tree.get(id);
                let children = node.children();
                let ghost start = self.stack@;
                let ghost t = *self.tree;
                let mut k: usize = 0;
                while k < children.len()
                    invariant
                        k <= children.len(),
                        self.stack@ == start + children@.subrange(0, k as int),
                        *self.tree == t,
                    decreases children.len() - k,
                {
                    self.stack.push(children[k]);
                    proof {
                        assert(start + children@.subrange(0, k + 1) =~= (start + children@.subrange(0, k as int)).push(children@[k as int]));
                    }
                    k += 1;
                }
                proof {
                    assert(children@.subrange(0, children@.len() as int) =~= children@);
                }
                Some(id)
            },
        }
    }
}

} // verus!
