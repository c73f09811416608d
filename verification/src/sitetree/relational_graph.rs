//! A directional graph that stores relationships between the nodes of a site tree.
use vstd::prelude::*;

use crate::sitetree::site_id::SiteId;

verus! {

#[derive(Debug)]
pub enum Relation {
    /// Parent-child relationship
    Family,
    /// Relation set by module logic
    External,
    /// Found relation by parsing a file
    Discovered { raw_path: String },
}

/// Mathematical form of a relation.
pub enum SpecRelation {
    Family,
    External,
    Discovered(Seq<char>),
}

impl View for Relation {
    type V = SpecRelation;

    open spec fn view(&self) -> SpecRelation {
        match self {
            Relation::Family => SpecRelation::Family,
            Relation::External => SpecRelation::External,
            Relation::Discovered { raw_path } => SpecRelation::Discovered(raw_path@),
        }
    }
}

impl Clone for Relation {
    fn clone(&self) -> (r: Relation)
        ensures
            r@ == self@,
    {
        match self {
            Relation::Family => Relation::Family,
            Relation::External => Relation::External,
            Relation::Discovered { raw_path } => Relation::Discovered { raw_path: raw_path.clone() },
        }
    }
}

#[derive(Debug)]
pub struct Link {
    pub from: SiteId,
    pub to: SiteId,
    pub relation: Relation,
}

/// Mathematical form of a link: (from, to, relation).
pub type SpecLink = (usize, usize, SpecRelation);

impl View for Link {
    type V = SpecLink;

    open spec fn view(&self) -> SpecLink {
        (self.from.0, self.to.0, self.relation@)
    }
}

impl Clone for Link {
    fn clone(&self) -> (r: Link)
        ensures
            r@ == self@,
    {
        Link { from: self.from, to: self.to, relation: self.relation.clone() }
    }
}

/// The views of a list of links.
pub open spec fn links_view(v: Seq<Link>) -> Seq<SpecLink> {
    Seq::new(v.len(), |k: int| v[k]@)
}

/// The links of `ls` that start at `node`, in order.
pub open spec fn starting_at(ls: Seq<SpecLink>, node: usize) -> Seq<SpecLink>
    decreases ls.len(),
{
    if ls.len() == 0 {
        Seq::empty()
    } else {
        let rest = starting_at(ls.drop_last(), node);
        if ls.last().0 == node {
            rest.push(ls.last())
        } else {
            rest
        }
    }
}

/// The links of `ls` that neither start nor end at `node`, in order.
pub open spec fn not_touching(ls: Seq<SpecLink>, node: usize) -> Seq<SpecLink>
    decreases ls.len(),
{
    if ls.len() == 0 {
        Seq::empty()
    } else {
        let rest = not_touching(ls.drop_last(), node);
        if ls.last().0 != node && ls.last().1 != node {
            rest.push(ls.last())
        } else {
            rest
        }
    }
}

/// `g` with empty lists added until it has `n` lists.
pub open spec fn grown(g: Seq<Seq<SpecLink>>, n: int) -> Seq<Seq<SpecLink>> {
    if g.len() < n {
        g + Seq::new((n - g.len()) as nat, |i: int| Seq::<SpecLink>::empty())
    } else {
        g
    }
}

/// `g` after adding `l`: the lists are grown to hold both ends, then `l` is
/// appended to the list of its start and to the list of its end.
pub open spec fn with_link(g: Seq<Seq<SpecLink>>, l: SpecLink) -> Seq<Seq<SpecLink>> {
    let m = if l.0 < l.1 { l.1 as int } else { l.0 as int };
    let g1 = grown(g, m + 1);
    let g2 = g1.update(l.0 as int, g1[l.0 as int].push(l));
    g2.update(l.1 as int, g2[l.1 as int].push(l))
}

/// A directional graph that stores relationships between nodes. Every link is
/// kept in the list of both of its ends.
#[derive(Debug)]
pub struct RelationalGraph {
    links: Vec<Vec<Link>>,
}

impl View for RelationalGraph {
    type V = Seq<Seq<SpecLink>>;

    closed spec fn view(&self) -> Seq<Seq<SpecLink>> {
        Seq::new(self.links@.len(), |i: int| links_view(self.links@[i]@))
    }
}

impl RelationalGraph {
    pub fn new() -> (g: Self)
        ensures
            g@ == seq![Seq::<SpecLink>::empty()],
    {
        let g = RelationalGraph { links: vec![Vec::new()] };
        assert(links_view(g.links@[0]@) =~= Seq::<SpecLink>::empty());
        assert(g@ =~= seq![Seq::<SpecLink>::empty()]);
        g
    }

    /// Appends `link` to list `i`.
    fn push_to(&mut self, i: usize, link: Link)
        requires
            i < old(self)@.len(),
        ensures
            final(self)@ == old(self)@.update(i as int, old(self)@[i as int].push(link@)),
    {
        let mut list: Vec<Link> = Vec::new();
        std::mem::swap(&mut list, &mut self.links[i]);
        let ghost before = list@;
        list.push(link);
        self.links.set(i, list);
        proof {
            assert(links_view(before.push(link)) =~= links_view(before).push(link@));
            assert(self@ =~= old(self)@.update(i as int, old(self)@[i as int].push(link@)));
        }
    }

    pub fn add(&mut self, from: SiteId, to: SiteId, relation: Relation)
        requires
            from.0 < usize::MAX,
            to.0 < usize::MAX,
        ensures
            final(self)@ == with_link(old(self)@, (from.0, to.0, relation@)),
    {
        // increase size if too short
        let max = if from.0 < to.0 { to.0 } else { from.0 };
        let ghost g0 = self@;
        while self.links.len() < max + 1
            invariant
                max < usize::MAX,
                g0.len() <= self@.len() <= (if g0.len() < max + 1 { max + 1 } else { g0.len() as int }),
                self@ == grown(g0, self@.len() as int),
            decreases max + 1 - self.links.len(),
        {
            let ghost before = self@;
            self.links.push(Vec::new());
            proof {
                assert(links_view(self.links@[self.links@.len() - 1]@) =~= Seq::<SpecLink>::empty());
                assert(self@ =~= before.push(Seq::empty()));
                if before.len() == g0.len() {
                    assert(grown(g0, before.len() as int) == g0);
                    assert(grown(g0, self@.len() as int) =~= g0.push(Seq::empty()));
                } else {
                    assert(grown(g0, self@.len() as int) =~= grown(g0, before.len() as int).push(Seq::empty()));
                }
            }
        }
        proof {
            assert(self@ == grown(g0, max + 1)) by {
                if g0.len() >= max + 1 {
                    assert(grown(g0, self@.len() as int) =~= g0);
                }
            }
        }
        let link = Link { from, to, relation };
        let copy = link.clone();
        self.push_to(from.0, link);
        self.push_to(to.0, copy);
    }

    /// The links of `node_id` that start at it.
    pub fn links_from(&self, node_id: SiteId) -> (r: Vec<&Link>)
        requires
            node_id.0 < self@.len(),
        ensures
            Seq::new(r@.len(), |k: int| r@[k]@) == starting_at(self@[node_id.0 as int], node_id.0),
    {
        let list = &self.links[node_id.0];
        let ghost lv = links_view(list@);
        let mut r: Vec<&Link> = Vec::new();
        let mut k: usize = 0;
        while k < list.len()
            invariant
                k <= list.len(),
                lv == links_view(list@),
                Seq::new(r@.len(), |j: int| r@[j]@) == starting_at(lv.take(k as int), node_id.0),
            decreases list.len() - k,
        {
            let ghost before = r@;
            if list[k].from == node_id {
                r.push(&list[k]);
            }
            proof {
                assert(lv.take(k + 1).drop_last() =~= lv.take(k as int));
                assert(lv.take(k + 1).last() == list@[k as int]@);
                assert(Seq::new(r@.len(), |j: int| r@[j]@) =~= starting_at(lv.take(k + 1), node_id.0));
            }
            k += 1;
        }
        proof {
            assert(lv.take(list@.len() as int) =~= lv);
            assert(self@[node_id.0 as int] == lv);
        }
        r
    }

    /// The links of `ls` that do not touch `node`, cloned.
    fn without(ls: &Vec<Link>, node: usize) -> (r: Vec<Link>)
        ensures
            links_view(r@) == not_touching(links_view(ls@), node),
    {
        let ghost lv = links_view(ls@);
        let mut r: Vec<Link> = Vec::new();
        let mut k: usize = 0;
        while k < ls.len()
            invariant
                k <= ls.len(),
                lv == links_view(ls@),
                links_view(r@) == not_touching(lv.take(k as int), node),
            decreases ls.len() - k,
        {
            let ghost before = r@;
            if ls[k].from.0 != node && ls[k].to.0 != node {
                let c = ls[k].clone();
                r.push(c);
                proof {
                    assert(links_view(r@) =~= links_view(before).push(ls@[k as int]@));
                }
            }
            proof {
                assert(lv.take(k + 1).drop_last() =~= lv.take(k as int));
                assert(lv.take(k + 1).last() == ls@[k as int]@);
            }
            k += 1;
        }
        proof {
            assert(lv.take(ls@.len() as int) =~= lv);
        }
        r
    }

    /// remove all links to and from `node_id`
    pub fn remove_all(&mut self, node_id: SiteId)
        requires
            node_id.0 < old(self)@.len(),
        ensures
            final(self)@.len() == old(self)@.len(),
            final(self)@[node_id.0 as int] == Seq::<SpecLink>::empty(),
            forall|i: int| 0 <= i < old(self)@.len() && i != node_id.0 ==>
                #[trigger] final(self)@[i] == not_touching(old(self)@[i], node_id.0),
    {
        let ghost g0 = self@;
        let n = self.links.len();
        let mut i: usize = 0;
        while i < n
            invariant
                n == g0.len(),
                self@.len() == n,
                i <= n,
                node_id.0 < n,
                forall|j: int| 0 <= j < i && j != node_id.0 ==> #[trigger] self@[j] == not_touching(g0[j], node_id.0),
                forall|j: int| i <= j < n ==> #[trigger] self@[j] == g0[j],
                node_id.0 < i ==> self@[node_id.0 as int] == Seq::<SpecLink>::empty(),
            decreases n - i,
        {
            let ghost before = self@;
            let list = if i == node_id.0 {
                Vec::new()
            } else {
                Self::without(&self.links[i], node_id.0)
            };
            self.links.set(i, list);
            proof {
                assert(self@ =~= before.update(i as int, links_view(list@)));
                if i == node_id.0 {
                    assert(links_view(list@) =~= Seq::<SpecLink>::empty());
                } else {
                    assert(before[i as int] == g0[i as int]);
                    assert(self@[i as int] == not_touching(g0[i as int], node_id.0));
                }
                assert forall|j: int| 0 <= j < i + 1 && j != node_id.0 implies #[trigger] self@[j] == not_touching(g0[j], node_id.0) by {
                    if j < i {
                        assert(self@[j] == before[j]);
                    }
                }
                assert forall|j: int| i + 1 <= j < n implies #[trigger] self@[j] == g0[j] by {
                    assert(self@[j] == before[j]);
                }
            }
            i += 1;
        }
    }

    /// The links of `id`.
    pub fn index(&self, id: SiteId) -> (r: &Vec<Link>)
        requires
            id.0 < self@.len(),
        ensures
            links_view(r@) == self@[id.0 as int],
    {
        &self.links[id.0]
    }
}

} // verus!
