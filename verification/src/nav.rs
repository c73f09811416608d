//! The navigation of a page: breadcrumbs up to the root, or a side menu of
//! the site's pages.
use vstd::prelude::*;

use crate::modules::NavKind;
use crate::raw_map::RawMap;
use crate::sitetree::site_id::SiteId;
use crate::sitetree::site_tree::{ancestors, flat_child, flat_list, relative_path, visit, SiteNodeKind, SiteTree};
use crate::text::push_str;

verus! {

/// A piece of a breadcrumb trail: a separating text, a link to a page, or the
/// name of a folder.
#[derive(Debug, PartialEq, Eq)]
pub enum NavPiece {
    Text { text: String },
    Link { href: String, text: String },
    Label { text: String },
}

/// Mathematical form of a piece of a trail.
pub enum SpecPiece {
    Text(Seq<char>),
    Link(Seq<char>, Seq<char>),
    Label(Seq<char>),
}

impl View for NavPiece {
    type V = SpecPiece;

    open spec fn view(&self) -> SpecPiece {
        match self {
            NavPiece::Text { text } => SpecPiece::Text(text@),
            NavPiece::Link { href, text } => SpecPiece::Link(href@, text@),
            NavPiece::Label { text } => SpecPiece::Label(text@),
        }
    }
}

/// The pieces for the ancestor `p` of `site`: a link for a page, a label for
/// a folder, nothing for other nodes; a separator follows unless `last`.
pub open spec fn crumb(t: SiteTree, site: int, p: int, last: bool) -> Seq<SpecPiece> {
    let sep = if last {
        Seq::empty()
    } else {
        seq![SpecPiece::Text("/"@)]
    };
    if t.kind_of(p) == SiteNodeKind::Page {
        seq![SpecPiece::Link(relative_path(t, site, p), t.name_of(p))] + sep
    } else if t.kind_of(p) == SiteNodeKind::Folder {
        seq![SpecPiece::Label(t.name_of(p))] + sep
    } else {
        Seq::empty()
    }
}

/// The pieces for the first `i` of the ancestors `up`, the root first.
pub open spec fn crumbs(t: SiteTree, site: int, up: Seq<usize>, i: int) -> Seq<SpecPiece>
    decreases i,
{
    if i <= 0 {
        Seq::empty()
    } else {
        crumbs(t, site, up, i - 1) + crumb(t, site, up[i - 1] as int, i - 1 == up.len() - 1)
    }
}

/// The breadcrumb trail of a page: `/`, its ancestors from the root down,
/// and `/` with its own name.
pub open spec fn trail(t: SiteTree, site: int) -> Seq<SpecPiece> {
    let up = ancestors(t, site).reverse();
    seq![SpecPiece::Text("/"@)] + crumbs(t, site, up, up.len() as int) + seq![SpecPiece::Text("/"@ + t.name_of(site))]
}

/// The views of a list of pieces.
pub open spec fn pieces_view(v: Seq<NavPiece>) -> Seq<SpecPiece> {
    Seq::new(v.len(), |i: int| v[i]@)
}

/// The breadcrumbs of a page: links to the pages above it and labels of the
/// folders above it, from the root down, then its own name.
pub fn breadcrumbs(site_tree: &SiteTree, site_id: SiteId) -> (r: Vec<NavPiece>)
    requires
        site_id.0 < site_tree.size(),
    ensures
        pieces_view(r@) == trail(*site_tree, site_id.0 as int),
{
    let parents = site_tree.parents(site_id);
    let ghost up = ancestors(*site_tree, site_id.0 as int).reverse();
    proof {
        crate::sitetree::site_tree::lemma_ancestors_below(*site_tree, site_id.0 as int);
        assert forall|k: int| 0 <= k < parents@.len() implies (#[trigger] parents@[k]).0 < site_id.0 by {
            assert(Seq::new(parents@.len(), |k: int| parents@[k].0)[k] == parents@[k].0);
        }
    }
    let n = parents.len();
    let mut pieces: Vec<NavPiece> = Vec::new();
    pieces.push(NavPiece::Text { text: "/".to_owned() });
    let mut i: usize = 0;
    while i < n
        invariant
            i <= n,
            n == parents@.len(),
            Seq::new(parents@.len(), |k: int| parents@[k].0) == ancestors(*site_tree, site_id.0 as int),
            up == ancestors(*site_tree, site_id.0 as int).reverse(),
            forall|k: int| 0 <= k < parents@.len() ==> (#[trigger] parents@[k]).0 < site_id.0,
            site_id.0 < site_tree.size(),
            pieces_view(pieces@) == seq![SpecPiece::Text("/"@)] + crumbs(*site_tree, site_id.0 as int, up, i as int),
        decreases n - i,
    {
        let p = parents[n - 1 - i];
        proof {
            assert(up[i as int] == p.0);
            assert(Seq::new(parents@.len(), |k: int| parents@[k].0)[n - 1 - i] == p.0);
        }
        let ghost before = pieces_view(pieces@);
        let node = site_tree.get(p).unwrap();
        let kind = node.kind();
        let last = i == n - 1;
        match kind {
            SiteNodeKind::Page => {
                let href = site_tree.rel_path(site_id, p);
                pieces.push(NavPiece::Link { href, text: node.name().clone() });
                if !last {
                    pieces.push(NavPiece::Text { text: "/".to_owned() });
                }
            },
            SiteNodeKind::Folder => {
                pieces.push(NavPiece::Label { text: node.name().clone() });
                if !last {
                    pieces.push(NavPiece::Text { text: "/".to_owned() });
                }
            },
            _ => {},
        }
        proof {
            assert(pieces_view(pieces@) =~= before + crumb(*site_tree, site_id.0 as int, p.0 as int, last));
        }
        i += 1;
    }
    let mut end = "/".to_owned();
    let node = site_tree.get(site_id).unwrap();
    push_str(&mut end, node.name().as_str());
    let ghost before = pieces_view(pieces@);
    pieces.push(NavPiece::Text { text: end });
    proof {
        assert(up.len() == n);
        assert(pieces_view(pieces@) =~= before.push(SpecPiece::Text("/"@ + site_tree.name_of(site_id.0 as int))));
    }
    pieces
}

/// The name shown for a node: the one `names` maps it to, else its own.
pub open spec fn shown_name(name: Seq<char>, names: Option<Map<Seq<char>, Seq<char>>>) -> Seq<char> {
    match names {
        Some(m) => if m.contains_key(name) {
            m[name]
        } else {
            name
        },
        None => name,
    }
}

/// The view of an optional map of names.
pub open spec fn names_view(name_map: Option<&RawMap<String>>) -> Option<Map<Seq<char>, Seq<char>>> {
    match name_map {
        Some(m) => Some(m@),
        None => None,
    }
}

/// The view of an optional map of names that is held.
pub open spec fn map_names_view(name_map: Option<RawMap<String>>) -> Option<Map<Seq<char>, Seq<char>>> {
    match name_map {
        Some(m) => Some(m@),
        None => None,
    }
}

/// The name shown for a node: the one the map gives it, else its own.
pub fn format_node_name(name: &str, name_map: Option<&RawMap<String>>) -> (r: String)
    ensures
        r@ == shown_name(name@, names_view(name_map)),
{
    match name_map {
        Some(map) => match map.get(name) {
            Some(s) => s.clone(),
            None => name.to_owned(),
        },
        None => name.to_owned(),
    }
}

/// Options of the navigation of a page.
#[derive(Debug)]
pub struct NavOptions {
    pub kind: Option<NavKind>,
    pub include_root: Option<bool>,
    /// Names to show in place of the nodes' own.
    pub name_map: Option<RawMap<String>>,
}

impl Default for NavOptions {
    fn default() -> (o: Self)
        ensures
            o.kind == Some(NavKind::Breadcrumbs),
            o.include_root == Some(false),
            o.name_map is None,
    {
        NavOptions { kind: Some(NavKind::Breadcrumbs), include_root: Some(false), name_map: None }
    }
}


/// An entry of the side menu: a link to a page, whether it is the page being
/// shown, and the entries below it.
#[derive(Debug, PartialEq, Eq)]
pub struct MenuEntry {
    pub href: String,
    pub name: String,
    pub active: bool,
    pub children: Vec<MenuEntry>,
}

/// Mathematical form of a menu entry.
pub struct SpecEntry {
    pub href: Seq<char>,
    pub name: Seq<char>,
    pub active: bool,
    pub children: Seq<SpecEntry>,
}

/// An entry with nothing in it.
pub open spec fn blank_entry() -> SpecEntry {
    SpecEntry { href: Seq::empty(), name: Seq::empty(), active: false, children: Seq::empty() }
}

impl View for MenuEntry {
    type V = SpecEntry;

    open spec fn view(&self) -> SpecEntry
        decreases self,
    {
        SpecEntry {
            href: self.href@,
            name: self.name@,
            active: self.active,
            children: Seq::new(
                self.children@.len(),
                |i: int| if 0 <= i < self.children@.len() { self.children@[i]@ } else { blank_entry() },
            ),
        }
    }
}

/// The views of a list of entries.
pub open spec fn entries_view(v: Seq<MenuEntry>) -> Seq<SpecEntry> {
    Seq::new(v.len(), |i: int| v[i]@)
}

/// The menu entries for the first `k` pages listed under `node` in `map`,
/// taken from the last listed; pages with pages listed under them get
/// their own entries, down to three levels below the first.
pub open spec fn menu_items(
    t: SiteTree,
    map: Seq<Seq<SiteId>>,
    node: int,
    current: int,
    depth: int,
    names: Option<Map<Seq<char>, Seq<char>>>,
    k: int,
) -> Seq<SpecEntry>
    decreases 3 - depth, k,
{
    if k <= 0 || !(0 <= node < map.len()) || k > map[node].len() {
        Seq::empty()
    } else {
        let c = map[node][map[node].len() - k].0 as int;
        menu_items(t, map, node, current, depth, names, k - 1) + seq![
            SpecEntry {
                href: relative_path(t, current, c),
                name: shown_name(t.name_of(c), names),
                active: c == current,
                children: if 0 <= c < map.len() && map[c].len() > 0 && depth < 3 {
                    menu_items(t, map, c, current, depth + 1, names, map[c].len() as int)
                } else {
                    Seq::empty()
                },
            },
        ]
    }
}

/// Whether `map` lists the pages under each node as flattening the tree
/// does, in the order it lists them.
pub open spec fn flattened(t: SiteTree, map: Seq<Seq<SiteId>>) -> bool {
    &&& map.len() == t.size()
    &&& forall|p: int, q: int| 0 <= p < t.size() && 0 <= q < t.size()
        ==> (map[p].contains(SiteId(q as usize)) <==> flat_child(t, p, q))
    &&& forall|p: int, k: int| 0 <= p < t.size() && 0 <= k < map[p].len() ==> #[trigger] map[p][k].0 < t.size()
    &&& forall|p: int| 0 <= p < t.size() ==> #[trigger] map[p] == flat_list(t, visit(t, 0), p)
}

/// The entries of the pages listed under `node_id`, from the last listed:
/// links relative to the page shown, names as the map gives them, and below
/// each page that has pages listed under it, their entries, three levels
/// deep at most.
pub fn build_menu_tree(
    site_tree: &SiteTree,
    map: &Vec<Vec<SiteId>>,
    node_id: SiteId,
    current_id: SiteId,
    depth: usize,
    name_map: Option<&RawMap<String>>,
) -> (r: Vec<MenuEntry>)
    requires
        node_id.0 < map@.len(),
        current_id.0 < site_tree.size(),
        map@.len() == site_tree.size(),
        forall|p: int, k: int| 0 <= p < map@.len() && 0 <= k < map@[p]@.len() ==> #[trigger] map@[p]@[k].0 < map@.len(),
    ensures
        entries_view(r@) == menu_items(
            *site_tree,
            map@.map_values(|v: Vec<SiteId>| v@),
            node_id.0 as int,
            current_id.0 as int,
            depth as int,
            names_view(name_map),
            map@[node_id.0 as int]@.len() as int,
        ),
    decreases 3 - depth,
{
    let ghost m = map@.map_values(|v: Vec<SiteId>| v@);
    let list = &map[node_id.0];
    let n = list.len();
    let mut entries: Vec<MenuEntry> = Vec::new();
    let mut k: usize = 0;
    while k < n
        invariant
            k <= n,
            n == list@.len(),
            list@ == map@[node_id.0 as int]@,
            m == map@.map_values(|v: Vec<SiteId>| v@),
            node_id.0 < map@.len(),
            current_id.0 < site_tree.size(),
            map@.len() == site_tree.size(),
            forall|p: int, j: int| 0 <= p < map@.len() && 0 <= j < map@[p]@.len() ==> #[trigger] map@[p]@[j].0 < map@.len(),
            entries_view(entries@) == menu_items(*site_tree, m, node_id.0 as int, current_id.0 as int, depth as int, names_view(name_map), k as int),
        decreases n - k,
    {
        let child = list[n - 1 - k];
        proof {
            assert(m[node_id.0 as int] == list@);
            assert(child.0 < map@.len());
        }
        let node = site_tree.get(child).unwrap();
        let href = site_tree.rel_path(current_id, child);
        let name = format_node_name(node.name().as_str(), name_map);
        let children = if map[child.0].len() > 0 && depth < 3 {
            build_menu_tree(site_tree, map, child, current_id, depth + 1, name_map)
        } else {
            Vec::new()
        };
        let ghost before = entries_view(entries@);
        let entry = MenuEntry { href, name, active: child == current_id, children };
        proof {
            assert(m[child.0 as int] == map@[child.0 as int]@);
            assert(entry@.children =~= if 0 <= child.0 < m.len() && m[child.0 as int].len() > 0 && depth < 3 {
                menu_items(*site_tree, m, child.0 as int, current_id.0 as int, depth + 1, names_view(name_map), m[child.0 as int].len() as int)
            } else {
                Seq::empty()
            });
        }
        entries.push(entry);
        proof {
            assert(entries_view(entries@) =~= before.push(entry@));
        }
        k += 1;
    }
    entries
}

/// The side menu of a page: the entries of the pages under the root, or one
/// entry for the root with them below it. The pages under each node are
/// those that flattening the tree lists there, in the order it lists them.
pub fn side_menu(site_tree: &SiteTree, site_id: SiteId, include_root: bool, name_map: Option<&RawMap<String>>) -> (r: Vec<MenuEntry>)
    requires
        site_id.0 < site_tree.size(),
    ensures
        exists|m: Seq<Seq<SiteId>>| {
            &&& #[trigger] flattened(*site_tree, m)
            &&& entries_view(r@) == if include_root {
                seq![
                    SpecEntry {
                        href: relative_path(*site_tree, site_id.0 as int, 0),
                        name: shown_name(site_tree.name_of(0), names_view(name_map)),
                        active: site_id.0 == 0,
                        children: if m[0].len() > 0 {
                            menu_items(*site_tree, m, 0, site_id.0 as int, 0, names_view(name_map), m[0].len() as int)
                        } else {
                            Seq::empty()
                        },
                    },
                ]
            } else {
                menu_items(*site_tree, m, 0, site_id.0 as int, 0, names_view(name_map), m[0].len() as int)
            }
        },
{
    let map = site_tree.flatten_to_pages();
    let ghost m = map@.map_values(|v: Vec<SiteId>| v@);
    proof {
        assert(flattened(*site_tree, m)) by {
            assert forall|p: int, q: int| 0 <= p < site_tree.size() && 0 <= q < site_tree.size()
                implies (m[p].contains(SiteId(q as usize)) <==> flat_child(*site_tree, p, q)) by {
                assert(m[p] == map@[p]@);
            }
            assert forall|p: int, k: int| 0 <= p < site_tree.size() && 0 <= k < m[p].len()
                implies #[trigger] m[p][k].0 < site_tree.size() by {
                assert(m[p] == map@[p]@);
                assert(map@[p]@[k].0 < site_tree.size());
            }
            assert forall|p: int| 0 <= p < site_tree.size() implies #[trigger] m[p] == flat_list(*site_tree, visit(*site_tree, 0), p) by {
                assert(m[p] == map@[p]@);
            }
        }
    }
    let root = site_tree.root();
    let r = if include_root {
        let node = site_tree.get(root).unwrap();
        let href = site_tree.rel_path(site_id, root);
        let name = format_node_name(node.name().as_str(), name_map);
        let children = if map[root.0].len() > 0 {
            build_menu_tree(site_tree, &map, root, site_id, 0, name_map)
        } else {
            Vec::new()
        };
        let entry = MenuEntry { href, name, active: root == site_id, children };
        proof {
            assert(m[0] == map@[0]@);
            assert(entry@.children =~= if m[0].len() > 0 {
                menu_items(*site_tree, m, 0, site_id.0 as int, 0, names_view(name_map), m[0].len() as int)
            } else {
                Seq::empty()
            });
        }
        let mut v = Vec::new();
        v.push(entry);
        proof {
            assert(entries_view(v@) =~= seq![entry@]);
        }
        v
    } else {
        build_menu_tree(site_tree, &map, root, site_id, 0, name_map)
    };
    proof {
        assert(m[0] == map@[0]@);
    }
    r
}

/// The navigation that a page shows.
#[derive(Debug, PartialEq, Eq)]
pub enum Nav {
    Breadcrumbs(Vec<NavPiece>),
    SideMenu(Vec<MenuEntry>),
}

/// The navigation a page shows, as its options ask: breadcrumbs (none on
/// the root), a side menu, or nothing.
pub fn nav(options: &NavOptions, site_tree: &SiteTree, site_id: SiteId) -> (r: Option<Nav>)
    requires
        site_id.0 < site_tree.size(),
    ensures
        match options.kind {
            Some(NavKind::Breadcrumbs) => if site_id.0 == 0 {
                r is None
            } else {
                r matches Some(Nav::Breadcrumbs(v)) && pieces_view(v@) == trail(*site_tree, site_id.0 as int)
            },
            Some(NavKind::SideMenu) => r matches Some(Nav::SideMenu(v)) && exists|m: Seq<Seq<SiteId>>| {
                &&& #[trigger] flattened(*site_tree, m)
                &&& entries_view(v@) == if options.include_root == Some(true) {
                    seq![
                        SpecEntry {
                            href: relative_path(*site_tree, site_id.0 as int, 0),
                            name: shown_name(site_tree.name_of(0), map_names_view(options.name_map)),
                            active: site_id.0 == 0,
                            children: if m[0].len() > 0 {
                                menu_items(*site_tree, m, 0, site_id.0 as int, 0, map_names_view(options.name_map), m[0].len() as int)
                            } else {
                                Seq::empty()
                            },
                        },
                    ]
                } else {
                    menu_items(*site_tree, m, 0, site_id.0 as int, 0, map_names_view(options.name_map), m[0].len() as int)
                }
            },
            _ => r is None,
        },
{
    match options.kind {
        Some(NavKind::Breadcrumbs) => {
            if site_id == site_tree.root() {
                None
            } else {
                Some(Nav::Breadcrumbs(breadcrumbs(site_tree, site_id)))
            }
        },
        Some(NavKind::SideMenu) => {
            let include_root = match options.include_root {
                Some(b) => b,
                None => false,
            };
            Some(Nav::SideMenu(side_menu(site_tree, site_id, include_root, options.name_map.as_ref())))
        },
        _ => None,
    }
}

} // verus!
