use lssg::modules::option_sources;
use lssg::sitetree::relational_graph::Relation;
use lssg::sitetree::site_id::SiteId;
use lssg::sitetree::site_tree::{SiteNode, SiteNodeKind, SiteTree};

/// index.md (0) with folder a (1) holding page b (2), and page c (3).
fn small_tree() -> SiteTree {
    let mut t = SiteTree::new();
    assert_eq!(t.add(SiteNode::root("index.md")), SiteId(0));
    assert_eq!(t.add(SiteNode::folder("a", SiteId(0))), SiteId(1));
    assert_eq!(t.add(SiteNode::page("b", SiteId(1))), SiteId(2));
    assert_eq!(t.add(SiteNode::page("c", SiteId(0))), SiteId(3));
    t
}

#[test]
fn site_tree_add_builds_hierarchy() {
    let t = small_tree();
    assert_eq!(t.len(), 4);
    assert!(!t.is_empty());
    assert_eq!(t.root(), SiteId(0));
    assert_eq!(t.get(SiteId(1)).unwrap().children, vec![SiteId(2)]);
    assert_eq!(t.get(SiteId(0)).unwrap().children, vec![SiteId(1), SiteId(3)]);
    assert_eq!(t.get(SiteId(2)).unwrap().parent, Some(SiteId(1)));
    assert!(t.get(SiteId(4)).is_none());
    assert_eq!(t.ids(), vec![SiteId(0), SiteId(1), SiteId(2), SiteId(3)]);
}

#[test]
fn site_tree_add_name_collision_returns_existing() {
    let mut t = small_tree();
    assert_eq!(t.add(SiteNode::folder("a", SiteId(0))), SiteId(1));
    assert_eq!(t.len(), 4);
    assert_eq!(t.get(SiteId(0)).unwrap().children, vec![SiteId(1), SiteId(3)]);
    // the same name under another parent is a new node
    assert_eq!(t.add(SiteNode::page("c", SiteId(1))), SiteId(4));
}

#[test]
fn site_tree_get_by_name() {
    let t = small_tree();
    assert_eq!(t.get_by_name("a", SiteId(0)), Some(SiteId(1)));
    assert_eq!(t.get_by_name("c", SiteId(0)), Some(SiteId(3)));
    assert_eq!(t.get_by_name("b", SiteId(0)), None);
    assert_eq!(t.get_by_name("b", SiteId(1)), Some(SiteId(2)));
}

#[test]
fn site_tree_parents_and_page_parent() {
    let t = small_tree();
    assert_eq!(t.parents(SiteId(2)), vec![SiteId(1), SiteId(0)]);
    assert!(t.parents(SiteId(0)).is_empty());
    assert!(t.is_parent(SiteId(2), SiteId(0)));
    assert!(t.is_parent(SiteId(2), SiteId(1)));
    assert!(!t.is_parent(SiteId(3), SiteId(1)));
    assert!(!t.is_parent(SiteId(2), SiteId(2)));
    assert_eq!(t.page_parent(SiteId(2)), Some(SiteId(0)));
    assert_eq!(t.page_parent(SiteId(0)), None);
}

#[test]
fn site_tree_absolute_paths() {
    let t = small_tree();
    assert_eq!(t.path(SiteId(0)), "/");
    assert_eq!(t.path(SiteId(1)), "/a");
    assert_eq!(t.path(SiteId(2)), "/a/b");
    assert_eq!(t.path(SiteId(3)), "/c");
}

#[test]
fn site_tree_relative_paths() {
    let t = small_tree();
    assert_eq!(t.rel_path(SiteId(2), SiteId(3)), "../../c");
    assert_eq!(t.rel_path(SiteId(3), SiteId(2)), "../a/b");
    assert_eq!(t.rel_path(SiteId(0), SiteId(2)), "./a/b");
    assert_eq!(t.rel_path(SiteId(1), SiteId(2)), "./b");
    assert_eq!(t.rel_path(SiteId(2), SiteId(2)), "../b");
    assert_eq!(t.rel_path(SiteId(2), SiteId(0)), "../../");
    assert_eq!(t.rel_path(SiteId(0), SiteId(0)), "./");
}

#[test]
fn site_node_names_are_sanitized() {
    assert_eq!(SiteNode::folder("../a b?.", SiteId(0)).name(), "a b_");
    assert_eq!(SiteNode::folder("..", SiteId(0)).name(), "unnamed");
    assert_eq!(SiteNode::page("dir/page.md", SiteId(0)).name(), "page.md");
    let mut n = SiteNode::resource("x", SiteId(0));
    n.set_name(" .hidden* ");
    assert_eq!(n.name(), "hidden_");
    assert_eq!(n.kind, SiteNodeKind::Resource);
}

#[test]
fn site_node_kind_from_input() {
    assert!(SiteNodeKind::input_is_page("blog/post.md"));
    assert!(!SiteNodeKind::input_is_page("post.mdx"));
    assert!(SiteNodeKind::input_is_stylesheet("main.css"));
    assert!(SiteNodeKind::input_is_javascript("app.js"));
    assert!(!SiteNodeKind::input_is_javascript("app.json"));
    assert!(SiteNodeKind::Page.is_page());
    assert!(!SiteNodeKind::Folder.is_page());
    assert_eq!(SiteNodeKind::Stylesheet.to_string(), "Stylesheet");
}

#[test]
fn site_tree_add_link_ignores_duplicates() {
    let mut t = small_tree();
    t.add_link(SiteId(0), SiteId(3), Relation::Family);
    t.add_link(SiteId(2), SiteId(3), Relation::External);
    t.add_link(SiteId(2), SiteId(3), Relation::External);
    assert_eq!(t.links_from(SiteId(2)).len(), 1);
    t.add_link(SiteId(2), SiteId(3), Relation::Discovered { raw_path: "../../c".to_owned() });
    let from2 = t.links_from(SiteId(2));
    assert_eq!(from2.len(), 2);
    assert_eq!(from2[1].to, SiteId(3));
    // links that end at a node are not links from it
    assert!(t.links_from(SiteId(3)).is_empty());
    assert_eq!(t.len(), 4);
}

#[test]
fn site_tree_flatten_to_pages() {
    let mut t = small_tree();
    assert_eq!(t.add(SiteNode::page("d", SiteId(2))), SiteId(4));
    assert_eq!(t.add(SiteNode::resource("r", SiteId(3))), SiteId(5));
    let map = t.flatten_to_pages();
    assert_eq!(
        map,
        vec![vec![SiteId(3), SiteId(2)], vec![], vec![SiteId(4)], vec![], vec![], vec![]]
    );
}

#[test]
fn site_tree_output_order_and_plan() {
    let mut t = small_tree();
    assert_eq!(t.add(SiteNode::stylesheet("s.css", SiteId(1))), SiteId(4));
    t.add_link(SiteId(0), SiteId(4), Relation::Family);
    t.add_link(SiteId(4), SiteId(2), Relation::Discovered { raw_path: "b".to_string() });
    t.add_link(SiteId(4), SiteId(3), Relation::External);
    assert_eq!(t.output_order(), vec![SiteId(0), SiteId(3), SiteId(1), SiteId(4), SiteId(2)]);
    let plan = t.output_plan("/out");
    let ids: Vec<SiteId> = plan.iter().map(|s| s.id).collect();
    assert_eq!(ids, vec![SiteId(0), SiteId(3), SiteId(1), SiteId(4), SiteId(2)]);
    assert_eq!(plan[0].path, "/out/");
    assert_eq!(plan[0].html_path, Some("/out/index.html".to_string()));
    assert_eq!(plan[2].path, "/out/a");
    assert_eq!(plan[2].kind, SiteNodeKind::Folder);
    assert_eq!(plan[2].html_path, None);
    assert_eq!(plan[4].html_path, Some("/out/a/b/index.html".to_string()));
    assert_eq!(plan[3].path, "/out/a/s.css");
    assert_eq!(plan[3].rewrites, vec![("b".to_string(), "./b".to_string())]);
    assert!(plan[1].rewrites.is_empty());
}

#[test]
fn options_come_from_pages_up_to_the_root() {
    let t = small_tree();
    let flags = vec![Some(false), None, Some(false), Some(false)];
    assert_eq!(option_sources(&t, SiteId(2), &flags), vec![SiteId(0), SiteId(2)]);
    assert_eq!(option_sources(&t, SiteId(0), &flags), vec![SiteId(0)]);
    let flags = vec![Some(false), None, Some(true), Some(false)];
    assert_eq!(option_sources(&t, SiteId(2), &flags), vec![SiteId(2)]);
    let flags = vec![None, None, Some(false), None];
    assert_eq!(option_sources(&t, SiteId(2), &flags), vec![SiteId(2)]);
    assert_eq!(option_sources(&t, SiteId(3), &flags), Vec::<SiteId>::new());
}
