use lssg::modules::NavKind;
use lssg::nav::{breadcrumbs, format_node_name, nav, side_menu, MenuEntry, Nav, NavOptions, NavPiece};
use lssg::raw_map::RawMap;
use lssg::sitetree::site_id::SiteId;
use lssg::sitetree::site_tree::{SiteNode, SiteTree};

/// index.md (0) with folder a (1) holding page b (2), and page c (3).
fn small_tree() -> SiteTree {
    let mut t = SiteTree::new();
    t.add(SiteNode::root("index.md"));
    t.add(SiteNode::folder("a", SiteId(0)));
    t.add(SiteNode::page("b", SiteId(1)));
    t.add(SiteNode::page("c", SiteId(0)));
    t
}

fn text(s: &str) -> NavPiece {
    NavPiece::Text { text: s.to_string() }
}

#[test]
fn breadcrumbs_of_nested_page() {
    let t = small_tree();
    assert_eq!(
        breadcrumbs(&t, SiteId(2)),
        vec![
            text("/"),
            NavPiece::Link { href: t.rel_path(SiteId(2), SiteId(0)), text: "index.md".to_string() },
            text("/"),
            NavPiece::Label { text: "a".to_string() },
            text("/b"),
        ]
    );
    assert_eq!(breadcrumbs(&t, SiteId(0)), vec![text("/"), text("/index.md")]);
}

#[test]
fn names_can_be_mapped() {
    let mut names: RawMap<String> = RawMap::new();
    names.insert("c".to_string(), "See".to_string());
    assert_eq!(format_node_name("c", Some(&names)), "See");
    assert_eq!(format_node_name("b", Some(&names)), "b");
    assert_eq!(format_node_name("c", None), "c");
}

#[test]
fn side_menu_lists_pages() {
    let t = small_tree();
    let menu = side_menu(&t, SiteId(3), false, None);
    let names: Vec<&str> = menu.iter().map(|e| e.name.as_str()).collect();
    assert_eq!(menu.len(), 2);
    assert!(names.contains(&"b") && names.contains(&"c"));
    let c = menu.iter().find(|e| e.name == "c").unwrap();
    assert!(c.active);
    assert!(c.children.is_empty());
    let with_root = side_menu(&t, SiteId(0), true, None);
    assert_eq!(with_root.len(), 1);
    assert_eq!(with_root[0].name, "index.md");
    assert!(with_root[0].active);
    assert_eq!(with_root[0].children.len(), 2);
}

#[test]
fn nav_follows_options() {
    let t = small_tree();
    let options = NavOptions::default();
    assert_eq!(nav(&options, &t, SiteId(0)), None);
    assert!(matches!(nav(&options, &t, SiteId(2)), Some(Nav::Breadcrumbs(_))));
    let options = NavOptions { kind: Some(NavKind::SideMenu), include_root: None, name_map: None };
    match nav(&options, &t, SiteId(2)) {
        Some(Nav::SideMenu(entries)) => {
            let _: &Vec<MenuEntry> = &entries;
            assert_eq!(entries.len(), 2);
        }
        _ => panic!("side menu expected"),
    }
    let options = NavOptions { kind: Some(NavKind::NoNav), include_root: None, name_map: None };
    assert_eq!(nav(&options, &t, SiteId(2)), None);
}
