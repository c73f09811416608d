use lssg::attributes::Attributes;
use lssg::domtree::{DomNodeKind, DomTree};
use lssg::html::{parse_html, to_attributes};
use lssg::tree::Node;

#[test]
fn test_remove() {
    let mut tree = DomTree::new();
    let body = tree.get_elements_by_tag_name("body")[0];
    let p = tree.add_element(body, "p");
    let text = tree.add_text(p, "This is a paragraph");

    tree.remove(p);
    assert!(p < tree.len());
    assert!(tree.try_get(p).is_none());
    assert_eq!(tree.index(body).children(), &vec![text]);
    assert_eq!(tree.index(text).parent().unwrap(), body);
}

#[test]
fn domtree_new_has_head_and_body() {
    let tree = DomTree::new();
    assert_eq!(tree.len(), 3);
    assert_eq!(tree.get_elements_by_tag_name("head"), vec![1]);
    assert_eq!(tree.get_elements_by_tag_name("body"), vec![2]);
    assert_eq!(tree.get_elements_by_tag_name("p"), Vec::<usize>::new());
}

#[test]
fn domtree_elements_in_depth_first_order() {
    let mut tree = DomTree::new();
    let body = 2;
    let a = tree.add_element(body, "div");
    let b = tree.add_element(body, "div");
    let c = tree.add_element(a, "div");
    // the last child is visited first
    assert_eq!(tree.get_elements_by_tag_name("div"), vec![b, a, c]);
}

#[test]
fn domtree_to_html_string() {
    let mut tree = DomTree::new();
    let head = 1;
    let body = 2;
    tree.add_element_with_attributes(head, "meta", to_attributes([("charset", "utf-8")]));
    tree.add_element_with_attributes(head, "link", to_attributes([("rel", "stylesheet"), ("async", "")]));
    let p = tree.add_element(body, "p");
    tree.add_text(p, "hi");
    assert_eq!(
        tree.to_html_string(),
        r#"<!DOCTYPE html><html><head><meta charset="utf-8"/><link rel="stylesheet" async/></head><body><p>hi</p></body></html>"#
    );
}

#[test]
fn domtree_add_html_skips_comments() {
    let mut tree = DomTree::new();
    let body = 2;
    let html = parse_html(r#"<div class="x">a<!--c--><b>b</b></div>"#.as_bytes()).unwrap();
    let mut added = vec![];
    for h in html {
        added.push(tree.add_html(body, h));
    }
    assert_eq!(added, vec![Some(3)]);
    let div = tree.index(3);
    match &div.kind {
        DomNodeKind::Element { tag, attributes } => {
            assert_eq!(tag, "div");
            assert_eq!(attributes.get("class"), Some(&"x".to_owned()));
        }
        _ => panic!("not an element"),
    }
    assert_eq!(div.children(), &vec![4, 5]);
    let comment = parse_html("<!--only-->".as_bytes()).unwrap().pop().unwrap();
    assert_eq!(tree.add_html(body, comment), None);
    assert_eq!(
        tree.to_html_string(),
        r#"<!DOCTYPE html><html><head></head><body><div class="x">a<b>b</b></div></body></html>"#
    );
    let _ = Attributes::new();
}

#[test]
fn domtree_validate_removes_empty_nodes() {
    let mut tree = DomTree::new();
    let body = 2;
    let p1 = tree.add_element(body, "p");
    let empty = tree.add_text(p1, "");
    let p2 = tree.add_element(body, "p");
    let kept = tree.add_text(p2, "kept");
    let div = tree.add_element(body, "div");
    let inner = tree.add_element(div, "p");
    let deep = tree.add_element(inner, "p");
    let word = tree.add_text(deep, "w");
    tree.validate();
    assert!(tree.try_get(p1).is_none());
    assert!(tree.try_get(empty).is_none());
    assert!(tree.try_get(p2).is_some());
    assert!(tree.try_get(kept).is_some());
    assert!(tree.try_get(div).is_some());
    assert!(tree.try_get(word).is_some());
    assert_eq!(tree.index(body).children(), &vec![p2, div]);
    assert_eq!(
        tree.to_html_string(),
        "<!DOCTYPE html><html><head></head><body><p>kept</p><div><p><p>w</p></p></div></body></html>"
    );
}

#[test]
fn domtree_validate_moves_children_up() {
    let mut tree = DomTree::new();
    let body = 2;
    let p = tree.add_element(body, "p");
    let e = tree.add_text(p, "");
    let b = tree.add_element(e, "b");
    tree.add_text(b, "x");
    tree.validate();
    // the empty text is removed and its child goes to the paragraph, which keeps it
    assert!(tree.try_get(e).is_none());
    assert_eq!(tree.index(p).children(), &vec![b]);
    assert_eq!(tree.index(b).parent(), Some(p));
}

#[test]
fn domtree_remove_undoes_add() {
    let mut tree = DomTree::new();
    let body = 2;
    tree.add_text(body, "x");
    let before = DomTree::new();
    let mut before = before;
    before.add_text(body, "x");
    let id = tree.add_element(body, "span");
    tree.remove(id);
    assert_eq!(tree.len(), before.len() + 1);
    assert!(tree.try_get(id).is_none());
    assert_eq!(tree.index(body).children(), before.index(body).children());
    assert_eq!(tree.to_html_string(), before.to_html_string());
}

#[test]
fn attributes_read_after_write() {
    let mut a = Attributes::new();
    a.insert("class".to_owned(), "x".to_owned());
    a.insert("id".to_owned(), "y".to_owned());
    a.insert("class".to_owned(), "z".to_owned());
    assert_eq!(a.get("class"), Some(&"z".to_owned()));
    assert_eq!(a.get("id"), Some(&"y".to_owned()));
    assert_eq!(a.get("style"), None);
    assert_eq!(a.len(), 2);
}

#[test]
fn test_tree() {
    let tree = DomTree::new();
    assert_eq!(tree.len(), 3);
}
