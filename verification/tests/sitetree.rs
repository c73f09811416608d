use lssg::sitetree::javascript::{parse_links, JavascriptLink, ScriptMode};
use lssg::sitetree::relational_graph::{RelationalGraph, Relation};
use lssg::sitetree::site_id::SiteId;
use lssg::sitetree::stylesheet::{links, links_from_matches, Stylesheet, StylesheetLink};

#[test]
fn test_stylesheet_links() {
    let resources = links(
        r#"@import "test.css"
@import 'test.css'
@import 'http:://test.com/test.css'
@import url("test.css")

@font-face {
  font-family: "Ubuntu Mono";
  src: url("lib/UbuntuMono-Regular.ttf") format("truetype");
}
* {
  background-image: url('test.jpg')
}"#,
    );

    assert_eq!(
        resources.get("@import \"test.css\"").unwrap(),
        &StylesheetLink::Import("test.css".to_owned())
    );
    assert_eq!(
        resources.get("@import \'test.css\'").unwrap(),
        &StylesheetLink::Import("test.css".to_owned())
    );
    assert_eq!(resources.get("@import 'http:://test.com/test.css'"), None);
    assert_eq!(
        resources.get("@import url(\"test.css\")").unwrap(),
        &StylesheetLink::Import("test.css".to_owned())
    );
    assert_eq!(
        resources
            .get(r#"url("lib/UbuntuMono-Regular.ttf")"#)
            .unwrap(),
        &StylesheetLink::Url("lib/UbuntuMono-Regular.ttf".to_owned())
    );
    assert_eq!(
        resources.get(r#"url('test.jpg')"#).unwrap(),
        &StylesheetLink::Url("test.jpg".to_owned())
    );
}

#[test]
fn stylesheet_links_from_given_matches() {
    let ms = vec![
        vec![Some("@import 'a.css'".to_owned()), Some("a.css".to_owned()), None, None],
        vec![Some("@import 'https://x'".to_owned()), Some("https://x".to_owned()), None, None],
        vec![Some("url('b.png')".to_owned()), None, None, Some("b.png".to_owned())],
        vec![Some("url('c.png')".to_owned()), None, None],
    ];
    let m = links_from_matches(&ms);
    assert_eq!(m.len(), 2);
    assert_eq!(m.get("@import 'a.css'"), Some(&StylesheetLink::Import("a.css".to_owned())));
    assert_eq!(m.get("url('b.png')"), Some(&StylesheetLink::Url("b.png".to_owned())));
    assert_eq!(m.get("@import 'https://x'"), None);
}

#[test]
fn stylesheet_update_resource_replaces_text() {
    let mut s = Stylesheet::from_readable("a { background: url('x.png') } b { background: url('x.png') }".to_owned());
    assert_eq!(s.links(), vec![&StylesheetLink::Url("x.png".to_owned())]);
    s.update_resource("x.png", "static/x.png");
    assert_eq!(s.as_str(), "a { background: url('static/x.png') } b { background: url('static/x.png') }");
}

#[test]
fn test_javascript_links() {
    let resources = parse_links(
        r#"import { something } from './module.js';
import * as module from "./another.js";
import defaultExport from './default.js'
import 'https://cdn.example.com/lib.js'

const lazyLoad = () => import('./lazy.js');
const dynamic = import("./dynamic.js");

// Should be ignored - external
import { external } from 'https://example.com/external.js';
// Should be ignored - bare module
import { bare } from 'lodash';
"#,
    );

    assert_eq!(
        resources
            .get("import { something } from './module.js'")
            .unwrap(),
        &JavascriptLink::Import("./module.js".to_owned())
    );
    assert_eq!(
        resources
            .get("import * as module from \"./another.js\"")
            .unwrap(),
        &JavascriptLink::Import("./another.js".to_owned())
    );
    assert_eq!(
        resources
            .get("import defaultExport from './default.js'")
            .unwrap(),
        &JavascriptLink::Import("./default.js".to_owned())
    );
    assert_eq!(
        resources.get("import('./lazy.js')").unwrap(),
        &JavascriptLink::DynamicImport("./lazy.js".to_owned())
    );
    assert_eq!(
        resources.get("import(\"./dynamic.js\")").unwrap(),
        &JavascriptLink::DynamicImport("./dynamic.js".to_owned())
    );

    assert_eq!(
        resources
            .get("import { external } from 'https://example.com/external.js'")
            .unwrap(),
        &JavascriptLink::Import("https://example.com/external.js".to_owned())
    );
    assert_eq!(
        resources.get("import { bare } from 'lodash'").unwrap(),
        &JavascriptLink::Import("lodash".to_owned())
    );
}

#[test]
fn script_mode_attributes() {
    assert_eq!(ScriptMode::default(), ScriptMode::Defer);
    assert_eq!(ScriptMode::Defer.attributes(), vec![("defer", "")]);
    assert_eq!(ScriptMode::Async.attributes(), vec![("async", "")]);
    assert_eq!(ScriptMode::Blocking.attributes(), Vec::<(&str, &str)>::new());
    assert_eq!(ScriptMode::Module.attributes(), vec![("type", "module")]);
    assert_eq!(ScriptMode::ModuleBlocking.attributes(), vec![("type", "module")]);
    assert!(ScriptMode::ModuleBlocking.in_body());
    assert!(!ScriptMode::Module.in_body());
    assert_eq!(JavascriptLink::DynamicImport("./a.js".to_owned()).to_string(), "./a.js");
}

#[test]
fn relational_graph_add_and_links_from() {
    let mut g = RelationalGraph::new();
    g.add(SiteId(0), SiteId(3), Relation::Family);
    g.add(SiteId(3), SiteId(1), Relation::Discovered { raw_path: "./a".to_owned() });
    assert_eq!(g.index(SiteId(2)).len(), 0);
    assert_eq!(g.index(SiteId(3)).len(), 2);
    let from3 = g.links_from(SiteId(3));
    assert_eq!(from3.len(), 1);
    assert_eq!(from3[0].to, SiteId(1));
    let from0 = g.links_from(SiteId(0));
    assert_eq!(from0.len(), 1);
    assert_eq!(from0[0].to, SiteId(3));
}

#[test]
fn relational_graph_remove_all() {
    let mut g = RelationalGraph::new();
    g.add(SiteId(0), SiteId(1), Relation::Family);
    g.add(SiteId(0), SiteId(2), Relation::External);
    g.add(SiteId(2), SiteId(1), Relation::External);
    g.remove_all(SiteId(1));
    assert_eq!(g.index(SiteId(1)).len(), 0);
    // the link 0 -> 2 stays, the links touching 1 are gone
    assert_eq!(g.index(SiteId(0)).len(), 1);
    assert_eq!(g.index(SiteId(0))[0].to, SiteId(2));
    assert_eq!(g.index(SiteId(2)).len(), 1);
    assert!(g.links_from(SiteId(2)).is_empty());
}

#[test]
fn site_id_conversions() {
    let id: SiteId = SiteId::from(42usize);
    assert_eq!(*id, 42);
    let n: usize = id.into();
    assert_eq!(n, 42);
    assert_eq!(id.to_string(), "42");
    assert_eq!(SiteId(0).to_string(), "0");
    assert_eq!(SiteId(1907).to_string(), "1907");
}
