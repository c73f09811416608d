use lssg::sitemap::{escape_xml, Sitemap};

#[test]
fn sitemap_sorted_and_escaped() {
    let paths = vec!["/b".to_owned(), "/a&c".to_owned(), "/".to_owned()];
    let sitemap = Sitemap::build(&paths, Some("https://example.com//"));
    assert_eq!(
        sitemap.to_string(),
        "<?xml version=\"1.0\" encoding=\"UTF-8\"?><urlset xmlns=\"http://www.sitemaps.org/schemas/sitemap/0.9\">\
\n  <url>\n    <loc>https://example.com/</loc>\n  </url>\
\n  <url>\n    <loc>https://example.com/a&amp;c</loc>\n  </url>\
\n  <url>\n    <loc>https://example.com/b</loc>\n  </url>\
\n</urlset>"
    );
}

#[test]
fn sitemap_without_host() {
    let paths = vec!["/z".to_owned(), "/y".to_owned()];
    let sitemap = Sitemap::build(&paths, None);
    let text = sitemap.to_string();
    assert!(text.find("<loc>/y</loc>").unwrap() < text.find("<loc>/z</loc>").unwrap());
    let empty = Sitemap::build(&vec![], None);
    assert!(empty.to_string().ends_with("sitemaps.org/schemas/sitemap/0.9\">\n</urlset>"));
}

#[test]
fn xml_escapes() {
    assert_eq!(escape_xml(r#"<a href="x">'&'</a>"#), "&lt;a href=&quot;x&quot;&gt;&apos;&amp;&apos;&lt;/a&gt;");
    assert_eq!(escape_xml("plain"), "plain");
}

#[test]
fn sitemap_order_does_not_depend_on_input_order() {
    let a = Sitemap::build(&vec!["/b".to_owned(), "/a".to_owned(), "/c".to_owned()], Some("h"));
    let b = Sitemap::build(&vec!["/c".to_owned(), "/b".to_owned(), "/a".to_owned()], Some("h"));
    assert_eq!(a.to_string(), b.to_string());
}
