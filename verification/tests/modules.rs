use lssg::modules::{
    is_href_external, is_image_file, is_video_file, BlogPostOptions, BlogRootOptions, CodeModuleOptions,
    DefaultModule, MediaModule, MediaOptions, OneOrManyOption, PostOptions, SinglePageOptions,
};
use lssg::path_extension::PathExtension;
use lssg::stylesheet::{local_resources, Stylesheet};
use lssg::text::replace_all;

#[test]
fn href_external() {
    assert!(is_href_external("https://example.com"));
    assert!(is_href_external("mailto:me@example.com"));
    assert!(!is_href_external("./page.md"));
    assert!(!is_href_external("htt"));
}

#[test]
fn media_files() {
    assert!(is_image_file("photo.JPG"));
    assert!(is_image_file("a.webp"));
    assert!(!is_image_file("a.mp4"));
    assert!(is_video_file("clip.MoV"));
    assert!(!is_video_file("clip.jpg"));
    assert!(!is_image_file("jpg"));
}

#[test]
fn option_defaults() {
    let m = MediaOptions::default();
    assert_eq!(m.image_quality, 85);
    assert_eq!(m.max_width, Some(1920));
    assert_eq!(m.resize_threshold_bytes, 1_000_000);
    assert_eq!(MediaModule::default().options, m);
    assert!(BlogPostOptions::default().render);
    assert!(PostOptions::default().render);
    assert!(!SinglePageOptions::default().root);
    let c = CodeModuleOptions::default();
    assert!(c.auto_detect_language && c.copy_button && !c.copy_button_autohide);
    let b = BlogRootOptions::default();
    assert_eq!(b.rss.title, "Feed");
    assert_eq!(b.rss.path, "feed.xml");
    let _ = DefaultModule::new();
}

#[test]
fn one_or_many() {
    let one = OneOrManyOption::One(5);
    assert_eq!(one.len(), 1);
    assert!(!one.is_empty());
    assert_eq!(one.as_slice(), &[5]);
    assert_eq!(one.into_vec(), vec![5]);
    let many: OneOrManyOption<i32> = OneOrManyOption::Many(vec![]);
    assert!(many.is_empty());
    assert_eq!(many.len(), 0);
    let many = OneOrManyOption::Many(vec![1, 2]);
    assert_eq!(many.as_slice(), &[1, 2]);
    assert_eq!(many.into_vec(), vec![1, 2]);
}

#[test]
fn canonical_paths() {
    assert_eq!("a/./b/../c".canonicalize_nonexistent_path(), "a/c");
    assert_eq!("../a".canonicalize_nonexistent_path(), "../a");
    assert_eq!("/x/y/..".canonicalize_nonexistent_path(), "/x");
    assert_eq!("./".canonicalize_nonexistent_path(), "");
    assert_eq!("dir/file.md".filename_from_path().unwrap(), "file.md");
    assert_eq!("dir/file.md".filestem_from_path().unwrap(), "file");
    assert!("/".filename_from_path().is_err());
}

#[test]
fn replace_all_like_str_replace() {
    for (s, a, b) in [("aaa", "a", "b"), ("abcabc", "bc", "X"), ("ab", "", "-"), ("", "", "x"), ("aaaa", "aa", "a")] {
        assert_eq!(replace_all(s, a, b), s.replace(a, b));
    }
}

#[test]
fn stylesheet_resources() {
    let found = local_resources(r#"a { b: url("./img.png") } c { d: url(../x.svg) } e { f: url("http://x") }"#);
    assert_eq!(found, vec![
        (r#"url("./img.png")"#.to_owned(), "./img.png".to_owned()),
        ("url(../x.svg)".to_owned(), "../x.svg".to_owned()),
    ]);
    let mut s = Stylesheet::new();
    s.append_content(r#"a { b: url("./img.png") }"#);
    s.add_resource("/site/img.png".to_owned(), r#"url("./img.png")"#.to_owned());
    s.add_resource("/site/img.png".to_owned(), r#"url("./img.png")"#.to_owned());
    assert_eq!(s.resources(), vec![&"/site/img.png".to_owned()]);
    assert!(!s.update_resource("/site/other.png", "o.png".to_owned()));
    assert!(s.update_resource("/site/img.png", "static/img.png".to_owned()));
    assert!(s.update_resource("/site/img.png", "b/img.png".to_owned()));
    assert_eq!(s.to_string(), r#"a { b: url("b/img.png") }"#);
}

#[test]
fn replacing_by_itself_changes_nothing() {
    assert_eq!(replace_all("a url(x) b url(x)", "url(x)", "url(x)"), "a url(x) b url(x)");
}
