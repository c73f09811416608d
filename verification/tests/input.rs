use lssg::sitetree::input::Input;

#[test]
fn input_kinds_of_strings() {
    assert!(Input::is_local("content/index.md"));
    assert!(!Input::is_local("https://example.com"));
    assert!(Input::is_glob("posts/*.md"));
    assert!(Input::is_glob("a?.md"));
    assert!(Input::is_glob("[ab].md"));
    assert!(!Input::is_glob("[ab.md"));
    assert!(!Input::is_glob("http://x/*.md"));
    assert!(Input::is_relative("a/b.md"));
    assert!(!Input::is_relative("/a/b.md"));
    assert!(Input::is_href_to_page("./other.md"));
    assert!(!Input::is_href_to_page("/abs.md"));
    assert!(!Input::is_href_to_page("https://github.com/x/README.md"));
    assert!(!Input::is_href_to_page("image.png"));
}

#[test]
fn input_file_names() {
    let local = Input::Local { path: "/site/content/post.md".to_string() };
    assert_eq!(local.filename().unwrap(), "post.md");
    assert_eq!(local.filestem().unwrap(), "post");
    assert_eq!(local.to_string(), "/site/content/post.md");
    let external = Input::External {
        url: "https://example.com/docs/readme.md".to_string(),
        path: "/docs/readme.md".to_string(),
    };
    assert_eq!(external.filename().unwrap(), "readme.md");
    assert_eq!(external.filestem().unwrap(), "readme");
    assert_eq!(external.to_string(), "https://example.com/docs/readme.md");
    let root = Input::Local { path: "/".to_string() };
    assert!(root.filename().is_err());
}
