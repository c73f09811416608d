use lssg::attributes::Attributes;
use lssg::char_reader::CharReader;
use lssg::html::{parse_html, to_attributes, Html};

#[test]
fn lexer_test_html() {
    let input = r#"<a href="test.com"><i class="fa-solid fa-rss"></i>Test</a>
<button disabled></button>"#;
    let expected = vec![
        Html::Element {
            tag: "a".into(),
            attributes: to_attributes([("href", "test.com")]),
            children: vec![
                Html::Element {
                    tag: "i".into(),
                    attributes: to_attributes([("class", "fa-solid fa-rss")]),
                    children: vec![],
                },
                Html::Text {
                    text: "Test".into(),
                },
            ],
        },
        Html::Text { text: "\n".into() },
        Html::Element {
            tag: "button".into(),
            attributes: to_attributes([("disabled", "")]),
            children: vec![],
        },
    ];

    let tokens = parse_html(input.as_bytes()).unwrap();
    assert_eq!(expected, tokens);

    let input = r#"<div>
<a href="link.com">[other](other.com)</a>
</div>"#;
    let expected = vec![Html::Element {
        tag: "div".into(),
        attributes: Attributes::new(),
        children: vec![
            Html::Text { text: "\n".into() },
            Html::Element {
                tag: "a".into(),
                attributes: to_attributes([("href", "link.com")]),
                children: vec![Html::Text {
                    text: "[other](other.com)".into(),
                }],
            },
            Html::Text { text: "\n".into() },
        ],
    }];
    let tokens = parse_html(input.as_bytes()).unwrap();
    assert_eq!(expected, tokens);
}

#[test]
fn lexer_test_text_looks_like_html() {
    let input = r#"<Lots of people say Rust > c++. even though it might be
< then c++. Who knows? 
<>
<nonclosing>
This should be text
"#;
    let expected = vec![Html::Text {
        text: "<Lots of people say Rust > c++. even though it might be
< then c++. Who knows? 
<>
<nonclosing>
This should be text
"
        .into(),
    }];

    let tokens = parse_html(input.as_bytes()).unwrap();
    assert_eq!(expected, tokens);
}

#[test]
fn nested_elements_of_one_tag_end_at_the_matching_tag() {
    let mut reader = CharReader::from_string("<div><div>a</div></div>");
    let (tag, attributes, content) = lssg::html::html_element(&mut reader).unwrap().unwrap();
    assert_eq!(tag, "div");
    assert_eq!(attributes, Attributes::new());
    assert_eq!(content, "<div>a</div>");
    assert_eq!(reader.peek_string(100).unwrap(), "");
    let tokens = parse_html("<div><div>a</div></div>".as_bytes()).unwrap();
    assert_eq!(
        tokens,
        vec![Html::Element {
            tag: "div".into(),
            attributes: Attributes::new(),
            children: vec![Html::Element {
                tag: "div".into(),
                attributes: Attributes::new(),
                children: vec![Html::Text { text: "a".into() }],
            }],
        }]
    );
}
