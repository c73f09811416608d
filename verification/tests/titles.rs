use lssg::attributes::Attributes;
use lssg::markdown::titles::{count_meaningful_tokens, first_non_empty_text, token_carousel_title};
use lssg::markdown::{tokens_to_text, Token};

fn text(s: &str) -> Token {
    Token::Text { text: s.to_string() }
}

#[test]
fn tokens_to_text_joins_texts() {
    let tokens = vec![
        text("a "),
        Token::Bold { text: "b".to_string() },
        Token::ThematicBreak,
        Token::SoftBreak,
        text("c"),
    ];
    assert_eq!(tokens_to_text(&tokens), "a b c");
    assert_eq!(tokens_to_text(&vec![]), "");
}

#[test]
fn first_non_empty_skips_blank_candidates() {
    let candidates = vec![None, Some("   ".to_string()), Some("  title ".to_string()), Some("x".to_string())];
    assert_eq!(first_non_empty_text(&candidates), Some("title".to_string()));
    assert_eq!(first_non_empty_text(&[None, Some(" \t".to_string())]), None);
    assert_eq!(first_non_empty_text(&[]), None);
}

#[test]
fn carousel_title_of_image() {
    let image = Token::Image { tokens: vec![text("alt text")], src: "a.png".to_string(), title: None };
    assert_eq!(token_carousel_title(&image), Some("alt text".to_string()));
    let image = Token::Image {
        tokens: vec![text("alt text")],
        src: "a.png".to_string(),
        title: Some(" Title ".to_string()),
    };
    assert_eq!(token_carousel_title(&image), Some("Title".to_string()));
    let image = Token::Image { tokens: vec![], src: "a.png".to_string(), title: Some(" ".to_string()) };
    assert_eq!(token_carousel_title(&image), None);
}

#[test]
fn carousel_title_of_link() {
    let inner = Token::Image { tokens: vec![text("inner")], src: "a.png".to_string(), title: None };
    let link = Token::Link { tokens: vec![text("before"), inner], href: "x".to_string(), title: None };
    assert_eq!(token_carousel_title(&link), Some("inner".to_string()));
    let link = Token::Link { tokens: vec![text("words")], href: "x".to_string(), title: Some("t".to_string()) };
    assert_eq!(token_carousel_title(&link), Some("t".to_string()));
    let link = Token::Link { tokens: vec![text("words")], href: "x".to_string(), title: None };
    assert_eq!(token_carousel_title(&link), Some("words".to_string()));
}

#[test]
fn carousel_title_of_element() {
    let mut attributes = Attributes::new();
    attributes.insert("alt".to_string(), " alt ".to_string());
    attributes.insert("aria-label".to_string(), "label".to_string());
    let html = Token::Html { tokens: vec![text("body")], tag: "div".to_string(), attributes };
    assert_eq!(token_carousel_title(&html), Some("alt".to_string()));
    let html = Token::Html { tokens: vec![text("body")], tag: "div".to_string(), attributes: Attributes::new() };
    assert_eq!(token_carousel_title(&html), Some("body".to_string()));
    assert_eq!(token_carousel_title(&text("plain")), None);
}

#[test]
fn meaningful_tokens_are_counted() {
    let tokens = vec![
        Token::Comment { raw: "c".to_string() },
        Token::Link { tokens: vec![], href: "x".to_string(), title: None },
        Token::Link { tokens: vec![text("l")], href: "x".to_string(), title: None },
        text("t"),
        Token::ThematicBreak,
    ];
    assert_eq!(count_meaningful_tokens(&tokens), 3);
    assert_eq!(count_meaningful_tokens(&[]), 0);
}
