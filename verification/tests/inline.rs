use lssg::attributes::Attributes;
use lssg::char_reader::CharReader;
use lssg::markdown::inline::read_inline_tokens;
use lssg::markdown::Token;

fn lex(input: &str) -> Vec<Token> {
    let mut reader = CharReader::from_string(input);
    let tokens = read_inline_tokens(&mut reader).unwrap();
    assert_eq!(reader.peek_string(usize::MAX).unwrap(), "");
    tokens
}

fn text(t: &str) -> Token {
    Token::Text { text: t.into() }
}

#[test]
fn inline_code_spans() {
    assert_eq!(
        lex("`foo`\n` `` `\n`` foo ` bar ``"),
        vec![
            Token::Code { text: "foo".into() },
            Token::SoftBreak,
            Token::Code { text: " `` ".into() },
            Token::SoftBreak,
            Token::Code { text: "foo ` bar".into() },
        ]
    );
}

#[test]
fn inline_unclosed_code_span_is_text() {
    assert_eq!(lex("`foo"), vec![text("`foo")]);
}

#[test]
fn inline_hard_and_soft_breaks() {
    assert_eq!(
        lex("foo  \nbar\nfoo\\\nbaz"),
        vec![text("foo"), Token::HardBreak, text("bar"), Token::SoftBreak, text("foo"), Token::HardBreak, text("baz")]
    );
    // no soft break after the last character
    assert_eq!(lex("a\n"), vec![text("a")]);
}

#[test]
fn inline_autolink() {
    assert_eq!(
        lex("<http://foo.bar.baz>"),
        vec![Token::Link { tokens: vec![text("http://foo.bar.baz")], href: "http://foo.bar.baz".into(), title: None }]
    );
    // no scheme: plain text
    assert_eq!(lex("<foo.bar>"), vec![text("<foo.bar>")]);
}

#[test]
fn inline_comment() {
    assert_eq!(lex("<!--<test></test>-->"), vec![Token::Comment { raw: "<test></test>".into() }]);
}

#[test]
fn inline_links() {
    assert_eq!(
        lex("A [test](test.com)"),
        vec![text("A "), Token::Link { tokens: vec![text("test")], href: "test.com".into(), title: None }]
    );
    assert_eq!(
        lex("[](empty.com \"Empty\")"),
        vec![Token::Link { tokens: vec![], href: "empty.com".into(), title: Some("Empty".into()) }]
    );
    assert_eq!(
        lex("[<b>bold</b>](bold.com)"),
        vec![Token::Link {
            tokens: vec![Token::Html { tokens: vec![text("bold")], tag: "b".into(), attributes: Attributes::new() }],
            href: "bold.com".into(),
            title: None,
        }]
    );
    // nested brackets are counted
    assert_eq!(
        lex("[a [b] c](x)"),
        vec![Token::Link { tokens: vec![text("a [b] c")], href: "x".into(), title: None }]
    );
}

#[test]
fn inline_html_element() {
    let mut attributes = Attributes::new();
    attributes.insert("href".into(), "link.com".into());
    assert_eq!(
        lex("<a href=\"link.com\">[other](other.com)</a>"),
        vec![Token::Html {
            tokens: vec![Token::Link { tokens: vec![text("other")], href: "other.com".into(), title: None }],
            tag: "a".into(),
            attributes,
        }]
    );
}

#[test]
fn inline_emphasis_and_bold() {
    assert_eq!(lex("foo *bar*"), vec![text("foo "), Token::Emphasis { text: "bar".into() }]);
    assert_eq!(lex("**x** y"), vec![Token::Bold { text: "x".into() }, text(" y")]);
}

#[test]
fn inline_image() {
    assert_eq!(
        lex("![alt](src.png)"),
        vec![Token::Image { tokens: vec![text("alt")], src: "src.png".into(), title: None }]
    );
}

#[test]
fn inline_comment_past_the_end_fails() {
    let mut reader = CharReader::from_string("<!--\u{e9}-->");
    assert!(read_inline_tokens(&mut reader).is_err());
}

#[test]
fn inline_invalid_utf8_fails() {
    let mut reader = CharReader::new(&[0xff]);
    assert!(read_inline_tokens(&mut reader).is_err());
}

#[test]
fn inline_empty_input() {
    assert_eq!(lex(""), vec![]);
}

use lssg::markdown::lexer::{parse_block_token_text, read_tokens};

#[test]
fn lexer_reads_inline_tokens_of_a_heading() {
    let mut reader = CharReader::from_string("# foo *bar*");
    let tokens = read_tokens(&mut reader).unwrap();
    assert_eq!(
        tokens,
        vec![Token::Heading {
            text: "foo *bar*".into(),
            tokens: vec![text("foo "), Token::Emphasis { text: "bar".into() }],
            depth: 1,
        }]
    );
}

#[test]
fn lexer_reads_inline_tokens_of_a_paragraph() {
    let mut reader = CharReader::from_string("a [b](c)\nd");
    let tokens = read_tokens(&mut reader).unwrap();
    assert_eq!(tokens.len(), 1);
    match &tokens[0] {
        Token::Paragraph { tokens, .. } => assert_eq!(
            tokens,
            &vec![
                text("a "),
                Token::Link { tokens: vec![text("b")], href: "c".into(), title: None },
                Token::SoftBreak,
                text("d"),
            ]
        ),
        other => panic!("expected a paragraph, got {other:?}"),
    }
}

#[test]
fn lexer_refuses_a_thematic_break() {
    let mut reader = CharReader::from_string("---\n");
    assert!(read_tokens(&mut reader).is_err());
}

#[test]
fn block_token_text_in_place() {
    let mut t = Token::Paragraph { text: "*a*".into(), tokens: vec![] };
    parse_block_token_text(&mut t).unwrap();
    assert_eq!(t, Token::Paragraph { text: "*a*".into(), tokens: vec![Token::Emphasis { text: "a".into() }] });

    let mut t = Token::Html { tokens: vec![text("[x](y)")], tag: "div".into(), attributes: Attributes::new() };
    parse_block_token_text(&mut t).unwrap();
    assert_eq!(
        t,
        Token::Html {
            tokens: vec![Token::Link { tokens: vec![text("x")], href: "y".into(), title: None }],
            tag: "div".into(),
            attributes: Attributes::new(),
        }
    );

    let mut t = text("loose");
    assert!(parse_block_token_text(&mut t).is_err());
}

#[test]
fn inline_plain_text_is_one_token() {
    assert_eq!(lex("hello, world"), vec![text("hello, world")]);
}

use lssg::markdown::TableAlign;

#[test]
fn lexer_reads_a_simple_table() {
    let mut reader = CharReader::from_string("| foo | bar |\n| --- | --- |\n| baz | bim |\n");
    let tokens = read_tokens(&mut reader).unwrap();
    assert_eq!(
        tokens,
        vec![Token::Table {
            header: vec![vec![text("foo")], vec![text("bar")]],
            align: vec![TableAlign::NoAlign, TableAlign::NoAlign],
            rows: vec![vec![vec![text("baz")], vec![text("bim")]]],
        }]
    );
}

#[test]
fn lexer_reads_code_spans_in_table_cells() {
    let mut reader =
        CharReader::from_string("| Command | Description |\n|---------|-------------|\n| `git add` | Stage changes |\n");
    let tokens = read_tokens(&mut reader).unwrap();
    assert_eq!(
        tokens,
        vec![Token::Table {
            header: vec![vec![text("Command")], vec![text("Description")]],
            align: vec![TableAlign::NoAlign, TableAlign::NoAlign],
            rows: vec![vec![vec![Token::Code { text: "git add".into() }], vec![text("Stage changes")]]],
        }]
    );
}
