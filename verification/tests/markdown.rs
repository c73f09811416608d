use lssg::char_reader::CharReader;
use lssg::markdown::detect_char_with_ident;

#[test]
fn detect_marker_after_indentation() {
    let reader = CharReader::from_string("  # title");
    assert_eq!(detect_char_with_ident(&reader, |c| c == '#').unwrap(), Some(2));
    let reader = CharReader::from_string("#");
    assert_eq!(detect_char_with_ident(&reader, |c| c == '#').unwrap(), Some(0));
    let reader = CharReader::from_string("    # code");
    assert_eq!(detect_char_with_ident(&reader, |c| c == '#').unwrap(), None);
    let reader = CharReader::from_string(" a#");
    assert_eq!(detect_char_with_ident(&reader, |c| c == '#').unwrap(), None);
    let reader = CharReader::from_string("   ");
    assert_eq!(detect_char_with_ident(&reader, |c| c == '#').unwrap(), None);
    let reader = CharReader::new(&[0xff]);
    assert!(detect_char_with_ident(&reader, |c| c == '#').is_err());
}

use lssg::markdown::block::{fenced_code, heading, indented_code, setext_heading, table, thematic_break};
use lssg::markdown::{sanitize_text, TableAlign, Token};

fn rest(reader: &CharReader) -> String {
    reader.peek_string(usize::MAX).unwrap()
}

fn texts(cells: &[Vec<Token>]) -> Vec<String> {
    cells
        .iter()
        .map(|c| match &c[..] {
            [Token::Text { text }] => text.clone(),
            _ => panic!("expected one text token, got {c:?}"),
        })
        .collect()
}

#[test]
fn sanitize_text_trims_lines_and_drops_blank_ones() {
    assert_eq!(sanitize_text("  a  \n\n b\r\n \t\n"), "a\nb");
    assert_eq!(sanitize_text(""), "");
    assert_eq!(sanitize_text("\n\n"), "");
    assert_eq!(sanitize_text("one"), "one");
}

#[test]
fn heading_reads_depth_and_text() {
    let mut reader = CharReader::from_string("# Rust > c++\nnext");
    let t = heading(&mut reader).unwrap();
    assert_eq!(t, Some(Token::Heading { text: "Rust > c++".into(), tokens: vec![], depth: 1 }));
    assert_eq!(rest(&reader), "next");

    let mut reader = CharReader::from_string("###### six");
    let t = heading(&mut reader).unwrap();
    assert_eq!(t, Some(Token::Heading { text: "six".into(), tokens: vec![], depth: 6 }));
    assert_eq!(rest(&reader), "");

    // seven marks are still taken as the depth
    let mut reader = CharReader::from_string("####### seven\n");
    let t = heading(&mut reader).unwrap();
    assert_eq!(t, Some(Token::Heading { text: "seven".into(), tokens: vec![], depth: 7 }));

    // the text is taken from the start of the line, indentation included
    let mut reader = CharReader::from_string("  # Title\n");
    let t = heading(&mut reader).unwrap();
    assert_eq!(t, Some(Token::Heading { text: "# Title".into(), tokens: vec![], depth: 1 }));
}

#[test]
fn heading_needs_marks_then_space() {
    for input in ["#no space", "text", "    # code", ""] {
        let mut reader = CharReader::from_string(input);
        assert_eq!(heading(&mut reader).unwrap(), None);
        assert_eq!(rest(&reader), input);
    }
    let mut reader = CharReader::new(&[0xff]);
    assert!(heading(&mut reader).is_err());
}

#[test]
fn thematic_break_variants() {
    for input in ["***\nnext", "- - -\nnext", "___\nnext", "  * * *\nnext"] {
        let mut reader = CharReader::from_string(input);
        assert_eq!(thematic_break(&mut reader).unwrap(), Some(Token::ThematicBreak));
        assert_eq!(rest(&reader), "\nnext");
    }
    for input in ["**x\n", "*-*\n", "text", "--\n"] {
        let mut reader = CharReader::from_string(input);
        assert_eq!(thematic_break(&mut reader).unwrap(), None);
        assert_eq!(rest(&reader), input);
    }
}

#[test]
fn setext_heading_turns_paragraph_into_heading() {
    let mut tokens = vec![Token::Paragraph { text: "Title\n".into(), tokens: vec![] }];
    let mut reader = CharReader::from_string("===\nrest");
    let t = setext_heading(&mut reader, &mut tokens).unwrap();
    assert_eq!(t, Some(Token::Heading { text: "Title\n".into(), tokens: vec![], depth: 1 }));
    assert!(tokens.is_empty());
    assert_eq!(rest(&reader), "\nrest");

    let mut tokens = vec![Token::Paragraph { text: "Sub".into(), tokens: vec![] }];
    let mut reader = CharReader::from_string(" ----");
    let t = setext_heading(&mut reader, &mut tokens).unwrap();
    assert_eq!(t, Some(Token::Heading { text: "Sub".into(), tokens: vec![], depth: 2 }));

    // only after a paragraph, and with three marks at least
    let mut tokens = vec![Token::ThematicBreak];
    let mut reader = CharReader::from_string("===\n");
    assert_eq!(setext_heading(&mut reader, &mut tokens).unwrap(), None);
    assert_eq!(tokens.len(), 1);
    let mut tokens = vec![Token::Paragraph { text: "a".into(), tokens: vec![] }];
    let mut reader = CharReader::from_string("==\n");
    assert_eq!(setext_heading(&mut reader, &mut tokens).unwrap(), None);
    let mut reader = CharReader::from_string("==x\n");
    assert_eq!(setext_heading(&mut reader, &mut tokens).unwrap(), None);
    assert_eq!(tokens.len(), 1);
}

#[test]
fn indented_code_reads_indented_lines() {
    let mut reader = CharReader::from_string("    let x = 1;\n    y\nz");
    let t = indented_code(&mut reader, &[], false).unwrap();
    assert_eq!(t, Some(Token::CodeBlock { info: None, text: "let x = 1;\ny\n".into() }));
    assert_eq!(rest(&reader), "z");

    // a paragraph is only interrupted after a blank line
    let after = [Token::Paragraph { text: "p".into(), tokens: vec![] }];
    let mut reader = CharReader::from_string("    code\n");
    assert_eq!(indented_code(&mut reader, &after, false).unwrap(), None);
    assert_eq!(rest(&reader), "    code\n");
    let t = indented_code(&mut reader, &after, true).unwrap();
    assert_eq!(t, Some(Token::CodeBlock { info: None, text: "code\n".into() }));

    let mut reader = CharReader::from_string("   three\n");
    assert_eq!(indented_code(&mut reader, &[], true).unwrap(), None);
    assert_eq!(rest(&reader), "   three\n");
}

#[test]
fn fenced_code_reads_info_and_text() {
    let mut reader = CharReader::from_string("```rust\nfn main() {}\n```\nafter");
    let t = fenced_code(&mut reader).unwrap();
    assert_eq!(t, Some(Token::CodeBlock { info: Some("rust".into()), text: "fn main() {}\n".into() }));
    assert_eq!(rest(&reader), "after");

    // the block ends at the end of the input when it is not closed
    let mut reader = CharReader::from_string("~~~\n  a\nb");
    let t = fenced_code(&mut reader).unwrap();
    assert_eq!(t, Some(Token::CodeBlock { info: None, text: "  a\nb".into() }));
    assert_eq!(rest(&reader), "");

    // the indentation of the fence is taken off the lines
    let mut reader = CharReader::from_string("  ```\n    x\n  ```\n");
    let t = fenced_code(&mut reader).unwrap();
    assert_eq!(t, Some(Token::CodeBlock { info: None, text: "  x\n".into() }));

    // as many characters are skipped as the trimmed info has bytes
    let mut reader = CharReader::from_string("```rust  \ncode\n```\n");
    let t = fenced_code(&mut reader).unwrap();
    assert_eq!(t, Some(Token::CodeBlock { info: Some("rust".into()), text: " \ncode\n".into() }));
}

#[test]
fn fenced_code_needs_three_marks_and_clean_info() {
    for input in ["``\ncode\n``\n", "```a`b\ncode\n", "```", "text"] {
        let mut reader = CharReader::from_string(input);
        assert_eq!(fenced_code(&mut reader).unwrap(), None);
        assert_eq!(rest(&reader), input);
    }
    // the info has more bytes than the input has characters left
    let mut reader = CharReader::from_string("```日本\n");
    assert!(fenced_code(&mut reader).is_err());
}

#[test]
fn table_reads_header_and_rows() {
    let input = "| Option | Type | Default |\n|--------|------|---------|\n| `root` | Boolean | `false` |\n| `title` | String | First H1 |\n";
    let mut reader = CharReader::from_string(input);
    let t = table('|', &mut reader).unwrap().unwrap();
    match t {
        Token::Table { header, align, rows } => {
            assert_eq!(texts(&header), vec!["Option", "Type", "Default"]);
            assert_eq!(align, vec![TableAlign::NoAlign, TableAlign::NoAlign, TableAlign::NoAlign]);
            assert_eq!(rows.len(), 2);
            assert_eq!(texts(&rows[0]), vec!["`root`", "Boolean", "`false`"]);
            assert_eq!(texts(&rows[1]), vec!["`title`", "String", "First H1"]);
        },
        t => panic!("expected a table, got {t:?}"),
    }
    assert_eq!(rest(&reader), "");
}

#[test]
fn table_reads_alignment() {
    let input = "| Left | Center | Right |\n|:-----|:------:|------:|\n| L1 | C1 | R1 |\nafter";
    let mut reader = CharReader::from_string(input);
    let t = table('|', &mut reader).unwrap().unwrap();
    match t {
        Token::Table { header, align, rows } => {
            assert_eq!(header.len(), 3);
            assert_eq!(align, vec![TableAlign::Left, TableAlign::Center, TableAlign::Right]);
            assert_eq!(rows.len(), 1);
        },
        t => panic!("expected a table, got {t:?}"),
    }
    assert_eq!(rest(&reader), "after");
}

#[test]
fn table_needs_pipe_and_delimiter_row() {
    for input in ["| a |\n| b |\n", "| a |\n", "| a |\n|-x-|\n"] {
        let mut reader = CharReader::from_string(input);
        assert_eq!(table('|', &mut reader).unwrap(), None);
        assert_eq!(rest(&reader), input);
    }
    let mut reader = CharReader::from_string("a | b\n--|--\n");
    assert_eq!(table('a', &mut reader).unwrap(), None);
}

use lssg::attributes::Attributes;
use lssg::markdown::document::{blockquote, bullet_list, ordered_list, read_block_tokens};

fn p(text: &str) -> Token {
    Token::Paragraph { tokens: vec![], text: text.into() }
}

fn blocks_of(input: &str) -> Vec<Token> {
    let mut reader = CharReader::new(input.as_bytes());
    read_block_tokens(&mut reader).unwrap()
}

#[test]
fn test_block_token() {
    let input = r#"# Rust > c++
Lots of people say Rust > c++. even though it might be
< then c++. Who knows? 
<nonclosing>
This should be text"#;
    let expected = vec![
        Token::Heading { text: "Rust > c++".into(), depth: 1, tokens: vec![] },
        p("Lots of people say Rust > c++. even though it might be
< then c++. Who knows? 
<nonclosing>
This should be text"),
    ];

    let mut reader = CharReader::new(input.as_bytes());
    let tokens = read_block_tokens(&mut reader).unwrap();
    assert_eq!(expected, tokens);
}

#[test]
fn test_table() {
    let input = r#"| Option | Type | Default |
|--------|------|---------|
| `root` | Boolean | `false` |
| `title` | String | First H1 |
"#;

    let mut reader = CharReader::new(input.as_bytes());
    let tokens = read_block_tokens(&mut reader).unwrap();

    assert_eq!(tokens.len(), 1);
    if let Token::Table { header, rows, .. } = &tokens[0] {
        assert_eq!(header.len(), 3); // 3 columns
        assert_eq!(rows.len(), 2); // 2 data rows
    } else {
        panic!("Expected table token, got {:?}", tokens[0]);
    }
}

#[test]
fn test_table_with_alignment() {
    let input = r#"| Left | Center | Right |
|:-----|:------:|------:|
| L1 | C1 | R1 |
"#;

    let mut reader = CharReader::new(input.as_bytes());
    let tokens = read_block_tokens(&mut reader).unwrap();

    assert_eq!(tokens.len(), 1);
    if let Token::Table { header, align, rows } = &tokens[0] {
        assert_eq!(header.len(), 3);
        assert_eq!(align[0], TableAlign::Left);
        assert_eq!(align[1], TableAlign::Center);
        assert_eq!(align[2], TableAlign::Right);
        assert_eq!(rows.len(), 1);
    } else {
        panic!("Expected table token");
    }
}

#[test]
fn document_paragraphs_merge_until_a_blank_line() {
    assert_eq!(blocks_of("a\nb"), vec![p("a\nb")]);
    assert_eq!(blocks_of("a\n\nb"), vec![p("a\n"), p("b")]);
    assert_eq!(blocks_of(""), vec![]);
    assert_eq!(blocks_of("\n\n"), vec![]);
}

#[test]
fn document_setext_heading_takes_the_paragraph() {
    assert_eq!(
        blocks_of("Title\n===\n"),
        vec![Token::Heading { text: "Title\n".into(), tokens: vec![], depth: 1 }]
    );
}

#[test]
fn document_bullet_list_items_hold_blocks() {
    assert_eq!(
        blocks_of("- a\n- b\n"),
        vec![Token::BulletList { items: vec![vec![p("a\n")], vec![p("b\n")]] }]
    );
    // an indented line continues the item
    assert_eq!(
        blocks_of("* a\n  b\n+ c"),
        vec![Token::BulletList { items: vec![vec![p("a\nb\n")], vec![p("c")]] }]
    );
    let mut reader = CharReader::from_string("-x\n");
    assert_eq!(bullet_list(&mut reader).unwrap(), None);
    assert_eq!(rest(&reader), "-x\n");
}

#[test]
fn document_ordered_list_reads_its_start() {
    assert_eq!(
        blocks_of("1. one\n2. two\n"),
        vec![Token::OrderedList { items: vec![vec![p("one\n")], vec![p("two\n")]], start: 1 }]
    );
    let mut reader = CharReader::from_string("3) x\n");
    let t = ordered_list(&mut reader).unwrap();
    assert_eq!(t, Some(Token::OrderedList { items: vec![vec![p("x\n")]], start: 3 }));
    // the indentation is read as part of the start number, which fails
    let mut reader = CharReader::from_string("  1. x\n");
    assert!(read_block_tokens(&mut reader).is_err());
}

#[test]
fn document_blockquote_lines_are_read_again() {
    assert_eq!(
        blocks_of("> quote\n> more\n"),
        vec![Token::BlockQuote { tokens: vec![p("quote\n"), p("more\n")] }]
    );
    let mut reader = CharReader::from_string("   > not\n");
    assert_eq!(blockquote(&mut reader).unwrap(), None);
    assert_eq!(rest(&reader), "   > not\n");
}

#[test]
fn document_html_paragraphs_become_text() {
    let tokens = blocks_of("<div>\ntext\n</div>\n");
    assert_eq!(tokens.len(), 1);
    match &tokens[0] {
        Token::Html { tokens, tag, attributes } => {
            assert_eq!(tag, "div");
            assert_eq!(attributes, &Attributes::new());
            assert_eq!(tokens, &vec![Token::Text { text: "text\n".into() }]);
        },
        t => panic!("expected html, got {t:?}"),
    }
}

#[test]
fn document_attributes_and_comments() {
    let tokens = blocks_of("<!--\ntitle = \"x\"\n-->\n# Head\n");
    let mut table = toml::map::Map::new();
    table.insert("title".to_owned(), toml::Value::String("x".to_owned()));
    assert_eq!(
        tokens,
        vec![
            Token::Attributes { table },
            Token::Heading { text: "Head".into(), tokens: vec![], depth: 1 },
        ]
    );
    // a comment that is no toml table stays a comment
    assert_eq!(
        blocks_of("<!-- just words -->\ntext"),
        vec![Token::Comment { raw: " just words ".into() }, p("text")]
    );
    // attributes only come first
    assert_eq!(
        blocks_of("a\n\n<!--\nx = 1\n-->"),
        vec![p("a\n"), Token::Comment { raw: "\nx = 1\n".into() }]
    );
}

#[test]
fn document_code_blocks() {
    assert_eq!(
        blocks_of("```\ncode\n```\n"),
        vec![Token::CodeBlock { info: None, text: "code\n".into() }]
    );
    assert_eq!(
        blocks_of("para\n\n    code\n"),
        vec![p("para\n"), Token::CodeBlock { info: None, text: "code\n".into() }]
    );
    assert!(read_block_tokens(&mut CharReader::new(&[0xff])).is_err());
}

#[test]
fn token_text_and_children() {
    let list = Token::BulletList {
        items: vec![
            vec![Token::Text { text: "a".into() }, Token::SoftBreak],
            vec![Token::Bold { text: "b".into() }, Token::ThematicBreak],
        ],
    };
    assert_eq!(list.to_text(), Some("a b".into()));
    assert_eq!(list.get_tokens().unwrap().len(), 4);
    assert!(list.is_block_token());
    let heading = Token::Heading { text: "x".into(), tokens: vec![Token::Emphasis { text: "e".into() }], depth: 1 };
    assert_eq!(heading.to_text(), Some("".into()));
    assert_eq!(Token::Code { text: "c".into() }.to_text(), None);
    assert!(Token::Code { text: "c".into() }.get_tokens().is_none());
    assert!(!Token::SoftBreak.is_block_token());
}
