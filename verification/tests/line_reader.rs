use lssg::line_reader::CharReader;
use lssg::parse_error::{ParseError, ParseErrorKind};

#[test]
fn char_reader_test_propegation() -> Result<(), ParseError> {
    let mut reader = CharReader::new("This is a piece of text".as_bytes());
    assert_eq!(reader.peek_string(4)?, "This".to_owned());
    assert_eq!(reader.peek_char(4)?, Some('s'));

    assert_eq!(reader.consume_string(5)?, "This ".to_owned());

    assert_eq!(reader.peek_string(3)?, "is ".to_owned());
    assert_eq!(reader.peek_string(2)?, "is".to_owned());

    assert_eq!(reader.consume_string(11)?, "is a piece ".to_owned());
    assert_eq!(reader.peek_string(3)?, "of ".to_owned());
    assert_eq!(reader.peek_char(2)?, Some('f'));
    assert_eq!(reader.consume_char()?, Some('o'));
    assert_eq!(reader.peek_char(2)?, Some(' '));

    Ok(())
}

#[test]
fn char_reader_test_newline() -> Result<(), ParseError> {
    let mut reader = CharReader::new(
        "This is a
Very important test"
            .as_bytes(),
    );
    assert_eq!(reader.peek_string(11)?, "This is a\nV".to_owned());
    assert_eq!(reader.consume_string(11)?, "This is a\nV".to_owned());
    Ok(())
}

#[test]
fn line_reader_peek_char_zero_and_past_end() -> Result<(), ParseError> {
    let reader = CharReader::new("ab".as_bytes());
    assert_eq!(reader.peek_char(0)?, None);
    assert_eq!(reader.peek_char(1)?, Some('a'));
    assert_eq!(reader.peek_char(2)?, Some('b'));
    assert_eq!(reader.peek_char(3)?, None);
    assert!(!reader.has_read());
    Ok(())
}

#[test]
fn line_reader_finds_the_first_occurrence() -> Result<(), ParseError> {
    let reader = CharReader::new("aab".as_bytes());
    assert_eq!(reader.peek_until_match_inclusive("ab")?, Some("aab".to_owned()));
    let reader = CharReader::new("<!---->".as_bytes());
    assert_eq!(reader.peek_until_match_inclusive("-->")?, Some("<!---->".to_owned()));
    let reader = CharReader::new("aa".as_bytes());
    assert_eq!(reader.peek_until_match_inclusive("ab")?, None);
    let reader = CharReader::new("xxabyy".as_bytes());
    assert_eq!(reader.peek_until_match_inclusive("ab")?, Some("xxab".to_owned()));
    Ok(())
}

#[test]
fn line_reader_consume_until_match_inclusive() -> Result<(), ParseError> {
    let mut reader = CharReader::new("one-->two".as_bytes());
    assert_eq!(reader.consume_until_match_inclusive("-->")?, "one-->".to_owned());
    assert_eq!(reader.consume_until_match_inclusive("-->")?, "two".to_owned());
    assert_eq!(reader.consume_char()?, None);
    Ok(())
}

#[test]
fn line_reader_until_char() -> Result<(), ParseError> {
    let mut reader = CharReader::new("key=value".as_bytes());
    assert_eq!(reader.peek_until(|c| c == '=')?, Some("key=".to_owned()));
    assert_eq!(reader.consume_until_exclusive(|c| c == '!')?, None);
    assert_eq!(reader.consume_until_exclusive(|c| c == '=')?, Some("key".to_owned()));
    assert_eq!(reader.consume_until_inclusive(|c| c == '=')?, "=".to_owned());
    reader.consume(2)?;
    assert_eq!(reader.consume_string(10)?, "lue".to_owned());
    Ok(())
}

#[test]
fn line_reader_invalid_utf8() {
    let reader = CharReader::new(&[0xff, 0x41]);
    match reader.peek_char(1) {
        Err(e) => assert_eq!(e.kind, ParseErrorKind::InvalidInput),
        Ok(_) => panic!("invalid input was read"),
    }
}
