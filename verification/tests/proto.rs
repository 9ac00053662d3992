use store::proto::Parser;

#[test]
fn test_parser() {
    let mut parser = Parser::default();

    parser.feed(b"FOO a");
    assert_eq!(parser.next(), None);
    assert!(!parser.is_empty());

    parser.feed(b"b 42\nBAR c\nEXI");
    let message = if let Some(m) = parser.next() { m } else { panic!() };
    assert_eq!(message.len(), 3);
    assert_eq!(message.get_bytes(0), b"FOO");
    assert_eq!(message.get_str(1), Ok("ab"));
    assert_eq!(message.get_str(2).unwrap().parse::<i32>().unwrap(), 42);
    let message = if let Some(m) = parser.next() { m } else { panic!() };
    assert_eq!(message.len(), 2);
    assert_eq!(message.get_str(0), Ok("BAR"));
    assert_eq!(message.get_bytes(1), b"c");
    assert_eq!(parser.next(), None);
    assert!(!parser.is_empty());

    parser.feed(b"T\n");
    assert!(!parser.is_empty());
    let message = if let Some(m) = parser.next() { m } else { panic!() };
    assert_eq!(message.len(), 1);
    assert!(parser.is_empty());
}

#[test]
fn spaces_separate_nothing_by_themselves() {
    let mut parser = Parser::default();
    parser.feed(b"  a   bc  \n   \n\nd\n");
    let message = parser.next().unwrap();
    assert_eq!(message.len(), 2);
    assert_eq!(message.get_bytes(0), b"a");
    assert_eq!(message.get_bytes(1), b"bc");
    let message = parser.next().unwrap();
    assert_eq!(message.len(), 0);
    let message = parser.next().unwrap();
    assert_eq!(message.len(), 0);
    let message = parser.next().unwrap();
    assert_eq!(message.len(), 1);
    assert_eq!(message.get_str(0), Ok("d"));
    assert!(parser.is_empty());
    assert_eq!(parser.next(), None);
}

#[test]
fn a_word_that_is_not_utf8_is_no_string() {
    let mut parser = Parser::default();
    parser.feed(b"ok \xff\xfe\n");
    let message = parser.next().unwrap();
    assert_eq!(message.len(), 2);
    assert_eq!(message.get_str(0), Ok("ok"));
    assert!(message.get_str(1).is_err());
    assert_eq!(message.get_bytes(1), b"\xff\xfe");
}
