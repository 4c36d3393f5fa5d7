use tangle_ledger::ledger::Ledger;
use tangle_ledger::ledger::Node;
use tangle_ledger::ledger::ValidNode;
use tangle_ledger::parse::FatalError;
use tangle_ledger::parse::NodeParseError;

#[test]
fn test_parse_node() {
    let node = Ledger::parse_node("1 1 0".as_bytes(), &vec![]).expect("node should be valid");
    assert_eq!(Node::Valid(node), Node::new(0, 0, 0));
}

#[test]
fn test_parse_node_zero_node() {
    let err = Ledger::parse_node("0 0 0".as_bytes(), &vec![]).err().unwrap();
    assert_eq!(err, NodeParseError::ZeroNode);
}

#[test]
fn test_parse_node_future_ref() {
    let err = Ledger::parse_node("1 3 0".as_bytes(), &vec![]).err().unwrap();
    assert_eq!(err, NodeParseError::FutureRef);
}

#[test]
fn test_parse_node_self_ref() {
    let err = Ledger::parse_node("2 2 0".as_bytes(), &vec![]).err().unwrap();
    assert_eq!(err, NodeParseError::SelfRef);
}

#[test]
fn test_parse_node_no_valid_ref() {
    let nodes = vec![Node::Invalid, Node::Invalid];
    let err = Ledger::parse_node("1 2 0".as_bytes(), &nodes).err().unwrap();
    assert_eq!(err, NodeParseError::NoValidRef);
}

#[test]
fn test_parse_node_early_timestamp() {
    let nodes = vec![Node::new(0, 0, 1)];
    let err = Ledger::parse_node("1 1 0".as_bytes(), &nodes).err().unwrap();
    assert_eq!(err, NodeParseError::InvalidTimestamp);
}

#[test]
fn test_parse_node_invalid() {
    let err = Ledger::parse_node("a 1 0".as_bytes(), &vec![]).err().unwrap();
    assert_eq!(err, NodeParseError::ParseError);
}

#[test]
fn test_parse_node_invalid_timestamp() {
    let err = Ledger::parse_node(
        "1 1 1111111111111111111111111111111111111".as_bytes(),
        &vec![],
    )
    .err()
    .unwrap();
    assert_eq!(err, NodeParseError::ParseError);
}

#[test]
fn test_parse() {
    let database_txt = "5
        1 1 0
        1 2 0
        2 2 1
        3 3 2
        3 4 3";

    let db = Ledger::parse(database_txt.as_bytes()).unwrap();
    assert_eq!(
        db,
        Ledger(vec![
            Node::new(0, 0, 0),
            Node::new(0, 1, 0),
            Node::new(1, 1, 1),
            Node::new(2, 2, 2),
            Node::new(2, 3, 3),
        ])
    );
}

#[test]
fn test_parse_handle_invalids() {
    let database_txt = "5
        1 1 1
        1 2 0
        2 2 1
        3 3 2
        3 4 3";

    let db = Ledger::parse(database_txt.as_bytes()).unwrap();
    assert_eq!(
        db,
        Ledger(vec![
            Node::new(0, 0, 1),
            Node::Invalid,
            Node::new(1, 1, 1),
            Node::Invalid,
            Node::Valid(ValidNode {
                left: None,
                right: Some(3),
                timestamp: 3,
            }),
        ])
    );
}

#[test]
fn test_parse_cycle() {
    let database_txt = "3
        1 4 1
        1 2 2
        1 3 3";

    let db = Ledger::parse(database_txt.as_bytes()).unwrap();
    assert_eq!(
        db,
        Ledger(vec![
            Node::Invalid,
            Node::Valid(ValidNode {
                left: Some(0),
                right: None,
                timestamp: 2,
            }),
            Node::new(0, 2, 3),
        ])
    );
}

#[test]
fn test_parse_empty() {
    let database_txt = "0";
    let db = Ledger::parse(database_txt.as_bytes()).unwrap();
    assert_eq!(db, Ledger::default());
}

#[test]
fn test_parse_extra_line() {
    let database_txt = "0
        1 1 0";
    let err = Ledger::parse(database_txt.as_bytes()).err().unwrap();
    assert_eq!(err, FatalError::ExpectedEndOfInput);
}

#[test]
fn test_parse_missing_line() {
    let database_txt = "1";
    let err = Ledger::parse(database_txt.as_bytes()).err().unwrap();
    assert_eq!(err, FatalError::UnexpectedEndOfInput);
}

#[test]
fn test_parse_err() {
    let database_txt = "1 abc";
    let err = Ledger::parse(database_txt.as_bytes()).err().unwrap();
    assert_eq!(err, FatalError::ParseError);
}

#[test]
fn test_parse_input_err() {
    let err = Ledger::parse(&[]).err().unwrap();
    assert_eq!(err, FatalError::InputError);
}

#[test]
fn test_parse_read_err() {
    let database_txt: &[u8] = b"\xc3\x28"; // not a number in any encoding
    let err = Ledger::parse(database_txt).err().unwrap();
    assert_eq!(err, FatalError::ParseError);
}

#[test]
fn test_parse_trailing_blanks_ok() {
    let database_txt = "1\n1 1 0\n\n   \n\t\n";
    let db = Ledger::parse(database_txt.as_bytes()).unwrap();
    assert_eq!(db, Ledger(vec![Node::new(0, 0, 0)]));
}

#[test]
fn test_parse_blank_header_fatal() {
    let database_txt = "\n1 1 0";
    let err = Ledger::parse(database_txt.as_bytes()).err().unwrap();
    assert_eq!(err, FatalError::InputError);
}

#[test]
fn test_parse_short_record_line_fatal() {
    let database_txt = "1\n1 1";
    let err = Ledger::parse(database_txt.as_bytes()).err().unwrap();
    assert_eq!(err, FatalError::InputError);
}

#[test]
fn test_parse_header_with_sign_and_padding() {
    let database_txt = "  +1  \n1 1 7";
    let db = Ledger::parse(database_txt.as_bytes()).unwrap();
    assert_eq!(db, Ledger(vec![Node::new(0, 0, 7)]));
}

#[test]
fn test_parse_header_overflow_fatal() {
    let database_txt = "99999999999999999999999999999999999999\n";
    let err = Ledger::parse(database_txt.as_bytes()).err().unwrap();
    assert_eq!(err, FatalError::ParseError);
}

#[test]
fn test_parse_length_matches_declared_count() {
    let database_txt = "4
        1 1 5
        0 0 0
        9 9 9
        1 1 5";
    let db = Ledger::parse(database_txt.as_bytes()).unwrap();
    assert_eq!(db.0.len(), 4);
}

#[test]
fn test_parse_unicode_space_separators() {
    let database_txt = "1\n1\u{a0}1\u{a0}7";
    let db = Ledger::parse(database_txt.as_bytes()).unwrap();
    assert_eq!(db, Ledger(vec![Node::new(0, 0, 7)]));
}

#[test]
fn test_parse_unicode_blank_trailing_line() {
    let database_txt = "0\n\u{2003} \u{a0}\u{3000}\n";
    let db = Ledger::parse(database_txt.as_bytes()).unwrap();
    assert_eq!(db, Ledger::default());
}

#[test]
fn test_parse_header_unicode_padding() {
    let database_txt = "\u{a0}1\u{205f}\n1 1 0";
    let db = Ledger::parse(database_txt.as_bytes()).unwrap();
    assert_eq!(db, Ledger(vec![Node::new(0, 0, 0)]));
}

#[test]
fn test_parse_forward_slack_ref_resolves() {
    // The sole record may name the slack position one past itself; the
    // reference resolves even though no such record ever materializes.
    let db = Ledger::parse("1\n2 2 5".as_bytes()).unwrap();
    assert_eq!(db, Ledger(vec![Node::new(1, 1, 5)]));
}

#[test]
fn test_parse_record_extra_tokens_ignored() {
    let database_txt = "1\n1 1 3 extra tokens";
    let db = Ledger::parse(database_txt.as_bytes()).unwrap();
    assert_eq!(db, Ledger(vec![Node::new(0, 0, 3)]));
}
