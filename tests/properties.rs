use idml::{
    err_empty_input, err_expected_indentation, err_expected_node_content, err_expected_node_name,
    err_inconsistent_indentation, err_malformed_indentation, err_unexpected_character,
    err_unexpected_end, join_tokens, parse, parse_tokens, tokenize, IdmlError, Node, Token,
    TagCase, Tokenizer, NULL, TAB, WS,
};

fn names(nodes: &[Node]) -> Vec<String> {
    nodes.iter().map(|n| n.name().to_string()).collect()
}

fn shape(node: &Node) -> String {
    let mut s = format!("{}:{}(", node.level(), node.name());
    for child in node.children() {
        s.push_str(&shape(child));
    }
    s.push(')');
    s
}

#[test]
fn empty_input_is_rejected() {
    assert_eq!(Err(IdmlError::EmptyInput), tokenize(""));
    assert_eq!(IdmlError::EmptyInput, parse("").unwrap_err());
    assert_eq!(IdmlError::EmptyInput, Tokenizer::new("").tokenize().unwrap_err());
}

#[test]
fn two_flat_nodes() {
    let root = parse(".A\n.B\n").unwrap();
    assert_eq!(vec!["A", "B"], names(root.children()));
    for node in root.children() {
        assert_eq!("\n", node.content());
        assert_eq!("", node.text());
        assert_eq!(1, node.level());
        assert_eq!(0, node.child_count());
    }
    assert_eq!(0, root.level());
}

#[test]
fn malformed_sibling_indentation() {
    let input = ".A\n    .B\n    .C\n    .D\n   .E\n";
    assert_eq!(IdmlError::MalformedIndentation(3, 4), parse(input).unwrap_err());
}

#[test]
fn mixed_indentation_run() {
    assert_eq!(IdmlError::InconsistentIndentation, parse(".A\n \t.B\n").unwrap_err());
    assert_eq!(IdmlError::InconsistentIndentation, tokenize(".A\n\t .B\n").unwrap_err());
}

#[test]
fn indentation_character_is_kept_across_lines() {
    assert_eq!(IdmlError::InconsistentIndentation, parse(".A\n\t.B\n  .C\n").unwrap_err());
    assert!(parse(".A\n\t.B\n  text\n\t.C\n").is_ok());
}

#[test]
fn token_round_trip() {
    let inputs = [
        ".A\n",
        ".A\r\n  .B text\r\n\r\n  more\r  .C\n",
        "-\tx\n\t-y\n\t\t-z\n",
        ".A\n  \n.B\n",
        ".A \u{0}\n",
        "\u{1F600}a\n\u{1F600}b\n",
    ];
    for input in inputs {
        let tokens = tokenize(input).unwrap();
        assert_eq!(input, join_tokens(tokens));
    }
}

#[test]
fn whitespace_only_line_keeps_following_node() {
    let root = parse(".A\n  \n.B\n").unwrap();
    assert_eq!(vec!["A", "B"], names(root.children()));
    assert_eq!("\n  \n", root.children()[0].content());
}

#[test]
fn crlf_in_whitespace_only_line_is_kept() {
    let input = ".A\r\n \r\n.B\r\n";
    let tokens = tokenize(input).unwrap();
    assert_eq!(Token::NodeContent("\r\n \r\n".to_string()), tokens[2]);
}

#[test]
fn document_round_trip() {
    let cases: [(&str, usize, char); 4] = [
        (".A\n  .B\n    .C\n  .D\n.E\n", 2, WS),
        (".A\n\t.B\n\t\t.C\n", 1, TAB),
        ("*x content\nmore\n    *y\r\n", 4, WS),
        (".A\n.B\n", 3, TAB),
    ];
    for (input, indent, ch) in cases {
        let root = parse(input).unwrap();
        assert_eq!(input, root.document(indent, ch));
    }
}

#[test]
fn reparse_gives_same_tree() {
    let input = ".A\n  .B\n    .C\n  .D\n.E\n";
    let root = parse(input).unwrap();
    let again = parse(&root.document(2, WS)).unwrap();
    assert_eq!(shape(&root), shape(&again));
    assert_eq!("0:root(1:A(2:B(3:C())2:D())1:E())", shape(&root));
    let other = parse(&root.document(3, TAB)).unwrap();
    assert_eq!(shape(&root), shape(&other));
}

#[test]
fn clone_copies_the_whole_tree() {
    let root = parse(".A x\n  .B\n    .C\n.D\n").unwrap();
    let copy = root.clone();
    assert_eq!(shape(&root), shape(&copy));
    assert_eq!(root.document(2, WS), copy.document(2, WS));
    assert_eq!(" x", copy.children()[0].content().trim_end());
}

#[test]
fn document_of_a_subtree() {
    let root = parse(".A\n  .B\n    .C\n.D\n").unwrap();
    let a = &root.children()[0];
    assert_eq!(".A\n  .B\n    .C\n", a.document(2, WS));
    assert_eq!(".A\n\t.B\n\t\t.C\n", a.document(1, TAB));
}

#[test]
fn tags() {
    let root = parse(".node-name\n.Mixed-casing_can-be_USED\n.a_\n.__x\n.\u{C9}COLE\n.x-\u{E9}t\u{C9}\n").unwrap();
    let tags: Vec<String> = root.children().iter().map(|n| n.tag()).collect();
    assert_eq!(vec!["nodeName", "mixedCasingCanBeUsed", "a_", "_x", "\u{E9}cole", "x\u{C9}t\u{E9}"], tags);
}

#[test]
fn tag_casing_options() {
    let root = parse(".my-Node_name\n").unwrap();
    let node = &root.children()[0];
    assert_eq!("myNodeName", node.tag_with(TagCase::Camel));
    assert_eq!("my-Node_name", node.tag_with(TagCase::Verbatim));
    assert_eq!(node.tag(), node.tag_with(TagCase::Camel));
}

#[test]
fn first_and_last_are_direct_children() {
    let root = parse(".A\n  .X 1\n.B\n  .X 2\n.X 3\n.X 4\n").unwrap();
    assert_eq!("3", root.first_with_name("X").unwrap().text());
    assert_eq!("4", root.last_with_name("X").unwrap().text());
    let a = root.first_with_name("A").unwrap();
    assert_eq!("1", a.first_with_name("X").unwrap().text());
    assert!(a.first_with_name("B").is_none());
    assert!(root.first_with_name("Y").is_none());
    assert!(root.last_with_name("Y").is_none());
}

#[test]
fn text_trims_unicode_whitespace() {
    let root = parse(".A \u{3000}a b\u{A0}\r\n.B\n").unwrap();
    assert_eq!("a b", root.children()[0].text());
    assert_eq!(" \u{3000}a b\u{A0}\r\n", root.children()[0].content());
}

#[test]
fn nul_character_is_content() {
    let root = parse(".A \u{0}x\n").unwrap();
    assert_eq!(" \u{0}x\n", root.children()[0].content());
    assert_eq!(IdmlError::UnexpectedCharacter('\u{0}', 1, 1), parse("\u{0}.A\n").unwrap_err());
}

#[test]
fn incomplete_last_node_is_ignored() {
    let tokens = vec![
        Token::Indentation(0, NULL),
        Token::NodeName("A".to_string(), '.'),
        Token::NodeContent("\n".to_string()),
        Token::Indentation(0, NULL),
        Token::NodeName("B".to_string(), '.'),
    ];
    let root = parse_tokens(tokens).unwrap();
    assert_eq!(vec!["A"], names(root.children()));
}

#[test]
fn tokens_of_hand_built_document() {
    let tokens = vec![
        Token::Indentation(0, NULL),
        Token::NodeName("A".to_string(), '.'),
        Token::NodeContent("\n".to_string()),
        Token::Indentation(3, TAB),
        Token::NodeName("B".to_string(), '.'),
        Token::NodeContent(" b\n".to_string()),
    ];
    assert_eq!(".A\n\t\t\t.B b\n", join_tokens(tokens.clone()));
    let root = parse_tokens(tokens).unwrap();
    assert_eq!("0:root(1:A(2:B()))", shape(&root));
}

#[test]
fn error_positions() {
    assert_eq!(IdmlError::UnexpectedCharacter('\u{7}', 3, 3), parse(".A\n\n.B\u{7}\n").unwrap_err());
    assert_eq!(IdmlError::UnexpectedCharacter('\r', 1, 1), parse("\r\n.A\n").unwrap_err());
    assert_eq!(IdmlError::UnexpectedEndOfInput, parse(".A\n  ").unwrap_err());
    assert_eq!(IdmlError::UnexpectedEndOfInput, parse(".A x").unwrap_err());
}

#[test]
fn error_messages() {
    assert_eq!("empty input", err_empty_input().to_string());
    assert_eq!(
        "unexpected character: '\u{1F600}' 0x1F600 at row 12 and column 305",
        err_unexpected_character('\u{1F600}', 12, 305).to_string()
    );
    assert_eq!("unexpected character: '\u{1}' 0x01 at row 1 and column 1", err_unexpected_character('\u{1}', 1, 1).to_string());
    assert_eq!("unexpected end of input", err_unexpected_end().to_string());
    assert_eq!("expected node name token", err_expected_node_name().to_string());
    assert_eq!("expected node content token", err_expected_node_content().to_string());
    assert_eq!("expected indentation token", err_expected_indentation().to_string());
    assert_eq!("malformed indentation 10, expected multiplication of 0", err_malformed_indentation(10, 0).to_string());
    assert_eq!("inconsistent indentation, mixed spaces and tabs", err_inconsistent_indentation().to_string());
    assert_eq!("custom message", IdmlError::new("custom message").to_string());
    assert_eq!(IdmlError::Message("x".to_string()), IdmlError::new("x"));
}
