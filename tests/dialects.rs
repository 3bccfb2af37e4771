use idml::{join_tokens, parse_in, tokenize_in, Dialect, IdmlError, NameChars, Node, Token, NULL, TAB, WS};

fn identifiers() -> Dialect {
    Dialect { delimiter: None, tabs: true, names: NameChars::Identifier }
}

#[test]
fn default_dialect_options() {
    let d = Dialect::new();
    assert_eq!(None, d.delimiter);
    assert!(d.tabs);
    assert_eq!(NameChars::Any, d.names);
}

#[test]
fn identifier_names_may_not_be_empty() {
    let d = identifiers();
    assert_eq!(IdmlError::UnexpectedCharacter(' ', 1, 2), tokenize_in(". ", d).unwrap_err());
    assert_eq!(IdmlError::UnexpectedCharacter('\n', 1, 2), tokenize_in(".\n", d).unwrap_err());
    assert_eq!(IdmlError::UnexpectedCharacter('\r', 1, 2), tokenize_in(".\r", d).unwrap_err());
    assert_eq!(IdmlError::UnexpectedCharacter('\r', 1, 2), tokenize_in(".\r\n", d).unwrap_err());
    assert_eq!(IdmlError::UnexpectedEndOfInput, tokenize_in(".", d).unwrap_err());
}

#[test]
fn identifier_names_reject_other_characters() {
    let d = identifiers();
    assert_eq!(IdmlError::UnexpectedCharacter('n', 1, 1), tokenize_in("n.A\n", d).unwrap_err());
    assert_eq!(IdmlError::UnexpectedCharacter('.', 1, 2), tokenize_in("..A\n", d).unwrap_err());
    assert_eq!(IdmlError::UnexpectedCharacter('!', 1, 3), tokenize_in(".A!\n", d).unwrap_err());
    assert_eq!(IdmlError::UnexpectedCharacter('!', 2, 5), tokenize_in(".A\n   .!\n", d).unwrap_err());
    assert_eq!(
        "unexpected character: '!' 0x21 at row 2 and column 5",
        tokenize_in(".A\n   .!\n", d).unwrap_err().to_string()
    );
}

#[test]
fn identifier_names_accepted() {
    let d = identifiers();
    let tokens = tokenize_in(".Mixed-casing_can-be_USED 1\n", d).unwrap();
    assert_eq!(
        vec![
            Token::Indentation(0, NULL),
            Token::NodeName("Mixed-casing_can-be_USED".to_string(), '.'),
            Token::NodeContent(" 1\n".to_string())
        ],
        tokens
    );
}

#[test]
fn fixed_delimiter() {
    let d = Dialect { delimiter: Some('.'), tabs: true, names: NameChars::Any };
    assert_eq!(IdmlError::UnexpectedCharacter('-', 1, 1), parse_in("-A\n", d).unwrap_err());
    let root = parse_in(".A\n-B\n", d).unwrap();
    assert_eq!(1, root.child_count());
    assert_eq!("\n-B\n", root.children()[0].content());
}

#[test]
fn spaces_only_indentation() {
    let d = Dialect { delimiter: None, tabs: false, names: NameChars::Any };
    let root = parse_in(".A\n\t.B\n  .C\n", d).unwrap();
    let a = &root.children()[0];
    assert_eq!("\n\t.B\n", a.content());
    assert_eq!(1, a.child_count());
    assert_eq!("C", a.children()[0].name());
}

#[test]
fn token_round_trip_in_every_dialect() {
    let input = ".A x\r\n\t.B\n  text\n\t\t.C-d_1\n";
    for names in [NameChars::Any, NameChars::Identifier] {
        for tabs in [true, false] {
            let d = Dialect { delimiter: Some('.'), tabs, names };
            let tokens = tokenize_in(input, d).unwrap();
            assert_eq!(input, join_tokens(tokens));
        }
    }
}

fn shape(node: &Node) -> String {
    let mut s = format!("{}:{}:{}(", node.level(), node.name(), node.content().len());
    for child in node.children() {
        s.push_str(&shape(child));
    }
    s.push(')');
    s
}

#[test]
fn reparse_with_other_indentation() {
    let d = Dialect { delimiter: None, tabs: false, names: NameChars::Identifier };
    let input = "*a one\n\ttab text\n  *b\n    *c x\n  *d\r\n*e\n";
    let root = parse_in(input, d).unwrap();
    assert_eq!(input, root.document(2, WS));
    for indent in [1, 3, 8] {
        let again = parse_in(&root.document(indent, WS), d).unwrap();
        assert_eq!(shape(&root), shape(&again));
    }
    let tabs = Dialect { tabs: true, ..d };
    let root = parse_in(input, tabs).unwrap();
    let again = parse_in(&root.document(1, TAB), tabs).unwrap();
    assert_eq!(shape(&root), shape(&again));
}
