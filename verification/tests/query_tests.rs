use markql::query::{lex_query, Selector, Token};

#[test]
fn test_lex_simple() {
    let tokens = lex_query("heading").unwrap();
    assert_eq!(tokens.len(), 2); // ident + eof
    assert_eq!(tokens[0], Token::Ident("heading".to_string()));
}

#[test]
fn test_lex_child_combinator() {
    let tokens = lex_query("list > heading").unwrap();
    assert!(tokens.contains(&Token::Child));
}

#[test]
fn test_lex_equals() {
    let tokens = lex_query("heading[level=2]").unwrap();
    assert!(tokens.contains(&Token::Equals));
    assert!(tokens.contains(&Token::LBracket));
    assert!(tokens.contains(&Token::RBracket));
}

#[test]
fn test_parse_type_selector() {
    let sel = Selector::parse(&[Token::Ident("heading".to_string()), Token::Eof]).unwrap();
    match sel {
        Selector::Type(s) => assert_eq!(s, "heading"),
        _ => panic!("Expected Type selector"),
    }
}

#[test]
fn test_parse_attr_selector() {
    let sel = Selector::parse(&[
        Token::Ident("heading".to_string()),
        Token::LBracket,
        Token::Ident("level".to_string()),
        Token::Equals,
        Token::Ident("2".to_string()),
        Token::RBracket,
        Token::Eof,
    ])
    .unwrap();
    match sel {
        Selector::WithAttr {
            node_type,
            key,
            value,
        } => {
            assert_eq!(node_type, "heading");
            assert_eq!(key, "level");
            assert_eq!(value, "2");
        }
        _ => panic!("Expected WithAttr selector"),
    }
}
