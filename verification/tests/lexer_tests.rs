use markql::ast::Node;
use markql::lexer::{parse_inline, Parser};

#[test]
fn test_parse_heading() {
    let parser = Parser::new();
    let doc = parser.parse("# Hello World");
    match doc {
        Node::Document(nodes) => {
            assert_eq!(nodes.len(), 1);
            match &nodes[0] {
                Node::Heading { level, children } => {
                    assert_eq!(*level, 1);
                    assert_eq!(children.len(), 1);
                    match &children[0] {
                        Node::Text(t) => assert_eq!(t, "Hello World"),
                        _ => panic!("Expected text node"),
                    }
                }
                _ => panic!("Expected heading node"),
            }
        }
        _ => panic!("Expected document node"),
    }
}

#[test]
fn test_parse_code_block() {
    let parser = Parser::new();
    let md = "```python\nprint('hello')\n```";
    let doc = parser.parse(md);
    match doc {
        Node::Document(nodes) => {
            assert_eq!(nodes.len(), 1);
            match &nodes[0] {
                Node::CodeBlock { language, code } => {
                    assert_eq!(language.as_deref(), Some("python"));
                    assert_eq!(code, "print('hello')");
                }
                _ => panic!("Expected code block"),
            }
        }
        _ => panic!("Expected document"),
    }
}

#[test]
fn test_parse_list() {
    let parser = Parser::new();
    let md = "- Item 1\n- Item 2\n- Item 3";
    let doc = parser.parse(md);
    match doc {
        Node::Document(nodes) => {
            assert_eq!(nodes.len(), 1);
            match &nodes[0] {
                Node::List { ordered, items } => {
                    assert!(!ordered);
                    assert_eq!(items.len(), 3);
                }
                _ => panic!("Expected list"),
            }
        }
        _ => panic!("Expected document"),
    }
}

#[test]
fn test_parse_inline_link() {
    let nodes = parse_inline("Click [here](https://example.com) for more");
    assert_eq!(nodes.len(), 3);
    match &nodes[1] {
        Node::Link { text, url } => {
            assert_eq!(text, "here");
            assert_eq!(url, "https://example.com");
        }
        _ => panic!("Expected link"),
    }
}

#[test]
fn test_parse_inline_emphasis() {
    let nodes = parse_inline("This is *italic* and **bold**");
    assert!(nodes
        .iter()
        .any(|n| matches!(n, Node::Emphasis { strong: false, .. })));
    assert!(nodes
        .iter()
        .any(|n| matches!(n, Node::Emphasis { strong: true, .. })));
}
