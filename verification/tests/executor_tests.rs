use markql::ast::Node;
use markql::lexer::Parser;
use markql::query::executor::{execute_query, MatchResult};

fn parse_and_query(md: &str, query: &str) -> Vec<MatchResult> {
    let parser = Parser::new();
    let ast = parser.parse(md);
    execute_query(&ast, query).unwrap()
}

#[test]
fn test_query_headings() {
    let results = parse_and_query("# Title\n\n## Subtitle\n\nText", "heading");
    assert_eq!(results.len(), 2);
}

#[test]
fn executor_test_query_heading_level() {
    let results = parse_and_query("# H1\n\n## H2\n\n### H3", "heading[level=2]");
    assert_eq!(results.len(), 1);
    match &results[0].node {
        Node::Heading { level, .. } => assert_eq!(*level, 2),
        _ => panic!("Expected heading"),
    }
}

#[test]
fn executor_test_query_code_blocks() {
    let results = parse_and_query(
        "```python\nprint('hi')\n```\n\n```rust\nfn main() {}\n```",
        "code_block[lang=python]",
    );
    assert_eq!(results.len(), 1);
}

#[test]
fn executor_test_query_links() {
    let results = parse_and_query("Click [here](https://example.com) for info", "link");
    assert_eq!(results.len(), 1);
}

#[test]
fn test_query_child_combinator() {
    let results = parse_and_query("- **bold item**\n- normal", "list_item > emphasis");
    assert_eq!(results.len(), 1);
}

#[test]
fn test_query_descendant_combinator() {
    let md = "> This is a **bold** word in a blockquote";
    let results = parse_and_query(md, "blockquote emphasis");
    assert_eq!(results.len(), 1);
}

#[test]
fn executor_test_query_contains() {
    let results = parse_and_query(
        "# Hello World\n\n## Goodbye World",
        r#"heading[contains("Hello")]"#,
    );
    assert_eq!(results.len(), 1);
}

#[test]
fn executor_test_query_multi_type() {
    let results = parse_and_query(
        "# Heading\n\nParagraph\n\n```code```",
        "heading, code_block",
    );
    assert_eq!(results.len(), 2);
}

#[test]
fn test_no_matches() {
    let results = parse_and_query("# Title\n\nText", "table");
    assert!(results.is_empty());
}
