use markql::{query_markdown, run};

#[test]
fn test_parse_and_query() {
    let md = "# Title\n\n## Subtitle\n\nSome text\n\n```rust\nfn main() {}\n```";
    let results = query_markdown(md, "heading").unwrap();
    assert_eq!(results.len(), 2);
}

#[test]
fn test_run_json() {
    let md = "# Hello\n\nWorld";
    let output = run(md, "heading", "json").unwrap();
    assert!(output.contains("\"Hello\""));
}

#[test]
fn test_run_count() {
    let md = "# H1\n\n## H2\n\n### H3";
    let output = run(md, "heading", "count").unwrap();
    assert_eq!(output.trim(), "3");
}

#[test]
fn test_run_text() {
    let md = "# Hello\n\n## World";
    let output = run(md, "heading", "text").unwrap();
    assert!(output.contains("Hello"));
    assert!(output.contains("World"));
}

#[test]
fn lib_test_query_code_blocks() {
    let md = "```python\nprint('hi')\n```\n\n```rust\nfn main() {}\n```";
    let results = query_markdown(md, "code_block[lang=python]").unwrap();
    assert_eq!(results.len(), 1);
}

#[test]
fn lib_test_query_links() {
    let md = "Click [here](https://example.com) for info";
    let results = query_markdown(md, "link").unwrap();
    assert_eq!(results.len(), 1);
}

#[test]
fn test_error_handling() {
    let result = query_markdown("# Title", "invalid[[[query");
    assert!(result.is_err());
}
