//! The command-line scenarios, run through the library calls that the `query`
//! and `stats` commands make.
use markql::stats::{count_nodes, kind_type_name, NUM_KINDS};
use markql::{parse, run};

fn count(input: &str, query: &str) -> String {
    run(input, query, "count").unwrap()
}

#[test]
fn test_query_headings_from_stdin() {
    let input = "# Title\n\n## Subtitle\n\nSome text";
    assert_eq!(count(input, "heading").trim(), "2");
}

#[test]
fn test_query_code_blocks_from_stdin() {
    let input = "```python\nprint('hello')\n```\n\n```rust\nfn main() {}\n```";
    let output = run(input, "code_block[lang=python]", "json").unwrap();
    assert!(output.contains("\"python\""));
}

#[test]
fn test_query_links_from_stdin() {
    let input = "Click [here](https://example.com) for more info";
    let output = run(input, "link", "text").unwrap();
    assert!(output.contains("here"));
}

#[test]
fn integration_tests_test_query_heading_level() {
    let input = "# H1\n\n## H2\n\n### H3";
    assert_eq!(count(input, "heading[level=2]").trim(), "1");
}

#[test]
fn integration_tests_test_query_contains() {
    let input = "# Hello World\n\n## Goodbye World";
    assert_eq!(count(input, "heading[contains(\"Hello\")]").trim(), "1");
}

#[test]
fn integration_tests_test_query_multi_type() {
    let input = "# Heading\n\nParagraph\n\n```code```";
    assert_eq!(count(input, "heading, code_block").trim(), "2");
}

#[test]
fn test_stats_output() {
    let input = "# Title\n\nParagraph text\n\n```code```";
    let mut counts = vec![0usize; NUM_KINDS];
    count_nodes(&parse(input), &mut counts);
    let listed: Vec<&str> = (0..NUM_KINDS).filter(|&k| counts[k] > 0).map(kind_type_name).collect();
    assert!(listed.contains(&"heading"));
    assert!(listed.contains(&"paragraph"));
    assert!(listed.contains(&"code_block"));
}

#[test]
fn test_child_combinator() {
    let input = "- **bold item**\n- normal";
    assert_eq!(count(input, "list_item > emphasis").trim(), "1");
}

#[test]
fn test_descendant_combinator() {
    let input = "> This is **bold** text";
    assert_eq!(count(input, "blockquote emphasis").trim(), "1");
}
