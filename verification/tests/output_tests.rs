use markql::lexer::Parser;
use markql::output::{format_results, OutputFormat};
use markql::query::executor::execute_query;

fn parse_and_format(md: &str, format: &str) -> String {
    let parser = Parser::new();
    let ast = parser.parse(md);
    let results = execute_query(&ast, "heading").unwrap();
    let fmt = OutputFormat::from_str(format);
    format_results(&results, &fmt, "heading")
}

#[test]
fn test_json_output() {
    let output = parse_and_format("# Hello\n\nWorld", "json");
    assert!(output.contains("\"query\": \"heading\""));
    assert!(output.contains("\"Hello\""));
}

#[test]
fn test_count_output() {
    let output = parse_and_format("# H1\n\n## H2\n\n### H3", "count");
    assert_eq!(output.trim(), "3");
}

#[test]
fn test_text_output() {
    let output = parse_and_format("# Hello\n\n## World", "text");
    assert!(output.contains("Hello"));
    assert!(output.contains("World"));
}

#[test]
fn test_markdown_output() {
    let output = parse_and_format("# Hello", "markdown");
    assert_eq!(output.trim(), "# Hello");
}
