//! MarkQL: query Markdown documents with CSS-like selectors.
//!
//! Markdown text is parsed into a syntax tree ([`ast::Node`]), a query
//! selector is lexed and parsed ([`query`]), run against the tree
//! ([`query::executor`]), and the matches are formatted ([`output`]).
use vstd::prelude::*;
use crate::ast::Node;
use crate::lexer::{parse_md, Parser};
use crate::output::{format_named, format_output, format_results, lowercase, OutputFormat};
use crate::query::executor::{execute_query, matches_view, query_result_view, run_query, MatchResult};

pub mod ast;
pub mod json;
pub mod display;
pub mod document;
pub mod lexer;
pub mod output;
pub mod query;
pub mod rendering;
pub mod stats;
pub mod text;

verus! {

/// Parses Markdown text into a syntax tree.
pub fn parse(markdown: &str) -> (r: Node)
    ensures
        r@ == parse_md(markdown@),
{
    let parser = Parser::new();
    parser.parse(markdown)
}

/// Runs a query against a syntax tree.
pub fn query(ast: &Node, query_str: &str) -> (r: Result<Vec<MatchResult>, String>)
    ensures
        query_result_view(r) == run_query(ast@, query_str@),
{
    execute_query(ast, query_str)
}

/// Parses Markdown text and runs a query against it.
pub fn query_markdown(markdown: &str, query_str: &str) -> (r: Result<Vec<MatchResult>, String>)
    ensures
        query_result_view(r) == run_query(parse_md(markdown@), query_str@),
{
    let ast = parse(markdown);
    query(&ast, query_str)
}

/// Formats query results in the format named by `format` (see `OutputFormat::from_str`).
pub fn format_results_str(results: &[MatchResult], format: &str, query_str: &str) -> (r: String)
    ensures
        r@ == format_output(matches_view(results@), format_named(lowercase(format@)), query_str@),
{
    let fmt = OutputFormat::from_str(format);
    format_results(results, &fmt, query_str)
}

/// Parses Markdown text, runs a query, and formats the results.
pub fn run(markdown: &str, query_str: &str, fmt: &str) -> (r: Result<String, String>)
    ensures
        match r {
            Ok(s) => run_query(parse_md(markdown@), query_str@) matches Ok(rs)
                && s@ == format_output(rs, format_named(lowercase(fmt@)), query_str@),
            Err(e) => run_query(parse_md(markdown@), query_str@) == Err::<Seq<crate::query::executor::SMatch>, Seq<char>>(e@),
        },
{
    let results = match query_markdown(markdown, query_str) {
        Ok(r) => r,
        Err(e) => {
            return Err(e);
        },
    };
    Ok(format_results_str(results.as_slice(), fmt, query_str))
}

} // verus!
