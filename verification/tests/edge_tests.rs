use markql::ast::Node;
use markql::lexer::{parse_inline, Parser};
use markql::output::{format_results, OutputFormat};
use markql::query::executor::{execute_query, MatchResult};
use markql::query::{lex_query, Selector, Token};
use markql::display::{shorten, tree_label};
use markql::stats::{count_nodes, rank_counts, total_count, NUM_KINDS};
use markql::{format_results_str, parse, query_markdown, run};

fn text(s: &str) -> Node {
    Node::Text(s.to_string())
}

fn query_err(q: &str) -> String {
    match query_markdown("# Title", q) {
        Ok(_) => panic!("query {} was accepted", q),
        Err(e) => e,
    }
}

fn parse_err(toks: &[Token]) -> String {
    match Selector::parse(toks) {
        Ok(_) => panic!("tokens were accepted"),
        Err(e) => e,
    }
}

// ----- query lexer -----

#[test]
fn lexer_reads_every_token_kind() {
    let toks = lex_query("a > b + c, d | e [k=\"v w\"] 'x' (y) 1.5 _z-q").unwrap();
    assert_eq!(
        toks,
        vec![
            Token::Ident("a".to_string()),
            Token::Child,
            Token::Ident("b".to_string()),
            Token::Sibling,
            Token::Ident("c".to_string()),
            Token::Comma,
            Token::Ident("d".to_string()),
            Token::Pipe,
            Token::Ident("e".to_string()),
            Token::LBracket,
            Token::Ident("k".to_string()),
            Token::Equals,
            Token::Quoted("v w".to_string()),
            Token::RBracket,
            Token::Quoted("x".to_string()),
            Token::Ident("y".to_string()),
            Token::Ident("1.5".to_string()),
            Token::Ident("_z-q".to_string()),
            Token::Eof,
        ]
    );
}

#[test]
fn lexer_reads_unicode_letters_as_names() {
    let toks = lex_query("héading 日本").unwrap();
    assert_eq!(toks, vec![Token::Ident("héading".to_string()), Token::Ident("日本".to_string()), Token::Eof]);
}

#[test]
fn empty_query_lexes_to_end_only() {
    assert_eq!(lex_query("").unwrap(), vec![Token::Eof]);
}

#[test]
fn unterminated_string_is_an_error() {
    assert_eq!(lex_query("heading[contains(\"abc").unwrap_err(), "Unterminated string in query");
}

#[test]
fn unexpected_character_is_an_error() {
    assert_eq!(lex_query("heading @").unwrap_err(), "Unexpected character: '@'");
    assert_eq!(query_err("heading;"), "Unexpected character: ';'");
}

// ----- selector parser -----

#[test]
fn missing_node_type_is_an_error() {
    assert_eq!(query_err("["), "Expected node type, got LBracket");
    assert_eq!(query_err(""), "Expected node type, got Eof");
    assert_eq!(query_err("heading >"), "Expected node type, got Eof");
    assert_eq!(query_err("\"x\""), "Expected node type, got Quoted(\"x\")");
}

#[test]
fn contains_without_text_is_an_error() {
    assert_eq!(query_err("heading[contains]"), "Invalid contains filter syntax");
}

#[test]
fn attribute_errors() {
    assert_eq!(query_err("heading[level]"), "Expected '=', got RBracket");
    assert_eq!(query_err("heading[=2]"), "Expected attribute name, got Equals");
    assert_eq!(query_err("heading[level=]"), "Expected value, got RBracket");
    assert_eq!(query_err("heading['a\"b'=1]"), "Expected attribute name, got Quoted(\"a\\\"b\")");
}

#[test]
fn truncated_token_lists_are_errors() {
    let h = Token::Ident("heading".to_string());
    let level = Token::Ident("level".to_string());
    assert_eq!(parse_err(&[]), "Unexpected end of query");
    assert_eq!(parse_err(&[h.clone(), Token::LBracket]), "Invalid filter syntax");
    assert_eq!(
        parse_err(&[h.clone(), Token::LBracket, level, Token::Equals]),
        "Invalid attribute filter syntax"
    );
    assert_eq!(
        parse_err(&[h, Token::LBracket, Token::Ident("contains".to_string())]),
        "Invalid contains filter syntax"
    );
}

#[test]
fn selector_shapes() {
    let sel = Selector::parse(&lex_query("list > list_item emphasis + text, code_block").unwrap()).unwrap();
    match sel {
        Selector::Multi(v) => {
            assert_eq!(v.len(), 2);
            match &v[1] {
                Selector::Type(t) => assert_eq!(t, "code_block"),
                _ => panic!("Expected Type selector"),
            }
            match &v[0] {
                Selector::Sibling { after, .. } => match &**after {
                    Selector::Type(t) => assert_eq!(t, "text"),
                    _ => panic!("Expected Type selector"),
                },
                _ => panic!("Expected Sibling selector"),
            }
        }
        _ => panic!("Expected Multi selector"),
    }
    match Selector::parse(&lex_query("code_block[contains(\"fn\")]").unwrap()).unwrap() {
        Selector::WithContains { node_type, text } => {
            assert_eq!(node_type, "code_block");
            assert_eq!(text, "fn");
        }
        _ => panic!("Expected WithContains selector"),
    }
    match Selector::parse(&lex_query("link[url=\"https://x.org\"]").unwrap()).unwrap() {
        Selector::WithAttr { value, .. } => assert_eq!(value, "https://x.org"),
        _ => panic!("Expected WithAttr selector"),
    }
}

// ----- Markdown parser -----

#[test]
fn empty_text_is_an_empty_document() {
    assert_eq!(parse(""), Node::Document(vec![]));
    assert_eq!(parse("\n  \n\t\n"), Node::Document(vec![]));
}

#[test]
fn default_parser_is_the_parser() {
    let p: Parser = Default::default();
    assert_eq!(p.parse("# A"), Parser::new().parse("# A"));
}

#[test]
fn heading_without_space_is_a_heading() {
    assert_eq!(parse("#tag"), Node::Document(vec![Node::Heading { level: 1, children: vec![text("tag")] }]));
}

#[test]
fn lines_that_no_other_block_takes_are_paragraphs() {
    assert_eq!(parse("#"), Node::Document(vec![Node::Paragraph(vec![text("#")])]));
    let doc = parse("| a |");
    assert_eq!(doc, Node::Document(vec![Node::Paragraph(vec![text("| a |")])]));
    assert_eq!(doc.text_content(), "| a |");
    assert_eq!(
        parse("| a | b |\nno table"),
        Node::Document(vec![Node::Paragraph(vec![text("| a | b |\nno table")])])
    );
    assert_eq!(
        parse("text\n#\nmore"),
        Node::Document(vec![
            Node::Paragraph(vec![text("text")]),
            Node::Paragraph(vec![text("#\nmore")]),
        ])
    );
}

#[test]
fn ordered_list_ends_at_a_line_it_cannot_cut() {
    assert_eq!(
        parse("1. a\nx"),
        Node::Document(vec![
            Node::List { ordered: true, items: vec![Node::ListItem(vec![text("a")])] },
            Node::Paragraph(vec![text("x")]),
        ])
    );
}

#[test]
fn ordered_list_lines_without_dot_are_cut_after_two_bytes() {
    assert_eq!(
        parse("1. a\n2) b\n- c"),
        Node::Document(vec![Node::List {
            ordered: true,
            items: vec![
                Node::ListItem(vec![text("a")]),
                Node::ListItem(vec![text(" b")]),
                Node::ListItem(vec![text("c")]),
            ],
        }])
    );
}

#[test]
fn block_kinds() {
    let doc = parse("---\n\n~~~\nx\n~~~\n\n> q1\nq2\n\n| h |\n|---|\n| c |\n\nline one\nline two");
    assert_eq!(
        doc,
        Node::Document(vec![
            Node::ThematicBreak,
            Node::CodeBlock { language: None, code: "x".to_string() },
            Node::Blockquote(vec![text("q1\nq2")]),
            Node::Table {
                header: vec![Node::TableCell(vec![text("h")])],
                rows: vec![vec![Node::TableCell(vec![text("c")])]],
            },
            Node::Paragraph(vec![text("line one\nline two")]),
        ])
    );
}

#[test]
fn unclosed_code_block_runs_to_the_end() {
    assert_eq!(
        parse("```py\na\nb"),
        Node::Document(vec![Node::CodeBlock { language: Some("py".to_string()), code: "a\nb".to_string() }])
    );
}

#[test]
fn inline_elements() {
    assert_eq!(
        parse_inline("a `c` ![i](u.png) [l](v) **s** *e* __t__ _f_ x\\\ny"),
        vec![
            text("a "),
            Node::InlineCode("c".to_string()),
            text(" "),
            Node::Image { alt: "i".to_string(), url: "u.png".to_string() },
            text(" "),
            Node::Link { text: "l".to_string(), url: "v".to_string() },
            text(" "),
            Node::Emphasis { strong: true, children: vec![text("s")] },
            text(" "),
            Node::Emphasis { strong: false, children: vec![text("e")] },
            text(" "),
            Node::Emphasis { strong: true, children: vec![text("t")] },
            text(" "),
            Node::Emphasis { strong: false, children: vec![text("f")] },
            text(" x"),
            Node::LineBreak,
            text("y"),
        ]
    );
}

#[test]
fn unmatched_markers_stay_text() {
    assert_eq!(parse_inline("a `b [c *d"), vec![text("a "), text("`b "), text("[c "), text("*d")]);
    assert_eq!(parse_inline("[x] y"), vec![text("[x] y")]);
}

// ----- node helpers -----

#[test]
fn attributes_and_text_content() {
    let h = Node::Heading { level: 3, children: vec![text("a"), Node::Emphasis { strong: true, children: vec![text("b")] }] };
    assert_eq!(h.get_attribute("level"), Some("3".to_string()));
    assert_eq!(h.get_attribute("lang"), None);
    assert!(h.matches_attribute("level", "3"));
    assert!(!h.matches_attribute("level", "4"));
    assert_eq!(h.text_content(), "a b");
    assert_eq!(h.node_type(), "heading");
    let e = Node::Emphasis { strong: false, children: vec![] };
    assert_eq!(e.get_attribute("strong"), Some("false".to_string()));
    let l = Node::List { ordered: true, items: vec![] };
    assert_eq!(l.get_attribute("ordered"), Some("true".to_string()));
    let img = Node::Image { alt: "A".to_string(), url: "U".to_string() };
    assert_eq!(img.get_attribute("text"), Some("A".to_string()));
    assert_eq!(img.get_attribute("alt"), Some("A".to_string()));
    assert_eq!(img.get_attribute("url"), Some("U".to_string()));
    let cb = Node::CodeBlock { language: None, code: "k".to_string() };
    assert_eq!(cb.get_attribute("lang"), None);
    assert_eq!(cb.get_attribute("code"), Some("k".to_string()));
}

#[test]
fn table_children_are_all_cells() {
    let doc = parse("| a | b |\n|---|---|\n| 1 | 2 |\n| 3 | 4 |");
    let table = doc.children()[0];
    assert_eq!(table.node_type(), "table");
    assert_eq!(table.children().len(), 6);
    assert_eq!(table.children()[5].text_content(), "4");
}

#[test]
fn statistics_count_each_kind() {
    let doc = parse("# T\n\nP *e*\n\n```c```");
    let mut counts = vec![0usize; NUM_KINDS];
    count_nodes(&doc, &mut counts);
    // document, heading, paragraph, code block, emphasis, three texts
    assert_eq!(counts, vec![1, 1, 1, 1, 0, 0, 0, 0, 0, 0, 0, 0, 0, 1, 0, 3, 0]);
}

// ----- queries -----

#[test]
fn contains_filter_reads_text_content() {
    let md = "# Hello **World**\n\n## Other";
    let found = query_markdown(md, "heading[contains(\"Hello\")]").unwrap();
    assert_eq!(found.len(), 1);
    assert_eq!(found[0].node.text_content(), "Hello  World");
    assert_eq!(query_markdown(md, "heading[contains('Wor')]").unwrap().len(), 1);
    assert_eq!(query_markdown(md, "heading[contains(\"zzz\")]").unwrap().len(), 0);
}

#[test]
fn paths_record_child_indices() {
    let results = query_markdown("# A\n\n- x\n- **y**", "emphasis").unwrap();
    assert_eq!(results.len(), 1);
    assert_eq!(results[0].path, vec![1, 1, 0]);
    assert_eq!(results[0].depth, 3);
}

#[test]
fn multi_selector_lists_each_part_in_turn() {
    let results = query_markdown("~~~\nx\n~~~\n\n# H", "heading, code_block").unwrap();
    assert_eq!(results.len(), 2);
    assert_eq!(results[0].node.node_type(), "heading");
    assert_eq!(results[1].node.node_type(), "code_block");
}

// ----- output -----

#[test]
fn format_names_ignore_case() {
    assert_eq!(OutputFormat::from_str("JSON"), OutputFormat::Json);
    assert_eq!(OutputFormat::from_str("MD"), OutputFormat::Markdown);
    assert_eq!(OutputFormat::from_str("Markdown"), OutputFormat::Markdown);
    assert_eq!(OutputFormat::from_str("TxT"), OutputFormat::Text);
    assert_eq!(OutputFormat::from_str("Count"), OutputFormat::Count);
    assert_eq!(OutputFormat::from_str("TREE"), OutputFormat::Tree);
    assert_eq!(OutputFormat::from_str("yaml"), OutputFormat::Json);
}

#[test]
fn count_output_is_the_number_of_matches() {
    assert_eq!(run("para", "heading", "count").unwrap(), "0");
    assert_eq!(run("# a\n\n# b", "heading", "COUNT").unwrap(), "2");
}

#[test]
fn json_output_exact() {
    let out = run("# Hi", "heading", "json").unwrap();
    let expected = "{\n  \"count\": 1,\n  \"matches\": [\n    {\n      \"depth\": 1,\n      \"index\": 0,\n      \"node\": {\n        \"children\": [\n          {\n            \"text\": \"Hi\",\n            \"type\": \"text\"\n          }\n        ],\n        \"level\": 1,\n        \"text\": \"Hi\",\n        \"type\": \"heading\"\n      },\n      \"path\": [\n        0\n      ],\n      \"text\": \"Hi\",\n      \"type\": \"heading\"\n    }\n  ],\n  \"query\": \"heading\"\n}";
    assert_eq!(out, expected);
}

#[test]
fn json_output_of_no_match() {
    assert_eq!(run("text", "table", "json").unwrap(), "{\n  \"count\": 0,\n  \"matches\": [],\n  \"query\": \"table\"\n}");
}

#[test]
fn json_output_is_valid_json() {
    let output = run("# Title\n\nSome text", "heading", "json").unwrap();
    let parsed: serde_json::Value = serde_json::from_str(&output).expect("Invalid JSON output");
    assert_eq!(parsed["query"], "heading");
    assert_eq!(parsed["count"], 1);
}

#[test]
fn json_lists_items_by_their_children() {
    let out = run("- a", "list", "json").unwrap();
    let parsed: serde_json::Value = serde_json::from_str(&out).unwrap();
    let node = &parsed["matches"][0]["node"];
    assert_eq!(node["ordered"], false);
    assert_eq!(node["items"][0][0]["text"], "a");
    assert_eq!(node["items"][0][0]["type"], "text");
}

#[test]
fn markdown_output() {
    assert_eq!(run("# Hello **big** `x`", "heading", "markdown").unwrap(), "# Hello **big** `x`");
    assert_eq!(run("```rust\nfn main() {}\n```", "code_block", "md").unwrap(), "```rust\nfn main() {}\n```");
    assert_eq!(run("- a\n- b", "list", "md").unwrap(), "- a\n- b");
    assert_eq!(run("1. x\n2. y", "list", "md").unwrap(), "1. x\n2. y");
    assert_eq!(run("> quoted *text*", "blockquote", "md").unwrap(), "> quoted *text*");
    assert_eq!(run("# a\n\n## b", "heading", "md").unwrap(), "# a\n\n## b");
    assert_eq!(run("![p](q) [r](s)\n\n---", "image, link, thematic_break", "md").unwrap(), "![p](q)\n\n[r](s)\n\n---");
}

#[test]
fn text_output() {
    assert_eq!(run("a *b* c", "text", "text").unwrap(), "a \nb\n c");
}

#[test]
fn tree_output() {
    let out = run("- a\n- b", "list", "tree").unwrap();
    assert_eq!(
        out,
        "└── list\n    ordered: false\n    ├── list_item\n    │   └── text\n    └── list_item\n        └── text\n"
    );
    let out = run("# H\n\n```py\nx\n```", "heading, code_block", "tree").unwrap();
    assert_eq!(out, "├── heading\n    level: 1\n│   └── text\n\n└── code_block\n    lang: py\n");
}

#[test]
fn formatting_a_query_result_directly() {
    let ast = parse("# A\n\n# B");
    let results = execute_query(&ast, "heading").unwrap();
    assert_eq!(format_results(&results, &OutputFormat::Text, "heading"), "A\nB");
    assert_eq!(format_results_str(&results, "count", "heading"), "2");
}

#[test]
fn run_passes_query_errors_on() {
    assert_eq!(run("# a", "heading[", "count").unwrap_err(), "Expected attribute name, got Eof");
}

// ----- statistics and display helpers -----

#[test]
fn ranking_puts_larger_counts_first() {
    let counts = vec![1usize, 0, 3, 3, 0, 7];
    assert_eq!(rank_counts(&counts), vec![(5, 7), (2, 3), (3, 3), (0, 1)]);
    assert_eq!(rank_counts(&vec![0usize, 0]), vec![]);
    assert_eq!(total_count(&counts), Some(14));
    assert_eq!(total_count(&vec![usize::MAX, 1]), None);
    assert_eq!(total_count(&vec![]), Some(0));
}

#[test]
fn shortening_counts_bytes() {
    assert_eq!(shorten("short", 10), "short");
    assert_eq!(shorten("exactly10!", 10), "exactly10!");
    assert_eq!(shorten("eleven char", 10), "eleven ...");
    assert_eq!(shorten("abcdeéghijk", 10), "abcdeé...");
    // byte 7 falls inside 'é' (bytes 6 and 7): the cut moves back before it
    assert_eq!(shorten("abcdefé3ijk", 10), "abcdef...");
    assert_eq!(shorten("abcdefgéijk", 10), "abcdefg...");
}

#[test]
fn tree_labels() {
    assert_eq!(tree_label(&Node::ThematicBreak), "thematic_break");
    assert_eq!(tree_label(&text("hi")), "text: hi");
    let long = "x".repeat(41);
    assert_eq!(tree_label(&text(&long)), format!("text: {}...", "x".repeat(37)));
    let awkward = format!("{}é{}", "x".repeat(36), "y".repeat(10));
    assert_eq!(tree_label(&text(&awkward)), format!("text: {}...", "x".repeat(36)));
    let accents = "é".repeat(30);
    assert_eq!(tree_label(&text(&accents)), format!("text: {}...", "é".repeat(18)));
    let code = Node::CodeBlock { language: Some("python".to_string()), code: "x = 1".to_string() };
    assert_eq!(tree_label(&code), "code_block: python");
    let plain = Node::CodeBlock { language: None, code: "x = 1".to_string() };
    assert_eq!(tree_label(&plain), "code_block: x = 1");
}

#[test]
fn clones_are_equal_copies() {
    let doc = parse("# A *b*\n\n| x |\n|---|\n| y |");
    assert_eq!(doc.clone(), doc);
    let results = query_markdown("- **b**", "emphasis").unwrap();
    let copy = results[0].clone();
    assert_eq!(copy.node, results[0].node);
    assert_eq!(copy.path, results[0].path);
    assert_eq!(copy.depth, results[0].depth);
    let sel = Selector::parse(&lex_query("a > b, c[k=v]").unwrap()).unwrap();
    match sel.clone() {
        Selector::Multi(v) => {
            assert_eq!(v.len(), 2);
            match &v[1] {
                Selector::WithAttr { node_type, key, value } => {
                    assert_eq!((node_type.as_str(), key.as_str(), value.as_str()), ("c", "k", "v"));
                }
                _ => panic!("Expected WithAttr selector"),
            }
        }
        _ => panic!("Expected Multi selector"),
    }
}

#[test]
fn whole_document_as_json() {
    let doc = parse("# A\n\n---");
    let out = format_results(&[MatchResult { node: doc, path: vec![], depth: 0 }], &OutputFormat::Json, "*");
    let parsed: serde_json::Value = serde_json::from_str(&out).unwrap();
    assert_eq!(parsed["query"], "*");
    assert_eq!(parsed["count"], 1);
    let m = &parsed["matches"][0];
    assert_eq!(m["type"], "document");
    assert_eq!(m["depth"], 0);
    assert_eq!(m["path"].as_array().unwrap().len(), 0);
    assert_eq!(m["node"]["children"][0]["level"], 1);
    assert_eq!(m["node"]["children"][1]["type"], "thematic_break");
}

#[test]
fn stray_tokens_are_errors() {
    assert_eq!(query_err("heading ]"), "Unexpected token: RBracket");
    assert_eq!(query_err("heading = x"), "Unexpected token: Equals");
    assert_eq!(query_err("heading | count"), "Unexpected token: Pipe");
    let toks = lex_query("heading ]").unwrap();
    assert_eq!(parse_err(&toks), "Unexpected token: RBracket");
}

#[test]
fn token_lists_without_end_marker() {
    let a = Token::Ident("a".to_string());
    assert_eq!(parse_err(&[a.clone(), Token::LBracket, Token::Ident("k".to_string())]), "Unexpected end of query");
    match Selector::parse(&[a]) {
        Ok(Selector::Type(t)) => assert_eq!(t, "a"),
        _ => panic!("Expected Type selector"),
    }
}

#[test]
fn unquoted_values_run_to_the_bracket() {
    let toks = lex_query("link[url=https://example.com/a?b#c]").unwrap();
    assert_eq!(toks[4], Token::Ident("https://example.com/a?b#c".to_string()));
    assert_eq!(toks[5], Token::RBracket);
    let found = query_markdown("Click [here](https://example.com) for info", "link[url=https://example.com]").unwrap();
    assert_eq!(found.len(), 1);
    assert_eq!(found[0].node, Node::Link { text: "here".to_string(), url: "https://example.com".to_string() });
    assert_eq!(lex_query("heading[level= 2]").unwrap()[4], Token::Ident("2".to_string()));
}

#[test]
fn star_equals_matches_attribute_values_containing_the_text() {
    let toks = lex_query("link[url*=github]").unwrap();
    assert_eq!(toks[3], Token::StarEquals);
    let md = "See [a](https://github.com/x) and [b](https://example.com)";
    let found = query_markdown(md, "link[url*=github]").unwrap();
    assert_eq!(found.len(), 1);
    assert_eq!(found[0].node, Node::Link { text: "a".to_string(), url: "https://github.com/x".to_string() });
    assert_eq!(query_markdown(md, "link[url*=\"https\"]").unwrap().len(), 2);
    assert_eq!(query_markdown(md, "heading[level*=1]").unwrap().len(), 0);
    assert_eq!(lex_query("a*b").unwrap_err(), "Unexpected character: '*'");
}

#[test]
fn malformed_image_keeps_its_text() {
    assert_eq!(parse_inline("![x"), vec![text("![x")]);
    assert_eq!(parse_inline("a ![x] b"), vec![text("a "), text("![x] b")]);
}

#[test]
fn descendants_are_listed_once() {
    let found = query_markdown("**a *b* c**", "emphasis text").unwrap();
    let paths: Vec<Vec<usize>> = found.iter().map(|r| r.path.clone()).collect();
    assert_eq!(paths, vec![vec![0, 0, 0], vec![0, 0, 1, 0], vec![0, 0, 2]]);
}

#[test]
fn siblings_are_found_at_any_depth() {
    let ast = Parser::new().parse("Hello *world*");
    let found = execute_query(&ast, "text + emphasis").unwrap();
    assert_eq!(found.len(), 1);
    assert_eq!(found[0].path, vec![0, 1]);
    let found = query_markdown("# t\n\npara\n\n- a *b*\n- c", "heading + paragraph, text + emphasis").unwrap();
    let paths: Vec<Vec<usize>> = found.iter().map(|r| r.path.clone()).collect();
    assert_eq!(paths, vec![vec![1], vec![2, 0, 1]]);
}

#[test]
fn unquoted_values_stop_at_token_characters() {
    assert_eq!(query_err("a[k=v,w]"), "Unexpected token: RBracket");
    let toks = lex_query("a[k=v,w]").unwrap();
    assert_eq!(toks[4], Token::Ident("v".to_string()));
    assert_eq!(toks[5], Token::Comma);
}

#[test]
fn format_from_a_lowercased_name() {
    assert_eq!(markql::output::format_from_lowercase("md"), OutputFormat::Markdown);
    assert_eq!(markql::output::format_from_lowercase("tree"), OutputFormat::Tree);
    assert_eq!(markql::output::format_from_lowercase("JSON"), OutputFormat::Json);
    assert_eq!(markql::output::format_from_lowercase("Count"), OutputFormat::Json);
}
