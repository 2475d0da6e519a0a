use markql::ast::Node;
use markql::lexer::parse_inline;
use markql::query::executor::MatchResult;
use markql::stats::{count_nodes, kind_type_name, NUM_KINDS};
use markql::{parse, query, query_markdown};

const DOC: &str = "# Title\n\nIntro with *soft* and **strong** words.\n\n## Part\n\n- **bold item**\n- plain item\n\n> A quote with a [link](https://example.com)\n\n```rust\nfn main() {}\n```\n\n| a | b |\n|---|---|\n| 1 | 2 |";

fn node_at<'a>(root: &'a Node, path: &[usize]) -> Option<&'a Node> {
    let mut cur = root;
    for &k in path {
        let kids = cur.children();
        if k >= kids.len() {
            return None;
        }
        cur = kids[k];
    }
    Some(cur)
}

fn check_placed(root: &Node, results: &[MatchResult]) {
    for r in results {
        assert_eq!(r.depth, r.path.len());
        assert_eq!(node_at(root, &r.path), Some(&r.node));
    }
}

#[test]
fn matches_lie_at_their_paths() {
    let ast = parse(DOC);
    for q in [
        "heading",
        "text",
        "emphasis[strong=true]",
        "list > list_item",
        "blockquote link",
        "heading + paragraph",
        "heading, code_block, table_cell",
        "paragraph[contains(\"strong\")]",
    ] {
        let results = query(&ast, q).unwrap();
        assert!(!results.is_empty(), "no match for {}", q);
        check_placed(&ast, &results);
    }
}

#[test]
fn matches_satisfy_the_last_part_of_the_selector() {
    let ast = parse(DOC);
    for r in query(&ast, "list_item > emphasis").unwrap() {
        assert_eq!(r.node.node_type(), "emphasis");
    }
    for r in query(&ast, "heading + paragraph").unwrap() {
        assert_eq!(r.node.node_type(), "paragraph");
    }
    for r in query(&ast, "heading, code_block").unwrap() {
        let t = r.node.node_type();
        assert!(t == "heading" || t == "code_block");
    }
}

#[test]
fn child_matches_have_a_matching_parent() {
    let ast = parse(DOC);
    let parents = query(&ast, "list_item").unwrap();
    let kids = query(&ast, "list_item > emphasis").unwrap();
    assert_eq!(kids.len(), 1);
    for k in &kids {
        let parent = &k.path[..k.path.len() - 1];
        assert!(parents.iter().any(|p| p.path == parent));
    }
}

#[test]
fn descendant_matches_lie_below_a_match() {
    let ast = parse(DOC);
    let above = query(&ast, "blockquote").unwrap();
    let below = query(&ast, "blockquote link").unwrap();
    assert_eq!(below.len(), 1);
    for b in &below {
        assert!(above.iter().any(|a| a.path.len() < b.path.len() && b.path.starts_with(&a.path)));
    }
}

#[test]
fn sibling_matches_follow_a_matching_sibling() {
    let ast = parse(DOC);
    let found = query(&ast, "heading + paragraph").unwrap();
    assert_eq!(found.len(), 1);
    let kids = ast.children();
    for f in &found {
        assert_eq!(f.path.len(), 1);
        let j = f.path[0];
        assert!(j >= 1);
        assert_eq!(kids[j - 1].node_type(), "heading");
    }
}

#[test]
fn type_queries_count_what_the_statistics_count() {
    let ast = parse(DOC);
    let mut counts = vec![0usize; NUM_KINDS];
    count_nodes(&ast, &mut counts);
    for k in 0..NUM_KINDS {
        let found = query(&ast, kind_type_name(k)).unwrap();
        assert_eq!(found.len(), counts[k], "kind {}", kind_type_name(k));
    }
    assert_eq!(counts[0], 1);
    assert_eq!(counts[1], 2);
    assert_eq!(counts[9], 4);
}

#[test]
fn headings_have_levels_one_to_six() {
    let doc = parse("# One\n\n###### Six\n\n> # not a heading in a quote\n\n- # nor in a list");
    let found = query(&doc, "heading").unwrap();
    assert_eq!(found.len(), 2);
    for f in &found {
        assert_eq!(f.path.len(), 1);
    }
    assert_eq!(found[0].node.get_attribute("level"), Some("1".to_string()));
    assert_eq!(found[1].node.get_attribute("level"), Some("6".to_string()));
}

#[test]
fn seven_hashes_make_no_heading() {
    assert_eq!(
        parse("####### Seven"),
        Node::Document(vec![Node::Paragraph(vec![Node::Text("####### Seven".to_string())])])
    );
}

#[test]
fn parsed_blocks_have_block_shapes() {
    let doc = parse("# h\n\n- a\n- b\n\n1. x\ny\n\n| c |\n\n#\n\n> q");
    match &doc {
        Node::Document(blocks) => {
            for b in blocks {
                let t = b.node_type();
                assert!(["heading", "paragraph", "code_block", "blockquote", "list", "table", "thematic_break"].contains(&t));
                match b {
                    Node::Heading { level, children } => {
                        assert!(1 <= *level && *level <= 6);
                        assert!(!children.is_empty());
                    }
                    Node::List { items, .. } => {
                        assert!(!items.is_empty());
                        assert!(items.iter().all(|i| i.node_type() == "list_item"));
                    }
                    _ => {}
                }
            }
            assert_eq!(blocks.len(), 7);
        }
        _ => panic!("Expected document"),
    }
}

#[test]
fn level_filter_picks_that_level_only() {
    let md = "# a\n\n## b\n\n### c\n\n## d";
    let found = query_markdown(md, "heading[level=2]").unwrap();
    assert_eq!(found.len(), 2);
    for f in &found {
        assert_eq!(f.node.get_attribute("level"), Some("2".to_string()));
    }
    assert_eq!(query_markdown(md, "heading[level=02]").unwrap().len(), 0);
    assert_eq!(query_markdown(md, "heading[level=7]").unwrap().len(), 0);
}

#[test]
fn plain_text_is_one_text_node() {
    assert_eq!(parse_inline("just some words, no markup!"), vec![Node::Text("just some words, no markup!".to_string())]);
    assert_eq!(parse_inline(""), Vec::<Node>::new());
    assert_eq!(
        parse("Just words"),
        Node::Document(vec![Node::Paragraph(vec![Node::Text("Just words".to_string())])])
    );
}

fn all_paths(root: &Node, base: Vec<usize>, out: &mut Vec<Vec<usize>>) {
    out.push(base.clone());
    for (k, c) in root.children().into_iter().enumerate() {
        let mut p = base.clone();
        p.push(k);
        all_paths(c, p, out);
    }
}

#[test]
fn simple_selectors_find_every_matching_node() {
    let ast = parse(DOC);
    let mut paths = Vec::new();
    all_paths(&ast, vec![], &mut paths);
    for (q, ty) in [("emphasis", "emphasis"), ("text", "text"), ("table_cell", "table_cell")] {
        let found: Vec<Vec<usize>> = query(&ast, q).unwrap().into_iter().map(|r| r.path).collect();
        let expected: Vec<Vec<usize>> =
            paths.iter().filter(|p| node_at(&ast, p).unwrap().node_type() == ty).cloned().collect();
        assert_eq!(found, expected);
    }
}

#[test]
fn combinators_find_every_described_node() {
    let ast = parse("- *a* **b**\n- c *d*\n\n> *e* and [f](g)\n\n# h\n\nparagraph\n\n# i\n\nother");
    let items = query(&ast, "list_item").unwrap();
    let mut expected = Vec::new();
    for it in &items {
        for (k, c) in it.node.children().into_iter().enumerate() {
            if c.node_type() == "emphasis" {
                let mut p = it.path.clone();
                p.push(k);
                expected.push(p);
            }
        }
    }
    let found: Vec<Vec<usize>> = query(&ast, "list_item > emphasis").unwrap().into_iter().map(|r| r.path).collect();
    assert_eq!(found, expected);
    assert_eq!(found.len(), 3);

    let below: Vec<Vec<usize>> = query(&ast, "blockquote text").unwrap().into_iter().map(|r| r.path).collect();
    assert_eq!(below.len(), 2);

    let after: Vec<Vec<usize>> = query(&ast, "heading + paragraph").unwrap().into_iter().map(|r| r.path).collect();
    assert_eq!(after, vec![vec![3], vec![5]]);
}

#[test]
fn type_list_is_each_type_in_turn() {
    let ast = parse(DOC);
    let both = query(&ast, "code_block, heading").unwrap();
    let code = query(&ast, "code_block").unwrap();
    let heads = query(&ast, "heading").unwrap();
    assert_eq!(both.len(), code.len() + heads.len());
    for (i, r) in both.iter().enumerate() {
        let other = if i < code.len() { &code[i] } else { &heads[i - code.len()] };
        assert_eq!(r.path, other.path);
    }
}

#[test]
fn code_block_markdown_reads_back() {
    for (language, code) in [
        (Some("py"), "a\n\n  b"),
        (None, "x = 1\n"),
        (Some("rust"), ""),
        (None, "``` not closing"),
    ] {
        let node = Node::CodeBlock { language: language.map(|l| l.to_string()), code: code.to_string() };
        let md = markql::output::format_results(
            &[MatchResult { node: node.clone(), path: vec![], depth: 0 }],
            &markql::output::OutputFormat::Markdown,
            "code_block",
        );
        assert_eq!(parse(&md), Node::Document(vec![node]));
    }
}
