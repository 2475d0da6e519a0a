//! Formatting query results: JSON, Markdown, plain text, a count, or a tree.
use vstd::prelude::*;
use vstd::string::StringExecFns;
use crate::ast::{bool_text, children_of, lemma_child_decreases, text_of, type_name_of, SNode};
use crate::json::{to_pretty_text, fields_view, json_seq_view, push_field, push_json, Json, JsonField, SJson};
use crate::query::executor::{matches_view, MatchResult, SMatch};
use crate::ast::{lemma_nodes_view, lemma_rows_view, nodes_view, refs_view, rows_view, Node};
use crate::text::{chars_eq_str, dec, join, join_chars, lines, push_all, push_dec, push_str, split_lines, str_chars, string_from_chars, views};

verus! {

/// Output format for query results.
#[derive(Debug, Clone, Copy, PartialEq, Eq, Structural)]
pub enum OutputFormat {
    Json,
    Markdown,
    Text,
    Count,
    Tree,
}

/// What `str::to_lowercase` returns (Unicode lowercase mapping).
pub uninterp spec fn lowercase(s: Seq<char>) -> Seq<char>;

/// Calls `str::to_lowercase`; its result is named `lowercase`.
#[verifier::external_body]
fn to_lower(s: &str) -> (r: String)
    ensures
        r@ == lowercase(s@),
{
    s.to_lowercase()
}

/// The format a (lowercased) name selects; any other name selects JSON.
pub open spec fn format_named(l: Seq<char>) -> OutputFormat {
    if l == "json"@ {
        OutputFormat::Json
    } else if l == "markdown"@ || l == "md"@ {
        OutputFormat::Markdown
    } else if l == "text"@ || l == "txt"@ {
        OutputFormat::Text
    } else if l == "count"@ {
        OutputFormat::Count
    } else if l == "tree"@ {
        OutputFormat::Tree
    } else {
        OutputFormat::Json
    }
}

// ---------------------------------------------------------------------------
// Markdown
// ---------------------------------------------------------------------------

pub open spec fn repeat_char(c: char, n: nat) -> Seq<char> {
    Seq::new(n, |_i: int| c)
}

pub open spec fn lang_text(o: Option<Seq<char>>) -> Seq<char> {
    match o {
        Some(l) => l,
        None => Seq::empty(),
    }
}

/// Each line prefixed with `"> "`.
pub open spec fn quote_prefix(ls: Seq<Seq<char>>) -> Seq<Seq<char>> {
    Seq::new(ls.len(), |i: int| "> "@ + ls[i])
}

/// The lines of a list: `"1. text"`, `"2. text"`, ... or `"- text"`.
pub open spec fn list_md(items: Seq<SNode>, ordered: bool) -> Seq<Seq<char>> {
    Seq::new(items.len(), |i: int| if ordered {
        dec((i + 1) as nat) + ". "@ + text_of(items[i])
    } else {
        "- "@ + text_of(items[i])
    })
}

/// Markdown text of a node.
pub open spec fn node_md(n: SNode) -> Seq<char>
    decreases n, 1int, 0int,
{
    match n {
        SNode::Heading { level, .. } => repeat_char('#', level as nat) + " "@ + join(md_kids(n, 0), ""@),
        SNode::Paragraph(_) => join(md_kids(n, 0), ""@),
        SNode::CodeBlock { language, code } => "```"@ + lang_text(language) + "\n"@ + code + "\n```"@,
        SNode::Blockquote(_) => join(quote_prefix(lines(join(md_kids(n, 0), "\n"@))), "\n"@),
        SNode::List { ordered, items } => join(list_md(items, ordered), "\n"@),
        SNode::Link { text, url } => "["@ + text + "]("@ + url + ")"@,
        SNode::Image { alt, url } => "!["@ + alt + "]("@ + url + ")"@,
        SNode::Emphasis { strong, .. } => if strong {
            "**"@ + join(md_kids(n, 0), ""@) + "**"@
        } else {
            "*"@ + join(md_kids(n, 0), ""@) + "*"@
        },
        SNode::InlineCode(c) => "`"@ + c + "`"@,
        SNode::Text(t) => t,
        SNode::ThematicBreak => "---"@,
        SNode::LineBreak => "  "@,
        _ => text_of(n),
    }
}

/// Markdown texts of the children of `p` from the `k`-th on.
pub open spec fn md_kids(p: SNode, k: int) -> Seq<Seq<char>>
    decreases p, 0int, children_of(p).len() - k,
{
    if k < 0 || k >= children_of(p).len() {
        Seq::empty()
    } else {
        proof {
            lemma_child_decreases(p, k);
        }
        seq![node_md(children_of(p)[k])] + md_kids(p, k + 1)
    }
}

// ---------------------------------------------------------------------------
// Tree
// ---------------------------------------------------------------------------

/// The attribute line that the tree shows for some kinds of nodes.
pub open spec fn tree_attr(n: SNode, prefix: Seq<char>) -> Seq<char> {
    match n {
        SNode::Heading { level, .. } => prefix + "    level: "@ + dec(level as nat) + "\n"@,
        SNode::CodeBlock { language: Some(l), .. } => prefix + "    lang: "@ + l + "\n"@,
        SNode::Link { url, .. } => prefix + "    url: "@ + url + "\n"@,
        SNode::Image { url, .. } => prefix + "    url: "@ + url + "\n"@,
        SNode::List { ordered, .. } => prefix + "    ordered: "@ + bool_text(ordered) + "\n"@,
        _ => Seq::empty(),
    }
}

/// A node drawn as a tree with box-drawing connectors, one line per node.
pub open spec fn tree_node(n: SNode, prefix: Seq<char>, is_last: bool) -> Seq<char>
    decreases n, 1int, 0int,
{
    let connector = if is_last { "└── "@ } else { "├── "@ };
    let child_prefix = if is_last { "    "@ } else { "│   "@ };
    prefix + connector + type_name_of(n) + "\n"@ + tree_attr(n, prefix) + tree_kids(n, prefix + child_prefix, 0)
}

/// The trees of the children of `p` from the `k`-th on.
pub open spec fn tree_kids(p: SNode, prefix: Seq<char>, k: int) -> Seq<char>
    decreases p, 0int, children_of(p).len() - k,
{
    if k < 0 || k >= children_of(p).len() {
        Seq::empty()
    } else {
        proof {
            lemma_child_decreases(p, k);
        }
        tree_node(children_of(p)[k], prefix, k == children_of(p).len() - 1) + tree_kids(p, prefix, k + 1)
    }
}

// ---------------------------------------------------------------------------
// JSON
// ---------------------------------------------------------------------------

pub open spec fn jtype(name: Seq<char>) -> (Seq<char>, SJson) {
    ("type"@, SJson::Str(name))
}

pub open spec fn opt_json(o: Option<Seq<char>>) -> SJson {
    match o {
        Some(s) => SJson::Str(s),
        None => SJson::Null,
    }
}

/// JSON description of a node.
pub open spec fn node_json(n: SNode) -> SJson
    decreases n, 1int, 0int,
{
    match n {
        SNode::Document(c) => SJson::Obj(seq![jtype("document"@), ("children"@, SJson::Arr(json_seq(c, 0)))]),
        SNode::Heading { level, children } => SJson::Obj(seq![
            jtype("heading"@),
            ("level"@, SJson::Num(level as nat)),
            ("text"@, SJson::Str(text_of(n))),
            ("children"@, SJson::Arr(json_seq(children, 0))),
        ]),
        SNode::Paragraph(c) => SJson::Obj(seq![
            jtype("paragraph"@),
            ("text"@, SJson::Str(text_of(n))),
            ("children"@, SJson::Arr(json_seq(c, 0))),
        ]),
        SNode::CodeBlock { language, code } => SJson::Obj(seq![
            jtype("code_block"@),
            ("language"@, opt_json(language)),
            ("code"@, SJson::Str(code)),
        ]),
        SNode::Blockquote(c) => SJson::Obj(seq![jtype("blockquote"@), ("children"@, SJson::Arr(json_seq(c, 0)))]),
        SNode::List { ordered, items } => SJson::Obj(seq![
            jtype("list"@),
            ("ordered"@, SJson::Bool(ordered)),
            ("items"@, SJson::Arr(json_items(items, 0))),
        ]),
        SNode::ListItem(c) => SJson::Obj(seq![jtype("list_item"@), ("children"@, SJson::Arr(json_seq(c, 0)))]),
        SNode::Link { text, url } => SJson::Obj(seq![jtype("link"@), ("text"@, SJson::Str(text)), ("url"@, SJson::Str(url))]),
        SNode::Image { alt, url } => SJson::Obj(seq![jtype("image"@), ("alt"@, SJson::Str(alt)), ("url"@, SJson::Str(url))]),
        SNode::Emphasis { strong, children } => SJson::Obj(seq![
            jtype("emphasis"@),
            ("strong"@, SJson::Bool(strong)),
            ("text"@, SJson::Str(text_of(n))),
            ("children"@, SJson::Arr(json_seq(children, 0))),
        ]),
        SNode::InlineCode(c) => SJson::Obj(seq![jtype("inline_code"@), ("code"@, SJson::Str(c))]),
        SNode::Text(t) => SJson::Obj(seq![jtype("text"@), ("text"@, SJson::Str(t))]),
        SNode::ThematicBreak => SJson::Obj(seq![jtype("thematic_break"@)]),
        SNode::LineBreak => SJson::Obj(seq![jtype("line_break"@)]),
        SNode::Table { header, rows } => SJson::Obj(seq![
            jtype("table"@),
            ("header"@, SJson::Arr(json_seq(header, 0))),
            ("rows"@, SJson::Arr(json_rows(rows, 0))),
        ]),
        SNode::TableRow(cells) => SJson::Obj(seq![jtype("table_row"@), ("cells"@, SJson::Arr(json_seq(cells, 0)))]),
        SNode::TableCell(c) => SJson::Obj(seq![jtype("table_cell"@), ("children"@, SJson::Arr(json_seq(c, 0)))]),
    }
}

/// JSON of the nodes `s[k..]`.
pub open spec fn json_seq(s: Seq<SNode>, k: int) -> Seq<SJson>
    decreases s, 0int, s.len() - k,
{
    if k < 0 || k >= s.len() {
        Seq::empty()
    } else {
        seq![node_json(s[k])] + json_seq(s, k + 1)
    }
}

/// JSON of the rows `rows[k..]`, each an array of cells.
pub open spec fn json_rows(rows: Seq<Seq<SNode>>, k: int) -> Seq<SJson>
    decreases rows, 0int, rows.len() - k,
{
    if k < 0 || k >= rows.len() {
        Seq::empty()
    } else {
        seq![SJson::Arr(json_seq(rows[k], 0))] + json_rows(rows, k + 1)
    }
}

/// JSON of list items `items[k..]`, each the array of its children.
pub open spec fn json_items(items: Seq<SNode>, k: int) -> Seq<SJson>
    decreases items, 0int, items.len() - k,
{
    if k < 0 || k >= items.len() {
        Seq::empty()
    } else {
        seq![SJson::Arr(json_kids(items[k], 0))] + json_items(items, k + 1)
    }
}

/// JSON of the children of `p` from the `k`-th on.
pub open spec fn json_kids(p: SNode, k: int) -> Seq<SJson>
    decreases p, 0int, children_of(p).len() - k,
{
    if k < 0 || k >= children_of(p).len() {
        Seq::empty()
    } else {
        proof {
            lemma_child_decreases(p, k);
        }
        seq![node_json(children_of(p)[k])] + json_kids(p, k + 1)
    }
}

pub open spec fn path_json(p: Seq<usize>) -> Seq<SJson> {
    Seq::new(p.len(), |i: int| SJson::Num(p[i] as nat))
}

/// JSON of the `i`-th match.
pub open spec fn match_json(m: SMatch, i: int) -> SJson {
    SJson::Obj(seq![
        ("index"@, SJson::Num(i as nat)),
        ("type"@, SJson::Str(type_name_of(m.node))),
        ("path"@, SJson::Arr(path_json(m.path))),
        ("depth"@, SJson::Num(m.depth as nat)),
        ("text"@, SJson::Str(text_of(m.node))),
        ("node"@, node_json(m.node)),
    ])
}

/// JSON of a query's results: the query, the number of matches, and the matches.
pub open spec fn results_json(rs: Seq<SMatch>, q: Seq<char>) -> SJson {
    SJson::Obj(seq![
        ("query"@, SJson::Str(q)),
        ("count"@, SJson::Num(rs.len())),
        ("matches"@, SJson::Arr(Seq::new(rs.len(), |i: int| match_json(rs[i], i)))),
    ])
}

// ---------------------------------------------------------------------------
// Results
// ---------------------------------------------------------------------------

/// The text of each match, one per line.
pub open spec fn text_output(rs: Seq<SMatch>) -> Seq<char> {
    join(Seq::new(rs.len(), |i: int| text_of(rs[i].node)), "\n"@)
}

/// The Markdown of each match, separated by blank lines.
pub open spec fn markdown_output(rs: Seq<SMatch>) -> Seq<char> {
    join(Seq::new(rs.len(), |i: int| node_md(rs[i].node)), "\n\n"@)
}

/// The tree of each match; the last is drawn as a last child.
pub open spec fn tree_output(rs: Seq<SMatch>) -> Seq<char> {
    join(Seq::new(rs.len(), |i: int| tree_node(rs[i].node, Seq::empty(), i == rs.len() - 1)), "\n"@)
}

/// Query results formatted in `f`.
pub open spec fn format_output(rs: Seq<SMatch>, f: OutputFormat, q: Seq<char>) -> Seq<char> {
    match f {
        OutputFormat::Json => crate::json::json_pretty(results_json(rs, q)),
        OutputFormat::Markdown => markdown_output(rs),
        OutputFormat::Text => text_output(rs),
        OutputFormat::Count => dec(rs.len()),
        OutputFormat::Tree => tree_output(rs),
    }
}

impl OutputFormat {
    /// The format named by `s`, case-insensitively: `json`, `markdown`/`md`,
    /// `text`/`txt`, `count`, `tree`; any other name selects JSON.
    pub fn from_str(s: &str) -> (r: Self)
        ensures
            r == format_named(lowercase(s@)),
    {
        let l = to_lower(s);
        format_from_lowercase(l.as_str())
    }
}

/// The format named by an already lowercased name: `json`, `markdown`/`md`,
/// `text`/`txt`, `count`, `tree`; any other name selects JSON.
pub fn format_from_lowercase(l: &str) -> (r: OutputFormat)
    ensures
        r == format_named(l@),
{
    let c = str_chars(l);
    let cs = c.as_slice();
    if chars_eq_str(cs, "json") {
        OutputFormat::Json
    } else if chars_eq_str(cs, "markdown") || chars_eq_str(cs, "md") {
        OutputFormat::Markdown
    } else if chars_eq_str(cs, "text") || chars_eq_str(cs, "txt") {
        OutputFormat::Text
    } else if chars_eq_str(cs, "count") {
        OutputFormat::Count
    } else if chars_eq_str(cs, "tree") {
        OutputFormat::Tree
    } else {
        OutputFormat::Json
    }
}

fn push_string(out: &mut Vec<char>, s: &String)
    ensures
        final(out)@ == old(out)@ + s@,
{
    push_str(out, s.as_str());
}

/// Markdown texts of the children of a node.
fn md_children(node: &Node) -> (r: Vec<Vec<char>>)
    ensures
        views(r@) == md_kids(node@, 0),
    decreases node@, 0int,
{
    let ch = node.children();
    let mut parts: Vec<Vec<char>> = Vec::new();
    let mut i: usize = 0;
    proof {
        assert(views(parts@) + md_kids(node@, 0) =~= md_kids(node@, 0));
    }
    while i < ch.len()
        invariant
            i <= ch@.len(),
            refs_view(ch@) == children_of(node@),
            views(parts@) + md_kids(node@, i as int) == md_kids(node@, 0),
        decreases ch@.len() - i,
    {
        proof {
            lemma_child_decreases(node@, i as int);
            assert(ch@[i as int]@ == children_of(node@)[i as int]);
        }
        let m = node_to_markdown(ch[i]);
        let ghost prev = views(parts@);
        parts.push(m);
        assert(views(parts@) =~= prev.push(node_md(children_of(node@)[i as int])));
        assert(prev + md_kids(node@, i as int) =~= views(parts@) + md_kids(node@, i + 1));
        i = i + 1;
    }
    assert(views(parts@) + Seq::<Seq<char>>::empty() =~= views(parts@));
    parts
}

/// Markdown text of a node.
fn node_to_markdown(node: &Node) -> (r: Vec<char>)
    ensures
        r@ == node_md(node@),
    decreases node@, 1int,
{
    let mut out: Vec<char> = Vec::new();
    match node {
        Node::Heading { level, .. } => {
            let mut k: u8 = 0;
            while k < *level
                invariant
                    k <= *level,
                    out@ == repeat_char('#', k as nat),
                decreases *level - k,
            {
                out.push('#');
                k = k + 1;
                assert(out@ =~= repeat_char('#', k as nat));
            }
            push_str(&mut out, " ");
            let parts = md_children(node);
            let inner = join_chars(&parts, "");
            push_all(&mut out, inner.as_slice());
        },
        Node::Paragraph(_) => {
            let parts = md_children(node);
            out = join_chars(&parts, "");
        },
        Node::CodeBlock { language, code } => {
            push_str(&mut out, "```");
            match language {
                Some(l) => push_string(&mut out, l),
                None => {},
            }
            push_str(&mut out, "\n");
            push_string(&mut out, code);
            push_str(&mut out, "\n```");
        },
        Node::Blockquote(_) => {
            let parts = md_children(node);
            let inner = join_chars(&parts, "\n");
            let ls = split_lines(inner.as_slice());
            let mut prefixed: Vec<Vec<char>> = Vec::new();
            let mut i: usize = 0;
            while i < ls.len()
                invariant
                    i <= ls@.len(),
                    views(prefixed@) == quote_prefix(views(ls@)).take(i as int),
                decreases ls@.len() - i,
            {
                let mut l: Vec<char> = Vec::new();
                push_str(&mut l, "> ");
                push_all(&mut l, ls[i].as_slice());
                let ghost prev = views(prefixed@);
                let ghost lv = l@;
                assert(lv == "> "@ + views(ls@)[i as int]);
                prefixed.push(l);
                assert(views(prefixed@) =~= prev.push(lv));
                assert(views(prefixed@) =~= quote_prefix(views(ls@)).take(i + 1));
                i = i + 1;
            }
            assert(quote_prefix(views(ls@)).take(ls@.len() as int) =~= quote_prefix(views(ls@)));
            out = join_chars(&prefixed, "\n");
        },
        Node::List { ordered, items } => {
            let mut parts: Vec<Vec<char>> = Vec::new();
            let mut i: usize = 0;
            proof {
                lemma_nodes_view(items@);
            }
            while i < items.len()
                invariant
                    i <= items@.len(),
                    nodes_view(items@).len() == items@.len(),
                    forall|j: int| 0 <= j < items@.len() ==> #[trigger] nodes_view(items@)[j] == items@[j]@,
                    views(parts@) == list_md(nodes_view(items@), *ordered).take(i as int),
                decreases items@.len() - i,
            {
                let mut l: Vec<char> = Vec::new();
                if *ordered {
                    push_dec(&mut l, i + 1);
                    push_str(&mut l, ". ");
                } else {
                    push_str(&mut l, "- ");
                }
                let t = items[i].text_content();
                push_string(&mut l, &t);
                let ghost lv = l@;
                let ghost prev = views(parts@);
                assert(lv == list_md(nodes_view(items@), *ordered)[i as int]);
                parts.push(l);
                assert(views(parts@) =~= prev.push(lv));
                assert(views(parts@) =~= list_md(nodes_view(items@), *ordered).take(i + 1));
                i = i + 1;
            }
            assert(list_md(nodes_view(items@), *ordered).take(items@.len() as int) =~= list_md(nodes_view(items@), *ordered));
            out = join_chars(&parts, "\n");
        },
        Node::Link { text, url } => {
            push_str(&mut out, "[");
            push_string(&mut out, text);
            push_str(&mut out, "](");
            push_string(&mut out, url);
            push_str(&mut out, ")");
        },
        Node::Image { alt, url } => {
            push_str(&mut out, "![");
            push_string(&mut out, alt);
            push_str(&mut out, "](");
            push_string(&mut out, url);
            push_str(&mut out, ")");
        },
        Node::Emphasis { strong, .. } => {
            let parts = md_children(node);
            let inner = join_chars(&parts, "");
            if *strong {
                push_str(&mut out, "**");
                push_all(&mut out, inner.as_slice());
                push_str(&mut out, "**");
            } else {
                push_str(&mut out, "*");
                push_all(&mut out, inner.as_slice());
                push_str(&mut out, "*");
            }
        },
        Node::InlineCode(c) => {
            push_str(&mut out, "`");
            push_string(&mut out, c);
            push_str(&mut out, "`");
        },
        Node::Text(t) => push_string(&mut out, t),
        Node::ThematicBreak => push_str(&mut out, "---"),
        Node::LineBreak => push_str(&mut out, "  "),
        _ => {
            let t = node.text_content();
            push_string(&mut out, &t);
        },
    }
    assert(out@ =~= node_md(node@));
    out
}

/// Appends the attribute line that the tree shows for some kinds of nodes.
fn push_tree_attr(out: &mut Vec<char>, node: &Node, prefix: &Vec<char>)
    ensures
        final(out)@ == old(out)@ + tree_attr(node@, prefix@),
{
    match node {
        Node::Heading { level, .. } => {
            push_all(out, prefix.as_slice());
            push_str(out, "    level: ");
            push_dec(out, *level as usize);
            push_str(out, "\n");
        },
        Node::CodeBlock { language, .. } => match language {
            Some(lang) => {
                push_all(out, prefix.as_slice());
                push_str(out, "    lang: ");
                push_string(out, lang);
                push_str(out, "\n");
            },
            None => {},
        },
        Node::Link { url, .. } => {
            push_all(out, prefix.as_slice());
            push_str(out, "    url: ");
            push_string(out, url);
            push_str(out, "\n");
        },
        Node::Image { url, .. } => {
            push_all(out, prefix.as_slice());
            push_str(out, "    url: ");
            push_string(out, url);
            push_str(out, "\n");
        },
        Node::List { ordered, .. } => {
            push_all(out, prefix.as_slice());
            push_str(out, "    ordered: ");
            if *ordered {
                push_str(out, "true");
            } else {
                push_str(out, "false");
            }
            push_str(out, "\n");
        },
        _ => {},
    }
    assert(final(out)@ =~= old(out)@ + tree_attr(node@, prefix@));
}

/// A node drawn as a tree.
fn format_tree_node(node: &Node, prefix: &Vec<char>, is_last: bool) -> (r: Vec<char>)
    ensures
        r@ == tree_node(node@, prefix@, is_last),
    decreases node@, 1int,
{
    let mut out: Vec<char> = Vec::new();
    push_all(&mut out, prefix.as_slice());
    if is_last {
        push_str(&mut out, "└── ");
    } else {
        push_str(&mut out, "├── ");
    }
    push_str(&mut out, node.node_type());
    push_str(&mut out, "\n");
    push_tree_attr(&mut out, node, prefix);
    let mut child_prefix: Vec<char> = Vec::new();
    push_all(&mut child_prefix, prefix.as_slice());
    if is_last {
        push_str(&mut child_prefix, "    ");
    } else {
        push_str(&mut child_prefix, "│   ");
    }
    let kids = format_tree_children(node, &child_prefix);
    push_all(&mut out, kids.as_slice());
    out
}

/// The trees of the children of a node.
fn format_tree_children(node: &Node, prefix: &Vec<char>) -> (r: Vec<char>)
    ensures
        r@ == tree_kids(node@, prefix@, 0),
    decreases node@, 0int,
{
    let ch = node.children();
    let mut out: Vec<char> = Vec::new();
    let mut i: usize = 0;
    proof {
        assert(out@ + tree_kids(node@, prefix@, 0) =~= tree_kids(node@, prefix@, 0));
    }
    while i < ch.len()
        invariant
            i <= ch@.len(),
            refs_view(ch@) == children_of(node@),
            out@ + tree_kids(node@, prefix@, i as int) == tree_kids(node@, prefix@, 0),
        decreases ch@.len() - i,
    {
        proof {
            lemma_child_decreases(node@, i as int);
            assert(ch@[i as int]@ == children_of(node@)[i as int]);
        }
        let ghost prev = out@;
        let t = format_tree_node(ch[i], prefix, i == ch.len() - 1);
        push_all(&mut out, t.as_slice());
        assert(prev + tree_kids(node@, prefix@, i as int) =~= out@ + tree_kids(node@, prefix@, i + 1));
        i = i + 1;
    }
    assert(out@ + Seq::<char>::empty() =~= out@);
    out
}

// ---------------------------------------------------------------------------
// JSON
// ---------------------------------------------------------------------------

fn str_json(s: &String) -> (r: Json)
    ensures
        r@ == SJson::Str(s@),
{
    Json::Str(s.clone())
}

fn lit_json(s: &str) -> (r: Json)
    ensures
        r@ == SJson::Str(s@),
{
    Json::Str(String::from_str(s))
}

/// JSON of a sequence of nodes.
fn json_of_nodes(v: &Vec<Node>) -> (r: Vec<Json>)
    ensures
        json_seq_view(r@) == json_seq(nodes_view(v@), 0),
    decreases nodes_view(v@), 0int,
{
    let ghost s = nodes_view(v@);
    let mut out: Vec<Json> = Vec::new();
    let mut i: usize = 0;
    proof {
        lemma_nodes_view(v@);
        assert(json_seq_view(out@) + json_seq(s, 0) =~= json_seq(s, 0));
    }
    while i < v.len()
        invariant
            i <= v@.len(),
            s == nodes_view(v@),
            s.len() == v@.len(),
            forall|j: int| 0 <= j < v@.len() ==> #[trigger] s[j] == v@[j]@,
            json_seq_view(out@) + json_seq(s, i as int) == json_seq(s, 0),
        decreases v@.len() - i,
    {
        assert(decreases_to!(s => s[i as int]));
        let j = node_to_json(&v[i]);
        let ghost prev = json_seq_view(out@);
        push_json(&mut out, j);
        assert(prev + json_seq(s, i as int) =~= json_seq_view(out@) + json_seq(s, i + 1));
        i = i + 1;
    }
    assert(json_seq_view(out@) + Seq::<SJson>::empty() =~= json_seq_view(out@));
    out
}

/// JSON of the rows of a table.
fn json_of_rows(rows: &Vec<Vec<Node>>) -> (r: Vec<Json>)
    ensures
        json_seq_view(r@) == json_rows(rows_view(rows@), 0),
    decreases rows_view(rows@), 0int,
{
    let ghost s = rows_view(rows@);
    let mut out: Vec<Json> = Vec::new();
    let mut i: usize = 0;
    proof {
        lemma_rows_view(rows@);
        assert(json_seq_view(out@) + json_rows(s, 0) =~= json_rows(s, 0));
    }
    while i < rows.len()
        invariant
            i <= rows@.len(),
            s == rows_view(rows@),
            s.len() == rows@.len(),
            forall|j: int| 0 <= j < rows@.len() ==> #[trigger] s[j] == nodes_view(rows@[j]@),
            json_seq_view(out@) + json_rows(s, i as int) == json_rows(s, 0),
        decreases rows@.len() - i,
    {
        assert(decreases_to!(s => s[i as int]));
        let cells = json_of_nodes(&rows[i]);
        let ghost prev = json_seq_view(out@);
        push_json(&mut out, Json::Arr(cells));
        assert(prev + json_rows(s, i as int) =~= json_seq_view(out@) + json_rows(s, i + 1));
        i = i + 1;
    }
    assert(json_seq_view(out@) + Seq::<SJson>::empty() =~= json_seq_view(out@));
    out
}

/// JSON of the children of a node.
fn json_of_children(node: &Node) -> (r: Vec<Json>)
    ensures
        json_seq_view(r@) == json_kids(node@, 0),
    decreases node@, 0int,
{
    let ch = node.children();
    let mut out: Vec<Json> = Vec::new();
    let mut i: usize = 0;
    proof {
        assert(json_seq_view(out@) + json_kids(node@, 0) =~= json_kids(node@, 0));
    }
    while i < ch.len()
        invariant
            i <= ch@.len(),
            refs_view(ch@) == children_of(node@),
            json_seq_view(out@) + json_kids(node@, i as int) == json_kids(node@, 0),
        decreases ch@.len() - i,
    {
        proof {
            lemma_child_decreases(node@, i as int);
            assert(ch@[i as int]@ == children_of(node@)[i as int]);
        }
        let j = node_to_json(ch[i]);
        let ghost prev = json_seq_view(out@);
        push_json(&mut out, j);
        assert(prev + json_kids(node@, i as int) =~= json_seq_view(out@) + json_kids(node@, i + 1));
        i = i + 1;
    }
    assert(json_seq_view(out@) + Seq::<SJson>::empty() =~= json_seq_view(out@));
    out
}

/// JSON of list items, each the array of its children.
fn json_of_items(items: &Vec<Node>) -> (r: Vec<Json>)
    ensures
        json_seq_view(r@) == json_items(nodes_view(items@), 0),
    decreases nodes_view(items@), 0int,
{
    let ghost s = nodes_view(items@);
    let mut out: Vec<Json> = Vec::new();
    let mut i: usize = 0;
    proof {
        lemma_nodes_view(items@);
        assert(json_seq_view(out@) + json_items(s, 0) =~= json_items(s, 0));
    }
    while i < items.len()
        invariant
            i <= items@.len(),
            s == nodes_view(items@),
            s.len() == items@.len(),
            forall|j: int| 0 <= j < items@.len() ==> #[trigger] s[j] == items@[j]@,
            json_seq_view(out@) + json_items(s, i as int) == json_items(s, 0),
        decreases items@.len() - i,
    {
        assert(decreases_to!(s => s[i as int]));
        let kids = json_of_children(&items[i]);
        let ghost prev = json_seq_view(out@);
        push_json(&mut out, Json::Arr(kids));
        assert(prev + json_items(s, i as int) =~= json_seq_view(out@) + json_items(s, i + 1));
        i = i + 1;
    }
    assert(json_seq_view(out@) + Seq::<SJson>::empty() =~= json_seq_view(out@));
    out
}

fn obj1(k1: &str, v1: Json) -> (r: Json)
    ensures
        r@ == SJson::Obj(seq![(k1@, v1@)]),
{
    let mut f: Vec<JsonField> = Vec::new();
    push_field(&mut f, k1, v1);
    assert(fields_view(Seq::<JsonField>::empty()) =~= Seq::<(Seq<char>, SJson)>::empty());
    let r = Json::Obj(f);
    assert(fields_view(f@) =~= seq![(k1@, v1@)]);
    r
}

fn obj2(k1: &str, v1: Json, k2: &str, v2: Json) -> (r: Json)
    ensures
        r@ == SJson::Obj(seq![(k1@, v1@), (k2@, v2@)]),
{
    let ghost (a, b) = (v1@, v2@);
    let mut f: Vec<JsonField> = Vec::new();
    push_field(&mut f, k1, v1);
    push_field(&mut f, k2, v2);
    assert(fields_view(Seq::<JsonField>::empty()) =~= Seq::<(Seq<char>, SJson)>::empty());
    assert(fields_view(f@) =~= seq![(k1@, a), (k2@, b)]);
    Json::Obj(f)
}

fn obj3(k1: &str, v1: Json, k2: &str, v2: Json, k3: &str, v3: Json) -> (r: Json)
    ensures
        r@ == SJson::Obj(seq![(k1@, v1@), (k2@, v2@), (k3@, v3@)]),
{
    let ghost (a, b, c) = (v1@, v2@, v3@);
    let mut f: Vec<JsonField> = Vec::new();
    push_field(&mut f, k1, v1);
    push_field(&mut f, k2, v2);
    push_field(&mut f, k3, v3);
    assert(fields_view(Seq::<JsonField>::empty()) =~= Seq::<(Seq<char>, SJson)>::empty());
    assert(fields_view(f@) =~= seq![(k1@, a), (k2@, b), (k3@, c)]);
    Json::Obj(f)
}

fn obj4(k1: &str, v1: Json, k2: &str, v2: Json, k3: &str, v3: Json, k4: &str, v4: Json) -> (r: Json)
    ensures
        r@ == SJson::Obj(seq![(k1@, v1@), (k2@, v2@), (k3@, v3@), (k4@, v4@)]),
{
    let ghost (a, b, c, d) = (v1@, v2@, v3@, v4@);
    let mut f: Vec<JsonField> = Vec::new();
    push_field(&mut f, k1, v1);
    push_field(&mut f, k2, v2);
    push_field(&mut f, k3, v3);
    push_field(&mut f, k4, v4);
    assert(fields_view(Seq::<JsonField>::empty()) =~= Seq::<(Seq<char>, SJson)>::empty());
    assert(fields_view(f@) =~= seq![(k1@, a), (k2@, b), (k3@, c), (k4@, d)]);
    Json::Obj(f)
}

/// JSON description of a node.
fn node_to_json(node: &Node) -> (r: Json)
    ensures
        r@ == node_json(node@),
    decreases node@, 1int,
{
    match node {
        Node::Document(c) => {
            assert(decreases_to!(node@ => node@->Document_0));
            obj2("type", lit_json("document"), "children", Json::Arr(json_of_nodes(c)))
        },
        Node::Heading { level, children } => {
            assert(decreases_to!(node@ => node@->Heading_children));
            obj4("type", lit_json("heading"), "level", Json::Num(*level as usize), "text",
                str_json(&node.text_content()), "children", Json::Arr(json_of_nodes(children)))
        },
        Node::Paragraph(c) => {
            assert(decreases_to!(node@ => node@->Paragraph_0));
            obj3("type", lit_json("paragraph"), "text", str_json(&node.text_content()), "children",
                Json::Arr(json_of_nodes(c)))
        },
        Node::CodeBlock { language, code } => {
            let l = match language {
                Some(s) => str_json(s),
                None => Json::Null,
            };
            obj3("type", lit_json("code_block"), "language", l, "code", str_json(code))
        },
        Node::Blockquote(c) => {
            assert(decreases_to!(node@ => node@->Blockquote_0));
            obj2("type", lit_json("blockquote"), "children", Json::Arr(json_of_nodes(c)))
        },
        Node::List { ordered, items } => {
            assert(decreases_to!(node@ => node@->List_items));
            obj3("type", lit_json("list"), "ordered", Json::Bool(*ordered), "items", Json::Arr(json_of_items(items)))
        },
        Node::ListItem(c) => {
            assert(decreases_to!(node@ => node@->ListItem_0));
            obj2("type", lit_json("list_item"), "children", Json::Arr(json_of_nodes(c)))
        },
        Node::Link { text, url } => obj3("type", lit_json("link"), "text", str_json(text), "url", str_json(url)),
        Node::Image { alt, url } => obj3("type", lit_json("image"), "alt", str_json(alt), "url", str_json(url)),
        Node::Emphasis { strong, children } => {
            assert(decreases_to!(node@ => node@->Emphasis_children));
            obj4("type", lit_json("emphasis"), "strong", Json::Bool(*strong), "text",
                str_json(&node.text_content()), "children", Json::Arr(json_of_nodes(children)))
        },
        Node::InlineCode(c) => obj2("type", lit_json("inline_code"), "code", str_json(c)),
        Node::Text(t) => obj2("type", lit_json("text"), "text", str_json(t)),
        Node::ThematicBreak => obj1("type", lit_json("thematic_break")),
        Node::LineBreak => obj1("type", lit_json("line_break")),
        Node::Table { header, rows } => {
            assert(decreases_to!(node@ => node@->Table_header));
            assert(decreases_to!(node@ => node@->Table_rows));
            obj3("type", lit_json("table"), "header", Json::Arr(json_of_nodes(header)), "rows", Json::Arr(json_of_rows(rows)))
        },
        Node::TableRow(cells) => {
            assert(decreases_to!(node@ => node@->TableRow_0));
            obj2("type", lit_json("table_row"), "cells", Json::Arr(json_of_nodes(cells)))
        },
        Node::TableCell(c) => {
            assert(decreases_to!(node@ => node@->TableCell_0));
            obj2("type", lit_json("table_cell"), "children", Json::Arr(json_of_nodes(c)))
        },
    }
}

fn path_to_json(p: &Vec<usize>) -> (r: Vec<Json>)
    ensures
        json_seq_view(r@) == path_json(p@),
{
    let mut out: Vec<Json> = Vec::new();
    let mut i: usize = 0;
    while i < p.len()
        invariant
            i <= p@.len(),
            json_seq_view(out@) == path_json(p@).take(i as int),
        decreases p@.len() - i,
    {
        let ghost prev = json_seq_view(out@);
        push_json(&mut out, Json::Num(p[i]));
        assert(json_seq_view(out@) =~= path_json(p@).take(i + 1));
        i = i + 1;
    }
    assert(path_json(p@).take(p@.len() as int) =~= path_json(p@));
    out
}

fn match_to_json(m: &MatchResult, i: usize) -> (r: Json)
    ensures
        r@ == match_json(m@, i as int),
{
    let ghost (a, b, c, d, e, g) = (
        SJson::Num(i as nat),
        SJson::Str(type_name_of(m.node@)),
        SJson::Arr(path_json(m.path@)),
        SJson::Num(m.depth as nat),
        SJson::Str(text_of(m.node@)),
        node_json(m.node@),
    );
    let mut f: Vec<JsonField> = Vec::new();
    push_field(&mut f, "index", Json::Num(i));
    push_field(&mut f, "type", lit_json(m.node.node_type()));
    push_field(&mut f, "path", Json::Arr(path_to_json(&m.path)));
    push_field(&mut f, "depth", Json::Num(m.depth));
    push_field(&mut f, "text", str_json(&m.node.text_content()));
    push_field(&mut f, "node", node_to_json(&m.node));
    assert(fields_view(Seq::<JsonField>::empty()) =~= Seq::<(Seq<char>, SJson)>::empty());
    assert(fields_view(f@) =~= seq![("index"@, a), ("type"@, b), ("path"@, c), ("depth"@, d), ("text"@, e), ("node"@, g)]);
    Json::Obj(f)
}

/// JSON document of a query's results.
pub fn results_to_json(results: &[MatchResult], query: &str) -> (r: Json)
    ensures
        r@ == results_json(matches_view(results@), query@),
{
    let ghost rs = matches_view(results@);
    let mut items: Vec<Json> = Vec::new();
    let mut i: usize = 0;
    while i < results.len()
        invariant
            i <= results@.len(),
            rs == matches_view(results@),
            json_seq_view(items@) == Seq::new(rs.len(), |j: int| match_json(rs[j], j)).take(i as int),
        decreases results@.len() - i,
    {
        let j = match_to_json(&results[i], i);
        push_json(&mut items, j);
        assert(json_seq_view(items@) =~= Seq::new(rs.len(), |j: int| match_json(rs[j], j)).take(i + 1));
        i = i + 1;
    }
    assert(Seq::new(rs.len(), |j: int| match_json(rs[j], j)).take(results@.len() as int) =~= Seq::new(rs.len(), |j: int| match_json(rs[j], j)));
    obj3("query", Json::Str(String::from_str(query)), "count", Json::Num(results.len()), "matches", Json::Arr(items))
}

fn format_json(results: &[MatchResult], query: &str) -> (r: String)
    ensures
        r@ == crate::json::json_pretty(results_json(matches_view(results@), query@)),
{
    let j = results_to_json(results, query);
    to_pretty_text(&j)
}

fn format_markdown(results: &[MatchResult]) -> (r: Vec<char>)
    ensures
        r@ == markdown_output(matches_view(results@)),
{
    let ghost rs = matches_view(results@);
    let ghost parts_spec = Seq::new(rs.len(), |i: int| node_md(rs[i].node));
    let mut parts: Vec<Vec<char>> = Vec::new();
    let mut i: usize = 0;
    while i < results.len()
        invariant
            i <= results@.len(),
            rs == matches_view(results@),
            parts_spec == Seq::new(rs.len(), |i: int| node_md(rs[i].node)),
            views(parts@) == parts_spec.take(i as int),
        decreases results@.len() - i,
    {
        let m = node_to_markdown(&results[i].node);
        let ghost prev = views(parts@);
        assert(rs[i as int] == results@[i as int]@);
        parts.push(m);
        assert(views(parts@) =~= prev.push(parts_spec[i as int]));
        assert(views(parts@) =~= parts_spec.take(i + 1));
        i = i + 1;
    }
    assert(parts_spec.take(results@.len() as int) =~= parts_spec);
    join_chars(&parts, "\n\n")
}

fn format_text(results: &[MatchResult]) -> (r: Vec<char>)
    ensures
        r@ == text_output(matches_view(results@)),
{
    let ghost rs = matches_view(results@);
    let ghost parts_spec = Seq::new(rs.len(), |i: int| text_of(rs[i].node));
    let mut parts: Vec<Vec<char>> = Vec::new();
    let mut i: usize = 0;
    while i < results.len()
        invariant
            i <= results@.len(),
            rs == matches_view(results@),
            parts_spec == Seq::new(rs.len(), |i: int| text_of(rs[i].node)),
            views(parts@) == parts_spec.take(i as int),
        decreases results@.len() - i,
    {
        let t = results[i].node.text_content();
        let ghost prev = views(parts@);
        assert(rs[i as int] == results@[i as int]@);
        parts.push(str_chars(t.as_str()));
        assert(views(parts@) =~= prev.push(parts_spec[i as int]));
        assert(views(parts@) =~= parts_spec.take(i + 1));
        i = i + 1;
    }
    assert(parts_spec.take(results@.len() as int) =~= parts_spec);
    join_chars(&parts, "\n")
}

fn format_tree(results: &[MatchResult]) -> (r: Vec<char>)
    ensures
        r@ == tree_output(matches_view(results@)),
{
    let ghost rs = matches_view(results@);
    let ghost parts_spec = Seq::new(rs.len(), |i: int| tree_node(rs[i].node, Seq::empty(), i == rs.len() - 1));
    let mut parts: Vec<Vec<char>> = Vec::new();
    let empty: Vec<char> = Vec::new();
    let mut i: usize = 0;
    while i < results.len()
        invariant
            i <= results@.len(),
            rs == matches_view(results@),
            empty@ == Seq::<char>::empty(),
            parts_spec == Seq::new(rs.len(), |i: int| tree_node(rs[i].node, Seq::empty(), i == rs.len() - 1)),
            views(parts@) == parts_spec.take(i as int),
        decreases results@.len() - i,
    {
        let t = format_tree_node(&results[i].node, &empty, i == results.len() - 1);
        let ghost prev = views(parts@);
        assert(rs[i as int] == results@[i as int]@);
        parts.push(t);
        assert(views(parts@) =~= prev.push(parts_spec[i as int]));
        assert(views(parts@) =~= parts_spec.take(i + 1));
        i = i + 1;
    }
    assert(parts_spec.take(results@.len() as int) =~= parts_spec);
    join_chars(&parts, "\n")
}

/// Formats query results in the given format.
pub fn format_results(results: &[MatchResult], format: &OutputFormat, query: &str) -> (r: String)
    ensures
        r@ == format_output(matches_view(results@), *format, query@),
{
    match format {
        OutputFormat::Json => format_json(results, query),
        OutputFormat::Markdown => string_from_chars(format_markdown(results).as_slice()),
        OutputFormat::Text => string_from_chars(format_text(results).as_slice()),
        OutputFormat::Count => {
            let mut v: Vec<char> = Vec::new();
            push_dec(&mut v, results.len());
            string_from_chars(v.as_slice())
        },
        OutputFormat::Tree => string_from_chars(format_tree(results).as_slice()),
    }
}

} // verus!
