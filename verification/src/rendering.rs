//! What holds of every output format.
use vstd::prelude::*;
use crate::ast::{children_of, text_of, type_name_of, SNode};
use crate::document::lemma_line_end_clear;
use crate::json::SJson;
use crate::output::{format_output, node_json, node_md, results_json, tree_node, OutputFormat};
use crate::query::executor::SMatch;
use crate::lexer::{inline_from, lemma_scan_to, scan_to};
use crate::text::{join, lemma_line_end, line_end, lines, lines_from, starts_with, strip_cr};

verus! {

// ---------------------------------------------------------------------------
// JSON
// ---------------------------------------------------------------------------

/// The value of the first member named `key` of the members of an object from
/// the `k`-th on.
pub open spec fn member_from(fs: Seq<(Seq<char>, SJson)>, key: Seq<char>, k: int) -> Option<SJson>
    decreases fs.len() - k,
{
    if k < 0 || k >= fs.len() {
        None
    } else if fs[k].0 == key {
        Some(fs[k].1)
    } else {
        member_from(fs, key, k + 1)
    }
}

/// The value of the member `key` of a JSON object, as a reader of the text finds it.
pub open spec fn member(j: SJson, key: Seq<char>) -> Option<SJson> {
    match j {
        SJson::Obj(fs) => member_from(fs, key, 0),
        _ => None,
    }
}

/// The JSON of every node names its type first.
pub proof fn json_names_the_node_type(n: SNode)
    ensures
        member(node_json(n), "type"@) == Some(SJson::Str(type_name_of(n))),
{
}

/// The JSON of a link holds its text and its url, that of an image its alt
/// text and its url, that of a text or of inline code its text, and that of a
/// code block its code and its language (`null` where it has none).
pub proof fn json_holds_node_fields(t: Seq<char>, u: Seq<char>, lang: Option<Seq<char>>)
    ensures
        member(node_json(SNode::Link { text: t, url: u }), "text"@) == Some(SJson::Str(t)),
        member(node_json(SNode::Link { text: t, url: u }), "url"@) == Some(SJson::Str(u)),
        member(node_json(SNode::Image { alt: t, url: u }), "alt"@) == Some(SJson::Str(t)),
        member(node_json(SNode::Image { alt: t, url: u }), "url"@) == Some(SJson::Str(u)),
        member(node_json(SNode::Text(t)), "text"@) == Some(SJson::Str(t)),
        member(node_json(SNode::InlineCode(t)), "code"@) == Some(SJson::Str(t)),
        member(node_json(SNode::CodeBlock { language: lang, code: t }), "code"@) == Some(SJson::Str(t)),
        member(node_json(SNode::CodeBlock { language: lang, code: t }), "language"@) == Some(
            match lang {
                Some(l) => SJson::Str(l),
                None => SJson::Null,
            },
        ),
{
    reveal_with_fuel(member_from, 4);
    reveal_strlit("type");
    reveal_strlit("text");
    reveal_strlit("url");
    reveal_strlit("alt");
    reveal_strlit("code");
    reveal_strlit("language");
    assert("type"@[1] != "text"@[1]);
    assert("type"@.len() != "url"@.len());
    assert("text"@.len() != "url"@.len());
    assert("type"@.len() != "alt"@.len());
    assert("alt"@[0] != "url"@[0]);
    assert("type"@[0] != "code"@[0]);
    assert("type"@.len() != "language"@.len());
    assert("language"@.len() != "code"@.len());
}

/// The JSON of a heading holds its level as a number and its text content,
/// that of an emphasis whether it is strong, and that of a list whether it is
/// ordered.
pub proof fn json_holds_levels_and_flags(level: u8, b: bool, kids: Seq<SNode>)
    ensures
        member(node_json(SNode::Heading { level, children: kids }), "level"@) == Some(SJson::Num(level as nat)),
        member(node_json(SNode::Heading { level, children: kids }), "text"@) == Some(
            SJson::Str(text_of(SNode::Heading { level, children: kids })),
        ),
        member(node_json(SNode::Emphasis { strong: b, children: kids }), "strong"@) == Some(SJson::Bool(b)),
        member(node_json(SNode::List { ordered: b, items: kids }), "ordered"@) == Some(SJson::Bool(b)),
{
    reveal_with_fuel(member_from, 4);
    reveal_strlit("type");
    reveal_strlit("level");
    reveal_strlit("text");
    reveal_strlit("strong");
    reveal_strlit("ordered");
    assert("type"@.len() != "level"@.len());
    assert("type"@[1] != "text"@[1]);
    assert("level"@.len() != "text"@.len());
    assert("type"@.len() != "strong"@.len());
    assert("type"@.len() != "ordered"@.len());
}

/// The JSON of query results names the query, counts the matches, and lists
/// for each match, in order, its index, its type, its path, its depth, its
/// text content and the JSON of its node.
pub proof fn json_lists_each_match(rs: Seq<SMatch>, q: Seq<char>)
    ensures
        member(results_json(rs, q), "query"@) == Some(SJson::Str(q)),
        member(results_json(rs, q), "count"@) == Some(SJson::Num(rs.len())),
        member(results_json(rs, q), "matches"@) matches Some(SJson::Arr(ms)) && ms.len() == rs.len() && forall|i: int|
            0 <= i < rs.len() ==> {
                &&& member(#[trigger] ms[i], "index"@) == Some(SJson::Num(i as nat))
                &&& member(ms[i], "type"@) == Some(SJson::Str(type_name_of(rs[i].node)))
                &&& member(ms[i], "depth"@) == Some(SJson::Num(rs[i].depth as nat))
                &&& member(ms[i], "text"@) == Some(SJson::Str(text_of(rs[i].node)))
                &&& member(ms[i], "node"@) == Some(node_json(rs[i].node))
                &&& member(ms[i], "path"@) matches Some(SJson::Arr(ps)) && ps.len() == rs[i].path.len()
                    && forall|k: int| 0 <= k < ps.len() ==> #[trigger] ps[k] == SJson::Num(rs[i].path[k] as nat)
            },
{
    reveal_with_fuel(member_from, 7);
    reveal_strlit("query");
    reveal_strlit("count");
    reveal_strlit("matches");
    reveal_strlit("index");
    reveal_strlit("type");
    reveal_strlit("path");
    reveal_strlit("depth");
    reveal_strlit("text");
    reveal_strlit("node");
    assert("query"@[0] != "count"@[0]);
    assert("query"@.len() != "matches"@.len());
    assert("count"@.len() != "matches"@.len());
    assert("index"@[0] != "type"@[0] && "index"@[0] != "path"@[0] && "index"@[0] != "depth"@[0]);
    assert("index"@[0] != "text"@[0] && "index"@[0] != "node"@[0]);
    assert("type"@[0] != "path"@[0] && "type"@[0] != "depth"@[0] && "type"@[1] != "text"@[1] && "type"@[0] != "node"@[0]);
    assert("path"@[0] != "depth"@[0] && "path"@[0] != "text"@[0] && "path"@[0] != "node"@[0]);
    assert("depth"@[0] != "text"@[0] && "depth"@[0] != "node"@[0]);
    assert("text"@[0] != "node"@[0]);
}

// ---------------------------------------------------------------------------
// Tree
// ---------------------------------------------------------------------------

/// A link is drawn as its type followed by a line that shows its url, an
/// image likewise, and a code block with a language by a line that shows it.
pub proof fn tree_shows_urls_and_languages(t: Seq<char>, u: Seq<char>, prefix: Seq<char>, is_last: bool)
    ensures
        ({
            let connector = if is_last { "└── "@ } else { "├── "@ };
            &&& tree_node(SNode::Link { text: t, url: u }, prefix, is_last) == prefix + connector + "link"@ + "\n"@
                + prefix + "    url: "@ + u + "\n"@
            &&& tree_node(SNode::Image { alt: t, url: u }, prefix, is_last) == prefix + connector + "image"@ + "\n"@
                + prefix + "    url: "@ + u + "\n"@
            &&& tree_node(SNode::CodeBlock { language: Some(u), code: t }, prefix, is_last) == prefix + connector
                + "code_block"@ + "\n"@ + prefix + "    lang: "@ + u + "\n"@
        }),
{
    let child_prefix = if is_last { "    "@ } else { "│   "@ };
    let l = SNode::Link { text: t, url: u };
    let i = SNode::Image { alt: t, url: u };
    let c = SNode::CodeBlock { language: Some(u), code: t };
    assert(crate::output::tree_kids(l, prefix + child_prefix, 0) == Seq::<char>::empty());
    assert(crate::output::tree_kids(i, prefix + child_prefix, 0) == Seq::<char>::empty());
    assert(crate::output::tree_kids(c, prefix + child_prefix, 0) == Seq::<char>::empty());
    let connector = if is_last { "└── "@ } else { "├── "@ };
    assert(tree_node(l, prefix, is_last) =~= prefix + connector + "link"@ + "\n"@ + prefix + "    url: "@ + u + "\n"@);
    assert(tree_node(i, prefix, is_last) =~= prefix + connector + "image"@ + "\n"@ + prefix + "    url: "@ + u + "\n"@);
    assert(tree_node(c, prefix, is_last) =~= prefix + connector + "code_block"@ + "\n"@ + prefix + "    lang: "@ + u
        + "\n"@);
}

/// A heading is drawn as its type followed by a line that shows its level in
/// decimal, a list by a line that shows whether it is ordered, and a code
/// block without a language by its type alone; the children follow.
pub proof fn tree_shows_levels_and_list_kind(level: u8, b: bool, kids: Seq<SNode>, t: Seq<char>, prefix: Seq<char>, is_last: bool)
    ensures
        ({
            let connector = if is_last { "└── "@ } else { "├── "@ };
            &&& (prefix + connector + "heading"@ + "\n"@ + prefix + "    level: "@ + crate::text::dec(level as nat)
                + "\n"@).is_prefix_of(tree_node(SNode::Heading { level, children: kids }, prefix, is_last))
            &&& (prefix + connector + "list"@ + "\n"@ + prefix + "    ordered: "@ + (if b { "true"@ } else { "false"@ })
                + "\n"@).is_prefix_of(tree_node(SNode::List { ordered: b, items: kids }, prefix, is_last))
            &&& tree_node(SNode::CodeBlock { language: None, code: t }, prefix, is_last) == prefix + connector
                + "code_block"@ + "\n"@
        }),
{
    let child_prefix = if is_last { "    "@ } else { "│   "@ };
    let connector = if is_last { "└── "@ } else { "├── "@ };
    let h = SNode::Heading { level, children: kids };
    let l = SNode::List { ordered: b, items: kids };
    let c = SNode::CodeBlock { language: None, code: t };
    let hh = prefix + connector + "heading"@ + "\n"@ + prefix + "    level: "@ + crate::text::dec(level as nat) + "\n"@;
    assert(tree_node(h, prefix, is_last) =~= hh + crate::output::tree_kids(h, prefix + child_prefix, 0));
    let lh = prefix + connector + "list"@ + "\n"@ + prefix + "    ordered: "@ + (if b { "true"@ } else { "false"@ }) + "\n"@;
    assert(tree_node(l, prefix, is_last) =~= lh + crate::output::tree_kids(l, prefix + child_prefix, 0));
    assert(crate::output::tree_kids(c, prefix + child_prefix, 0) == Seq::<char>::empty());
    assert(tree_node(c, prefix, is_last) =~= prefix + connector + "code_block"@ + "\n"@);
}

// ---------------------------------------------------------------------------
// Markdown
// ---------------------------------------------------------------------------

/// No line of a text holds a line break.
proof fn lemma_lines_clear(s: Seq<char>, i: int)
    requires
        0 <= i <= s.len(),
    ensures
        forall|q: int, x: int|
            0 <= q < lines_from(s, i).len() && 0 <= x < lines_from(s, i)[q].len() ==> #[trigger] lines_from(s, i)[q][x]
                != '\n',
    decreases s.len() - i,
{
    if i < s.len() {
        lemma_line_end(s, i);
        lemma_line_end_clear(s, i);
        let j = line_end(s, i);
        let first = if j >= s.len() { s.subrange(i, s.len() as int) } else { strip_cr(s.subrange(i, j)) };
        assert forall|x: int| 0 <= x < first.len() implies first[x] != '\n' by {
            assert(first[x] == s[i + x]);
        }
        if j < s.len() {
            lemma_lines_clear(s, j + 1);
            let ls = lines_from(s, i);
            assert forall|q: int, x: int| 0 <= q < ls.len() && 0 <= x < ls[q].len() implies #[trigger] ls[q][x] != '\n' by {
                if q > 0 {
                    assert(ls[q] == lines_from(s, j + 1)[q - 1]);
                }
            }
        }
    }
}

/// Joining lines that each start with `"> "` and hold no line break gives a
/// text that starts with `"> "` and has `"> "` after every line break.
proof fn lemma_join_quoted(xs: Seq<Seq<char>>)
    requires
        forall|i: int| 0 <= i < xs.len() ==> starts_with(#[trigger] xs[i], "> "@),
        forall|i: int, x: int| 0 <= i < xs.len() && 0 <= x < xs[i].len() ==> #[trigger] xs[i][x] != '\n',
    ensures
        xs.len() > 0 ==> starts_with(join(xs, "\n"@), "> "@),
        forall|k: int|
            0 <= k < join(xs, "\n"@).len() && #[trigger] join(xs, "\n"@)[k] == '\n' ==> k + 2 < join(xs, "\n"@).len()
                && join(xs, "\n"@)[k + 1] == '>' && join(xs, "\n"@)[k + 2] == ' ',
    decreases xs.len(),
{
    reveal_strlit("> ");
    reveal_strlit("\n");
    let d = join(xs, "\n"@);
    if xs.len() == 1 {
        assert(d == xs[0]);
        assert forall|k: int| 0 <= k < d.len() implies d[k] != '\n' by {
            assert(xs[0][k] != '\n');
        }
    } else if xs.len() > 1 {
        let dl = xs.drop_last();
        let last = xs.last();
        assert forall|i: int| 0 <= i < dl.len() implies starts_with(#[trigger] dl[i], "> "@) by {
            assert(dl[i] == xs[i]);
        }
        assert forall|i: int, x: int| 0 <= i < dl.len() && 0 <= x < dl[i].len() implies #[trigger] dl[i][x] != '\n' by {
            assert(dl[i] == xs[i]);
        }
        lemma_join_quoted(dl);
        let d0 = join(dl, "\n"@);
        assert(d == d0 + "\n"@ + last);
        assert(starts_with(last, "> "@));
        assert(starts_with(xs[xs.len() - 1], "> "@));
        assert(last[0] == '>' && last[1] == ' ') by {
            assert(last.subrange(0, 2) == "> "@);
            assert(last.subrange(0, 2)[0] == last[0]);
            assert(last.subrange(0, 2)[1] == last[1]);
        }
        assert(d0.len() >= 2);
        assert(d.subrange(0, 2) =~= d0.subrange(0, 2));
        assert forall|k: int| 0 <= k < d.len() && #[trigger] d[k] == '\n' implies k + 2 < d.len() && d[k + 1] == '>' && d[k
            + 2] == ' ' by {
            if k < d0.len() {
                assert(d[k] == d0[k]);
                assert(d0[k + 1] == d[k + 1] && d0[k + 2] == d[k + 2]);
            } else if k == d0.len() {
                assert(d[k + 1] == last[0]);
                assert(d[k + 2] == last[1]);
            } else {
                assert(d[k] == last[k - d0.len() - 1]);
                assert(xs[xs.len() - 1][k - d0.len() - 1] != '\n');
            }
        }
    }
}

/// Every line of the Markdown of a block quote starts with `"> "`: the text,
/// where it is not empty, starts with `"> "`, and every line break in it is
/// followed by `"> "`.
pub proof fn quote_lines_start_with_marker(c: Seq<SNode>)
    ensures
        ({
            let d = node_md(SNode::Blockquote(c));
            &&& d.len() > 0 ==> starts_with(d, "> "@)
            &&& forall|k: int| 0 <= k < d.len() && #[trigger] d[k] == '\n' ==> k + 2 < d.len() && d[k + 1] == '>' && d[k
                + 2] == ' '
        }),
{
    reveal_strlit("> ");
    let inner = join(crate::output::md_kids(SNode::Blockquote(c), 0), "\n"@);
    let ls = lines(inner);
    let xs = crate::output::quote_prefix(ls);
    lemma_lines_clear(inner, 0);
    assert forall|i: int| 0 <= i < xs.len() implies starts_with(#[trigger] xs[i], "> "@) by {
        assert(xs[i] == "> "@ + ls[i]);
        assert(xs[i].subrange(0, 2) =~= "> "@);
    }
    assert forall|i: int, x: int| 0 <= i < xs.len() && 0 <= x < xs[i].len() implies #[trigger] xs[i][x] != '\n' by {
        assert(xs[i] == "> "@ + ls[i]);
        if x >= 2 {
            assert(xs[i][x] == ls[i][x - 2]);
        }
    }
    lemma_join_quoted(xs);
    if xs.len() == 0 {
        assert(join(xs, "\n"@).len() == 0);
    }
}

/// `scan_to` stops at the first `ch`.
proof fn lemma_scan_to_at(c: Seq<char>, i: int, j: int, ch: char)
    requires
        0 <= i <= j < c.len(),
        forall|x: int| i <= x < j ==> c[x] != ch,
        c[j] == ch,
    ensures
        scan_to(c, i, ch) == j,
    decreases j - i,
{
    if i < j {
        lemma_scan_to_at(c, i + 1, j, ch);
    }
}

/// The Markdown of a link, an image or a code span reads back as that one
/// element, where its parts do not hold the character that ends them: no
/// `']'` in the link text or the alt text, no `')'` in the url, no backquote
/// in the code.
pub proof fn inline_markdown_reads_back(t: Seq<char>, u: Seq<char>)
    ensures
        (forall|x: int| 0 <= x < t.len() ==> t[x] != ']') && (forall|x: int| 0 <= x < u.len() ==> u[x] != ')')
            ==> crate::lexer::inline(node_md(SNode::Link { text: t, url: u })) == seq![SNode::Link { text: t, url: u }],
        (forall|x: int| 0 <= x < t.len() ==> t[x] != ']') && (forall|x: int| 0 <= x < u.len() ==> u[x] != ')')
            ==> crate::lexer::inline(node_md(SNode::Image { alt: t, url: u })) == seq![SNode::Image { alt: t, url: u }],
        (forall|x: int| 0 <= x < t.len() ==> t[x] != '`') ==> crate::lexer::inline(node_md(SNode::InlineCode(t)))
            == seq![SNode::InlineCode(t)],
{
    reveal_strlit("[");
    reveal_strlit("](");
    reveal_strlit(")");
    reveal_strlit("![");
    reveal_strlit("`");
    if (forall|x: int| 0 <= x < t.len() ==> t[x] != ']') && (forall|x: int| 0 <= x < u.len() ==> u[x] != ')') {
        // [t](u)
        let c = node_md(SNode::Link { text: t, url: u });
        assert(c == "["@ + t + "]("@ + u + ")"@);
        let k: int = 1 + t.len() as int;
        let m: int = k + 2 + u.len() as int;
        assert(c.len() == m + 1);
        assert(c[0] == '[');
        assert forall|x: int| 1 <= x < k implies c[x] != ']' by {
            assert(c[x] == t[x - 1]);
        }
        assert(c[k] == ']' && c[k + 1] == '(');
        lemma_scan_to_at(c, 1, k, ']');
        assert forall|x: int| k + 2 <= x < m implies c[x] != ')' by {
            assert(c[x] == u[x - k - 2]);
        }
        assert(c[m] == ')');
        lemma_scan_to_at(c, k + 2, m, ')');
        assert(c.subrange(1, k) =~= t);
        assert(c.subrange(k + 2, m) =~= u);
        assert(inline_from(c, m + 1, Seq::empty()) == Seq::<SNode>::empty());
        assert(crate::lexer::flush(Seq::empty()) == Seq::<SNode>::empty());
        assert(inline_from(c, 0, Seq::empty()) =~= seq![SNode::Link { text: t, url: u }]);
        // ![t](u)
        let g = node_md(SNode::Image { alt: t, url: u });
        assert(g == "!["@ + t + "]("@ + u + ")"@);
        let k2: int = 2 + t.len() as int;
        let m2: int = k2 + 2 + u.len() as int;
        assert(g.len() == m2 + 1);
        assert(g[0] == '!' && g[1] == '[');
        assert forall|x: int| 2 <= x < k2 implies g[x] != ']' by {
            assert(g[x] == t[x - 2]);
        }
        assert(g[k2] == ']' && g[k2 + 1] == '(');
        lemma_scan_to_at(g, 2, k2, ']');
        assert forall|x: int| k2 + 2 <= x < m2 implies g[x] != ')' by {
            assert(g[x] == u[x - k2 - 2]);
        }
        assert(g[m2] == ')');
        lemma_scan_to_at(g, k2 + 2, m2, ')');
        assert(g.subrange(2, k2) =~= t);
        assert(g.subrange(k2 + 2, m2) =~= u);
        assert(inline_from(g, m2 + 1, Seq::empty()) == Seq::<SNode>::empty());
        assert(inline_from(g, 0, Seq::empty()) =~= seq![SNode::Image { alt: t, url: u }]);
    }
    if forall|x: int| 0 <= x < t.len() ==> t[x] != '`' {
        let c = node_md(SNode::InlineCode(t));
        assert(c == "`"@ + t + "`"@);
        let j: int = 1 + t.len() as int;
        assert(c[0] == '`');
        assert forall|x: int| 1 <= x < j implies c[x] != '`' by {
            assert(c[x] == t[x - 1]);
        }
        assert(c[j] == '`');
        lemma_scan_to_at(c, 1, j, '`');
        assert(c.subrange(1, j) =~= t);
        assert(inline_from(c, j + 1, Seq::empty()) == Seq::<SNode>::empty());
        assert(inline_from(c, 0, Seq::empty()) =~= seq![SNode::InlineCode(t)]);
    }
}

/// `scan_pair` stops at the first doubled `d`.
proof fn lemma_scan_pair_at(c: Seq<char>, i: int, j: int, d: char)
    requires
        0 <= i <= j,
        j + 1 < c.len(),
        forall|x: int| i <= x < j ==> c[x] != d,
        c[j] == d,
        c[j + 1] == d,
    ensures
        crate::lexer::scan_pair(c, i, d) == j,
    decreases j - i,
{
    if i < j {
        lemma_scan_pair_at(c, i + 1, j, d);
    }
}

/// The Markdown of an emphasis around plain text (see `plain_from`) reads back
/// as that emphasis: `**t**` as strong, `*t*` as plain emphasis.
pub proof fn emphasis_markdown_reads_back(strong: bool, t: Seq<char>)
    requires
        t.len() > 0,
        crate::document::plain_from(t, 0),
    ensures
        crate::lexer::inline(node_md(SNode::Emphasis { strong, children: seq![SNode::Text(t)] })) == seq![
            SNode::Emphasis { strong, children: seq![SNode::Text(t)] },
        ],
{
    reveal_strlit("**");
    reveal_strlit("*");
    let e = SNode::Emphasis { strong, children: seq![SNode::Text(t)] };
    assert(children_of(e) == seq![SNode::Text(t)]);
    assert(node_md(SNode::Text(t)) == t);
    assert(crate::output::md_kids(e, 1) == Seq::<Seq<char>>::empty());
    assert(crate::output::md_kids(e, 0) == seq![t] + crate::output::md_kids(e, 1));
    assert(crate::output::md_kids(e, 0) =~= seq![t]);
    assert(join(seq![t], ""@) == t);
    crate::document::plain_text_is_one_text_element(t);
    assert(t[0] != '*' && t[0] != '_' && t[0] != '`' && t[0] != '[');
    if strong {
        let c = "**"@ + t + "**"@;
        assert(node_md(e) == c);
        let n = t.len() as int;
        assert forall|x: int| 2 <= x < 2 + n implies c[x] != '*' by {
            assert(c[x] == t[x - 2]);
        }
        assert(c[2 + n] == '*' && c[3 + n] == '*');
        lemma_scan_pair_at(c, 2, 2 + n, '*');
        assert(c.subrange(2, 2 + n) =~= t);
        assert(inline_from(c, 4 + n, Seq::empty()) == Seq::<SNode>::empty());
        assert(inline_from(c, 0, Seq::empty()) =~= seq![e]);
    } else {
        let c = "*"@ + t + "*"@;
        assert(node_md(e) == c);
        let n = t.len() as int;
        assert(c[1] == t[0]);
        assert forall|x: int| 1 <= x < 1 + n implies c[x] != '*' by {
            assert(c[x] == t[x - 1]);
        }
        assert(c[1 + n] == '*');
        lemma_scan_to_at(c, 1, 1 + n, '*');
        assert(c.subrange(1, 1 + n) =~= t);
        assert(inline_from(c, 2 + n, Seq::empty()) == Seq::<SNode>::empty());
        assert(inline_from(c, 0, Seq::empty()) =~= seq![e]);
    }
}

/// Where a line ends does not change when text is put in front.
proof fn lemma_line_end_shift(p: Seq<char>, q: Seq<char>, i: int)
    requires
        0 <= i <= q.len(),
    ensures
        line_end(p + q, p.len() + i) == p.len() + line_end(q, i),
    decreases q.len() - i,
{
    if i < q.len() && q[i] != '\n' {
        assert((p + q)[p.len() + i] == q[i]);
        lemma_line_end_shift(p, q, i + 1);
    } else if i < q.len() {
        assert((p + q)[p.len() + i] == q[i]);
    }
}

/// The lines of a text do not change when text ending in a line break is put
/// in front of it, past that text.
proof fn lemma_lines_shift(p: Seq<char>, q: Seq<char>, i: int)
    requires
        0 <= i <= q.len(),
    ensures
        lines_from(p + q, p.len() + i) == lines_from(q, i),
    decreases q.len() - i,
{
    let s = p + q;
    if i < q.len() {
        lemma_line_end_shift(p, q, i);
        lemma_line_end(q, i);
        let j = line_end(q, i);
        assert(s.subrange(p.len() + i, p.len() + j) =~= q.subrange(i, j));
        if j < q.len() {
            lemma_lines_shift(p, q, j + 1);
        } else {
            assert(s.subrange(p.len() + i, s.len() as int) =~= q.subrange(i, q.len() as int));
        }
    }
}

/// Lines joined with line breaks split back into those lines, where no line
/// holds a line break or ends with a carriage return and the last is not empty.
proof fn lemma_lines_of_join(xs: Seq<Seq<char>>)
    requires
        xs.len() > 0,
        xs.last().len() > 0,
        forall|i: int, x: int| 0 <= i < xs.len() && 0 <= x < xs[i].len() ==> #[trigger] xs[i][x] != '\n',
        forall|i: int| 0 <= i < xs.len() && #[trigger] xs[i].len() > 0 ==> xs[i].last() != '\r',
    ensures
        lines(join(xs, "\n"@)) == xs,
    decreases xs.len(),
{
    reveal_strlit("\n");
    let a = xs[0];
    if xs.len() == 1 {
        let s = join(xs, "\n"@);
        assert(s == a);
        assert forall|x: int| 0 <= x < s.len() implies s[x] != '\n' by {
            assert(xs[0][x] != '\n');
        }
        crate::document::lemma_line_end_at(s, 0, s.len() as int);
        assert(s.subrange(0, s.len() as int) =~= s);
        assert(lines(s) =~= xs);
    } else {
        let r = xs.drop_first();
        assert(xs =~= seq![a] + r);
        assert forall|i: int, x: int| 0 <= i < r.len() && 0 <= x < r[i].len() implies #[trigger] r[i][x] != '\n' by {
            assert(r[i] == xs[i + 1]);
        }
        assert forall|i: int| 0 <= i < r.len() && #[trigger] r[i].len() > 0 implies r[i].last() != '\r' by {
            assert(r[i] == xs[i + 1]);
        }
        assert(r.last() == xs.last());
        lemma_lines_of_join(r);
        crate::document::lemma_join_front(a, r, "\n"@);
        let rs = join(r, "\n"@);
        let s = join(xs, "\n"@);
        assert(s == a + "\n"@ + rs);
        let p = a + "\n"@;
        assert(s == p + rs);
        assert forall|x: int| 0 <= x < a.len() implies s[x] != '\n' by {
            assert(s[x] == a[x]);
            assert(xs[0][x] != '\n');
        }
        assert(s[a.len() as int] == '\n');
        crate::document::lemma_line_end_at(s, 0, a.len() as int);
        assert(s.subrange(0, a.len() as int) =~= a);
        assert(crate::text::strip_cr(a) == a) by {
            if a.len() > 0 {
                assert(xs[0].len() > 0);
            }
        }
        assert(rs.len() > 0) by {
            assert(lines(rs) == r);
        }
        lemma_lines_shift(p, rs, 0);
        assert(lines_from(s, a.len() + 1int) == lines(rs));
        assert(lines(s) =~= seq![a] + r);
    }
}

/// The Markdown of a list has one line per item, where no item's text holds a
/// line break or ends with a carriage return: `"1. text"`, `"2. text"`, ...
/// numbered from one for an ordered list, `"- text"` for an unordered one.
pub proof fn list_markdown_has_a_line_per_item(ordered: bool, items: Seq<SNode>)
    requires
        forall|i: int, x: int|
            0 <= i < items.len() && 0 <= x < text_of(items[i]).len() ==> #[trigger] text_of(items[i])[x] != '\n',
        forall|i: int| 0 <= i < items.len() && #[trigger] text_of(items[i]).len() > 0 ==> text_of(items[i]).last() != '\r',
    ensures
        ({
            let ls = lines(node_md(SNode::List { ordered, items }));
            &&& ls.len() == items.len()
            &&& forall|i: int| 0 <= i < items.len() ==> #[trigger] ls[i] == if ordered {
                crate::text::dec((i + 1) as nat) + ". "@ + text_of(items[i])
            } else {
                "- "@ + text_of(items[i])
            }
        }),
{
    reveal_strlit(". ");
    reveal_strlit("- ");
    let xs = crate::output::list_md(items, ordered);
    if items.len() == 0 {
        assert(join(xs, "\n"@) == Seq::<char>::empty());
        assert(lines(Seq::<char>::empty()) == Seq::<Seq<char>>::empty());
    } else {
        assert forall|i: int, x: int| 0 <= i < xs.len() && 0 <= x < xs[i].len() implies #[trigger] xs[i][x] != '\n' by {
            let t = text_of(items[i]);
            if ordered {
                let d = crate::text::dec((i + 1) as nat);
                lemma_dec_reads_back((i + 1) as nat);
                assert(xs[i] == d + ". "@ + t);
                if x < d.len() {
                    assert(xs[i][x] == d[x]);
                } else if x >= d.len() + 2 {
                    assert(xs[i][x] == t[x - d.len() - 2]);
                }
            } else {
                assert(xs[i] == "- "@ + t);
                if x >= 2 {
                    assert(xs[i][x] == t[x - 2]);
                }
            }
        }
        assert forall|i: int| 0 <= i < xs.len() && #[trigger] xs[i].len() > 0 implies xs[i].last() != '\r' by {
            let t = text_of(items[i]);
            if t.len() > 0 {
                assert(xs[i].last() == t.last());
            } else {
                assert(xs[i].last() == ' ');
            }
        }
        assert(xs[xs.len() - 1].len() >= 2);
        lemma_lines_of_join(xs);
    }
}

// ---------------------------------------------------------------------------
// Count
// ---------------------------------------------------------------------------

/// Whether every character of `s` is a decimal digit.
pub open spec fn all_decimal(s: Seq<char>) -> bool {
    forall|k: int| 0 <= k < s.len() ==> '0' <= #[trigger] s[k] && s[k] <= '9'
}

/// The number that a string of decimal digits writes.
pub open spec fn numeral_value(s: Seq<char>) -> int
    decreases s.len(),
{
    if s.len() == 0 {
        0
    } else {
        numeral_value(s.drop_last()) * 10 + (s.last() as int - '0' as int)
    }
}

proof fn lemma_digit_char_value(d: int)
    requires
        0 <= d < 10,
    ensures
        crate::text::digit_char(d) as int == '0' as int + d,
        '0' <= crate::text::digit_char(d) && crate::text::digit_char(d) <= '9',
{
}

proof fn lemma_dec_reads_back(n: nat)
    ensures
        all_decimal(crate::text::dec(n)),
        crate::text::dec(n).len() > 0,
        numeral_value(crate::text::dec(n)) == n,
    decreases n,
{
    let d = crate::text::dec(n);
    if n < 10 {
        lemma_digit_char_value(n as int);
        assert(d.drop_last() =~= Seq::<char>::empty());
        assert(numeral_value(d.drop_last()) == 0);
        assert(d.last() == crate::text::digit_char(n as int));
    } else {
        lemma_digit_char_value((n % 10) as int);
        lemma_dec_reads_back(n / 10);
        let p = crate::text::dec(n / 10);
        assert(d == p.push(crate::text::digit_char((n % 10) as int)));
        assert(d.drop_last() =~= p);
        assert forall|k: int| 0 <= k < d.len() implies '0' <= #[trigger] d[k] && d[k] <= '9' by {
            if k < p.len() {
                assert(d[k] == p[k]);
            }
        }
        assert(n == (n / 10) * 10 + n % 10);
    }
}

/// The count output is a decimal numeral, and the number it writes is the
/// number of matches.
pub proof fn count_output_writes_the_number_of_matches(rs: Seq<SMatch>, q: Seq<char>)
    ensures
        all_decimal(format_output(rs, OutputFormat::Count, q)),
        format_output(rs, OutputFormat::Count, q).len() > 0,
        numeral_value(format_output(rs, OutputFormat::Count, q)) == rs.len(),
{
    lemma_dec_reads_back(rs.len());
}

} // verus!
