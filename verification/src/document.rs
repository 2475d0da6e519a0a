//! What holds of every parsed document.
use vstd::prelude::*;
use crate::ast::{children_of, flatten, SNode};
use crate::lexer::{
    blocks, code_block, flush, hashes, heading, inline_block, inline_from, lemma_code_len, lemma_hashes,
    lemma_list_items, lemma_para_lines, lemma_quote_rest, lemma_scan_pair, lemma_scan_to, lemma_table_rows,
    list_items, list_ordered, one_para, para_block, para_lines, para_nodes, parse_md, quote, row_cells, scan_pair, scan_to, table,
    table_applies, table_rows, thematic, tl, fence,
};
use crate::query::properties::node_at;
use crate::stats::{count_kids, count_kind, kind_of};
use crate::lexer::{closes, code_len, fence_lang};
use crate::text::{is_ws, join, lemma_line_end, line_end, lines, lines_from, starts_with};

verus! {

/// Whether no tree of `s` holds a heading.
pub open spec fn heading_free(s: Seq<SNode>) -> bool {
    forall|k: int| 0 <= k < s.len() ==> count_kind(#[trigger] s[k], 1) == 0
}

proof fn lemma_free_concat(a: Seq<SNode>, b: Seq<SNode>)
    requires
        heading_free(a),
        heading_free(b),
    ensures
        heading_free(a + b),
{
    assert forall|k: int| 0 <= k < (a + b).len() implies count_kind(#[trigger] (a + b)[k], 1) == 0 by {
        if k < a.len() {
            assert((a + b)[k] == a[k]);
        } else {
            assert((a + b)[k] == b[k - a.len()]);
        }
    }
}

proof fn lemma_kids_free(p: SNode, j: int)
    requires
        heading_free(children_of(p)),
    ensures
        count_kids(p, 1, j) == 0,
    decreases children_of(p).len() - j,
{
    if 0 <= j < children_of(p).len() {
        lemma_kids_free(p, j + 1);
    }
}

proof fn lemma_kid_free(p: SNode, j: int, q: int)
    requires
        count_kids(p, 1, j) == 0,
        0 <= j <= q < children_of(p).len(),
        q <= usize::MAX,
    ensures
        count_kind(children_of(p)[q], 1) == 0,
    decreases q - j,
{
    if j < q {
        lemma_kid_free(p, j + 1, q);
    }
}

/// A node whose children hold no heading, and which is no heading itself, holds none.
proof fn lemma_node_free(n: SNode)
    requires
        heading_free(children_of(n)),
        kind_of(n) != 1,
    ensures
        count_kind(n, 1) == 0,
{
    lemma_kids_free(n, 0);
}

proof fn lemma_flush_free(cur: Seq<char>)
    ensures
        heading_free(flush(cur)),
{
    if cur.len() > 0 {
        lemma_node_free(SNode::Text(cur));
    }
}

/// Inline parsing yields no heading.
proof fn lemma_inline_free(c: Seq<char>, i: int, cur: Seq<char>)
    ensures
        heading_free(inline_from(c, i, cur)),
    decreases c.len(), c.len() - i,
{
    lemma_flush_free(cur);
    if i < 0 || i >= c.len() {
    } else if c[i] == '`' {
        let j = scan_to(c, i + 1, '`');
        lemma_scan_to(c, i + 1, '`');
        if j < c.len() {
            let x = SNode::InlineCode(c.subrange(i + 1, j));
            lemma_node_free(x);
            lemma_inline_free(c, j + 1, Seq::empty());
            lemma_free_concat(flush(cur), seq![x]);
            lemma_free_concat(flush(cur) + seq![x], inline_from(c, j + 1, Seq::empty()));
        } else {
            lemma_inline_free(c, i + 1, seq!['`']);
            lemma_free_concat(flush(cur), inline_from(c, i + 1, seq!['`']));
        }
    } else if c[i] == '!' && i + 1 < c.len() && c[i + 1] == '[' {
        let k = scan_to(c, i + 2, ']');
        lemma_scan_to(c, i + 2, ']');
        if k < c.len() && k + 1 < c.len() && c[k + 1] == '(' {
            let m = scan_to(c, k + 2, ')');
            lemma_scan_to(c, k + 2, ')');
            if m < c.len() {
                let x = SNode::Image { alt: c.subrange(i + 2, k), url: c.subrange(k + 2, m) };
                lemma_node_free(x);
                lemma_inline_free(c, m + 1, Seq::empty());
                lemma_free_concat(flush(cur), seq![x]);
                lemma_free_concat(flush(cur) + seq![x], inline_from(c, m + 1, Seq::empty()));
            } else {
                lemma_inline_free(c, i + 2, seq!['!', '[']);
                lemma_free_concat(flush(cur), inline_from(c, i + 2, seq!['!', '[']));
            }
        } else {
            lemma_inline_free(c, i + 2, seq!['!', '[']);
            lemma_free_concat(flush(cur), inline_from(c, i + 2, seq!['!', '[']));
        }
    } else if c[i] == '[' {
        let k = scan_to(c, i + 1, ']');
        lemma_scan_to(c, i + 1, ']');
        if k < c.len() && k + 1 < c.len() && c[k + 1] == '(' {
            let m = scan_to(c, k + 2, ')');
            lemma_scan_to(c, k + 2, ')');
            if m < c.len() {
                let x = SNode::Link { text: c.subrange(i + 1, k), url: c.subrange(k + 2, m) };
                lemma_node_free(x);
                lemma_inline_free(c, m + 1, Seq::empty());
                lemma_free_concat(flush(cur), seq![x]);
                lemma_free_concat(flush(cur) + seq![x], inline_from(c, m + 1, Seq::empty()));
            } else {
                lemma_inline_free(c, i + 1, seq!['[']);
                lemma_free_concat(flush(cur), inline_from(c, i + 1, seq!['[']));
            }
        } else {
            lemma_inline_free(c, i + 1, seq!['[']);
            lemma_free_concat(flush(cur), inline_from(c, i + 1, seq!['[']));
        }
    } else if i + 1 < c.len() && ((c[i] == '*' && c[i + 1] == '*') || (c[i] == '_' && c[i + 1] == '_')) {
        let d = c[i];
        let k = scan_pair(c, i + 2, d);
        lemma_scan_pair(c, i + 2, d);
        if k + 1 < c.len() {
            let inner = inline_from(c.subrange(i + 2, k), 0, Seq::empty());
            lemma_inline_free(c.subrange(i + 2, k), 0, Seq::empty());
            let x = SNode::Emphasis { strong: true, children: inner };
            lemma_node_free(x);
            lemma_inline_free(c, k + 2, Seq::empty());
            lemma_free_concat(flush(cur), seq![x]);
            lemma_free_concat(flush(cur) + seq![x], inline_from(c, k + 2, Seq::empty()));
        } else {
            lemma_inline_free(c, i + 2, seq![d, d]);
            lemma_free_concat(flush(cur), inline_from(c, i + 2, seq![d, d]));
        }
    } else if c[i] == '*' || c[i] == '_' {
        let d = c[i];
        let k = scan_to(c, i + 1, d);
        lemma_scan_to(c, i + 1, d);
        if k < c.len() {
            let inner = inline_from(c.subrange(i + 1, k), 0, Seq::empty());
            lemma_inline_free(c.subrange(i + 1, k), 0, Seq::empty());
            let x = SNode::Emphasis { strong: false, children: inner };
            lemma_node_free(x);
            lemma_inline_free(c, k + 1, Seq::empty());
            lemma_free_concat(flush(cur), seq![x]);
            lemma_free_concat(flush(cur) + seq![x], inline_from(c, k + 1, Seq::empty()));
        } else {
            lemma_inline_free(c, i + 1, seq![d]);
            lemma_free_concat(flush(cur), inline_from(c, i + 1, seq![d]));
        }
    } else if c[i] == '\\' && i + 1 < c.len() && c[i + 1] == '\n' {
        lemma_node_free(SNode::LineBreak);
        lemma_inline_free(c, i + 2, Seq::empty());
        lemma_free_concat(flush(cur), seq![SNode::LineBreak]);
        lemma_free_concat(flush(cur) + seq![SNode::LineBreak], inline_from(c, i + 2, Seq::empty()));
    } else {
        lemma_inline_free(c, i + 1, cur.push(c[i]));
    }
}

proof fn lemma_para_nodes_free(ps: Seq<Seq<char>>)
    ensures
        heading_free(para_nodes(ps)),
    decreases ps.len(),
{
    if ps.len() > 0 {
        lemma_para_nodes_free(ps.drop_last());
        let p = ps.last();
        let q = crate::text::trim(p);
        if q.len() > 0 {
            lemma_inline_free(q, 0, Seq::empty());
            let ns = crate::lexer::inline(q);
            if ns.len() != 1 {
                lemma_node_free(SNode::Paragraph(ns));
            }
        }
        lemma_free_concat(para_nodes(ps.drop_last()), one_para(p));
    }
}

proof fn lemma_inline_block_free(text: Seq<char>)
    ensures
        heading_free(inline_block(text)),
{
    lemma_para_nodes_free(crate::text::split(text, "\n\n"@));
    let t = SNode::Text(Seq::empty());
    lemma_node_free(t);
    lemma_node_free(SNode::Paragraph(seq![t]));
}

proof fn lemma_row_cells_free(t: Seq<char>)
    ensures
        heading_free(row_cells(t)),
{
    let cells = row_cells(t);
    assert forall|k: int| 0 <= k < cells.len() implies count_kind(#[trigger] cells[k], 1) == 0 by {
        let parts = crate::text::split(crate::lexer::strip_pipes(t), "|"@);
        lemma_inline_free(crate::text::trim(parts[k]), 0, Seq::empty());
        lemma_node_free(cells[k]);
    }
}

proof fn lemma_table_rows_free(ls: Seq<Seq<char>>, k: int)
    ensures
        heading_free(flatten(table_rows(ls, k))),
    decreases ls.len() - k,
{
    if 0 <= k < ls.len() {
        let t = tl(ls, k);
        if !(t.len() == 0 || !starts_with(t, "|"@)) {
            let rows = table_rows(ls, k);
            let rest = table_rows(ls, k + 1);
            lemma_table_rows_free(ls, k + 1);
            lemma_row_cells_free(t);
            assert(rows == seq![row_cells(t)] + rest);
            lemma_flatten_front(row_cells(t), rest);
            lemma_free_concat(row_cells(t), flatten(rest));
        }
    }
}

proof fn lemma_flatten_front(r: Seq<SNode>, rows: Seq<Seq<SNode>>)
    ensures
        flatten(seq![r] + rows) == r + flatten(rows),
    decreases rows.len(),
{
    if rows.len() == 0 {
        assert(seq![r] + rows =~= seq![r]);
        assert(seq![r].drop_last() =~= Seq::<Seq<SNode>>::empty());
        assert(flatten(Seq::<Seq<SNode>>::empty()) =~= Seq::<SNode>::empty());
        assert(flatten(seq![r]) =~= flatten(seq![r].drop_last()) + seq![r].last());
        assert(r + flatten(rows) =~= r);
    } else {
        lemma_flatten_front(r, rows.drop_last());
        assert((seq![r] + rows).drop_last() =~= seq![r] + rows.drop_last());
        assert((seq![r] + rows).last() == rows.last());
        assert(r + flatten(rows.drop_last()) + rows.last() =~= r + (flatten(rows.drop_last()) + rows.last()));
    }
}

/// Whether every node of `s` is a list item.
pub open spec fn all_items(s: Seq<SNode>) -> bool {
    forall|k: int| 0 <= k < s.len() ==> #[trigger] s[k] is ListItem
}

proof fn lemma_list_items_ok(ls: Seq<Seq<char>>, k: int, ordered: bool)
    ensures
        heading_free(list_items(ls, k, ordered)),
        all_items(list_items(ls, k, ordered)),
    decreases ls.len() - k,
{
    if 0 <= k < ls.len() {
        lemma_list_items_ok(ls, k + 1, ordered);
        let rest = list_items(ls, k + 1, ordered);
        let t = tl(ls, k);
        if t.len() > 0 {
            let item_text = if ordered {
                match crate::text::find_from(t, ". "@, 0) {
                    Some(p) => t.subrange(p + 2, t.len() as int),
                    None => crate::lexer::byte2_rest(t),
                }
            } else {
                t.subrange(2, t.len() as int)
            };
            lemma_inline_free(item_text, 0, Seq::empty());
            let x = SNode::ListItem(crate::lexer::inline(item_text));
            lemma_node_free(x);
            lemma_free_concat(seq![x], rest);
            assert forall|q: int| 0 <= q < (seq![x] + rest).len() implies #[trigger] (seq![x] + rest)[q] is ListItem by {
                if q > 0 {
                    assert((seq![x] + rest)[q] == rest[q - 1]);
                }
            }
        }
    }
}

/// Inline parsing of a non-empty text (or with text pending) yields at least one element.
proof fn lemma_inline_nonempty(c: Seq<char>, i: int, cur: Seq<char>)
    requires
        0 <= i,
        i < c.len() || cur.len() > 0,
    ensures
        inline_from(c, i, cur).len() > 0,
    decreases c.len(), c.len() - i,
{
    if i >= c.len() {
    } else if c[i] == '`' {
        let j = scan_to(c, i + 1, '`');
        lemma_scan_to(c, i + 1, '`');
        if j >= c.len() {
            lemma_inline_nonempty(c, i + 1, seq!['`']);
        }
    } else if c[i] == '!' && i + 1 < c.len() && c[i + 1] == '[' {
        let k = scan_to(c, i + 2, ']');
        lemma_scan_to(c, i + 2, ']');
        if k < c.len() && k + 1 < c.len() && c[k + 1] == '(' {
            let m = scan_to(c, k + 2, ')');
            lemma_scan_to(c, k + 2, ')');
            if m >= c.len() {
                lemma_inline_nonempty(c, i + 2, seq!['!', '[']);
            }
        } else {
            lemma_inline_nonempty(c, i + 2, seq!['!', '[']);
        }
    } else if c[i] == '[' {
        let k = scan_to(c, i + 1, ']');
        lemma_scan_to(c, i + 1, ']');
        if k < c.len() && k + 1 < c.len() && c[k + 1] == '(' {
            let m = scan_to(c, k + 2, ')');
            lemma_scan_to(c, k + 2, ')');
            if m >= c.len() {
                lemma_inline_nonempty(c, i + 1, seq!['[']);
            }
        } else {
            lemma_inline_nonempty(c, i + 1, seq!['[']);
        }
    } else if i + 1 < c.len() && ((c[i] == '*' && c[i + 1] == '*') || (c[i] == '_' && c[i + 1] == '_')) {
        let d = c[i];
        let k = scan_pair(c, i + 2, d);
        lemma_scan_pair(c, i + 2, d);
        if k + 1 >= c.len() {
            lemma_inline_nonempty(c, i + 2, seq![d, d]);
        }
    } else if c[i] == '*' || c[i] == '_' {
        let d = c[i];
        let k = scan_to(c, i + 1, d);
        lemma_scan_to(c, i + 1, d);
        if k >= c.len() {
            lemma_inline_nonempty(c, i + 1, seq![d]);
        }
    } else if c[i] == '\\' && i + 1 < c.len() && c[i + 1] == '\n' {
    } else {
        lemma_inline_nonempty(c, i + 1, cur.push(c[i]));
    }
}

/// The shape of a block of a parsed document: a heading of level one to six
/// with inline children, at least one, none of them a heading; a non-empty
/// list of list items; or a paragraph, code block, block quote, table or
/// thematic break. No block but a heading holds a heading.
pub open spec fn block_ok(n: SNode) -> bool {
    match n {
        SNode::Heading { level, children } => 1 <= level <= 6 && children.len() > 0 && heading_free(children),
        SNode::List { items, .. } => items.len() > 0 && all_items(items) && count_kind(n, 1) == 0,
        SNode::Paragraph(_) => count_kind(n, 1) == 0,
        SNode::CodeBlock { .. } => count_kind(n, 1) == 0,
        SNode::Blockquote(_) => count_kind(n, 1) == 0,
        SNode::Table { .. } => count_kind(n, 1) == 0,
        SNode::ThematicBreak => true,
        _ => false,
    }
}

proof fn lemma_blocks_ok(ls: Seq<Seq<char>>, i: int)
    ensures
        forall|k: int| 0 <= k < blocks(ls, i).len() ==> block_ok(#[trigger] blocks(ls, i)[k]),
    decreases ls.len() - i,
{
    if 0 <= i < ls.len() {
        let t = tl(ls, i);
        lemma_code_len(ls, i + 1, fence(t)->0);
        lemma_quote_rest(ls, i + 1);
        lemma_para_lines(ls, i + 1);
        lemma_list_items(ls, i, list_ordered(t));
        let ns = blocks(ls, i);
        if t.len() == 0 {
            lemma_blocks_ok(ls, i + 1);
            assert(ns == blocks(ls, i + 1));
        } else {
            let x: SNode;
            let next: int;
            if heading(t) is Some {
                lemma_hashes(t, 0);
                let level = hashes(t, 0);
                let text = crate::text::trim(t.subrange(level, t.len() as int));
                lemma_inline_free(text, 0, Seq::empty());
                lemma_inline_nonempty(text, 0, Seq::empty());
                x = heading(t)->0;
                next = i + 1;
            } else if thematic(t) {
                x = SNode::ThematicBreak;
                next = i + 1;
            } else if fence(t) is Some {
                x = code_block(ls, i).0;
                lemma_node_free(x);
                next = i + code_block(ls, i).1;
            } else if starts_with(t, ">"@) {
                x = quote(ls, i).0;
                let rest = crate::lexer::quote_rest(ls, i + 1);
                let content = seq![crate::text::trim(t.subrange(1, t.len() as int))] + rest;
                lemma_inline_block_free(crate::text::join(content, "\n"@));
                lemma_node_free(x);
                next = i + quote(ls, i).1;
            } else if table_applies(ls, i) {
                lemma_table_rows(ls, i + 2);
                x = table(ls, i).0;
                lemma_row_cells_free(tl(ls, i));
                lemma_table_rows_free(ls, i + 2);
                lemma_free_concat(row_cells(tl(ls, i)), flatten(table_rows(ls, i + 2)));
                lemma_node_free(x);
                next = i + table(ls, i).1;
            } else if crate::lexer::is_list_item(t) && list_items(ls, i, list_ordered(t)).len() > 0 {
                let ordered = list_ordered(t);
                let items = list_items(ls, i, ordered);
                lemma_list_items_ok(ls, i, ordered);
                x = SNode::List { ordered, items };
                lemma_node_free(x);
                next = i + items.len();
            } else {
                let ps = para_block(ls, i);
                lemma_inline_free(crate::text::join(ps, "\n"@), 0, Seq::empty());
                x = SNode::Paragraph(crate::lexer::inline(crate::text::join(ps, "\n"@)));
                lemma_node_free(x);
                next = i + ps.len();
            }
            assert(block_ok(x));
            lemma_blocks_ok(ls, next);
            assert(ns == seq![x] + blocks(ls, next));
            assert forall|k: int| 0 <= k < ns.len() implies block_ok(#[trigger] ns[k]) by {
                if k > 0 {
                    assert(ns[k] == blocks(ls, next)[k - 1]);
                }
            }
        }
    }
}

/// Every block of a parsed document has the shape that `block_ok` describes.
pub proof fn parsed_blocks_are_well_formed(s: Seq<char>)
    ensures
        parse_md(s) matches SNode::Document(ns) && forall|k: int| 0 <= k < ns.len() ==> block_ok(#[trigger] ns[k]),
{
    lemma_blocks_ok(lines(s), 0);
}

/// A node without headings holds none at any path.
proof fn lemma_no_heading_at(n: SNode, path: Seq<usize>)
    requires
        count_kind(n, 1) == 0,
        node_at(n, path) is Some,
    ensures
        kind_of(node_at(n, path)->0) != 1,
    decreases path.len(),
{
    if path.len() > 0 {
        lemma_kid_free(n, 0, path[0] as int);
        lemma_no_heading_at(children_of(n)[path[0] as int], path.drop_first());
    }
}

/// Every heading of a parsed document stands directly in the document (its path
/// has one index) and has a level from one to six.
pub proof fn headings_are_top_level_with_levels_one_to_six(s: Seq<char>, path: Seq<usize>)
    requires
        node_at(parse_md(s), path) matches Some(SNode::Heading { .. }),
    ensures
        path.len() == 1,
        node_at(parse_md(s), path) matches Some(SNode::Heading { level, .. }) && 1 <= level <= 6,
{
    let d = parse_md(s);
    let ns = blocks(lines(s), 0);
    lemma_blocks_ok(lines(s), 0);
    assert(children_of(d) == ns);
    let c = ns[path[0] as int];
    assert(block_ok(c));
    let rest = path.drop_first();
    if rest.len() > 0 {
        assert(node_at(d, path) == node_at(c, rest));
        if c is Heading {
            lemma_kids_free(c, 0);
            lemma_kid_free(c, 0, rest[0] as int);
            lemma_no_heading_at(children_of(c)[rest[0] as int], rest.drop_first());
        } else {
            lemma_no_heading_at(c, rest);
        }
    } else {
        assert(node_at(c, rest) == Some(c));
    }
}

/// Whether `c` holds no inline markup from position `i` on: no backquote,
/// bracket, asterisk or underscore, and no backslash before a line break.
pub open spec fn plain_from(c: Seq<char>, i: int) -> bool {
    forall|j: int|
        i <= j < c.len() ==> {
            &&& #[trigger] c[j] != '`'
            &&& c[j] != '['
            &&& c[j] != '*'
            &&& c[j] != '_'
            &&& !(c[j] == '\\' && j + 1 < c.len() && c[j + 1] == '\n')
        }
}

proof fn lemma_plain_inline(c: Seq<char>, i: int, cur: Seq<char>)
    requires
        0 <= i <= c.len(),
        plain_from(c, i),
    ensures
        inline_from(c, i, cur) == flush(cur + c.subrange(i, c.len() as int)),
    decreases c.len() - i,
{
    if i < c.len() {
        assert(c[i] != '`' && c[i] != '[' && c[i] != '*' && c[i] != '_');
        lemma_plain_inline(c, i + 1, cur.push(c[i]));
        assert(cur.push(c[i]) + c.subrange(i + 1, c.len() as int) =~= cur + c.subrange(i, c.len() as int));
    } else {
        assert(cur + c.subrange(i, c.len() as int) =~= cur);
    }
}

/// Text without inline markup reads as one plain text element holding all of
/// it; empty text reads as no element.
pub proof fn plain_text_is_one_text_element(c: Seq<char>)
    requires
        plain_from(c, 0),
    ensures
        c.len() > 0 ==> crate::lexer::inline(c) == seq![SNode::Text(c)],
        c.len() == 0 ==> crate::lexer::inline(c) == Seq::<SNode>::empty(),
{
    lemma_plain_inline(c, 0, Seq::empty());
    assert(Seq::<char>::empty() + c.subrange(0, c.len() as int) =~= c);
}

// ---------------------------------------------------------------------------
// Code blocks read back from their Markdown
// ---------------------------------------------------------------------------

/// The lines of `c` from the line that starts at `k`, split at each `'\n'`
/// (a text ending with `'\n'` has an empty last line).
pub open spec fn code_lines(c: Seq<char>, k: int) -> Seq<Seq<char>>
    decreases c.len() - k,
{
    if k < 0 || k > c.len() {
        Seq::empty()
    } else {
        let j = line_end(c, k);
        if j >= c.len() {
            seq![c.subrange(k, c.len() as int)]
        } else {
            proof {
                lemma_line_end(c, k);
            }
            seq![c.subrange(k, j)] + code_lines(c, j + 1)
        }
    }
}

/// Whether `l` can follow an opening fence and be read back as the language:
/// not empty, without whitespace at either end and without line breaks.
pub open spec fn lang_ok(l: Seq<char>) -> bool {
    &&& l.len() > 0
    &&& !is_ws(l[0])
    &&& !is_ws(l.last())
    &&& forall|k: int| 0 <= k < l.len() ==> #[trigger] l[k] != '\n'
}

/// Whether code can stand between fences and be read back: no carriage
/// return, and no line of it that would close a fence of backquotes.
pub open spec fn code_ok(c: Seq<char>) -> bool {
    &&& forall|k: int| 0 <= k < c.len() ==> #[trigger] c[k] != '\r'
    &&& forall|k: int|
        0 <= k <= c.len() && (k == 0 || c[k - 1] == '\n') ==> !closes(#[trigger] c.subrange(k, line_end(c, k)), "```"@)
}

pub(crate) proof fn lemma_line_end_clear(s: Seq<char>, i: int)
    requires
        0 <= i <= s.len(),
    ensures
        forall|x: int| i <= x < line_end(s, i) ==> s[x] != '\n',
    decreases s.len() - i,
{
    if i < s.len() && s[i] != '\n' {
        lemma_line_end_clear(s, i + 1);
    }
}

pub(crate) proof fn lemma_line_end_at(s: Seq<char>, i: int, j: int)
    requires
        0 <= i <= j <= s.len(),
        forall|x: int| i <= x < j ==> s[x] != '\n',
        j == s.len() || s[j] == '\n',
    ensures
        line_end(s, i) == j,
    decreases j - i,
{
    if i < j {
        lemma_line_end_at(s, i + 1, j);
    }
}

pub(crate) proof fn lemma_join_front(a: Seq<char>, r: Seq<Seq<char>>, sep: Seq<char>)
    requires
        r.len() > 0,
    ensures
        join(seq![a] + r, sep) == a + sep + join(r, sep),
    decreases r.len(),
{
    let whole = seq![a] + r;
    if r.len() == 1 {
        assert(whole.drop_last() =~= seq![a]);
        assert(whole.last() == r[0]);
        assert(join(seq![a], sep) == a);
        assert(join(r, sep) == r[0]);
        assert(join(whole, sep) == join(whole.drop_last(), sep) + sep + whole.last());
    } else {
        lemma_join_front(a, r.drop_last(), sep);
        assert(whole.drop_last() =~= seq![a] + r.drop_last());
        assert(whole.last() == r.last());
        assert(join(whole, sep) == join(whole.drop_last(), sep) + sep + whole.last());
        assert(join(r, sep) == join(r.drop_last(), sep) + sep + r.last());
        assert(a + sep + join(r.drop_last(), sep) + sep + r.last() =~= a + sep + (join(r.drop_last(), sep) + sep + r.last()));
    }
}

proof fn lemma_code_lines_join(c: Seq<char>, k: int)
    requires
        0 <= k <= c.len(),
    ensures
        code_lines(c, k).len() > 0,
        join(code_lines(c, k), "\n"@) == c.subrange(k, c.len() as int),
    decreases c.len() - k,
{
    reveal_strlit("\n");
    lemma_line_end(c, k);
    let j = line_end(c, k);
    if j < c.len() {
        lemma_code_lines_join(c, j + 1);
        lemma_join_front(c.subrange(k, j), code_lines(c, j + 1), "\n"@);
        assert(c.subrange(k, j) + "\n"@ + c.subrange(j + 1, c.len() as int) =~= c.subrange(k, c.len() as int));
    }
}

/// No line of code that `code_ok` admits closes the fence.
proof fn lemma_code_lines_open(c: Seq<char>, k: int)
    requires
        code_ok(c),
        0 <= k <= c.len(),
        k == 0 || c[k - 1] == '\n',
    ensures
        forall|q: int| 0 <= q < code_lines(c, k).len() ==> !closes(#[trigger] code_lines(c, k)[q], "```"@),
    decreases c.len() - k,
{
    lemma_line_end(c, k);
    let j = line_end(c, k);
    assert(!closes(c.subrange(k, line_end(c, k)), "```"@));
    if j < c.len() {
        lemma_code_lines_open(c, j + 1);
        let r = code_lines(c, k);
        assert forall|q: int| 0 <= q < r.len() implies !closes(#[trigger] r[q], "```"@) by {
            if q > 0 {
                assert(r[q] == code_lines(c, j + 1)[q - 1]);
            }
        }
    }
}

/// The lines of `d` from the line of the code that starts at `k`: those of the
/// code, then the closing fence (`d` holds the code at `off`, then `"\n```"`).
proof fn lemma_lines_of_code(d: Seq<char>, off: int, c: Seq<char>, k: int)
    requires
        code_ok(c),
        0 <= off,
        d.len() == off + c.len() + 4,
        forall|y: int| 0 <= y < c.len() ==> #[trigger] d[off + y] == c[y],
        d[off + c.len()] == '\n',
        d.subrange(off + c.len() + 1, d.len() as int) == "```"@,
        0 <= k <= c.len(),
        k == 0 || c[k - 1] == '\n',
    ensures
        lines_from(d, off + k) == code_lines(c, k) + seq!["```"@],
    decreases c.len() - k,
{
    reveal_strlit("```");
    lemma_line_end(c, k);
    lemma_line_end_clear(c, k);
    let j = line_end(c, k);
    assert forall|x: int| off + k <= x < off + j implies d[x] != '\n' by {
        assert(d[off + (x - off)] == c[x - off]);
    }
    if j < c.len() {
        assert(d[off + j] == c[j]);
    }
    lemma_line_end_at(d, off + k, off + j);
    let line = d.subrange(off + k, off + j);
    assert(line =~= c.subrange(k, j)) by {
        assert forall|y: int| 0 <= y < line.len() implies line[y] == c.subrange(k, j)[y] by {
            assert(d[off + (k + y)] == c[k + y]);
        }
    }
    assert(crate::text::strip_cr(line) == line);
    if j < c.len() {
        lemma_line_end(c, j + 1);
        lemma_lines_of_code(d, off, c, j + 1);
        assert(seq![line] + (code_lines(c, j + 1) + seq!["```"@]) =~= (seq![line] + code_lines(c, j + 1)) + seq!["```"@]);
    } else {
        let e1 = off + c.len() + 1;
        assert forall|x: int| e1 <= x < d.len() implies d[x] != '\n' by {
            assert(d[x] == d.subrange(e1, d.len() as int)[x - e1]);
        }
        lemma_line_end_at(d, e1, d.len() as int);
        assert(lines_from(d, e1) == seq![d.subrange(e1, d.len() as int)]);
    }
}

proof fn lemma_code_len_upto(ls: Seq<Seq<char>>, r: Seq<Seq<char>>, q: int)
    requires
        ls.len() == r.len() + 2,
        forall|x: int| 0 <= x < r.len() ==> #[trigger] ls[1 + x] == r[x],
        forall|x: int| 0 <= x < r.len() ==> !closes(#[trigger] r[x], "```"@),
        closes(ls[r.len() + 1int], "```"@),
        0 <= q <= r.len(),
    ensures
        code_len(ls, 1 + q, "```"@) == r.len() - q,
    decreases r.len() - q,
{
    if q < r.len() {
        assert(ls[1 + q] == r[q]);
        lemma_code_len_upto(ls, r, q + 1);
    }
}

/// A text without whitespace at its ends is its own trim.
pub(crate) proof fn lemma_trim_unchanged(t: Seq<char>)
    requires
        t.len() > 0,
        !is_ws(t[0]),
        !is_ws(t.last()),
    ensures
        crate::text::trim(t) == t,
{
    assert(crate::text::lead_ws(t, 0) == 0);
    assert(crate::text::trail_ws(t, 0, t.len() as int) == t.len());
    assert(t.subrange(0, t.len() as int) =~= t);
}

/// The Markdown of a code block reads back as that code block alone, for a
/// language and a code that fences can hold (see `lang_ok`, `code_ok`).
pub proof fn code_block_markdown_reads_back(language: Option<Seq<char>>, code: Seq<char>)
    requires
        language matches Some(l) ==> lang_ok(l),
        code_ok(code),
    ensures
        parse_md(crate::output::node_md(SNode::CodeBlock { language, code })) == SNode::Document(
            seq![SNode::CodeBlock { language, code }],
        ),
{
    reveal_strlit("```");
    reveal_strlit("\n");
    reveal_strlit("\n```");
    let l = crate::output::lang_text(language);
    let p = "```"@ + l;
    let d = crate::output::node_md(SNode::CodeBlock { language, code });
    assert(d == p + "\n"@ + code + "\n```"@);
    let off: int = p.len() as int + 1;
    // where the parts of the text stand
    assert forall|x: int| 0 <= x < p.len() implies d[x] == p[x] by {}
    assert(d[p.len() as int] == '\n');
    assert forall|y: int| 0 <= y < code.len() implies #[trigger] d[off + y] == code[y] by {}
    assert(d[off + code.len() as int] == '\n');
    assert(d.subrange(off + code.len() as int + 1, d.len() as int) =~= "```"@);
    // the opening line
    assert forall|x: int| 0 <= x < p.len() implies d[x] != '\n' by {
        if x >= 3 {
            assert(p[x] == l[x - 3]);
        }
    }
    lemma_line_end_at(d, 0, p.len() as int);
    assert(d.subrange(0, p.len() as int) =~= p);
    assert(p.last() == '`' || p.last() == l.last());
    assert(crate::text::strip_cr(p) == p);
    lemma_lines_of_code(d, off, code, 0);
    let r = code_lines(code, 0);
    let ls = lines(d);
    assert(ls == seq![p] + (r + seq!["```"@]));
    // the opening fence and its language
    lemma_trim_unchanged(p);
    assert(tl(ls, 0) == p);
    assert(hashes(p, 0) == 0);
    assert(heading(p) is None);
    assert(!thematic(p));
    assert(p.subrange(0, 3) =~= "```"@);
    assert(fence(p) == Some("```"@));
    if l.len() > 0 {
        assert(p.subrange(3, p.len() as int) =~= l);
        lemma_trim_unchanged(l);
    }
    assert(fence_lang(p) == language);
    // the code lines and the closing fence
    lemma_code_lines_join(code, 0);
    assert(code.subrange(0, code.len() as int) =~= code);
    lemma_code_lines_open(code, 0);
    lemma_trim_unchanged("```"@);
    assert("```"@.subrange(3, 3) =~= Seq::<char>::empty());
    assert(crate::text::trim(Seq::<char>::empty()) =~= Seq::<char>::empty());
    assert(closes(ls[r.len() + 1int], "```"@));
    assert forall|x: int| 0 <= x < r.len() implies #[trigger] ls[1 + x] == r[x] by {}
    lemma_code_len_upto(ls, r, 0);
    assert(ls.subrange(1, 1 + r.len() as int) =~= r);
    assert(blocks(ls, ls.len() as int) == Seq::<SNode>::empty());
    assert(blocks(ls, 0) =~= seq![SNode::CodeBlock { language, code }]);
}

proof fn lemma_hash_run(s: Seq<char>, i: int, level: int)
    requires
        0 <= i <= level < s.len(),
        forall|x: int| 0 <= x < level ==> s[x] == '#',
        s[level] != '#',
    ensures
        hashes(s, i) == level,
    decreases level - i,
{
    if i < level {
        lemma_hash_run(s, i + 1, level);
    }
}

/// The Markdown of a heading of level one to six whose text is plain (no
/// inline markup, no line break, no whitespace at its ends) reads back as
/// that heading alone.
pub proof fn heading_markdown_reads_back(level: u8, t: Seq<char>)
    requires
        1 <= level <= 6,
        t.len() > 0,
        !is_ws(t[0]),
        !is_ws(t.last()),
        plain_from(t, 0),
        forall|k: int| 0 <= k < t.len() ==> t[k] != '\n',
    ensures
        parse_md(crate::output::node_md(SNode::Heading { level, children: seq![SNode::Text(t)] }))
            == SNode::Document(seq![SNode::Heading { level, children: seq![SNode::Text(t)] }]),
{
    reveal_strlit(" ");
    let h = SNode::Heading { level, children: seq![SNode::Text(t)] };
    let lv = level as int;
    assert(children_of(h) == seq![SNode::Text(t)]);
    assert(crate::output::node_md(SNode::Text(t)) == t);
    assert(crate::output::md_kids(h, 1) == Seq::<Seq<char>>::empty());
    assert(crate::output::md_kids(h, 0) == seq![t] + crate::output::md_kids(h, 1));
    assert(crate::output::md_kids(h, 0) =~= seq![t]);
    assert(join(seq![t], ""@) == t);
    let s = crate::output::repeat_char('#', level as nat) + " "@ + t;
    assert(crate::output::node_md(h) == s);
    assert forall|x: int| 0 <= x < lv implies s[x] == '#' by {}
    assert(s[lv] == ' ');
    assert forall|y: int| 0 <= y < t.len() implies #[trigger] s[lv + 1 + y] == t[y] by {}
    assert forall|x: int| 0 <= x < s.len() implies s[x] != '\n' by {
        if x > lv {
            assert(s[x] == t[x - lv - 1]);
        }
    }
    lemma_line_end_at(s, 0, s.len() as int);
    assert(s.subrange(0, s.len() as int) =~= s);
    let ls = lines(s);
    assert(ls == seq![s]);
    assert(s.last() == t.last());
    lemma_trim_unchanged(s);
    assert(tl(ls, 0) == s);
    lemma_hash_run(s, 0, lv);
    let r = s.subrange(lv, s.len() as int);
    assert(r =~= " "@ + t);
    assert(crate::text::lead_ws(r, 1) == 1);
    assert(crate::text::lead_ws(r, 0) == 1);
    assert(crate::text::trail_ws(r, 1, r.len() as int) == r.len());
    assert(r.subrange(1, r.len() as int) =~= t);
    assert(crate::text::trim(r) == t);
    plain_text_is_one_text_element(t);
    assert(heading(s) == Some(h));
    assert(blocks(ls, 1) == Seq::<SNode>::empty());
    assert(blocks(ls, 0) =~= seq![h]);
}

/// A line of three or more characters, each the same mark (`'-'`, `'*'` or
/// `'_'`) or a space, that starts and ends with the mark, reads as one
/// thematic break: `---`, `***`, `___`, `* * *`.
pub proof fn rule_lines_are_thematic_breaks(s: Seq<char>, m: char)
    requires
        m == '-' || m == '*' || m == '_',
        s.len() >= 3,
        s[0] == m,
        s.last() == m,
        forall|k: int| 0 <= k < s.len() ==> #[trigger] s[k] == m || s[k] == ' ',
    ensures
        parse_md(s) == SNode::Document(seq![SNode::ThematicBreak]),
{
    assert forall|k: int| 0 <= k < s.len() implies s[k] != '\n' by {
        assert(s[k] == m || s[k] == ' ');
    }
    lemma_line_end_at(s, 0, s.len() as int);
    assert(s.subrange(0, s.len() as int) =~= s);
    let ls = lines(s);
    assert(ls == seq![s]);
    lemma_trim_unchanged(s);
    assert(tl(ls, 0) == s);
    assert(hashes(s, 0) == 0);
    assert(heading(s) is None);
    assert(thematic(s));
    assert(blocks(ls, 1) == Seq::<SNode>::empty());
    assert(blocks(ls, 0) =~= seq![SNode::ThematicBreak]);
}

/// A one-line text reads as a single thematic break only where its trimmed
/// line has three or more characters, starts with `'-'`, `'*'` or `'_'`, and
/// holds nothing but that mark and spaces.
pub proof fn only_rule_lines_are_thematic_breaks(s: Seq<char>)
    requires
        forall|k: int| 0 <= k < s.len() ==> s[k] != '\n',
    ensures
        parse_md(s) == SNode::Document(seq![SNode::ThematicBreak]) ==> {
            let t = crate::text::trim(s);
            &&& t.len() >= 3
            &&& (t[0] == '-' || t[0] == '*' || t[0] == '_')
            &&& forall|k: int| 0 <= k < t.len() ==> #[trigger] t[k] == t[0] || t[k] == ' '
        },
{
    if parse_md(s) == SNode::Document(seq![SNode::ThematicBreak]) {
        let ls = lines(s);
        if s.len() == 0 {
            assert(ls == Seq::<Seq<char>>::empty());
            assert(blocks(ls, 0) == Seq::<SNode>::empty());
            assert(seq![SNode::ThematicBreak].len() == 1);
        } else {
            lemma_line_end_at(s, 0, s.len() as int);
            assert(s.subrange(0, s.len() as int) =~= s);
            assert(ls == seq![s]);
            let t = tl(ls, 0);
            assert(t == crate::text::trim(s));
            let bs = blocks(ls, 0);
            assert(bs == seq![SNode::ThematicBreak]);
            assert(bs[0] == SNode::ThematicBreak);
            if t.len() == 0 {
                assert(bs == blocks(ls, 1));
                assert(blocks(ls, 1) == Seq::<SNode>::empty());
            } else if heading(t) is Some {
                assert(bs[0] == heading(t)->0);
            } else if thematic(t) {
            } else if fence(t) is Some {
                assert(bs[0] == code_block(ls, 0).0);
            } else if starts_with(t, ">"@) {
                assert(bs[0] == quote(ls, 0).0);
            } else if table_applies(ls, 0) {
                assert(bs[0] == table(ls, 0).0);
            } else if crate::lexer::is_list_item(t) && list_items(ls, 0, list_ordered(t)).len() > 0 {
                assert(bs[0] is List);
            } else {
                assert(bs[0] is Paragraph);
            }
        }
    }
}

} // verus!
