//! The Markdown parser: block structure line by line, inline elements within blocks.
use vstd::prelude::*;
use crate::ast::{lemma_nodes_view, lemma_nodes_view_push, lemma_rows_view_push, nodes_view, rows_view, Node, SNode};
use crate::text::{contains, copy_range, find_from, join, lines, split, starts_with, str_chars, string_from_chars, trim, utf8_len};
use crate::text::{split_lines, char_utf8_len, chars_contain, chars_start_with, find_chars, is_digit, join_chars, join_range, split_chars, trim_chars, views};

verus! {

// ---------------------------------------------------------------------------
// Inline elements
// ---------------------------------------------------------------------------

/// First position at or after `i` that holds `ch`, or the end of `c`.
pub open spec fn scan_to(c: Seq<char>, i: int, ch: char) -> int
    decreases c.len() - i,
{
    if 0 <= i < c.len() && c[i] != ch {
        scan_to(c, i + 1, ch)
    } else {
        i
    }
}

pub proof fn lemma_scan_to(c: Seq<char>, i: int, ch: char)
    requires
        0 <= i <= c.len(),
    ensures
        i <= scan_to(c, i, ch) <= c.len(),
        scan_to(c, i, ch) < c.len() ==> c[scan_to(c, i, ch)] == ch,
    decreases c.len() - i,
{
    if i < c.len() && c[i] != ch {
        lemma_scan_to(c, i + 1, ch);
    }
}

/// First position at or after `i` where `d` occurs twice in a row, or the
/// position where fewer than two characters remain.
pub open spec fn scan_pair(c: Seq<char>, i: int, d: char) -> int
    decreases c.len() - i,
{
    if 0 <= i && i + 1 < c.len() && !(c[i] == d && c[i + 1] == d) {
        scan_pair(c, i + 1, d)
    } else {
        i
    }
}

pub proof fn lemma_scan_pair(c: Seq<char>, i: int, d: char)
    requires
        0 <= i <= c.len(),
    ensures
        i <= scan_pair(c, i, d) <= c.len(),
        scan_pair(c, i, d) + 1 < c.len() ==> c[scan_pair(c, i, d)] == d && c[scan_pair(c, i, d) + 1] == d,
    decreases c.len() - i,
{
    if i + 1 < c.len() && !(c[i] == d && c[i + 1] == d) {
        lemma_scan_pair(c, i + 1, d);
    }
}

/// The pending plain text, as a text node if there is any.
pub open spec fn flush(cur: Seq<char>) -> Seq<SNode> {
    if cur.len() > 0 {
        seq![SNode::Text(cur)]
    } else {
        Seq::empty()
    }
}

/// Inline parsing of `c` from position `i`, with the plain text `cur` pending.
pub open spec fn inline_from(c: Seq<char>, i: int, cur: Seq<char>) -> Seq<SNode>
    decreases c.len(), c.len() - i,
{
    if i < 0 || i >= c.len() {
        flush(cur)
    } else if c[i] == '`' {
        // inline code
        let j = scan_to(c, i + 1, '`');
        proof {
            lemma_scan_to(c, i + 1, '`');
        }
        if j < c.len() {
            flush(cur) + seq![SNode::InlineCode(c.subrange(i + 1, j))] + inline_from(c, j + 1, Seq::empty())
        } else {
            flush(cur) + inline_from(c, i + 1, seq!['`'])
        }
    } else if c[i] == '!' && i + 1 < c.len() && c[i + 1] == '[' {
        // image
        let k = scan_to(c, i + 2, ']');
        proof {
            lemma_scan_to(c, i + 2, ']');
        }
        if k < c.len() && k + 1 < c.len() && c[k + 1] == '(' {
            let m = scan_to(c, k + 2, ')');
            proof {
                lemma_scan_to(c, k + 2, ')');
            }
            if m < c.len() {
                flush(cur) + seq![SNode::Image { alt: c.subrange(i + 2, k), url: c.subrange(k + 2, m) }]
                    + inline_from(c, m + 1, Seq::empty())
            } else {
                flush(cur) + inline_from(c, i + 2, seq!['!', '['])
            }
        } else {
            flush(cur) + inline_from(c, i + 2, seq!['!', '['])
        }
    } else if c[i] == '[' {
        // link
        let k = scan_to(c, i + 1, ']');
        proof {
            lemma_scan_to(c, i + 1, ']');
        }
        if k < c.len() && k + 1 < c.len() && c[k + 1] == '(' {
            let m = scan_to(c, k + 2, ')');
            proof {
                lemma_scan_to(c, k + 2, ')');
            }
            if m < c.len() {
                flush(cur) + seq![SNode::Link { text: c.subrange(i + 1, k), url: c.subrange(k + 2, m) }]
                    + inline_from(c, m + 1, Seq::empty())
            } else {
                flush(cur) + inline_from(c, i + 1, seq!['['])
            }
        } else {
            flush(cur) + inline_from(c, i + 1, seq!['['])
        }
    } else if i + 1 < c.len() && ((c[i] == '*' && c[i + 1] == '*') || (c[i] == '_' && c[i + 1] == '_')) {
        // strong emphasis
        let d = c[i];
        let k = scan_pair(c, i + 2, d);
        proof {
            lemma_scan_pair(c, i + 2, d);
        }
        if k + 1 < c.len() {
            flush(cur) + seq![SNode::Emphasis { strong: true, children: inline_from(c.subrange(i + 2, k), 0, Seq::empty()) }]
                + inline_from(c, k + 2, Seq::empty())
        } else {
            flush(cur) + inline_from(c, i + 2, seq![d, d])
        }
    } else if c[i] == '*' || c[i] == '_' {
        // emphasis
        let d = c[i];
        let k = scan_to(c, i + 1, d);
        proof {
            lemma_scan_to(c, i + 1, d);
        }
        if k < c.len() {
            flush(cur) + seq![SNode::Emphasis { strong: false, children: inline_from(c.subrange(i + 1, k), 0, Seq::empty()) }]
                + inline_from(c, k + 1, Seq::empty())
        } else {
            flush(cur) + inline_from(c, i + 1, seq![d])
        }
    } else if c[i] == '\\' && i + 1 < c.len() && c[i + 1] == '\n' {
        // line break
        flush(cur) + seq![SNode::LineBreak] + inline_from(c, i + 2, Seq::empty())
    } else {
        inline_from(c, i + 1, cur.push(c[i]))
    }
}

/// The inline elements of a text: code spans, images, links, strong and plain
/// emphasis, line breaks, and plain text between them.
pub open spec fn inline(c: Seq<char>) -> Seq<SNode> {
    inline_from(c, 0, Seq::empty())
}

/// Appends a node.
pub fn push_node(v: &mut Vec<Node>, n: Node)
    ensures
        nodes_view(final(v)@) == nodes_view(old(v)@).push(n@),
        final(v)@.len() == old(v)@.len() + 1,
{
    proof {
        lemma_nodes_view_push(v@, n);
    }
    v.push(n);
}

/// Moves the pending plain text, if any, into a text node.
fn flush_into(nodes: &mut Vec<Node>, cur: &mut Vec<char>)
    ensures
        nodes_view(final(nodes)@) == nodes_view(old(nodes)@) + flush(old(cur)@),
        final(cur)@ == Seq::<char>::empty(),
{
    if cur.len() > 0 {
        push_node(nodes, Node::Text(string_from_chars(cur.as_slice())));
        assert(nodes_view(old(nodes)@).push(SNode::Text(old(cur)@)) =~= nodes_view(old(nodes)@)
            + flush(old(cur)@));
    } else {
        assert(nodes_view(old(nodes)@) + flush(old(cur)@) =~= nodes_view(old(nodes)@));
    }
    *cur = Vec::new();
}

/// Exec counterpart of `scan_to`.
fn find_char_from(c: &[char], i: usize, ch: char) -> (j: usize)
    requires
        i <= c@.len(),
    ensures
        j as int == scan_to(c@, i as int, ch),
        i <= j <= c@.len(),
        j < c@.len() ==> c@[j as int] == ch,
{
    let mut j = i;
    while j < c.len() && c[j] != ch
        invariant
            i <= j <= c@.len(),
            scan_to(c@, i as int, ch) == scan_to(c@, j as int, ch),
        decreases c@.len() - j,
    {
        j = j + 1;
    }
    proof {
        lemma_scan_to(c@, i as int, ch);
    }
    j
}

/// Exec counterpart of `scan_pair`.
fn find_pair_from(c: &[char], i: usize, d: char) -> (j: usize)
    requires
        i <= c@.len(),
    ensures
        j as int == scan_pair(c@, i as int, d),
        i <= j <= c@.len(),
{
    let mut j = i;
    while j < c.len() && c.len() - j > 1 && !(c[j] == d && c[j + 1] == d)
        invariant
            i <= j <= c@.len(),
            scan_pair(c@, i as int, d) == scan_pair(c@, j as int, d),
        decreases c@.len() - j,
    {
        j = j + 1;
    }
    proof {
        lemma_scan_pair(c@, i as int, d);
    }
    j
}

proof fn lemma_step(a: Seq<SNode>, f: Seq<SNode>, x: Seq<SNode>, rest: Seq<SNode>)
    ensures
        (a + f + x) + rest == a + (f + x + rest),
        (a + f) + rest == a + (f + rest),
{
    assert((a + f + x) + rest =~= a + (f + x + rest));
    assert((a + f) + rest =~= a + (f + rest));
}

/// One step of inline parsing at position `i`: the nodes produced so far
/// followed by the parse of the rest are unchanged.
pub open spec fn step_ok(c: Seq<char>, i: int, ni: int, n0: Seq<SNode>, cur0: Seq<char>, n1: Seq<SNode>, cur1: Seq<char>) -> bool {
    &&& i < ni <= c.len()
    &&& n1 + inline_from(c, ni, cur1) == n0 + inline_from(c, i, cur0)
}

fn step_code(c: &[char], i: usize, nodes: &mut Vec<Node>, cur: &mut Vec<char>) -> (ni: usize)
    requires
        i < c@.len(),
        c@[i as int] == '`',
    ensures
        step_ok(c@, i as int, ni as int, nodes_view(old(nodes)@), old(cur)@, nodes_view(final(nodes)@), final(cur)@),
{
    let ghost gi = i as int;
    let ghost gcur = cur@;
    let ghost gnodes = nodes_view(nodes@);
    let len = c.len();
    flush_into(nodes, cur);
    let start = i + 1;
    let j = find_char_from(c, start, '`');
    if j < len {
        let code = copy_range(c, start, j);
        push_node(nodes, Node::InlineCode(string_from_chars(code.as_slice())));
        proof {
            assert(cur@ =~= Seq::<char>::empty());
            assert(nodes_view(nodes@) == gnodes + flush(gcur) + seq![SNode::InlineCode(c@.subrange(gi + 1, j as int))]);
            assert(inline_from(c@, gi, gcur) == flush(gcur) + seq![SNode::InlineCode(c@.subrange(gi + 1, j as int))] + inline_from(c@, j + 1, Seq::empty()));
            lemma_step(gnodes, flush(gcur), seq![SNode::InlineCode(c@.subrange(gi + 1, j as int))], inline_from(c@, j + 1, cur@));
        }
        j + 1
    } else {
        cur.push('`');
        proof {
            assert(cur@ =~= seq!['`']);
            lemma_step(gnodes, flush(gcur), Seq::empty(), inline_from(c@, start as int, cur@));
        }
        start
    }
}

fn step_image(c: &[char], i: usize, nodes: &mut Vec<Node>, cur: &mut Vec<char>) -> (ni: usize)
    requires
        i + 1 < c@.len(),
        c@[i as int] == '!',
        c@[i + 1] == '[',
    ensures
        step_ok(c@, i as int, ni as int, nodes_view(old(nodes)@), old(cur)@, nodes_view(final(nodes)@), final(cur)@),
{
    let ghost gi = i as int;
    let ghost gcur = cur@;
    let ghost gnodes = nodes_view(nodes@);
    let len = c.len();
    flush_into(nodes, cur);
    let alt_start = i + 2;
    let k = find_char_from(c, alt_start, ']');
    if k < len && len - k > 1 && c[k + 1] == '(' {
        let url_start = k + 2;
        let m = find_char_from(c, url_start, ')');
        if m < len {
            let alt = copy_range(c, alt_start, k);
            let url = copy_range(c, url_start, m);
            push_node(nodes, Node::Image {
                alt: string_from_chars(alt.as_slice()),
                url: string_from_chars(url.as_slice()),
            });
            proof {
                assert(cur@ =~= Seq::<char>::empty());
                let ghost x = SNode::Image { alt: c@.subrange(gi + 2, k as int), url: c@.subrange(k + 2, m as int) };
                assert(nodes_view(nodes@) == gnodes + flush(gcur) + seq![x]);
                assert(inline_from(c@, gi, gcur) == flush(gcur) + seq![x] + inline_from(c@, m + 1, Seq::empty()));
                lemma_step(gnodes, flush(gcur), seq![x], inline_from(c@, m + 1, cur@));
            }
            return m + 1;
        }
    }
    cur.push('!');
    cur.push('[');
    proof {
        assert(cur@ =~= seq!['!', '[']);
        lemma_step(gnodes, flush(gcur), Seq::empty(), inline_from(c@, alt_start as int, cur@));
    }
    alt_start
}

fn step_link(c: &[char], i: usize, nodes: &mut Vec<Node>, cur: &mut Vec<char>) -> (ni: usize)
    requires
        i < c@.len(),
        c@[i as int] == '[',
        !(c@[i as int] == '`'),
        !(c@[i as int] == '!' && i + 1 < c@.len() && c@[i + 1] == '['),
    ensures
        step_ok(c@, i as int, ni as int, nodes_view(old(nodes)@), old(cur)@, nodes_view(final(nodes)@), final(cur)@),
{
    let ghost gi = i as int;
    let ghost gcur = cur@;
    let ghost gnodes = nodes_view(nodes@);
    let len = c.len();
    flush_into(nodes, cur);
    let text_start = i + 1;
    let k = find_char_from(c, text_start, ']');
    if k < len && len - k > 1 && c[k + 1] == '(' {
        let url_start = k + 2;
        let m = find_char_from(c, url_start, ')');
        if m < len {
            let text = copy_range(c, text_start, k);
            let url = copy_range(c, url_start, m);
            push_node(nodes, Node::Link {
                text: string_from_chars(text.as_slice()),
                url: string_from_chars(url.as_slice()),
            });
            proof {
                assert(cur@ =~= Seq::<char>::empty());
                let ghost x = SNode::Link { text: c@.subrange(gi + 1, k as int), url: c@.subrange(k + 2, m as int) };
                assert(nodes_view(nodes@) == gnodes + flush(gcur) + seq![x]);
                assert(inline_from(c@, gi, gcur) == flush(gcur) + seq![x] + inline_from(c@, m + 1, Seq::empty()));
                lemma_step(gnodes, flush(gcur), seq![x], inline_from(c@, m + 1, cur@));
            }
            return m + 1;
        }
    }
    cur.push('[');
    proof {
        assert(cur@ =~= seq!['[']);
        lemma_step(gnodes, flush(gcur), Seq::empty(), inline_from(c@, text_start as int, cur@));
    }
    text_start
}

fn step_strong(c: &[char], i: usize, nodes: &mut Vec<Node>, cur: &mut Vec<char>) -> (ni: usize)
    requires
        i + 1 < c@.len(),
        (c@[i as int] == '*' && c@[i + 1] == '*') || (c@[i as int] == '_' && c@[i + 1] == '_'),
    ensures
        step_ok(c@, i as int, ni as int, nodes_view(old(nodes)@), old(cur)@, nodes_view(final(nodes)@), final(cur)@),
    decreases c@.len(), 0int,
{
    let ghost gi = i as int;
    let ghost gcur = cur@;
    let ghost gnodes = nodes_view(nodes@);
    let len = c.len();
    flush_into(nodes, cur);
    let d = c[i];
    let text_start = i + 2;
    let k = find_pair_from(c, text_start, d);
    proof {
        lemma_scan_pair(c@, gi + 2, d);
    }
    if k < len && len - k > 1 {
        let inner = copy_range(c, text_start, k);
        let children = parse_inline_chars(inner.as_slice());
        push_node(nodes, Node::Emphasis { strong: true, children });
        proof {
            assert(cur@ =~= Seq::<char>::empty());
            assert(nodes_view(children@) == inline(c@.subrange(gi + 2, k as int)));
            assert(nodes_view(nodes@) == gnodes + flush(gcur) + seq![SNode::Emphasis { strong: true, children: inline(c@.subrange(gi + 2, k as int)) }]);
            assert(inline_from(c@, gi, gcur) == flush(gcur) + seq![SNode::Emphasis { strong: true, children: inline(c@.subrange(gi + 2, k as int)) }] + inline_from(c@, k + 2, Seq::empty()));
            lemma_step(gnodes, flush(gcur), seq![SNode::Emphasis { strong: true, children: inline(c@.subrange(gi + 2, k as int)) }], inline_from(c@, k + 2, cur@));
        }
        k + 2
    } else {
        cur.push(d);
        cur.push(d);
        proof {
            assert(cur@ =~= seq![d, d]);
            lemma_step(gnodes, flush(gcur), Seq::empty(), inline_from(c@, text_start as int, cur@));
        }
        text_start
    }
}

fn step_emphasis(c: &[char], i: usize, nodes: &mut Vec<Node>, cur: &mut Vec<char>) -> (ni: usize)
    requires
        i < c@.len(),
        c@[i as int] == '*' || c@[i as int] == '_',
        !(i + 1 < c@.len() && ((c@[i as int] == '*' && c@[i + 1] == '*') || (c@[i as int] == '_' && c@[i + 1] == '_'))),
    ensures
        step_ok(c@, i as int, ni as int, nodes_view(old(nodes)@), old(cur)@, nodes_view(final(nodes)@), final(cur)@),
    decreases c@.len(), 0int,
{
    let ghost gi = i as int;
    let ghost gcur = cur@;
    let ghost gnodes = nodes_view(nodes@);
    let len = c.len();
    flush_into(nodes, cur);
    let d = c[i];
    let text_start = i + 1;
    let k = find_char_from(c, text_start, d);
    if k < len {
        let inner = copy_range(c, text_start, k);
        let children = parse_inline_chars(inner.as_slice());
        push_node(nodes, Node::Emphasis { strong: false, children });
        proof {
            assert(cur@ =~= Seq::<char>::empty());
            assert(nodes_view(children@) == inline(c@.subrange(gi + 1, k as int)));
            assert(nodes_view(nodes@) == gnodes + flush(gcur) + seq![SNode::Emphasis { strong: false, children: inline(c@.subrange(gi + 1, k as int)) }]);
            assert(inline_from(c@, gi, gcur) == flush(gcur) + seq![SNode::Emphasis { strong: false, children: inline(c@.subrange(gi + 1, k as int)) }] + inline_from(c@, k + 1, Seq::empty()));
            lemma_step(gnodes, flush(gcur), seq![SNode::Emphasis { strong: false, children: inline(c@.subrange(gi + 1, k as int)) }], inline_from(c@, k + 1, cur@));
        }
        k + 1
    } else {
        cur.push(d);
        proof {
            assert(cur@ =~= seq![d]);
            lemma_step(gnodes, flush(gcur), Seq::empty(), inline_from(c@, text_start as int, cur@));
        }
        text_start
    }
}

/// Exec counterpart of `inline`.
pub fn parse_inline_chars(c: &[char]) -> (r: Vec<Node>)
    ensures
        nodes_view(r@) == inline(c@),
    decreases c@.len(), 1int,
{
    let len = c.len();
    let mut nodes: Vec<Node> = Vec::new();
    let mut i: usize = 0;
    let mut cur: Vec<char> = Vec::new();
    proof {
        assert(nodes_view(nodes@) + inline(c@) =~= inline(c@));
    }
    while i < len
        invariant
            len == c@.len(),
            i <= len,
            nodes_view(nodes@) + inline_from(c@, i as int, cur@) == inline(c@),
        decreases len - i,
    {
        if c[i] == '`' {
            i = step_code(c, i, &mut nodes, &mut cur);
        } else if c[i] == '!' && len - i > 1 && c[i + 1] == '[' {
            i = step_image(c, i, &mut nodes, &mut cur);
        } else if c[i] == '[' {
            i = step_link(c, i, &mut nodes, &mut cur);
        } else if len - i > 1 && ((c[i] == '*' && c[i + 1] == '*') || (c[i] == '_' && c[i + 1] == '_')) {
            i = step_strong(c, i, &mut nodes, &mut cur);
        } else if c[i] == '*' || c[i] == '_' {
            i = step_emphasis(c, i, &mut nodes, &mut cur);
        } else if c[i] == '\\' && len - i > 1 && c[i + 1] == '\n' {
            let ghost gcur = cur@;
            let ghost gnodes = nodes_view(nodes@);
            flush_into(&mut nodes, &mut cur);
            push_node(&mut nodes, Node::LineBreak);
            i = i + 2;
            proof {
                lemma_step(gnodes, flush(gcur), seq![SNode::LineBreak], inline_from(c@, i as int, cur@));
            }
        } else {
            cur.push(c[i]);
            i = i + 1;
        }
    }
    flush_into(&mut nodes, &mut cur);
    nodes
}

/// Parses the inline elements of a text.
pub fn parse_inline(text: &str) -> (r: Vec<Node>)
    ensures
        nodes_view(r@) == inline(text@),
{
    let c = str_chars(text);
    parse_inline_chars(c.as_slice())
}

// ---------------------------------------------------------------------------
// Block structure
// ---------------------------------------------------------------------------

/// The trimmed `k`-th line.
pub open spec fn tl(ls: Seq<Seq<char>>, k: int) -> Seq<char> {
    trim(ls[k])
}

/// Index of the first character at or after `i` that is not `'#'`.
pub open spec fn hashes(t: Seq<char>, i: int) -> int
    decreases t.len() - i,
{
    if 0 <= i < t.len() && t[i] == '#' {
        hashes(t, i + 1)
    } else {
        i
    }
}

pub proof fn lemma_hashes(t: Seq<char>, i: int)
    requires
        0 <= i <= t.len(),
    ensures
        i <= hashes(t, i) <= t.len(),
    decreases t.len() - i,
{
    if i < t.len() && t[i] == '#' {
        lemma_hashes(t, i + 1);
    }
}

/// An ATX heading: one to six `'#'` followed by non-empty text.
pub open spec fn heading(t: Seq<char>) -> Option<SNode> {
    let level = hashes(t, 0);
    if level == 0 || level > 6 {
        None
    } else {
        let text = trim(t.subrange(level, t.len() as int));
        if text.len() == 0 {
            None
        } else {
            Some(SNode::Heading { level: level as u8, children: inline(text) })
        }
    }
}

/// A thematic break: three or more characters, all `'-'`, `'*'` or `'_'` (the
/// same one, the first) or spaces.
pub open spec fn thematic(t: Seq<char>) -> bool {
    &&& t.len() >= 3
    &&& (t[0] == '-' || t[0] == '*' || t[0] == '_')
    &&& forall|k: int| 0 <= k < t.len() ==> (#[trigger] t[k] == t[0] || t[k] == ' ')
}

/// The fence that opens a code block on this (trimmed) line.
pub open spec fn fence(t: Seq<char>) -> Option<Seq<char>> {
    if starts_with(t, "```"@) {
        Some("```"@)
    } else if starts_with(t, "~~~"@) {
        Some("~~~"@)
    } else {
        None
    }
}

/// The language named after an opening fence.
pub open spec fn fence_lang(t: Seq<char>) -> Option<Seq<char>> {
    if t.len() > 3 {
        let l = trim(t.subrange(3, t.len() as int));
        if l.len() == 0 {
            None
        } else {
            Some(l)
        }
    } else {
        None
    }
}

/// Whether a line closes a code block opened with fence `f`.
pub open spec fn closes(line: Seq<char>, f: Seq<char>) -> bool {
    let u = trim(line);
    starts_with(u, f) && u.len() >= 3 && trim(u.subrange(3, u.len() as int)).len() == 0
}

/// Number of code lines from line `k` up to the closing fence or the end.
pub open spec fn code_len(ls: Seq<Seq<char>>, k: int, f: Seq<char>) -> nat
    decreases ls.len() - k,
{
    if k < 0 || k >= ls.len() || closes(ls[k], f) {
        0
    } else {
        1 + code_len(ls, k + 1, f)
    }
}

/// The fenced code block that opens at line `i`, and the number of lines it takes.
pub open spec fn code_block(ls: Seq<Seq<char>>, i: int) -> (SNode, nat) {
    let t = tl(ls, i);
    let n = code_len(ls, i + 1, fence(t)->0);
    let body = ls.subrange(i + 1, i + 1 + n);
    let closed: nat = if i + 1 + n < ls.len() { 1 } else { 0 };
    (SNode::CodeBlock { language: fence_lang(t), code: join(body, "\n"@) }, 1 + n + closed)
}

/// The lines of a block quote after its first line.
pub open spec fn quote_rest(ls: Seq<Seq<char>>, k: int) -> Seq<Seq<char>>
    decreases ls.len() - k,
{
    if k < 0 || k >= ls.len() {
        Seq::empty()
    } else {
        let t = tl(ls, k);
        if starts_with(t, ">"@) {
            seq![trim(t.subrange(1, t.len() as int))] + quote_rest(ls, k + 1)
        } else if t.len() > 0 {
            seq![t] + quote_rest(ls, k + 1)
        } else {
            Seq::empty()
        }
    }
}

/// The nodes of one paragraph of a block quote.
pub open spec fn one_para(p: Seq<char>) -> Seq<SNode> {
    let q = trim(p);
    if q.len() == 0 {
        Seq::empty()
    } else {
        let ns = inline(q);
        if ns.len() == 1 {
            seq![ns[0]]
        } else {
            seq![SNode::Paragraph(ns)]
        }
    }
}

pub open spec fn para_nodes(ps: Seq<Seq<char>>) -> Seq<SNode>
    decreases ps.len(),
{
    if ps.len() == 0 {
        Seq::empty()
    } else {
        para_nodes(ps.drop_last()) + one_para(ps.last())
    }
}

/// Text split into paragraphs at blank lines (`"\n\n"`); a paragraph with a
/// single inline element is that element.
pub open spec fn inline_block(text: Seq<char>) -> Seq<SNode> {
    let ns = para_nodes(split(text, "\n\n"@));
    if ns.len() == 0 {
        seq![SNode::Paragraph(seq![SNode::Text(Seq::empty())])]
    } else {
        ns
    }
}

/// The block quote that starts at line `i`, and the number of lines it takes.
pub open spec fn quote(ls: Seq<Seq<char>>, i: int) -> (SNode, nat) {
    let t = tl(ls, i);
    let rest = quote_rest(ls, i + 1);
    let content = seq![trim(t.subrange(1, t.len() as int))] + rest;
    (SNode::Blockquote(inline_block(join(content, "\n"@))), 1 + rest.len())
}

/// Index of the first character at or after `i` that is not `'|'`.
pub open spec fn lead_pipes(s: Seq<char>, i: int) -> int
    decreases s.len() - i,
{
    if 0 <= i < s.len() && s[i] == '|' {
        lead_pipes(s, i + 1)
    } else {
        i
    }
}

/// End of `s[lo..j]` once trailing `'|'` are removed.
pub open spec fn trail_pipes(s: Seq<char>, lo: int, j: int) -> int
    decreases j - lo,
{
    if lo < j && s[j - 1] == '|' {
        trail_pipes(s, lo, j - 1)
    } else {
        j
    }
}

/// `str::trim_matches('|')`.
pub open spec fn strip_pipes(s: Seq<char>) -> Seq<char> {
    let a = lead_pipes(s, 0);
    s.subrange(a, trail_pipes(s, a, s.len() as int))
}

/// The cells of a table row.
pub open spec fn row_cells(t: Seq<char>) -> Seq<SNode> {
    let parts = split(strip_pipes(t), "|"@);
    Seq::new(parts.len(), |k: int| SNode::TableCell(inline(trim(parts[k]))))
}

/// The body rows of a table, from line `k` on.
pub open spec fn table_rows(ls: Seq<Seq<char>>, k: int) -> Seq<Seq<SNode>>
    decreases ls.len() - k,
{
    if k < 0 || k >= ls.len() {
        Seq::empty()
    } else {
        let t = tl(ls, k);
        if t.len() == 0 || !starts_with(t, "|"@) {
            Seq::empty()
        } else {
            seq![row_cells(t)] + table_rows(ls, k + 1)
        }
    }
}

/// A table starts at line `i`: a row, then a separator row holding `"---"`.
pub open spec fn table_applies(ls: Seq<Seq<char>>, i: int) -> bool {
    &&& starts_with(tl(ls, i), "|"@)
    &&& i + 1 < ls.len()
    &&& starts_with(tl(ls, i + 1), "|"@)
    &&& contains(tl(ls, i + 1), "---"@)
}

/// The table that starts at line `i`, and the number of lines it takes.
pub open spec fn table(ls: Seq<Seq<char>>, i: int) -> (SNode, nat) {
    let rows = table_rows(ls, i + 2);
    (SNode::Table { header: row_cells(tl(ls, i)), rows }, 2 + rows.len())
}

pub open spec fn all_digits(t: Seq<char>, p: int) -> bool {
    forall|k: int| 0 <= k < p ==> is_digit(#[trigger] t[k])
}

/// A list item line: `"- "`, `"* "` or `"+ "`, or digits followed by `". "`.
pub open spec fn is_list_item(line: Seq<char>) -> bool {
    let t = trim(line);
    ||| ((starts_with(t, "- "@) || starts_with(t, "* "@) || starts_with(t, "+ "@))
        && !starts_with(t, "---"@) && !starts_with(t, "***"@) && !starts_with(t, "___"@))
    ||| (t.len() > 0 && is_digit(t[0]) && match find_from(t, ". "@, 0) {
        Some(p) => p > 0 && all_digits(t, p),
        None => false,
    })
}

/// Cutting a line at its third byte (in UTF-8) falls on a character boundary.
pub open spec fn byte2_ok(t: Seq<char>) -> bool {
    ||| utf8_len(t[0]) == 2
    ||| (utf8_len(t[0]) == 1 && t.len() >= 2 && utf8_len(t[1]) == 1)
}

/// The line from its third byte on.
pub open spec fn byte2_rest(t: Seq<char>) -> Seq<char> {
    if utf8_len(t[0]) == 2 {
        t.subrange(1, t.len() as int)
    } else {
        t.subrange(2, t.len() as int)
    }
}

/// The items of a list from line `k` on. An ordered list ends at a blank
/// line, or at a line without `". "` that cannot be cut at its third byte;
/// an unordered list ends at a blank line or a line that is no item.
pub open spec fn list_items(ls: Seq<Seq<char>>, k: int, ordered: bool) -> Seq<SNode>
    decreases ls.len() - k,
{
    if k < 0 || k >= ls.len() {
        Seq::empty()
    } else {
        let t = tl(ls, k);
        if t.len() == 0 {
            Seq::empty()
        } else if ordered {
            match find_from(t, ". "@, 0) {
                Some(p) => seq![SNode::ListItem(inline(t.subrange(p + 2, t.len() as int)))] + list_items(ls, k + 1, ordered),
                None => if byte2_ok(t) {
                    seq![SNode::ListItem(inline(byte2_rest(t)))] + list_items(ls, k + 1, ordered)
                } else {
                    Seq::empty()
                },
            }
        } else if starts_with(t, "- "@) || starts_with(t, "* "@) || starts_with(t, "+ "@) {
            seq![SNode::ListItem(inline(t.subrange(2, t.len() as int)))] + list_items(ls, k + 1, ordered)
        } else {
            Seq::empty()
        }
    }
}

/// Whether a list that starts with this line is ordered.
pub open spec fn list_ordered(t: Seq<char>) -> bool {
    t.len() > 0 && is_digit(t[0])
}

/// A line that ends a paragraph.
pub open spec fn stops_paragraph(t: Seq<char>) -> bool {
    ||| starts_with(t, "#"@)
    ||| starts_with(t, ">"@)
    ||| starts_with(t, "```"@)
    ||| starts_with(t, "~~~"@)
    ||| starts_with(t, "|"@)
    ||| thematic(t)
    ||| is_list_item(t)
}

/// The (trimmed) lines that continue a paragraph from line `k` on: up to a
/// blank line or a line that starts another block.
pub open spec fn para_lines(ls: Seq<Seq<char>>, k: int) -> Seq<Seq<char>>
    decreases ls.len() - k,
{
    if k < 0 || k >= ls.len() {
        Seq::empty()
    } else {
        let t = tl(ls, k);
        if t.len() == 0 || stops_paragraph(t) {
            Seq::empty()
        } else {
            seq![t] + para_lines(ls, k + 1)
        }
    }
}

/// The (trimmed) lines of the paragraph that starts at line `i`: that line,
/// whatever it holds, and the lines that continue it.
pub open spec fn para_block(ls: Seq<Seq<char>>, i: int) -> Seq<Seq<char>> {
    seq![tl(ls, i)] + para_lines(ls, i + 1)
}

pub proof fn lemma_code_len(ls: Seq<Seq<char>>, k: int, f: Seq<char>)
    requires
        0 <= k <= ls.len(),
    ensures
        code_len(ls, k, f) <= ls.len() - k,
    decreases ls.len() - k,
{
    if k < ls.len() && !closes(ls[k], f) {
        lemma_code_len(ls, k + 1, f);
    }
}

pub proof fn lemma_quote_rest(ls: Seq<Seq<char>>, k: int)
    requires
        0 <= k <= ls.len(),
    ensures
        quote_rest(ls, k).len() <= ls.len() - k,
    decreases ls.len() - k,
{
    if k < ls.len() {
        lemma_quote_rest(ls, k + 1);
    }
}

pub proof fn lemma_table_rows(ls: Seq<Seq<char>>, k: int)
    requires
        0 <= k <= ls.len(),
    ensures
        table_rows(ls, k).len() <= ls.len() - k,
    decreases ls.len() - k,
{
    if k < ls.len() {
        lemma_table_rows(ls, k + 1);
    }
}

pub proof fn lemma_para_lines(ls: Seq<Seq<char>>, k: int)
    requires
        0 <= k <= ls.len(),
    ensures
        para_lines(ls, k).len() <= ls.len() - k,
    decreases ls.len() - k,
{
    if k < ls.len() {
        lemma_para_lines(ls, k + 1);
    }
}

pub proof fn lemma_list_items(ls: Seq<Seq<char>>, k: int, ordered: bool)
    requires
        0 <= k <= ls.len(),
    ensures
        list_items(ls, k, ordered).len() <= ls.len() - k,
    decreases ls.len() - k,
{
    if k < ls.len() {
        lemma_list_items(ls, k + 1, ordered);
    }
}

/// The blocks of a document from line `i` on. A line that no other block
/// takes starts a paragraph.
pub open spec fn blocks(ls: Seq<Seq<char>>, i: int) -> Seq<SNode>
    decreases ls.len() - i,
{
    if i < 0 || i >= ls.len() {
        Seq::empty()
    } else {
        let t = tl(ls, i);
        proof {
            lemma_code_len(ls, i + 1, fence(t)->0);
            lemma_quote_rest(ls, i + 1);
            lemma_para_lines(ls, i + 1);
            lemma_list_items(ls, i, list_ordered(t));
        }
        if t.len() == 0 {
            blocks(ls, i + 1)
        } else if heading(t) is Some {
            seq![heading(t)->0] + blocks(ls, i + 1)
        } else if thematic(t) {
            seq![SNode::ThematicBreak] + blocks(ls, i + 1)
        } else if fence(t) is Some {
            let (n, c) = code_block(ls, i);
            seq![n] + blocks(ls, i + c)
        } else if starts_with(t, ">"@) {
            let (n, c) = quote(ls, i);
            seq![n] + blocks(ls, i + c)
        } else if table_applies(ls, i) {
            proof {
                lemma_table_rows(ls, i + 2);
            }
            let (n, c) = table(ls, i);
            seq![n] + blocks(ls, i + c)
        } else if is_list_item(t) && list_items(ls, i, list_ordered(t)).len() > 0 {
            let ordered = list_ordered(t);
            let items = list_items(ls, i, ordered);
            seq![SNode::List { ordered, items }] + blocks(ls, i + items.len())
        } else {
            let ps = para_block(ls, i);
            seq![SNode::Paragraph(inline(join(ps, "\n"@)))] + blocks(ls, i + ps.len())
        }
    }
}

/// The syntax tree of a Markdown text.
pub open spec fn parse_md(s: Seq<char>) -> SNode {
    SNode::Document(blocks(lines(s), 0))
}

/// The trimmed `k`-th line.
fn trimmed(ls: &Vec<Vec<char>>, k: usize) -> (t: Vec<char>)
    requires
        k < ls@.len(),
    ensures
        t@ == tl(views(ls@), k as int),
{
    trim_chars(ls[k].as_slice())
}

fn parse_heading(t: &[char]) -> (r: Option<Node>)
    ensures
        match r {
            Some(n) => heading(t@) == Some(n@),
            None => heading(t@) is None,
        },
{
    let mut level: usize = 0;
    while level < t.len() && t[level] == '#'
        invariant
            level <= t@.len(),
            hashes(t@, 0) == hashes(t@, level as int),
        decreases t@.len() - level,
    {
        level = level + 1;
    }
    if level == 0 || level > 6 {
        return None;
    }
    let rest = copy_range(t, level, t.len());
    let text = trim_chars(rest.as_slice());
    if text.len() == 0 {
        return None;
    }
    Some(Node::Heading { level: level as u8, children: parse_inline_chars(text.as_slice()) })
}

fn is_thematic_break(t: &[char]) -> (b: bool)
    ensures
        b == thematic(t@),
{
    if t.len() < 3 {
        return false;
    }
    let c = t[0];
    if c != '-' && c != '*' && c != '_' {
        return false;
    }
    let mut k: usize = 0;
    while k < t.len()
        invariant
            k <= t@.len(),
            c == t@[0],
            forall|j: int| 0 <= j < k ==> (#[trigger] t@[j] == c || t@[j] == ' '),
        decreases t@.len() - k,
    {
        if t[k] != c && t[k] != ' ' {
            return false;
        }
        k = k + 1;
    }
    true
}

/// The fenced code block at line `start`, if that line opens one.
fn parse_code_block(ls: &Vec<Vec<char>>, start: usize) -> (r: Option<(Node, usize)>)
    requires
        start < ls@.len(),
    ensures
        match r {
            Some((n, c)) => fence(tl(views(ls@), start as int)) is Some && code_block(views(ls@), start as int) == (n@, c as nat),
            None => fence(tl(views(ls@), start as int)) is None,
        },
{
    let ghost gls = views(ls@);
    let line = trimmed(ls, start);
    let fence_str: &str = if chars_start_with(line.as_slice(), "```") {
        "```"
    } else if chars_start_with(line.as_slice(), "~~~") {
        "~~~"
    } else {
        return None;
    };
    let language = if line.len() > 3 {
        let rest = copy_range(line.as_slice(), 3, line.len());
        let lang = trim_chars(rest.as_slice());
        if lang.len() == 0 {
            None
        } else {
            Some(string_from_chars(lang.as_slice()))
        }
    } else {
        None
    };
    let total = ls.len();
    let mut i: usize = start + 1;
    loop
        invariant
            start < i <= ls@.len(),
            total == ls@.len(),
            gls == views(ls@),
            fence_str@ == fence(tl(gls, start as int))->0,
            code_len(gls, start + 1, fence_str@) == (i - (start + 1)) + code_len(gls, i as int, fence_str@),
        ensures
            start < i <= ls@.len(),
            code_len(gls, start + 1, fence_str@) == i - (start + 1),
            i < ls@.len() ==> closes(gls[i as int], fence_str@),
        decreases ls@.len() - i,
    {
        if i >= ls.len() {
            break;
        }
        let u = trimmed(ls, i);
        if chars_start_with(u.as_slice(), fence_str) && u.len() >= 3 {
            let after = copy_range(u.as_slice(), 3, u.len());
            let after_t = trim_chars(after.as_slice());
            if after_t.len() == 0 {
                break;
            }
        }
        i = i + 1;
    }
    let code = join_range(ls, start + 1, i, "\n");
    let consumed = if i < ls.len() { i - start + 1 } else { i - start };
    proof {
        lemma_code_len(gls, start + 1, fence_str@);
    }
    Some((Node::CodeBlock { language, code: string_from_chars(code.as_slice()) }, consumed))
}

/// Exec counterpart of `inline_block`.
fn parse_inline_block(text: &[char]) -> (r: Vec<Node>)
    ensures
        nodes_view(r@) == inline_block(text@),
{
    let sep = str_chars("\n\n");
    proof {
        reveal_strlit("\n\n");
    }
    let paras = split_chars(text, sep.as_slice());
    let ghost ps = views(paras@);
    let mut nodes: Vec<Node> = Vec::new();
    let mut k: usize = 0;
    proof {
        assert(ps.take(0) =~= Seq::<Seq<char>>::empty());
    }
    while k < paras.len()
        invariant
            k <= paras@.len(),
            ps == views(paras@),
            nodes_view(nodes@) == para_nodes(ps.take(k as int)),
        decreases paras@.len() - k,
    {
        let q = trim_chars(paras[k].as_slice());
        let ghost before = nodes_view(nodes@);
        if q.len() > 0 {
            let mut ns = parse_inline_chars(q.as_slice());
            proof {
                lemma_nodes_view(ns@);
            }
            if ns.len() == 1 {
                let ghost one = ns@[0];
                match ns.pop() {
                    Some(n) => {
                        assert(n == one);
                        push_node(&mut nodes, n);
                    },
                    None => {},
                }
                assert(nodes_view(nodes@) =~= before + one_para(ps[k as int]));
            } else {
                push_node(&mut nodes, Node::Paragraph(ns));
                assert(nodes_view(nodes@) =~= before + one_para(ps[k as int]));
            }
        } else {
            assert(nodes_view(nodes@) =~= before + one_para(ps[k as int]));
        }
        assert(ps.take(k + 1).drop_last() =~= ps.take(k as int));
        k = k + 1;
    }
    assert(ps.take(paras@.len() as int) =~= ps);
    proof {
        lemma_nodes_view(nodes@);
    }
    if nodes.len() == 0 {
        let mut inner: Vec<Node> = Vec::new();
        push_node(&mut inner, Node::Text(String::new()));
        push_node(&mut nodes, Node::Paragraph(inner));
        assert(nodes_view(nodes@) =~= seq![SNode::Paragraph(seq![SNode::Text(Seq::empty())])]);
    }
    nodes
}

/// The block quote at line `start`.
fn parse_blockquote(ls: &Vec<Vec<char>>, start: usize) -> (r: (Node, usize))
    requires
        start < ls@.len(),
        starts_with(tl(views(ls@), start as int), ">"@),
    ensures
        quote(views(ls@), start as int) == (r.0@, r.1 as nat),
{
    let ghost gls = views(ls@);
    let first = trimmed(ls, start);
    proof {
        reveal_strlit(">");
    }
    let after = copy_range(first.as_slice(), 1, first.len());
    let mut content: Vec<Vec<char>> = Vec::new();
    content.push(trim_chars(after.as_slice()));
    let ghost head = seq![trim(first@.subrange(1, first@.len() as int))];
    let total = ls.len();
    let mut i: usize = start + 1;
    proof {
        assert(views(content@) =~= head);
        lemma_quote_rest(gls, start + 1);
    }
    loop
        invariant
            start < i <= ls@.len(),
            total == ls@.len(),
            gls == views(ls@),
            content@.len() == i - start,
            views(content@) + quote_rest(gls, i as int) == head + quote_rest(gls, start + 1),
        ensures
            start < i <= ls@.len(),
            content@.len() == i - start,
            views(content@) == head + quote_rest(gls, start + 1),
        decreases ls@.len() - i,
    {
        if i >= ls.len() {
            assert(views(content@) + Seq::<Seq<char>>::empty() =~= views(content@));
            break;
        }
        let t = trimmed(ls, i);
        let ghost prev = views(content@);
        proof {
            reveal_strlit(">");
        }
        if chars_start_with(t.as_slice(), ">") {
            let rest = copy_range(t.as_slice(), 1, t.len());
            content.push(trim_chars(rest.as_slice()));
            assert(views(content@) =~= prev.push(trim(t@.subrange(1, t@.len() as int))));
            assert(prev + quote_rest(gls, i as int) =~= views(content@) + quote_rest(gls, i + 1));
        } else if t.len() > 0 {
            content.push(t);
            assert(views(content@) =~= prev.push(tl(gls, i as int)));
            assert(prev + quote_rest(gls, i as int) =~= views(content@) + quote_rest(gls, i + 1));
        } else {
            assert(views(content@) + Seq::<Seq<char>>::empty() =~= views(content@));
            break;
        }
        i = i + 1;
    }
    let text = join_chars(&content, "\n");
    let nodes = parse_inline_block(text.as_slice());
    (Node::Blockquote(nodes), i - start)
}

/// Exec counterpart of `strip_pipes`.
fn strip_pipe_chars(s: &[char]) -> (r: Vec<char>)
    ensures
        r@ == strip_pipes(s@),
{
    let mut a: usize = 0;
    while a < s.len() && s[a] == '|'
        invariant
            a <= s@.len(),
            lead_pipes(s@, a as int) == lead_pipes(s@, 0),
        decreases s@.len() - a,
    {
        a = a + 1;
    }
    let mut b: usize = s.len();
    while b > a && s[b - 1] == '|'
        invariant
            a <= b <= s@.len(),
            trail_pipes(s@, a as int, b as int) == trail_pipes(s@, a as int, s@.len() as int),
        decreases b,
    {
        b = b - 1;
    }
    copy_range(s, a, b)
}

/// The cells of a table row.
fn parse_table_row(t: &[char]) -> (r: Vec<Node>)
    ensures
        nodes_view(r@) == row_cells(t@),
{
    let content = strip_pipe_chars(t);
    let bar = str_chars("|");
    proof {
        reveal_strlit("|");
    }
    let parts = split_chars(content.as_slice(), bar.as_slice());
    let ghost ps = views(parts@);
    let mut cells: Vec<Node> = Vec::new();
    let mut k: usize = 0;
    while k < parts.len()
        invariant
            k <= parts@.len(),
            ps == views(parts@),
            ps == split(strip_pipes(t@), "|"@),
            nodes_view(cells@) == Seq::new(k as nat, |j: int| SNode::TableCell(inline(trim(ps[j])))),
        decreases parts@.len() - k,
    {
        let cell = trim_chars(parts[k].as_slice());
        let ghost prev = nodes_view(cells@);
        push_node(&mut cells, Node::TableCell(parse_inline_chars(cell.as_slice())));
        assert(nodes_view(cells@) =~= Seq::new((k + 1) as nat, |j: int| SNode::TableCell(inline(trim(ps[j])))));
        k = k + 1;
    }
    cells
}

/// The table at line `start`, if one starts there.
fn parse_table(ls: &Vec<Vec<char>>, start: usize) -> (r: Option<(Node, usize)>)
    requires
        start < ls@.len(),
    ensures
        match r {
            Some((n, c)) => table_applies(views(ls@), start as int) && table(views(ls@), start as int) == (n@, c as nat),
            None => !table_applies(views(ls@), start as int),
        },
{
    let ghost gls = views(ls@);
    let header_line = trimmed(ls, start);
    if !chars_start_with(header_line.as_slice(), "|") {
        return None;
    }
    if ls.len() - start < 2 {
        return None;
    }
    let sep_line = trimmed(ls, start + 1);
    let dashes = str_chars("---");
    if !chars_start_with(sep_line.as_slice(), "|") || !chars_contain(sep_line.as_slice(), dashes.as_slice()) {
        return None;
    }
    let header = parse_table_row(header_line.as_slice());
    let mut rows: Vec<Vec<Node>> = Vec::new();
    let total = ls.len();
    let mut i: usize = start + 2;
    proof {
        lemma_table_rows(gls, start + 2);
        assert(rows_view(rows@) =~= Seq::<Seq<SNode>>::empty());
    }
    loop
        invariant
            start + 2 <= i <= ls@.len(),
            total == ls@.len(),
            gls == views(ls@),
            rows@.len() == i - start - 2,
            rows_view(rows@) + table_rows(gls, i as int) == table_rows(gls, start + 2),
        ensures
            start + 2 <= i <= ls@.len(),
            rows@.len() == i - start - 2,
            rows_view(rows@) == table_rows(gls, start + 2),
        decreases ls@.len() - i,
    {
        if i >= ls.len() {
            assert(rows_view(rows@) + Seq::<Seq<SNode>>::empty() =~= rows_view(rows@));
            break;
        }
        let line = trimmed(ls, i);
        if line.len() == 0 || !chars_start_with(line.as_slice(), "|") {
            assert(rows_view(rows@) + Seq::<Seq<SNode>>::empty() =~= rows_view(rows@));
            break;
        }
        let row = parse_table_row(line.as_slice());
        let ghost prev = rows_view(rows@);
        proof {
            lemma_rows_view_push(rows@, row);
        }
        rows.push(row);
        assert(prev + table_rows(gls, i as int) =~= rows_view(rows@) + table_rows(gls, i + 1));
        i = i + 1;
    }
    proof {
        crate::ast::lemma_rows_view(rows@);
    }
    let r = Node::Table { header, rows };
    assert(r@ == table(gls, start as int).0);
    Some((r, i - start))
}

fn digits_upto(t: &[char], p: usize) -> (b: bool)
    requires
        p <= t@.len(),
    ensures
        b == all_digits(t@, p as int),
{
    let mut k: usize = 0;
    while k < p
        invariant
            k <= p <= t@.len(),
            all_digits(t@, k as int),
        decreases p - k,
    {
        if !('0' <= t[k] && t[k] <= '9') {
            assert(!is_digit(t@[k as int]));
            return false;
        }
        k = k + 1;
    }
    true
}

/// Exec counterpart of `is_list_item`.
fn is_list_item_chars(line: &[char]) -> (b: bool)
    ensures
        b == is_list_item(line@),
{
    let t = trim_chars(line);
    let ts = t.as_slice();
    if (chars_start_with(ts, "- ") || chars_start_with(ts, "* ") || chars_start_with(ts, "+ "))
        && !chars_start_with(ts, "---") && !chars_start_with(ts, "***") && !chars_start_with(ts, "___") {
        return true;
    }
    if t.len() > 0 && '0' <= t[0] && t[0] <= '9' {
        let pat = str_chars(". ");
        proof {
            reveal_strlit(". ");
            crate::text::lemma_find_from(t@, ". "@, 0);
        }
        match find_chars(ts, pat.as_slice(), 0) {
            Some(p) => {
                if p == 0 {
                    return false;
                }
                return digits_upto(ts, p);
            },
            None => {
                return false;
            },
        }
    }
    false
}

/// The list at line `start`, and the number of lines it takes.
fn parse_list(ls: &Vec<Vec<char>>, start: usize) -> (r: (Node, usize))
    requires
        start < ls@.len(),
    ensures
        ({
            let ordered = list_ordered(tl(views(ls@), start as int));
            let items = list_items(views(ls@), start as int, ordered);
            r.0@ == (SNode::List { ordered, items }) && r.1 == items.len()
        }),
{
    let ghost gls = views(ls@);
    let first = trimmed(ls, start);
    let ordered = first.len() > 0 && '0' <= first[0] && first[0] <= '9';
    let mut items: Vec<Node> = Vec::new();
    let total = ls.len();
    let mut i: usize = start;
    let pat = str_chars(". ");
    proof {
        reveal_strlit(". ");
        reveal_strlit("- ");
        reveal_strlit("* ");
        reveal_strlit("+ ");
        assert(nodes_view(items@) + list_items(gls, start as int, ordered) =~= list_items(gls, start as int, ordered));
    }
    loop
        invariant
            start <= i <= ls@.len(),
            total == ls@.len(),
            gls == views(ls@),
            pat@ == ". "@,
            ". "@.len() == 2,
            "- "@.len() == 2,
            "* "@.len() == 2,
            "+ "@.len() == 2,
            ordered == list_ordered(tl(gls, start as int)),
            items@.len() == i - start,
            nodes_view(items@) + list_items(gls, i as int, ordered) == list_items(gls, start as int, ordered),
        ensures
            start <= i <= ls@.len(),
            items@.len() == i - start,
            list_items(gls, start as int, ordered) == nodes_view(items@),
        decreases ls@.len() - i,
    {
        if i >= ls.len() {
            assert(nodes_view(items@) + Seq::<SNode>::empty() =~= nodes_view(items@));
            break;
        }
        let t = trimmed(ls, i);
        if t.len() == 0 {
            assert(nodes_view(items@) + Seq::<SNode>::empty() =~= nodes_view(items@));
            break;
        }
        let ghost prev = nodes_view(items@);
        let item_text: Vec<char>;
        if ordered {
            proof {
                crate::text::lemma_find_from(t@, ". "@, 0);
            }
            match find_chars(t.as_slice(), pat.as_slice(), 0) {
                Some(p) => {
                    item_text = copy_range(t.as_slice(), p + 2, t.len());
                },
                None => {
                    let l0 = char_utf8_len(t[0]);
                    if l0 == 2 {
                        item_text = copy_range(t.as_slice(), 1, t.len());
                    } else if l0 == 1 && t.len() >= 2 && char_utf8_len(t[1]) == 1 {
                        item_text = copy_range(t.as_slice(), 2, t.len());
                    } else {
                        assert(nodes_view(items@) + Seq::<SNode>::empty() =~= nodes_view(items@));
                        break;
                    }
                },
            }
        } else if chars_start_with(t.as_slice(), "- ") || chars_start_with(t.as_slice(), "* ")
            || chars_start_with(t.as_slice(), "+ ") {
            item_text = copy_range(t.as_slice(), 2, t.len());
        } else {
            assert(nodes_view(items@) + Seq::<SNode>::empty() =~= nodes_view(items@));
            break;
        }
        let children = parse_inline_chars(item_text.as_slice());
        push_node(&mut items, Node::ListItem(children));
        proof {
            let x = SNode::ListItem(inline(item_text@));
            assert(list_items(gls, i as int, ordered) == seq![x] + list_items(gls, i + 1, ordered));
            assert(prev + (seq![x] + list_items(gls, i + 1, ordered)) =~= prev.push(x) + list_items(gls, i + 1, ordered));
        }
        i = i + 1;
    }
    let n = i - start;
    proof {
        lemma_nodes_view(items@);
    }
    (Node::List { ordered, items }, n)
}

/// Exec counterpart of `stops_paragraph`.
fn stops_paragraph_chars(t: &[char]) -> (b: bool)
    ensures
        b == stops_paragraph(t@),
{
    chars_start_with(t, "#") || chars_start_with(t, ">") || chars_start_with(t, "```")
        || chars_start_with(t, "~~~") || chars_start_with(t, "|") || is_thematic_break(t)
        || is_list_item_chars(t)
}

/// The paragraph at line `start`, and the number of lines it takes.
fn parse_paragraph(ls: &Vec<Vec<char>>, start: usize) -> (r: (Node, usize))
    requires
        start < ls@.len(),
    ensures
        r.1 == para_block(views(ls@), start as int).len(),
        r.0@ == SNode::Paragraph(inline(join(para_block(views(ls@), start as int), "\n"@))),
{
    let ghost gls = views(ls@);
    let mut content: Vec<Vec<char>> = Vec::new();
    let total = ls.len();
    content.push(trimmed(ls, start));
    let mut i: usize = start + 1;
    proof {
        assert(views(content@) =~= seq![tl(gls, start as int)]);
    }
    loop
        invariant
            start < i <= ls@.len(),
            total == ls@.len(),
            gls == views(ls@),
            content@.len() == i - start,
            views(content@) + para_lines(gls, i as int) == para_block(gls, start as int),
        ensures
            start < i <= ls@.len(),
            content@.len() == i - start,
            views(content@) == para_block(gls, start as int),
        decreases ls@.len() - i,
    {
        if i >= ls.len() {
            assert(views(content@) + Seq::<Seq<char>>::empty() =~= views(content@));
            break;
        }
        let t = trimmed(ls, i);
        if t.len() == 0 || stops_paragraph_chars(t.as_slice()) {
            assert(views(content@) + Seq::<Seq<char>>::empty() =~= views(content@));
            break;
        }
        let ghost prev = views(content@);
        content.push(t);
        assert(views(content@) =~= prev.push(tl(gls, i as int)));
        assert(prev + para_lines(gls, i as int) =~= views(content@) + para_lines(gls, i + 1));
        i = i + 1;
    }
    let text = join_chars(&content, "\n");
    (Node::Paragraph(parse_inline_chars(text.as_slice())), i - start)
}

proof fn lemma_blocks_push(a: Seq<SNode>, x: SNode, r: Seq<SNode>)
    ensures
        a + (seq![x] + r) == a.push(x) + r,
{
    assert(a + (seq![x] + r) =~= a.push(x) + r);
}

/// Exec counterpart of `blocks`.
fn parse_lines(ls: &Vec<Vec<char>>) -> (r: Vec<Node>)
    ensures
        nodes_view(r@) == blocks(views(ls@), 0),
{
    let ghost gls = views(ls@);
    let mut nodes: Vec<Node> = Vec::new();
    let mut i: usize = 0;
    let total = ls.len();
    proof {
        assert(Seq::<SNode>::empty() + blocks(gls, 0) =~= blocks(gls, 0));
    }
    while i < ls.len()
        invariant
            i <= ls@.len(),
            total == ls@.len(),
            gls == views(ls@),
            nodes_view(nodes@) + blocks(gls, i as int) == blocks(gls, 0),
        decreases ls@.len() - i,
    {
        let t = trimmed(ls, i);
        let ghost gi = i as int;
        let ghost prev = nodes_view(nodes@);
        proof {
            lemma_code_len(gls, gi + 1, fence(t@)->0);
            lemma_quote_rest(gls, gi + 1);
            lemma_para_lines(gls, gi + 1);
            lemma_list_items(gls, gi, list_ordered(t@));
        }
        if t.len() == 0 {
            i = i + 1;
            continue;
        }
        match parse_heading(t.as_slice()) {
            Some(h) => {
                proof { lemma_blocks_push(prev, h@, blocks(gls, gi + 1)); }
                push_node(&mut nodes, h);
                i = i + 1;
                continue;
            },
            None => {},
        }
        if is_thematic_break(t.as_slice()) {
            proof { lemma_blocks_push(prev, SNode::ThematicBreak, blocks(gls, gi + 1)); }
            push_node(&mut nodes, Node::ThematicBreak);
            i = i + 1;
            continue;
        }
        match parse_code_block(ls, i) {
            Some((cb, n)) => {
                proof { lemma_blocks_push(prev, cb@, blocks(gls, gi + n)); }
                push_node(&mut nodes, cb);
                i = i + n;
                continue;
            },
            None => {},
        }
        if chars_start_with(t.as_slice(), ">") {
            let (bq, n) = parse_blockquote(ls, i);
            proof { lemma_blocks_push(prev, bq@, blocks(gls, gi + n)); }
            push_node(&mut nodes, bq);
            i = i + n;
            continue;
        }
        if chars_start_with(t.as_slice(), "|") && ls.len() - i > 1 && chars_start_with(trimmed(ls, i + 1).as_slice(), "|") {
            match parse_table(ls, i) {
                Some((tb, n)) => {
                    proof {
                        lemma_table_rows(gls, gi + 2);
                        lemma_blocks_push(prev, tb@, blocks(gls, gi + n));
                    }
                    push_node(&mut nodes, tb);
                    i = i + n;
                    continue;
                },
                None => {},
            }
        }
        if is_list_item_chars(t.as_slice()) {
            let (l, n) = parse_list(ls, i);
            if n > 0 {
                proof { lemma_blocks_push(prev, l@, blocks(gls, gi + n)); }
                push_node(&mut nodes, l);
                i = i + n;
                continue;
            }
        }
        let (para, n) = parse_paragraph(ls, i);
        proof { lemma_blocks_push(prev, para@, blocks(gls, gi + n)); }
        push_node(&mut nodes, para);
        i = i + n;
    }
    assert(nodes_view(nodes@) + Seq::<SNode>::empty() =~= nodes_view(nodes@));
    nodes
}

/// Markdown parser: converts Markdown text into a tree of nodes, line by line
/// for block elements, then inline elements within blocks.
pub struct Parser;

impl Default for Parser {
    fn default() -> (r: Self)
        ensures
            r == Parser,
    {
        Parser
    }
}

impl Parser {
    pub fn new() -> (r: Self)
        ensures
            r == Parser,
    {
        Parser
    }

    /// Parses Markdown text into a syntax tree.
    pub fn parse(&self, input: &str) -> (r: Node)
        ensures
            r@ == parse_md(input@),
    {
        let chars = str_chars(input);
        let ls = split_lines(chars.as_slice());
        Node::Document(parse_lines(&ls))
    }
}

} // verus!
