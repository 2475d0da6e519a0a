//! Counting the nodes of a syntax tree by kind.
use vstd::prelude::*;
use crate::ast::{children_of, lemma_child_decreases, refs_view, type_name_of, Node, SNode};

verus! {

/// Number of node kinds.
pub const NUM_KINDS: usize = 17;

/// Index of the kind of a node, in the order of [`crate::ast::Node`]'s variants.
pub open spec fn kind_of(n: SNode) -> int {
    match n {
        SNode::Document(_) => 0,
        SNode::Heading { .. } => 1,
        SNode::Paragraph(_) => 2,
        SNode::CodeBlock { .. } => 3,
        SNode::Blockquote(_) => 4,
        SNode::List { .. } => 5,
        SNode::ListItem(_) => 6,
        SNode::Table { .. } => 7,
        SNode::TableRow(_) => 8,
        SNode::TableCell(_) => 9,
        SNode::ThematicBreak => 10,
        SNode::Link { .. } => 11,
        SNode::Image { .. } => 12,
        SNode::Emphasis { .. } => 13,
        SNode::InlineCode(_) => 14,
        SNode::Text(_) => 15,
        SNode::LineBreak => 16,
    }
}

/// The type name of the `k`-th kind.
pub open spec fn kind_name(k: int) -> Seq<char> {
    if k == 0 { "document"@ } else if k == 1 { "heading"@ } else if k == 2 { "paragraph"@ }
    else if k == 3 { "code_block"@ } else if k == 4 { "blockquote"@ } else if k == 5 { "list"@ }
    else if k == 6 { "list_item"@ } else if k == 7 { "table"@ } else if k == 8 { "table_row"@ }
    else if k == 9 { "table_cell"@ } else if k == 10 { "thematic_break"@ } else if k == 11 { "link"@ }
    else if k == 12 { "image"@ } else if k == 13 { "emphasis"@ } else if k == 14 { "inline_code"@ }
    else if k == 15 { "text"@ } else { "line_break"@ }
}

/// Number of nodes of kind `k` in the tree `n`, `n` included.
pub open spec fn count_kind(n: SNode, k: int) -> nat
    decreases n, 1int, 0int,
{
    (if kind_of(n) == k { 1nat } else { 0nat }) + count_kids(n, k, 0)
}

/// Number of nodes of kind `k` in the trees of the children of `p` from the
/// `j`-th on (up to index `usize::MAX`, as far as a tree held in memory goes).
pub open spec fn count_kids(p: SNode, k: int, j: int) -> nat
    decreases p, 0int, children_of(p).len() - j,
{
    if j < 0 || j >= children_of(p).len() || j > usize::MAX {
        0
    } else {
        proof {
            lemma_child_decreases(p, j);
        }
        count_kind(children_of(p)[j], k) + count_kids(p, k, j + 1)
    }
}

/// The index of the kind of a node.
pub fn node_kind(node: &Node) -> (k: usize)
    ensures
        k == kind_of(node@),
{
    match node {
        Node::Document(_) => 0,
        Node::Heading { .. } => 1,
        Node::Paragraph(_) => 2,
        Node::CodeBlock { .. } => 3,
        Node::Blockquote(_) => 4,
        Node::List { .. } => 5,
        Node::ListItem(_) => 6,
        Node::Table { .. } => 7,
        Node::TableRow(_) => 8,
        Node::TableCell(_) => 9,
        Node::ThematicBreak => 10,
        Node::Link { .. } => 11,
        Node::Image { .. } => 12,
        Node::Emphasis { .. } => 13,
        Node::InlineCode(_) => 14,
        Node::Text(_) => 15,
        Node::LineBreak => 16,
    }
}

/// The type name of the `k`-th kind.
pub fn kind_type_name(k: usize) -> (r: &'static str)
    requires
        k < NUM_KINDS,
    ensures
        r@ == kind_name(k as int),
{
    if k == 0 { "document" } else if k == 1 { "heading" } else if k == 2 { "paragraph" }
    else if k == 3 { "code_block" } else if k == 4 { "blockquote" } else if k == 5 { "list" }
    else if k == 6 { "list_item" } else if k == 7 { "table" } else if k == 8 { "table_row" }
    else if k == 9 { "table_cell" } else if k == 10 { "thematic_break" } else if k == 11 { "link" }
    else if k == 12 { "image" } else if k == 13 { "emphasis" } else if k == 14 { "inline_code" }
    else if k == 15 { "text" } else { "line_break" }
}

/// The kind index of a node names its type.
pub proof fn lemma_kind_name(n: SNode)
    ensures
        0 <= kind_of(n) < NUM_KINDS,
        kind_name(kind_of(n)) == type_name_of(n),
{
}

/// Adds the nodes of the tree `node` to the counts per kind.
pub fn count_nodes(node: &Node, counts: &mut Vec<usize>)
    requires
        old(counts)@.len() == NUM_KINDS,
        forall|k: int| 0 <= k < NUM_KINDS ==> old(counts)@[k] + count_kind(node@, k) <= usize::MAX,
    ensures
        final(counts)@.len() == NUM_KINDS,
        forall|k: int| 0 <= k < NUM_KINDS ==> #[trigger] final(counts)@[k] == old(counts)@[k] + count_kind(node@, k),
    decreases node@,
{
    let ghost start = counts@;
    let kind = node_kind(node);
    let c = counts[kind];
    assert(start[kind as int] + count_kind(node@, kind as int) <= usize::MAX);
    counts.set(kind, c + 1);
    proof {
        assert forall|k: int| 0 <= k < NUM_KINDS implies #[trigger] counts@[k] + count_kids(node@, k, 0)
            == start[k] + count_kind(node@, k) by {
            if k == kind {
            } else {
                assert(counts@[k] == start[k]);
            }
        }
    }
    let ch = node.children();
    let mut i: usize = 0;
    while i < ch.len()
        invariant
            i <= ch@.len(),
            refs_view(ch@) == children_of(node@),
            counts@.len() == NUM_KINDS,
            start.len() == NUM_KINDS,
            forall|k: int| 0 <= k < NUM_KINDS ==> start[k] + count_kind(node@, k) <= usize::MAX,
            forall|k: int| 0 <= k < NUM_KINDS ==> #[trigger] counts@[k] + count_kids(node@, k, i as int)
                == start[k] + count_kind(node@, k),
        decreases ch@.len() - i,
    {
        proof {
            lemma_child_decreases(node@, i as int);
            assert(ch@[i as int]@ == children_of(node@)[i as int]);
            assert forall|k: int| 0 <= k < NUM_KINDS implies counts@[k] + count_kind(children_of(node@)[i as int], k) <= usize::MAX by {
                assert(count_kids(node@, k, i as int) == count_kind(children_of(node@)[i as int], k) + count_kids(node@, k, i + 1));
            }
        }
        let ghost before = counts@;
        count_nodes(ch[i], counts);
        proof {
            assert forall|k: int| 0 <= k < NUM_KINDS implies #[trigger] counts@[k] + count_kids(node@, k, i + 1)
                == start[k] + count_kind(node@, k) by {
                assert(count_kids(node@, k, i as int) == count_kind(children_of(node@)[i as int], k) + count_kids(node@, k, i + 1));
            }
        }
        i = i + 1;
    }
}

/// Whether entry `a` (a kind and its count) is listed before entry `b`: the
/// larger count first, equal counts in the order of the kinds.
pub open spec fn ranks_before(a: (usize, usize), b: (usize, usize)) -> bool {
    a.1 > b.1 || (a.1 == b.1 && a.0 < b.0)
}

/// Whether `r` lists the kinds whose count in `counts` is not zero, each once
/// with its count, the most frequent first.
pub open spec fn ranked(counts: Seq<usize>, r: Seq<(usize, usize)>) -> bool {
    &&& forall|i: int|
        0 <= i < r.len() ==> #[trigger] r[i].0 < counts.len() && r[i].1 == counts[r[i].0 as int] && r[i].1 > 0
    &&& forall|k: int| 0 <= k < counts.len() && counts[k] > 0 ==> exists|i: int| 0 <= i < r.len() && #[trigger] r[i].0 == k
    &&& forall|i: int, j: int| 0 <= i < j < r.len() ==> ranks_before(#[trigger] r[i], #[trigger] r[j])
}

/// The kinds that occur, with their counts, the most frequent first.
pub fn rank_counts(counts: &Vec<usize>) -> (r: Vec<(usize, usize)>)
    ensures
        ranked(counts@, r@),
{
    let mut r: Vec<(usize, usize)> = Vec::new();
    let mut k: usize = 0;
    while k < counts.len()
        invariant
            k <= counts@.len(),
            forall|i: int| 0 <= i < r@.len() ==> #[trigger] r@[i].0 < k && r@[i].1 == counts@[r@[i].0 as int] && r@[i].1 > 0,
            forall|q: int| 0 <= q < k && counts@[q] > 0 ==> exists|i: int| 0 <= i < r@.len() && #[trigger] r@[i].0 == q,
            forall|i: int, j: int| 0 <= i < j < r@.len() ==> ranks_before(#[trigger] r@[i], #[trigger] r@[j]),
        decreases counts@.len() - k,
    {
        let c = counts[k];
        if c > 0 {
            let mut p: usize = 0;
            while p < r.len() && r[p].1 >= c
                invariant
                    p <= r@.len(),
                    forall|i: int| 0 <= i < p ==> #[trigger] r@[i].1 >= c,
                decreases r@.len() - p,
            {
                p = p + 1;
            }
            let ghost old_r = r@;
            r.insert(p, (k, c));
            proof {
                assert forall|i: int, j: int| 0 <= i < j < r@.len() implies ranks_before(#[trigger] r@[i], #[trigger] r@[j]) by {
                    if i < p && j < p {
                        assert(r@[i] == old_r[i] && r@[j] == old_r[j]);
                    } else if i < p && j == p {
                        assert(r@[i] == old_r[i]);
                    } else if i < p {
                        assert(r@[i] == old_r[i] && r@[j] == old_r[j - 1]);
                    } else if i == p {
                        assert(r@[j] == old_r[j - 1]);
                        assert(old_r[p as int].1 < c);
                        if j - 1 > p {
                            assert(ranks_before(old_r[p as int], old_r[j - 1]));
                        }
                    } else {
                        assert(r@[i] == old_r[i - 1] && r@[j] == old_r[j - 1]);
                    }
                }
                assert forall|q: int| 0 <= q < k + 1 && counts@[q] > 0 implies exists|i: int|
                    0 <= i < r@.len() && #[trigger] r@[i].0 == q by {
                    if q == k {
                        assert(r@[p as int].0 == q);
                    } else {
                        let i = choose|i: int| 0 <= i < old_r.len() && #[trigger] old_r[i].0 == q;
                        if i < p {
                            assert(r@[i].0 == q);
                        } else {
                            assert(r@[i + 1].0 == q);
                        }
                    }
                }
                assert forall|i: int| 0 <= i < r@.len() implies #[trigger] r@[i].0 < k + 1 && r@[i].1 == counts@[r@[i].0 as int]
                    && r@[i].1 > 0 by {
                    if i < p {
                        assert(r@[i] == old_r[i]);
                    } else if i > p {
                        assert(r@[i] == old_r[i - 1]);
                    }
                }
            }
        }
        k = k + 1;
    }
    r
}

/// The sum of the first `n` counts.
pub open spec fn sum_to(s: Seq<usize>, n: int) -> nat
    decreases n,
{
    if n <= 0 || n > s.len() {
        0
    } else {
        sum_to(s, n - 1) + s[n - 1] as nat
    }
}

proof fn lemma_sum_to_grows(s: Seq<usize>, i: int, j: int)
    requires
        0 <= i <= j <= s.len(),
    ensures
        sum_to(s, i) <= sum_to(s, j),
    decreases j - i,
{
    if i < j {
        lemma_sum_to_grows(s, i, j - 1);
    }
}

/// The sum of the counts, if it fits in a `usize`.
pub fn total_count(counts: &Vec<usize>) -> (r: Option<usize>)
    ensures
        r == (if sum_to(counts@, counts@.len() as int) <= usize::MAX {
            Some(sum_to(counts@, counts@.len() as int) as usize)
        } else {
            None::<usize>
        }),
{
    let mut total: usize = 0;
    let mut i: usize = 0;
    while i < counts.len()
        invariant
            i <= counts@.len(),
            total == sum_to(counts@, i as int),
        decreases counts@.len() - i,
    {
        if counts[i] > usize::MAX - total {
            proof {
                lemma_sum_to_grows(counts@, i + 1, counts@.len() as int);
            }
            return None;
        }
        total = total + counts[i];
        i = i + 1;
    }
    Some(total)
}

} // verus!
