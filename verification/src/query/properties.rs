//! What holds of every query result.
use vstd::prelude::*;
use crate::ast::{attr_of, children_of, lemma_child_decreases, SNode};
use crate::query::executor::{
    child_hits, collect, collect_from, desc_hits, exec_sel, has_path, hit, hit_if, kids, multi_exec, node_matches, run_query,
    sel_children, sib_hits, unique, SMatch,
};
use crate::query::{comb, lex, parse_selector, sel, simple, SSel, SToken};
use crate::text::dec;
use crate::stats::{count_kids, count_kind, kind_name, kind_of, lemma_kind_name, NUM_KINDS};

verus! {

/// The node reached from `root` by following a path of child indices.
pub open spec fn node_at(root: SNode, path: Seq<usize>) -> Option<SNode>
    decreases path.len(),
{
    if path.len() == 0 {
        Some(root)
    } else if path[0] < children_of(root).len() {
        node_at(children_of(root)[path[0] as int], path.drop_first())
    } else {
        None
    }
}

/// Whether a node is one that selector `s` picks out: for a combinator, a node
/// that satisfies its right-hand part; for a list, one that one of them picks.
pub open spec fn selects(s: SSel, m: SNode) -> bool
    decreases s,
{
    match s {
        SSel::Child { child, .. } => node_matches(m, *child),
        SSel::Descendant { descendant, .. } => node_matches(m, *descendant),
        SSel::Sibling { after, .. } => node_matches(m, *after),
        SSel::Multi(v) => any_selects(v, m),
        _ => node_matches(m, s),
    }
}

/// Whether one of the selectors picks out `m`.
pub open spec fn any_selects(v: Seq<SSel>, m: SNode) -> bool
    decreases v,
{
    if v.len() == 0 {
        false
    } else {
        any_selects(v.drop_last(), m) || selects(v.last(), m)
    }
}

/// Each match lies in `root` at its path, and its depth is the length of that path.
pub open spec fn placed(root: SNode, rs: Seq<SMatch>) -> bool {
    forall|i: int|
        0 <= i < rs.len() ==> node_at(root, #[trigger] rs[i].path) == Some(rs[i].node) && rs[i].depth
            == rs[i].path.len()
}

/// Each match is a node that the selector picks out.
pub open spec fn all_selected(s: SSel, rs: Seq<SMatch>) -> bool {
    forall|i: int| 0 <= i < rs.len() ==> selects(s, #[trigger] rs[i].node)
}

/// Each match satisfies the selector on its own.
pub open spec fn all_matching(s: SSel, rs: Seq<SMatch>) -> bool {
    forall|i: int| 0 <= i < rs.len() ==> node_matches(#[trigger] rs[i].node, s)
}

proof fn lemma_node_at_push(root: SNode, path: Seq<usize>, k: usize)
    requires
        node_at(root, path) is Some,
        k < children_of(node_at(root, path)->0).len(),
    ensures
        node_at(root, path.push(k)) == Some(children_of(node_at(root, path)->0)[k as int]),
    decreases path.len(),
{
    if path.len() == 0 {
        let c = children_of(root)[k as int];
        assert(path.push(k).drop_first() =~= Seq::<usize>::empty());
        assert(path.push(k)[0] == k);
        assert(node_at(c, Seq::<usize>::empty()) == Some(c));
    } else {
        let c = children_of(root)[path[0] as int];
        assert(path.push(k).drop_first() =~= path.drop_first().push(k));
        assert(path.push(k)[0] == path[0]);
        lemma_node_at_push(c, path.drop_first(), k);
    }
}

proof fn lemma_concat(root: SNode, s: SSel, a: Seq<SMatch>, b: Seq<SMatch>)
    ensures
        placed(root, a) && placed(root, b) ==> placed(root, a + b),
        all_selected(s, a) && all_selected(s, b) ==> all_selected(s, a + b),
        all_matching(s, a) && all_matching(s, b) ==> all_matching(s, a + b),
{
    assert forall|i: int| 0 <= i < (a + b).len() implies (a + b)[i] == if i < a.len() {
        a[i]
    } else {
        b[i - a.len()]
    } by {}
    if placed(root, a) && placed(root, b) {
        assert forall|i: int| 0 <= i < (a + b).len() implies node_at(root, #[trigger] (a + b)[i].path) == Some(
            (a + b)[i].node,
        ) && (a + b)[i].depth == (a + b)[i].path.len() by {
            if i < a.len() {
                assert(a[i] == (a + b)[i]);
            } else {
                assert(b[i - a.len()] == (a + b)[i]);
            }
        }
    }
    if all_selected(s, a) && all_selected(s, b) {
        assert forall|i: int| 0 <= i < (a + b).len() implies selects(s, #[trigger] (a + b)[i].node) by {
            if i < a.len() {
                assert(a[i] == (a + b)[i]);
            } else {
                assert(b[i - a.len()] == (a + b)[i]);
            }
        }
    }
    if all_matching(s, a) && all_matching(s, b) {
        assert forall|i: int| 0 <= i < (a + b).len() implies node_matches(#[trigger] (a + b)[i].node, s) by {
            if i < a.len() {
                assert(a[i] == (a + b)[i]);
            } else {
                assert(b[i - a.len()] == (a + b)[i]);
            }
        }
    }
}

proof fn lemma_hit_if(root: SNode, s: SSel, b: bool, n: SNode, path: Seq<usize>)
    requires
        node_at(root, path) == Some(n),
        b ==> node_matches(n, s),
    ensures
        placed(root, hit_if(b, n, path)),
        all_matching(s, hit_if(b, n, path)),
{
    if b {
        assert(hit_if(b, n, path)[0] == hit(n, path));
    }
}

/// What holds of every match holds of every match that `unique` keeps.
proof fn lemma_unique_keeps(s: Seq<SMatch>, f: spec_fn(SMatch) -> bool)
    requires
        forall|j: int| 0 <= j < s.len() ==> f(#[trigger] s[j]),
    ensures
        forall|i: int| 0 <= i < unique(s).len() ==> f(#[trigger] unique(s)[i]),
    decreases s.len(),
{
    if s.len() > 0 {
        let dl = s.drop_last();
        assert forall|j: int| 0 <= j < dl.len() implies f(#[trigger] dl[j]) by {
            assert(dl[j] == s[j]);
        }
        lemma_unique_keeps(dl, f);
        assert(f(s[s.len() - 1]));
        let u = unique(dl);
        assert forall|i: int| 0 <= i < unique(s).len() implies f(#[trigger] unique(s)[i]) by {
            if i < u.len() {
                assert(unique(s)[i] == u[i]);
            } else {
                assert(unique(s)[i] == s.last());
            }
        }
    }
}

/// `unique` keeps every path of `s`, each once.
proof fn lemma_unique_paths(s: Seq<SMatch>)
    ensures
        forall|p: Seq<usize>| has_path(s, p) ==> has_path(unique(s), p),
        forall|i: int, j: int| 0 <= i < j < unique(s).len() ==> #[trigger] unique(s)[i].path != #[trigger] unique(s)[j].path,
    decreases s.len(),
{
    if s.len() > 0 {
        let dl = s.drop_last();
        let u = unique(dl);
        lemma_unique_paths(dl);
        assert forall|p: Seq<usize>| has_path(s, p) implies has_path(unique(s), p) by {
            let k = choose|k: int| 0 <= k < s.len() && #[trigger] s[k].path == p;
            if k < dl.len() {
                assert(dl[k].path == p);
                assert(has_path(dl, p));
                let q = choose|q: int| 0 <= q < u.len() && #[trigger] u[q].path == p;
                assert(unique(s)[q] == u[q]);
            } else if has_path(u, s.last().path) {
            } else {
                assert(unique(s)[u.len() as int] == s.last());
            }
        }
        if !has_path(u, s.last().path) {
            assert forall|i: int, j: int| 0 <= i < j < unique(s).len() implies #[trigger] unique(s)[i].path != #[trigger] unique(s)[j].path by {
                if j == u.len() {
                    assert(unique(s)[i] == u[i]);
                    if u[i].path == s.last().path {
                        assert(has_path(u, s.last().path));
                    }
                } else {
                    assert(unique(s)[i] == u[i] && unique(s)[j] == u[j]);
                }
            }
        }
    }
}

proof fn lemma_exec_sel(root: SNode, n: SNode, s: SSel, path: Seq<usize>)
    requires
        node_at(root, path) == Some(n),
    ensures
        placed(root, exec_sel(n, s, path)),
        all_selected(s, exec_sel(n, s, path)),
    decreases s, n, 1int, 0int,
{
    match s {
        SSel::Child { parent, child } => {
            lemma_exec_sel(root, n, *parent, path);
            lemma_child_hits(root, exec_sel(n, *parent, path), *child);
            let r = exec_sel(n, s, path);
            assert forall|i: int| 0 <= i < r.len() implies selects(s, #[trigger] r[i].node) by {
                assert(node_matches(r[i].node, *child));
            }
        },
        SSel::Descendant { ancestor, descendant } => {
            lemma_exec_sel(root, n, *ancestor, path);
            let d = desc_hits(exec_sel(n, *ancestor, path), *descendant);
            lemma_desc_hits(root, exec_sel(n, *ancestor, path), *descendant);
            let f = |m: SMatch| node_at(root, m.path) == Some(m.node) && m.depth == m.path.len() && node_matches(m.node, *descendant);
            assert forall|j: int| 0 <= j < d.len() implies f(#[trigger] d[j]) by {}
            lemma_unique_keeps(d, f);
            let r = exec_sel(n, s, path);
            assert forall|i: int| 0 <= i < r.len() implies node_at(root, #[trigger] r[i].path) == Some(r[i].node) && r[i].depth == r[i].path.len() by {
                assert(f(r[i]));
            }
            assert forall|i: int| 0 <= i < r.len() implies selects(s, #[trigger] r[i].node) by {
                assert(node_matches(r[i].node, *descendant));
            }
        },
        SSel::Sibling { before, after } => {
            lemma_sib_hits(root, n, *before, *after, path, 0, false);
            let r = exec_sel(n, s, path);
            assert forall|i: int| 0 <= i < r.len() implies selects(s, #[trigger] r[i].node) by {
                assert(node_matches(r[i].node, *after));
            }
        },
        SSel::Multi(v) => {
            lemma_multi_exec(root, n, v, path);
        },
        _ => {
            lemma_hit_if(root, s, node_matches(n, s), n, path);
            lemma_sel_children(root, n, s, path, 0);
            lemma_concat(root, s, hit_if(node_matches(n, s), n, path), sel_children(n, s, path, 0));
            let r = exec_sel(n, s, path);
            assert forall|i: int| 0 <= i < r.len() implies selects(s, #[trigger] r[i].node) by {
                assert(node_matches(r[i].node, s));
            }
        },
    }
}

proof fn lemma_sel_children(root: SNode, p: SNode, s: SSel, path: Seq<usize>, k: int)
    requires
        node_at(root, path) == Some(p),
        !(s is Child || s is Descendant || s is Sibling || s is Multi),
    ensures
        placed(root, sel_children(p, s, path, k)),
        all_matching(s, sel_children(p, s, path, k)),
    decreases s, p, 0int, children_of(p).len() - k,
{
    if 0 <= k < children_of(p).len() && k <= usize::MAX {
        lemma_child_decreases(p, k);
        let c = children_of(p)[k];
        lemma_node_at_push(root, path, k as usize);
        lemma_exec_sel(root, c, s, path.push(k as usize));
        lemma_sel_children(root, p, s, path, k + 1);
        let a = exec_sel(c, s, path.push(k as usize));
        assert forall|i: int| 0 <= i < a.len() implies node_matches(#[trigger] a[i].node, s) by {
            assert(selects(s, a[i].node));
        }
        lemma_concat(root, s, a, sel_children(p, s, path, k + 1));
    }
}

proof fn lemma_multi_exec(root: SNode, n: SNode, v: Seq<SSel>, path: Seq<usize>)
    requires
        node_at(root, path) == Some(n),
    ensures
        placed(root, multi_exec(n, v, path)),
        all_selected(SSel::Multi(v), multi_exec(n, v, path)),
    decreases v, n, 0int, 0int,
{
    if v.len() > 0 {
        let dl = v.drop_last();
        lemma_multi_exec(root, n, dl, path);
        lemma_exec_sel(root, n, v.last(), path);
        let a = multi_exec(n, dl, path);
        let b = exec_sel(n, v.last(), path);
        assert forall|i: int| 0 <= i < a.len() implies selects(SSel::Multi(v), #[trigger] a[i].node) by {
            assert(selects(SSel::Multi(dl), a[i].node));
        }
        assert forall|i: int| 0 <= i < b.len() implies selects(SSel::Multi(v), #[trigger] b[i].node) by {
            assert(selects(v.last(), b[i].node));
        }
        lemma_concat(root, SSel::Multi(v), a, b);
    }
}

proof fn lemma_kids(root: SNode, p: SNode, cs: SSel, base: Seq<usize>, k: int)
    requires
        node_at(root, base) == Some(p),
    ensures
        placed(root, kids(p, cs, base, k)),
        all_matching(cs, kids(p, cs, base, k)),
    decreases children_of(p).len() - k,
{
    if 0 <= k < children_of(p).len() && k <= usize::MAX {
        let c = children_of(p)[k];
        lemma_node_at_push(root, base, k as usize);
        lemma_hit_if(root, cs, node_matches(c, cs), c, base.push(k as usize));
        lemma_kids(root, p, cs, base, k + 1);
        lemma_concat(root, cs, hit_if(node_matches(c, cs), c, base.push(k as usize)), kids(p, cs, base, k + 1));
    }
}

proof fn lemma_child_hits(root: SNode, pms: Seq<SMatch>, cs: SSel)
    requires
        placed(root, pms),
    ensures
        placed(root, child_hits(pms, cs)),
        all_matching(cs, child_hits(pms, cs)),
    decreases pms.len(),
{
    if pms.len() > 0 {
        let dl = pms.drop_last();
        assert forall|i: int| 0 <= i < dl.len() implies node_at(root, #[trigger] dl[i].path) == Some(dl[i].node)
            && dl[i].depth == dl[i].path.len() by {
            assert(dl[i] == pms[i]);
        }
        lemma_child_hits(root, dl, cs);
        let last = pms.last();
        assert(last == pms[pms.len() - 1]);
        lemma_kids(root, last.node, cs, last.path, 0);
        lemma_concat(root, cs, child_hits(dl, cs), kids(last.node, cs, last.path, 0));
    }
}

proof fn lemma_collect(root: SNode, n: SNode, s: SSel, base: Seq<usize>)
    requires
        node_at(root, base) == Some(n),
    ensures
        placed(root, collect(n, s, base)),
        all_matching(s, collect(n, s, base)),
    decreases n, 1int, 0int,
{
    lemma_collect_from(root, n, s, base, 0);
}

proof fn lemma_collect_from(root: SNode, p: SNode, s: SSel, base: Seq<usize>, k: int)
    requires
        node_at(root, base) == Some(p),
    ensures
        placed(root, collect_from(p, s, base, k)),
        all_matching(s, collect_from(p, s, base, k)),
    decreases p, 0int, children_of(p).len() - k,
{
    if 0 <= k < children_of(p).len() && k <= usize::MAX {
        lemma_child_decreases(p, k);
        let c = children_of(p)[k];
        let b2 = base.push(k as usize);
        lemma_node_at_push(root, base, k as usize);
        lemma_hit_if(root, s, node_matches(c, s), c, b2);
        lemma_collect(root, c, s, b2);
        lemma_collect_from(root, p, s, base, k + 1);
        lemma_concat(root, s, hit_if(node_matches(c, s), c, b2), collect(c, s, b2));
        lemma_concat(root, s, hit_if(node_matches(c, s), c, b2) + collect(c, s, b2), collect_from(p, s, base, k + 1));
    }
}

proof fn lemma_desc_hits(root: SNode, ams: Seq<SMatch>, ds: SSel)
    requires
        placed(root, ams),
    ensures
        placed(root, desc_hits(ams, ds)),
        all_matching(ds, desc_hits(ams, ds)),
    decreases ams.len(),
{
    if ams.len() > 0 {
        let dl = ams.drop_last();
        assert forall|i: int| 0 <= i < dl.len() implies node_at(root, #[trigger] dl[i].path) == Some(dl[i].node)
            && dl[i].depth == dl[i].path.len() by {
            assert(dl[i] == ams[i]);
        }
        lemma_desc_hits(root, dl, ds);
        let last = ams.last();
        assert(last == ams[ams.len() - 1]);
        lemma_collect(root, last.node, ds, last.path);
        lemma_concat(root, ds, desc_hits(dl, ds), collect(last.node, ds, last.path));
    }
}

proof fn lemma_sib_hits(root: SNode, p: SNode, before: SSel, after: SSel, path: Seq<usize>, k: int, prev: bool)
    requires
        node_at(root, path) == Some(p),
    ensures
        placed(root, sib_hits(p, before, after, path, k, prev)),
        all_matching(after, sib_hits(p, before, after, path, k, prev)),
    decreases p, children_of(p).len() - k,
{
    if 0 <= k < children_of(p).len() && k <= usize::MAX {
        lemma_child_decreases(p, k);
        let c = children_of(p)[k];
        let cp = path.push(k as usize);
        lemma_node_at_push(root, path, k as usize);
        lemma_hit_if(root, after, prev && node_matches(c, after), c, cp);
        let h = if prev {
            hit_if(node_matches(c, after), c, cp)
        } else {
            Seq::empty()
        };
        assert(h == hit_if(prev && node_matches(c, after), c, cp));
        let below = sib_hits(c, before, after, cp, 0, false);
        let rest = sib_hits(p, before, after, path, k + 1, node_matches(c, before));
        lemma_sib_hits(root, c, before, after, cp, 0, false);
        lemma_sib_hits(root, p, before, after, path, k + 1, node_matches(c, before));
        lemma_concat(root, after, h, below);
        lemma_concat(root, after, h + below, rest);
    }
}

/// Every match that a query returns is the node found in the tree at the
/// match's path of child indices, its depth is the length of that path, and
/// it is a node that the query's selector picks out (for `a > b`, `a b` and
/// `a + b` a node that satisfies `b`; for a list, one that one of its
/// selectors picks out).
pub proof fn query_matches_lie_at_their_paths(ast: SNode, q: Seq<char>)
    ensures
        run_query(ast, q) matches Ok(rs) ==> placed(ast, rs),
        lex(q) matches Ok(toks) ==> (parse_selector(toks) matches Ok(s) ==> (run_query(ast, q) matches Ok(rs)
            && all_selected(s, rs))),
{
    if lex(q) is Ok {
        let toks = lex(q)->Ok_0;
        if parse_selector(toks) is Ok {
            let s = parse_selector(toks)->Ok_0;
            lemma_exec_sel(ast, ast, s, Seq::empty());
        }
    }
}

/// Reads a kind's index back from its type name, by its length and two of its characters.
spec fn kind_code(t: Seq<char>) -> int {
    let n = t.len();
    if n == 7 { 1 }
    else if n == 11 { 14 }
    else if n == 14 { 10 }
    else if n == 8 { if t[0] == 'd' { 0 } else { 13 } }
    else if n == 5 { if t[0] == 't' { 7 } else { 12 } }
    else if n == 9 { if t[0] == 'p' { 2 } else if t[0] == 'l' { 6 } else { 8 } }
    else if n == 10 { if t[0] == 'c' { 3 } else if t[0] == 'b' { 4 } else if t[0] == 't' { 9 } else { 16 } }
    else { if t[0] == 't' { 15 } else if t[2] == 's' { 5 } else { 11 } }
}

proof fn lemma_kind_code(k: int)
    requires
        0 <= k < NUM_KINDS,
    ensures
        kind_code(kind_name(k)) == k,
{
    if k == 0 { reveal_strlit("document"); }
    else if k == 1 { reveal_strlit("heading"); }
    else if k == 2 { reveal_strlit("paragraph"); }
    else if k == 3 { reveal_strlit("code_block"); }
    else if k == 4 { reveal_strlit("blockquote"); }
    else if k == 5 { reveal_strlit("list"); }
    else if k == 6 { reveal_strlit("list_item"); }
    else if k == 7 { reveal_strlit("table"); }
    else if k == 8 { reveal_strlit("table_row"); }
    else if k == 9 { reveal_strlit("table_cell"); }
    else if k == 10 { reveal_strlit("thematic_break"); }
    else if k == 11 { reveal_strlit("link"); }
    else if k == 12 { reveal_strlit("image"); }
    else if k == 13 { reveal_strlit("emphasis"); }
    else if k == 14 { reveal_strlit("inline_code"); }
    else if k == 15 { reveal_strlit("text"); }
    else { reveal_strlit("line_break"); }
}

proof fn lemma_kind_names_differ(j: int, k: int)
    requires
        0 <= j < NUM_KINDS,
        0 <= k < NUM_KINDS,
        kind_name(j) == kind_name(k),
    ensures
        j == k,
{
    lemma_kind_code(j);
    lemma_kind_code(k);
}

/// A node satisfies the type selector of the `k`-th kind exactly when it is of that kind.
proof fn lemma_type_selector_kind(m: SNode, k: int)
    requires
        0 <= k < NUM_KINDS,
    ensures
        node_matches(m, SSel::Type(kind_name(k))) <==> kind_of(m) == k,
{
    lemma_kind_name(m);
    if kind_name(kind_of(m)) == kind_name(k) {
        lemma_kind_names_differ(kind_of(m), k);
    }
}

proof fn lemma_count_type(n: SNode, k: int, path: Seq<usize>)
    requires
        0 <= k < NUM_KINDS,
    ensures
        exec_sel(n, SSel::Type(kind_name(k)), path).len() == count_kind(n, k),
    decreases n, 1int, 0int,
{
    lemma_type_selector_kind(n, k);
    lemma_count_type_kids(n, k, path, 0);
}

proof fn lemma_count_type_kids(p: SNode, k: int, path: Seq<usize>, j: int)
    requires
        0 <= k < NUM_KINDS,
    ensures
        sel_children(p, SSel::Type(kind_name(k)), path, j).len() == count_kids(p, k, j),
    decreases p, 0int, children_of(p).len() - j,
{
    if 0 <= j < children_of(p).len() {
        lemma_child_decreases(p, j);
        lemma_count_type(children_of(p)[j], k, path.push(j as usize));
        lemma_count_type_kids(p, k, path, j + 1);
    }
}

/// A query that is one type name counts the nodes of that kind: its tokens
/// read as the type selector, and that selector has as many matches as the
/// tree has nodes of that kind, the number that the statistics give for it.
pub proof fn type_query_counts_nodes_of_kind(ast: SNode, k: int)
    requires
        0 <= k < NUM_KINDS,
    ensures
        parse_selector(seq![SToken::Ident(kind_name(k)), SToken::Eof]) == Ok::<SSel, Seq<char>>(
            SSel::Type(kind_name(k)),
        ),
        exec_sel(ast, SSel::Type(kind_name(k)), Seq::empty()).len() == count_kind(ast, k),
{
    lemma_count_type(ast, k, Seq::empty());
}

// ---------------------------------------------------------------------------
// Combinators
// ---------------------------------------------------------------------------

/// Whether the parent of `m` (the path without its last index) is the path of one of `pms`.
pub open spec fn has_parent_in(m: SMatch, pms: Seq<SMatch>) -> bool {
    m.path.len() > 0 && exists|j: int| 0 <= j < pms.len() && #[trigger] pms[j].path == m.path.drop_last()
}

/// Whether `a` is a proper prefix of `b`.
pub open spec fn proper_prefix(a: Seq<usize>, b: Seq<usize>) -> bool {
    a.len() < b.len() && b.take(a.len() as int) == a
}

/// Whether the path of one of `ams` is a proper prefix of the path of `m`.
pub open spec fn has_ancestor_in(m: SMatch, ams: Seq<SMatch>) -> bool {
    exists|j: int| 0 <= j < ams.len() && #[trigger] proper_prefix(ams[j].path, m.path)
}

/// Whether the node at `rel` below `n` has a previous sibling, and that
/// sibling satisfies `before`.
pub open spec fn after_sibling(n: SNode, before: SSel, rel: Seq<usize>) -> bool {
    &&& rel.len() > 0
    &&& rel.last() >= 1
    &&& node_at(n, rel.drop_last().push((rel.last() - 1) as usize)) matches Some(b) && node_matches(b, before)
}

/// Whether `m` lies below `n` (found at `path`), right after a sibling that satisfies `before`.
pub open spec fn follows_sibling(m: SMatch, n: SNode, before: SSel, path: Seq<usize>) -> bool {
    exists|rel: Seq<usize>| #[trigger] after_sibling(n, before, rel) && m.path == path + rel
}

proof fn lemma_kids_under(p: SNode, cs: SSel, base: Seq<usize>, k: int)
    ensures
        forall|i: int|
            0 <= i < kids(p, cs, base, k).len() ==> #[trigger] kids(p, cs, base, k)[i].path.len() == base.len() + 1
                && kids(p, cs, base, k)[i].path.drop_last() == base,
    decreases children_of(p).len() - k,
{
    if 0 <= k < children_of(p).len() && k <= usize::MAX {
        let c = children_of(p)[k];
        let h = hit_if(node_matches(c, cs), c, base.push(k as usize));
        let rest = kids(p, cs, base, k + 1);
        lemma_kids_under(p, cs, base, k + 1);
        assert(base.push(k as usize).drop_last() =~= base);
        assert forall|i: int| 0 <= i < (h + rest).len() implies #[trigger] (h + rest)[i].path.len() == base.len() + 1
            && (h + rest)[i].path.drop_last() == base by {
            if i < h.len() {
                assert((h + rest)[i] == h[i]);
            } else {
                assert((h + rest)[i] == rest[i - h.len()]);
            }
        }
    }
}

proof fn lemma_child_hits_parents(pms: Seq<SMatch>, cs: SSel)
    ensures
        forall|i: int| 0 <= i < child_hits(pms, cs).len() ==> has_parent_in(#[trigger] child_hits(pms, cs)[i], pms),
    decreases pms.len(),
{
    if pms.len() > 0 {
        let dl = pms.drop_last();
        let last = pms.last();
        let a = child_hits(dl, cs);
        let b = kids(last.node, cs, last.path, 0);
        lemma_child_hits_parents(dl, cs);
        lemma_kids_under(last.node, cs, last.path, 0);
        assert forall|i: int| 0 <= i < (a + b).len() implies has_parent_in(#[trigger] (a + b)[i], pms) by {
            if i < a.len() {
                assert((a + b)[i] == a[i]);
                assert(has_parent_in(a[i], dl));
                let j = choose|j: int| 0 <= j < dl.len() && #[trigger] dl[j].path == a[i].path.drop_last();
                assert(dl[j] == pms[j]);
            } else {
                assert((a + b)[i] == b[i - a.len()]);
                assert(b[i - a.len()].path.drop_last() == last.path);
                assert(pms[pms.len() - 1] == last);
            }
        }
    }
}

proof fn lemma_collect_below(n: SNode, s: SSel, base: Seq<usize>)
    ensures
        forall|i: int| 0 <= i < collect(n, s, base).len() ==> proper_prefix(base, #[trigger] collect(n, s, base)[i].path),
    decreases n, 1int, 0int,
{
    lemma_collect_from_below(n, s, base, 0);
}

proof fn lemma_collect_from_below(p: SNode, s: SSel, base: Seq<usize>, k: int)
    ensures
        forall|i: int|
            0 <= i < collect_from(p, s, base, k).len() ==> proper_prefix(
                base,
                #[trigger] collect_from(p, s, base, k)[i].path,
            ),
    decreases p, 0int, children_of(p).len() - k,
{
    if 0 <= k < children_of(p).len() && k <= usize::MAX {
        lemma_child_decreases(p, k);
        let c = children_of(p)[k];
        let b2 = base.push(k as usize);
        let h = hit_if(node_matches(c, s), c, b2);
        let m = collect(c, s, b2);
        let rest = collect_from(p, s, base, k + 1);
        lemma_collect_below(c, s, b2);
        lemma_collect_from_below(p, s, base, k + 1);
        assert(b2.take(base.len() as int) =~= base);
        assert forall|i: int| 0 <= i < (h + m + rest).len() implies proper_prefix(base, #[trigger] (h + m + rest)[i].path) by {
            if i < h.len() {
                assert((h + m + rest)[i] == h[i]);
            } else if i < h.len() + m.len() {
                assert((h + m + rest)[i] == m[i - h.len()]);
                let q = m[i - h.len()].path;
                assert(proper_prefix(b2, q));
                assert(q.take(base.len() as int) =~= b2.take(base.len() as int));
            } else {
                assert((h + m + rest)[i] == rest[i - h.len() - m.len()]);
            }
        }
    }
}

proof fn lemma_desc_hits_ancestors(ams: Seq<SMatch>, ds: SSel)
    ensures
        forall|i: int| 0 <= i < desc_hits(ams, ds).len() ==> has_ancestor_in(#[trigger] desc_hits(ams, ds)[i], ams),
    decreases ams.len(),
{
    if ams.len() > 0 {
        let dl = ams.drop_last();
        let last = ams.last();
        let a = desc_hits(dl, ds);
        let b = collect(last.node, ds, last.path);
        lemma_desc_hits_ancestors(dl, ds);
        lemma_collect_below(last.node, ds, last.path);
        assert forall|i: int| 0 <= i < (a + b).len() implies has_ancestor_in(#[trigger] (a + b)[i], ams) by {
            if i < a.len() {
                assert((a + b)[i] == a[i]);
                assert(has_ancestor_in(a[i], dl));
                let j = choose|j: int| 0 <= j < dl.len() && #[trigger] proper_prefix(dl[j].path, a[i].path);
                assert(dl[j] == ams[j]);
            } else {
                assert((a + b)[i] == b[i - a.len()]);
                assert(ams[ams.len() - 1] == last);
                assert(proper_prefix(ams[ams.len() - 1].path, b[i - a.len()].path));
            }
        }
    }
}

proof fn lemma_sib_hits_follow(
    n: SNode,
    p: SNode,
    before: SSel,
    after: SSel,
    path: Seq<usize>,
    rel: Seq<usize>,
    k: int,
    prev: bool,
)
    requires
        node_at(n, rel) == Some(p),
        k >= 0,
        prev ==> 1 <= k && k - 1 < children_of(p).len() && node_matches(children_of(p)[k - 1], before),
    ensures
        forall|i: int|
            0 <= i < sib_hits(p, before, after, path + rel, k, prev).len() ==> follows_sibling(
                #[trigger] sib_hits(p, before, after, path + rel, k, prev)[i],
                n,
                before,
                path,
            ),
    decreases p, children_of(p).len() - k,
{
    if 0 <= k < children_of(p).len() && k <= usize::MAX {
        lemma_child_decreases(p, k);
        let c = children_of(p)[k];
        let cr = rel.push(k as usize);
        let cp = (path + rel).push(k as usize);
        assert(cp =~= path + cr);
        lemma_node_at_push(n, rel, k as usize);
        let h = if prev {
            hit_if(node_matches(c, after), c, cp)
        } else {
            Seq::empty()
        };
        let below = sib_hits(c, before, after, cp, 0, false);
        let rest = sib_hits(p, before, after, path + rel, k + 1, node_matches(c, before));
        lemma_sib_hits_follow(n, c, before, after, path, cr, 0, false);
        lemma_sib_hits_follow(n, p, before, after, path, rel, k + 1, node_matches(c, before));
        if prev {
            lemma_node_at_push(n, rel, (k - 1) as usize);
            assert(cr.drop_last() =~= rel);
            assert(after_sibling(n, before, cr));
        }
        assert forall|i: int| 0 <= i < (h + below + rest).len() implies follows_sibling(
            #[trigger] (h + below + rest)[i],
            n,
            before,
            path,
        ) by {
            if i < h.len() {
                assert((h + below + rest)[i] == h[i]);
                assert(h[i].path == path + cr);
            } else if i < h.len() + below.len() {
                assert((h + below + rest)[i] == below[i - h.len()]);
            } else {
                assert((h + below + rest)[i] == rest[i - h.len() - below.len()]);
            }
        }
    }
}

/// The combinators relate each match to the matches of their left-hand part:
/// a match of `a > b` is a child of a match of `a`, a match of `a b` lies
/// below a match of `a`, and a match of `a + b` lies, at any depth below the
/// node searched, right after a sibling that satisfies `a`.
pub proof fn combinator_matches_follow_their_left_part(n: SNode, a: SSel, b: SSel, path: Seq<usize>)
    ensures
        ({
            let rs = exec_sel(n, SSel::Child { parent: Box::new(a), child: Box::new(b) }, path);
            forall|i: int| 0 <= i < rs.len() ==> has_parent_in(#[trigger] rs[i], exec_sel(n, a, path))
        }),
        ({
            let rs = exec_sel(n, SSel::Descendant { ancestor: Box::new(a), descendant: Box::new(b) }, path);
            forall|i: int| 0 <= i < rs.len() ==> has_ancestor_in(#[trigger] rs[i], exec_sel(n, a, path))
        }),
        ({
            let rs = exec_sel(n, SSel::Sibling { before: Box::new(a), after: Box::new(b) }, path);
            forall|i: int| 0 <= i < rs.len() ==> follows_sibling(#[trigger] rs[i], n, a, path)
        }),
{
    let pa = exec_sel(n, a, path);
    lemma_child_hits_parents(pa, b);
    lemma_desc_hits_ancestors(pa, b);
    let d = desc_hits(pa, b);
    let f = |m: SMatch| has_ancestor_in(m, pa);
    assert forall|j: int| 0 <= j < d.len() implies f(#[trigger] d[j]) by {}
    lemma_unique_keeps(d, f);
    let u = unique(d);
    assert forall|i: int| 0 <= i < u.len() implies has_ancestor_in(#[trigger] u[i], pa) by {
        assert(f(u[i]));
    }
    assert(path + Seq::<usize>::empty() =~= path);
    assert(node_at(n, Seq::<usize>::empty()) == Some(n));
    lemma_sib_hits_follow(n, n, a, b, path, Seq::empty(), 0, false);
}

// ---------------------------------------------------------------------------
// Attribute filters
// ---------------------------------------------------------------------------

proof fn lemma_dec_len(n: nat)
    ensures
        dec(n).len() >= 1,
        dec(n).len() == 1 <==> n < 10,
    decreases n,
{
    if n >= 10 {
        lemma_dec_len(n / 10);
    }
}

/// Different numbers have different decimal representations.
proof fn lemma_dec_injective(a: nat, b: nat)
    requires
        dec(a) == dec(b),
    ensures
        a == b,
    decreases a,
{
    lemma_dec_len(a);
    lemma_dec_len(b);
    if a >= 10 && b >= 10 {
        assert(dec(a).drop_last() == dec(a / 10));
        assert(dec(b).drop_last() == dec(b / 10));
        assert(dec(a).last() == crate::text::digit_char((a % 10) as int));
        assert(dec(b).last() == crate::text::digit_char((b % 10) as int));
        assert(a % 10 == b % 10);
        lemma_dec_injective(a / 10, b / 10);
        assert(a == 10 * (a / 10) + a % 10);
        assert(b == 10 * (b / 10) + b % 10);
        assert(a == b);
    } else {
        assert(a < 10 && b < 10);
        assert(dec(a) == seq![crate::text::digit_char(a as int)]);
        assert(dec(b) == seq![crate::text::digit_char(b as int)]);
        assert(seq![crate::text::digit_char(a as int)][0] == crate::text::digit_char(a as int));
        assert(seq![crate::text::digit_char(b as int)][0] == crate::text::digit_char(b as int));
        assert(crate::text::digit_char(a as int) == crate::text::digit_char(b as int));
        assert(a == b);
    }
}

/// The filter `heading[level=L]` picks out exactly the headings of level `L`.
pub proof fn level_filter_selects_headings_of_that_level(m: SNode, level: u8)
    ensures
        node_matches(m, SSel::WithAttr { node_type: "heading"@, key: "level"@, value: dec(level as nat) }) <==> (
        m matches SNode::Heading { level: l, .. } && l == level),
{
    lemma_type_selector_kind(m, 1);
    if let SNode::Heading { level: l, .. } = m {
        if dec(l as nat) == dec(level as nat) {
            lemma_dec_injective(l as nat, level as nat);
        }
    }
}

// ---------------------------------------------------------------------------
// Lists of selectors
// ---------------------------------------------------------------------------

/// A list of two type names, `a, b`, reads as the list of the two type
/// selectors, and its matches are those of `a` followed by those of `b`.
pub proof fn list_query_concatenates_its_parts(n: SNode, a: Seq<char>, b: Seq<char>, path: Seq<usize>)
    ensures
        parse_selector(seq![SToken::Ident(a), SToken::Comma, SToken::Ident(b), SToken::Eof]) == Ok::<SSel, Seq<char>>(
            SSel::Multi(seq![SSel::Type(a), SSel::Type(b)]),
        ),
        exec_sel(n, SSel::Multi(seq![SSel::Type(a), SSel::Type(b)]), path) == exec_sel(n, SSel::Type(a), path)
            + exec_sel(n, SSel::Type(b), path),
{
    let toks = seq![SToken::Ident(a), SToken::Comma, SToken::Ident(b), SToken::Eof];
    assert(simple(toks, 0) == Ok::<(SSel, int), Seq<char>>((SSel::Type(a), 1)));
    assert(simple(toks, 2) == Ok::<(SSel, int), Seq<char>>((SSel::Type(b), 3)));
    assert(comb(toks, 3, SSel::Type(b)) == Ok::<(SSel, int), Seq<char>>((SSel::Type(b), 3)));
    assert(sel(toks, 2) == Ok::<(SSel, int), Seq<char>>((SSel::Type(b), 3)));
    let v = seq![SSel::Type(a), SSel::Type(b)];
    assert(comb(toks, 1, SSel::Type(a)) == Ok::<(SSel, int), Seq<char>>((SSel::Multi(v), 3)));
    assert(v.drop_last() =~= seq![SSel::Type(a)]);
    assert(v.last() == SSel::Type(b));
    let one = seq![SSel::Type(a)];
    assert(one.drop_last() =~= Seq::<SSel>::empty());
    assert(one.last() == SSel::Type(a));
    assert(multi_exec(n, Seq::<SSel>::empty(), path) == Seq::<SMatch>::empty());
    assert(multi_exec(n, one, path) =~= exec_sel(n, SSel::Type(a), path));
    assert(multi_exec(n, v, path) == multi_exec(n, one, path) + exec_sel(n, SSel::Type(b), path));
    assert(exec_sel(n, SSel::Multi(v), path) == multi_exec(n, v, path));
}

// ---------------------------------------------------------------------------
// Completeness
// ---------------------------------------------------------------------------

proof fn lemma_contains_left(a: Seq<SMatch>, b: Seq<SMatch>, x: SMatch)
    requires
        a.contains(x),
    ensures
        (a + b).contains(x),
{
    let i = choose|i: int| 0 <= i < a.len() && a[i] == x;
    assert((a + b)[i] == x);
}

proof fn lemma_contains_right(a: Seq<SMatch>, b: Seq<SMatch>, x: SMatch)
    requires
        b.contains(x),
    ensures
        (a + b).contains(x),
{
    let i = choose|i: int| 0 <= i < b.len() && b[i] == x;
    assert((a + b)[a.len() + i] == x);
}

proof fn lemma_sel_children_contains(p: SNode, s: SSel, path: Seq<usize>, j: int, k: int, x: SMatch)
    requires
        0 <= j <= k < children_of(p).len(),
        k <= usize::MAX,
        exec_sel(children_of(p)[k], s, path.push(k as usize)).contains(x),
    ensures
        sel_children(p, s, path, j).contains(x),
    decreases k - j,
{
    let here = exec_sel(children_of(p)[j], s, path.push(j as usize));
    let rest = sel_children(p, s, path, j + 1);
    if j == k {
        lemma_contains_left(here, rest, x);
    } else {
        lemma_sel_children_contains(p, s, path, j + 1, k, x);
        lemma_contains_right(here, rest, x);
    }
}

/// A simple selector (a type, with or without a filter) finds every node of
/// the tree that satisfies it, at its path.
pub proof fn simple_selector_finds_every_matching_node(n: SNode, s: SSel, path: Seq<usize>, rel: Seq<usize>)
    requires
        !(s is Child || s is Descendant || s is Sibling || s is Multi),
        node_at(n, rel) matches Some(m) && node_matches(m, s),
    ensures
        exec_sel(n, s, path).contains(hit(node_at(n, rel)->0, path + rel)),
    decreases rel.len(),
{
    let m = node_at(n, rel)->0;
    let h = hit_if(node_matches(n, s), n, path);
    let kids_found = sel_children(n, s, path, 0);
    if rel.len() == 0 {
        assert(path + rel =~= path);
        assert(h[0] == hit(m, path + rel));
        lemma_contains_left(h, kids_found, hit(m, path + rel));
    } else {
        let k = rel[0];
        let c = children_of(n)[k as int];
        let rest = rel.drop_first();
        assert(path.push(k) + rest =~= path + rel);
        simple_selector_finds_every_matching_node(c, s, path.push(k), rest);
        assert(path.push(k) == path.push((k as int) as usize));
        lemma_sel_children_contains(n, s, path, 0, k as int, hit(m, path + rel));
        lemma_contains_right(h, kids_found, hit(m, path + rel));
    }
}

proof fn lemma_kids_contains(p: SNode, cs: SSel, base: Seq<usize>, j: int, k: int)
    requires
        0 <= j <= k < children_of(p).len(),
        k <= usize::MAX,
        node_matches(children_of(p)[k], cs),
    ensures
        kids(p, cs, base, j).contains(hit(children_of(p)[k], base.push(k as usize))),
    decreases k - j,
{
    let c = children_of(p)[j];
    let h = hit_if(node_matches(c, cs), c, base.push(j as usize));
    let rest = kids(p, cs, base, j + 1);
    let x = hit(children_of(p)[k], base.push(k as usize));
    if j == k {
        assert(h[0] == x);
        lemma_contains_left(h, rest, x);
    } else {
        lemma_kids_contains(p, cs, base, j + 1, k);
        lemma_contains_right(h, rest, x);
    }
}

proof fn lemma_child_hits_contains(pms: Seq<SMatch>, cs: SSel, i: int, k: int)
    requires
        0 <= i < pms.len(),
        0 <= k < children_of(pms[i].node).len(),
        k <= usize::MAX,
        node_matches(children_of(pms[i].node)[k], cs),
    ensures
        child_hits(pms, cs).contains(hit(children_of(pms[i].node)[k], pms[i].path.push(k as usize))),
    decreases pms.len(),
{
    let dl = pms.drop_last();
    let last = pms.last();
    let x = hit(children_of(pms[i].node)[k], pms[i].path.push(k as usize));
    if i == pms.len() - 1 {
        assert(last == pms[i]);
        lemma_kids_contains(last.node, cs, last.path, 0, k);
        lemma_contains_right(child_hits(dl, cs), kids(last.node, cs, last.path, 0), x);
    } else {
        assert(dl[i] == pms[i]);
        lemma_child_hits_contains(dl, cs, i, k);
        lemma_contains_left(child_hits(dl, cs), kids(last.node, cs, last.path, 0), x);
    }
}

proof fn lemma_collect_contains(n: SNode, s: SSel, base: Seq<usize>, rel: Seq<usize>)
    requires
        rel.len() > 0,
        node_at(n, rel) matches Some(m) && node_matches(m, s),
    ensures
        collect(n, s, base).contains(hit(node_at(n, rel)->0, base + rel)),
    decreases rel.len(), 1int, 0int,
{
    lemma_collect_from_contains(n, s, base, 0, rel);
}

proof fn lemma_collect_from_contains(p: SNode, s: SSel, base: Seq<usize>, j: int, rel: Seq<usize>)
    requires
        rel.len() > 0,
        0 <= j <= rel[0],
        node_at(p, rel) matches Some(m) && node_matches(m, s),
    ensures
        collect_from(p, s, base, j).contains(hit(node_at(p, rel)->0, base + rel)),
    decreases rel.len(), 0int, children_of(p).len() - j,
{
    let m = node_at(p, rel)->0;
    let x = hit(m, base + rel);
    let c = children_of(p)[j];
    let b2 = base.push(j as usize);
    let h = hit_if(node_matches(c, s), c, b2);
    let below = collect(c, s, b2);
    let rest = collect_from(p, s, base, j + 1);
    assert(collect_from(p, s, base, j) == h + below + rest);
    if j == rel[0] {
        let tail = rel.drop_first();
        assert(b2 + tail =~= base + rel);
        assert(node_at(p, rel) == node_at(c, tail));
        if tail.len() == 0 {
            assert(node_at(c, tail) == Some(c));
            assert(h[0] == x);
            lemma_contains_left(h, below, x);
        } else {
            lemma_collect_contains(c, s, b2, tail);
            lemma_contains_right(h, below, x);
        }
        lemma_contains_left(h + below, rest, x);
    } else {
        lemma_collect_from_contains(p, s, base, j + 1, rel);
        lemma_contains_right(h + below, rest, x);
    }
}

proof fn lemma_desc_hits_contains(ams: Seq<SMatch>, ds: SSel, i: int, rel: Seq<usize>)
    requires
        0 <= i < ams.len(),
        rel.len() > 0,
        node_at(ams[i].node, rel) matches Some(m) && node_matches(m, ds),
    ensures
        desc_hits(ams, ds).contains(hit(node_at(ams[i].node, rel)->0, ams[i].path + rel)),
    decreases ams.len(),
{
    let dl = ams.drop_last();
    let last = ams.last();
    let x = hit(node_at(ams[i].node, rel)->0, ams[i].path + rel);
    if i == ams.len() - 1 {
        assert(last == ams[i]);
        lemma_collect_contains(last.node, ds, last.path, rel);
        lemma_contains_right(desc_hits(dl, ds), collect(last.node, ds, last.path), x);
    } else {
        assert(dl[i] == ams[i]);
        lemma_desc_hits_contains(dl, ds, i, rel);
        lemma_contains_left(desc_hits(dl, ds), collect(last.node, ds, last.path), x);
    }
}

proof fn lemma_node_at_front(p: SNode, j: usize, x: Seq<usize>)
    requires
        j < children_of(p).len(),
    ensures
        node_at(p, seq![j] + x) == node_at(children_of(p)[j as int], x),
{
    assert((seq![j] + x).drop_first() =~= x);
    assert((seq![j] + x)[0] == j);
}

proof fn lemma_sib_hits_contains(
    p: SNode,
    before: SSel,
    after: SSel,
    base: Seq<usize>,
    k: int,
    prev: bool,
    rel: Seq<usize>,
)
    requires
        rel.len() > 0,
        0 <= k <= rel[0],
        k >= 1 && k - 1 < children_of(p).len() ==> prev == node_matches(children_of(p)[k - 1], before),
        k == 0 ==> !prev,
        after_sibling(p, before, rel),
        node_at(p, rel) matches Some(m) && node_matches(m, after),
    ensures
        sib_hits(p, before, after, base, k, prev).contains(hit(node_at(p, rel)->0, base + rel)),
    decreases rel.len(), children_of(p).len() - k,
{
    let j = rel[0];
    let tail = rel.drop_first();
    assert(rel =~= seq![j] + tail);
    let m = node_at(p, rel)->0;
    let x = hit(m, base + rel);
    let c = children_of(p)[k];
    let cp = base.push(k as usize);
    let h = if prev {
        hit_if(node_matches(c, after), c, cp)
    } else {
        Seq::empty()
    };
    let below = sib_hits(c, before, after, cp, 0, false);
    let rest = sib_hits(p, before, after, base, k + 1, node_matches(c, before));
    assert(j < children_of(p).len());
    if k < j {
        lemma_sib_hits_contains(p, before, after, base, k + 1, node_matches(c, before), rel);
        lemma_contains_right(h + below, rest, x);
    } else {
        lemma_node_at_front(p, j, tail);
        assert(cp + tail =~= base + rel);
        if tail.len() == 0 {
            let prevpath = rel.drop_last().push((rel.last() - 1) as usize);
            assert(prevpath =~= seq![(j - 1) as usize]);
            lemma_node_at_front(p, (j - 1) as usize, Seq::empty());
            assert(node_at(children_of(p)[j - 1], Seq::<usize>::empty()) == Some(children_of(p)[j - 1]));
            assert(node_at(c, Seq::<usize>::empty()) == Some(c));
            assert(prev);
            assert(h[0] == x);
            lemma_contains_left(h, below, x);
        } else {
            let pp = rel.drop_last().push((rel.last() - 1) as usize);
            let tp = tail.drop_last().push((tail.last() - 1) as usize);
            assert(pp =~= seq![j] + tp);
            lemma_node_at_front(p, j, tp);
            assert(after_sibling(c, before, tail));
            lemma_sib_hits_contains(c, before, after, cp, 0, false, tail);
            lemma_contains_right(h, below, x);
        }
        lemma_contains_left(h + below, rest, x);
    }
}

/// The combinators find every node that they describe: for `a > b`, every
/// child of a match of `a` that satisfies `b`; for `a b`, a match at the
/// path of every node below a match of `a` that satisfies `b`, and no path
/// twice; for `a + b`, every node below the node searched that satisfies `b`
/// and whose previous sibling satisfies `a`.
pub proof fn combinators_find_every_described_node(n: SNode, a: SSel, b: SSel, path: Seq<usize>)
    ensures
        forall|i: int, k: int|
            0 <= i < exec_sel(n, a, path).len() && 0 <= k < children_of(exec_sel(n, a, path)[i].node).len() && k
                <= usize::MAX && node_matches(#[trigger] children_of(#[trigger] exec_sel(n, a, path)[i].node)[k], b)
                ==> exec_sel(n, SSel::Child { parent: Box::new(a), child: Box::new(b) }, path).contains(
                hit(children_of(exec_sel(n, a, path)[i].node)[k], exec_sel(n, a, path)[i].path.push(k as usize)),
            ),
        forall|i: int, rel: Seq<usize>|
            0 <= i < exec_sel(n, a, path).len() && rel.len() > 0 && #[trigger] node_at(exec_sel(n, a, path)[i].node, rel)
                is Some && node_matches(node_at(exec_sel(n, a, path)[i].node, rel)->0, b) ==> has_path(
                exec_sel(n, SSel::Descendant { ancestor: Box::new(a), descendant: Box::new(b) }, path),
                exec_sel(n, a, path)[i].path + rel,
            ),
        ({
            let rs = exec_sel(n, SSel::Descendant { ancestor: Box::new(a), descendant: Box::new(b) }, path);
            forall|i: int, j: int| 0 <= i < j < rs.len() ==> #[trigger] rs[i].path != #[trigger] rs[j].path
        }),
        forall|rel: Seq<usize>|
            #[trigger] after_sibling(n, a, rel) && node_at(n, rel) is Some && node_matches(node_at(n, rel)->0, b)
                ==> exec_sel(n, SSel::Sibling { before: Box::new(a), after: Box::new(b) }, path).contains(
                hit(node_at(n, rel)->0, path + rel),
            ),
{
    let pa = exec_sel(n, a, path);
    assert forall|i: int, k: int|
        0 <= i < pa.len() && 0 <= k < children_of(pa[i].node).len() && k <= usize::MAX && node_matches(
            #[trigger] children_of(#[trigger] pa[i].node)[k],
            b,
        ) implies child_hits(pa, b).contains(hit(children_of(pa[i].node)[k], pa[i].path.push(k as usize))) by {
        lemma_child_hits_contains(pa, b, i, k);
    }
    let d = desc_hits(pa, b);
    lemma_unique_paths(d);
    assert forall|i: int, rel: Seq<usize>|
        0 <= i < pa.len() && rel.len() > 0 && #[trigger] node_at(pa[i].node, rel) is Some && node_matches(
            node_at(pa[i].node, rel)->0,
            b,
        ) implies has_path(unique(d), pa[i].path + rel) by {
        lemma_desc_hits_contains(pa, b, i, rel);
        let x = hit(node_at(pa[i].node, rel)->0, pa[i].path + rel);
        let q = choose|q: int| 0 <= q < d.len() && d[q] == x;
        assert(d[q].path == pa[i].path + rel);
        assert(has_path(d, pa[i].path + rel));
    }
    assert forall|rel: Seq<usize>|
        #[trigger] after_sibling(n, a, rel) && node_at(n, rel) is Some && node_matches(node_at(n, rel)->0, b)
            implies sib_hits(n, a, b, path, 0, false).contains(hit(node_at(n, rel)->0, path + rel)) by {
        lemma_sib_hits_contains(n, a, b, path, 0, false, rel);
    }
}

/// The attributes that filters read are the nodes' own fields: a link's
/// `text` and `url`, an image's `alt` (also its `text`) and `url`, a text's
/// `text`, the `code` of inline code and of a code block, a code block's
/// `lang`, a heading's `level` in decimal, and `strong` and `ordered` as
/// `true` or `false`; other names give nothing.
pub proof fn attributes_are_node_fields(t: Seq<char>, u: Seq<char>, lang: Option<Seq<char>>, level: u8, b: bool, kids: Seq<SNode>)
    ensures
        attr_of(SNode::Link { text: t, url: u }, "text"@) == Some(t),
        attr_of(SNode::Link { text: t, url: u }, "url"@) == Some(u),
        attr_of(SNode::Link { text: t, url: u }, "alt"@) is None,
        attr_of(SNode::Image { alt: t, url: u }, "alt"@) == Some(t),
        attr_of(SNode::Image { alt: t, url: u }, "text"@) == Some(t),
        attr_of(SNode::Image { alt: t, url: u }, "url"@) == Some(u),
        attr_of(SNode::Text(t), "text"@) == Some(t),
        attr_of(SNode::InlineCode(t), "code"@) == Some(t),
        attr_of(SNode::CodeBlock { language: lang, code: t }, "code"@) == Some(t),
        attr_of(SNode::CodeBlock { language: lang, code: t }, "lang"@) == lang,
        attr_of(SNode::Heading { level, children: kids }, "level"@) == Some(dec(level as nat)),
        attr_of(SNode::Emphasis { strong: b, children: kids }, "strong"@) == Some(if b { "true"@ } else { "false"@ }),
        attr_of(SNode::List { ordered: b, items: kids }, "ordered"@) == Some(if b { "true"@ } else { "false"@ }),
        attr_of(SNode::Paragraph(kids), "text"@) is None,
{
    reveal_strlit("level");
    reveal_strlit("lang");
    reveal_strlit("url");
    reveal_strlit("alt");
    reveal_strlit("text");
    reveal_strlit("strong");
    reveal_strlit("ordered");
    reveal_strlit("code");
    assert("text"@ != "level"@ && "text"@ != "lang"@ && "text"@ != "url"@ && "text"@ != "alt"@) by {
        assert("text"@.len() != "level"@.len());
        assert("text"@[0] != "lang"@[0]);
        assert("text"@.len() != "url"@.len());
        assert("text"@.len() != "alt"@.len());
    }
    assert("url"@ != "level"@ && "url"@ != "lang"@) by {
        assert("url"@.len() != "level"@.len());
        assert("url"@.len() != "lang"@.len());
    }
    assert("alt"@ != "level"@ && "alt"@ != "lang"@ && "alt"@ != "url"@) by {
        assert("alt"@.len() != "level"@.len());
        assert("alt"@.len() != "lang"@.len());
        assert("alt"@[0] != "url"@[0]);
    }
    assert("lang"@ != "level"@) by {
        assert("lang"@.len() != "level"@.len());
    }
    assert("code"@ != "level"@ && "code"@ != "lang"@ && "code"@ != "url"@ && "code"@ != "alt"@ && "code"@ != "text"@
        && "code"@ != "strong"@ && "code"@ != "ordered"@) by {
        assert("code"@.len() != "level"@.len());
        assert("code"@[0] != "lang"@[0]);
        assert("code"@.len() != "url"@.len());
        assert("code"@.len() != "alt"@.len());
        assert("code"@[0] != "text"@[0]);
        assert("code"@.len() != "strong"@.len());
        assert("code"@.len() != "ordered"@.len());
    }
    assert("strong"@ != "level"@ && "strong"@ != "lang"@ && "strong"@ != "url"@ && "strong"@ != "alt"@
        && "strong"@ != "text"@) by {
        assert("strong"@.len() != "level"@.len());
        assert("strong"@.len() != "lang"@.len());
        assert("strong"@.len() != "url"@.len());
        assert("strong"@.len() != "alt"@.len());
        assert("strong"@.len() != "text"@.len());
    }
    assert("ordered"@ != "level"@ && "ordered"@ != "lang"@ && "ordered"@ != "url"@ && "ordered"@ != "alt"@
        && "ordered"@ != "text"@ && "ordered"@ != "strong"@) by {
        assert("ordered"@.len() != "level"@.len());
        assert("ordered"@.len() != "lang"@.len());
        assert("ordered"@.len() != "url"@.len());
        assert("ordered"@.len() != "alt"@.len());
        assert("ordered"@.len() != "text"@.len());
        assert("ordered"@.len() != "strong"@.len());
    }
}

/// The filter `link[text=v]` picks out exactly the links whose text is `v`,
/// and `link[url=v]` those whose url is `v`.
pub proof fn link_filters_select_by_text_and_url(m: SNode, v: Seq<char>)
    ensures
        node_matches(m, SSel::WithAttr { node_type: "link"@, key: "text"@, value: v }) <==> (m matches SNode::Link {
            text,
            ..
        } && text == v),
        node_matches(m, SSel::WithAttr { node_type: "link"@, key: "url"@, value: v }) <==> (m matches SNode::Link {
            url,
            ..
        } && url == v),
{
    lemma_type_selector_kind(m, 11);
    if let SNode::Link { text, url } = m {
        attributes_are_node_fields(text, url, None, 0, false, Seq::empty());
    }
}

} // verus!
