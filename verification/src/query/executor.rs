//! Running a selector against a syntax tree.
use vstd::prelude::*;
use crate::ast::{attr_of, children_of, copy_node, lemma_child_decreases, refs_view, text_of, type_name_of, Node, SNode};
use crate::query::{lemma_sels_view, lex, lex_query, parse_selector, sels_view, tokens_view, SSel, Selector};
use crate::text::{chars_contain, chars_eq, contains, str_chars};

verus! {

/// A node found by a query, with its position in the tree.
#[derive(Debug)]
pub struct MatchResult {
    /// The node found
    pub node: Node,
    /// Child indices from the root to the node
    pub path: Vec<usize>,
    /// Length of the path
    pub depth: usize,
}

/// Model of a [`MatchResult`].
pub struct SMatch {
    pub node: SNode,
    pub path: Seq<usize>,
    pub depth: int,
}

impl View for MatchResult {
    type V = SMatch;

    open spec fn view(&self) -> SMatch {
        SMatch { node: self.node@, path: self.path@, depth: self.depth as int }
    }
}

impl Clone for MatchResult {
    fn clone(&self) -> (r: Self)
        ensures
            r@ == self@,
    {
        MatchResult { node: copy_node(&self.node), path: copy_path(&self.path), depth: self.depth }
    }
}

pub open spec fn matches_view(s: Seq<MatchResult>) -> Seq<SMatch> {
    Seq::new(s.len(), |i: int| s[i]@)
}

/// Whether a node satisfies a selector on its own: simple selectors compare
/// the type (and the attribute or the text); a list of selectors needs one of
/// them; combinators match no single node.
pub open spec fn node_matches(n: SNode, s: SSel) -> bool
    decreases s,
{
    match s {
        SSel::Type(t) => type_name_of(n) == t,
        SSel::WithAttr { node_type, key, value } => type_name_of(n) == node_type && attr_of(n, key) == Some(value),
        SSel::WithAttrContains { node_type, key, value } => type_name_of(n) == node_type && (attr_of(n, key) matches Some(
            v,
        ) && contains(v, value)),
        SSel::WithContains { node_type, text } => type_name_of(n) == node_type && contains(text_of(n), text),
        SSel::Multi(v) => any_matches(n, v),
        _ => false,
    }
}

/// Whether a node satisfies one of the selectors.
pub open spec fn any_matches(n: SNode, v: Seq<SSel>) -> bool
    decreases v,
{
    if v.len() == 0 {
        false
    } else {
        any_matches(n, v.drop_last()) || node_matches(n, v.last())
    }
}

pub proof fn lemma_any_matches(n: SNode, v: Seq<SSel>)
    ensures
        any_matches(n, v) <==> exists|k: int| 0 <= k < v.len() && #[trigger] node_matches(n, v[k]),
    decreases v.len(),
{
    if v.len() > 0 {
        lemma_any_matches(n, v.drop_last());
        assert(v.last() == v[v.len() - 1]);
        if node_matches(n, v.last()) {
            assert(node_matches(n, v[v.len() - 1]));
        }
        if any_matches(n, v.drop_last()) {
            let k = choose|k: int| 0 <= k < v.drop_last().len() && #[trigger] node_matches(n, v.drop_last()[k]);
            assert(node_matches(n, v[k]));
        }
        if exists|k: int| 0 <= k < v.len() && #[trigger] node_matches(n, v[k]) {
            let k = choose|k: int| 0 <= k < v.len() && #[trigger] node_matches(n, v[k]);
            if k < v.len() - 1 {
                assert(node_matches(n, v.drop_last()[k]));
            }
        }
    }
}

pub open spec fn hit(n: SNode, path: Seq<usize>) -> SMatch {
    SMatch { node: n, path, depth: path.len() as int }
}

pub open spec fn hit_if(b: bool, n: SNode, path: Seq<usize>) -> Seq<SMatch> {
    if b {
        seq![hit(n, path)]
    } else {
        Seq::empty()
    }
}

/// The results of running selector `s` on the tree `n` found at `path`, in
/// document order; `a b` lists each node once. Children past index
/// `usize::MAX`, which no tree held in memory has, are not searched: their
/// index could not stand in a path.
pub open spec fn exec_sel(n: SNode, s: SSel, path: Seq<usize>) -> Seq<SMatch>
    decreases s, n, 1int, 0int,
{
    match s {
        SSel::Child { parent, child } => child_hits(exec_sel(n, *parent, path), *child),
        SSel::Descendant { ancestor, descendant } => unique(desc_hits(exec_sel(n, *ancestor, path), *descendant)),
        SSel::Sibling { before, after } => sib_hits(n, *before, *after, path, 0, false),
        SSel::Multi(v) => multi_exec(n, v, path),
        _ => hit_if(node_matches(n, s), n, path) + sel_children(n, s, path, 0),
    }
}

/// Running a simple selector on the children of `p` from the `k`-th on.
pub open spec fn sel_children(p: SNode, s: SSel, path: Seq<usize>, k: int) -> Seq<SMatch>
    decreases s, p, 0int, children_of(p).len() - k,
{
    if k < 0 || k >= children_of(p).len() || k > usize::MAX {
        Seq::empty()
    } else {
        proof {
            lemma_child_decreases(p, k);
        }
        exec_sel(children_of(p)[k], s, path.push(k as usize)) + sel_children(p, s, path, k + 1)
    }
}

/// Running each selector of a list in turn.
pub open spec fn multi_exec(n: SNode, v: Seq<SSel>, path: Seq<usize>) -> Seq<SMatch>
    decreases v, n, 0int, 0int,
{
    if v.len() == 0 {
        Seq::empty()
    } else {
        multi_exec(n, v.drop_last(), path) + exec_sel(n, v.last(), path)
    }
}

/// The children of `p` from the `k`-th on that match `cs`.
pub open spec fn kids(p: SNode, cs: SSel, base: Seq<usize>, k: int) -> Seq<SMatch>
    decreases children_of(p).len() - k,
{
    if k < 0 || k >= children_of(p).len() || k > usize::MAX {
        Seq::empty()
    } else {
        hit_if(node_matches(children_of(p)[k], cs), children_of(p)[k], base.push(k as usize)) + kids(p, cs, base, k + 1)
    }
}

/// For each parent match, its children that match `cs`.
pub open spec fn child_hits(pms: Seq<SMatch>, cs: SSel) -> Seq<SMatch>
    decreases pms.len(),
{
    if pms.len() == 0 {
        Seq::empty()
    } else {
        child_hits(pms.drop_last(), cs) + kids(pms.last().node, cs, pms.last().path, 0)
    }
}

/// The descendants of `n` (below `base`) that match `s`, in document order.
pub open spec fn collect(n: SNode, s: SSel, base: Seq<usize>) -> Seq<SMatch>
    decreases n, 1int, 0int,
{
    collect_from(n, s, base, 0)
}

pub open spec fn collect_from(p: SNode, s: SSel, base: Seq<usize>, k: int) -> Seq<SMatch>
    decreases p, 0int, children_of(p).len() - k,
{
    if k < 0 || k >= children_of(p).len() || k > usize::MAX {
        Seq::empty()
    } else {
        proof {
            lemma_child_decreases(p, k);
        }
        let c = children_of(p)[k];
        let b2 = base.push(k as usize);
        hit_if(node_matches(c, s), c, b2) + collect(c, s, b2) + collect_from(p, s, base, k + 1)
    }
}

/// For each ancestor match, its descendants that match `ds`.
pub open spec fn desc_hits(ams: Seq<SMatch>, ds: SSel) -> Seq<SMatch>
    decreases ams.len(),
{
    if ams.len() == 0 {
        Seq::empty()
    } else {
        desc_hits(ams.drop_last(), ds) + collect(ams.last().node, ds, ams.last().path)
    }
}

/// The nodes below `p`, children from the `k`-th on and their subtrees in
/// document order, that match `after` and directly follow a sibling that
/// matches `before` (`prev`: the child before the `k`-th matched `before`).
pub open spec fn sib_hits(p: SNode, before: SSel, after: SSel, path: Seq<usize>, k: int, prev: bool) -> Seq<SMatch>
    decreases p, children_of(p).len() - k,
{
    if k < 0 || k >= children_of(p).len() || k > usize::MAX {
        Seq::empty()
    } else {
        proof {
            lemma_child_decreases(p, k);
        }
        let c = children_of(p)[k];
        let h = if prev {
            hit_if(node_matches(c, after), c, path.push(k as usize))
        } else {
            Seq::empty()
        };
        h + sib_hits(c, before, after, path.push(k as usize), 0, false) + sib_hits(p, before, after, path, k + 1, node_matches(c, before))
    }
}

/// Whether one of `s` has path `p`.
pub open spec fn has_path(s: Seq<SMatch>, p: Seq<usize>) -> bool {
    exists|k: int| 0 <= k < s.len() && #[trigger] s[k].path == p
}

/// The matches of `s` whose path no earlier match has: each node once, at its
/// first place.
pub open spec fn unique(s: Seq<SMatch>) -> Seq<SMatch>
    decreases s.len(),
{
    if s.len() == 0 {
        Seq::empty()
    } else {
        let u = unique(s.drop_last());
        if has_path(u, s.last().path) {
            u
        } else {
            u.push(s.last())
        }
    }
}

/// The result of a query on a tree: the lexing or selector error, or the matches.
pub open spec fn run_query(n: SNode, q: Seq<char>) -> Result<Seq<SMatch>, Seq<char>> {
    match lex(q) {
        Err(e) => Err(e),
        Ok(toks) => match parse_selector(toks) {
            Ok(s) => Ok(exec_sel(n, s, Seq::empty())),
            Err(m) => Err(m),
        },
    }
}

pub open spec fn query_result_view(r: Result<Vec<MatchResult>, String>) -> Result<Seq<SMatch>, Seq<char>> {
    match r {
        Ok(v) => Ok(matches_view(v@)),
        Err(e) => Err(e@),
    }
}

fn copy_path(p: &Vec<usize>) -> (r: Vec<usize>)
    ensures
        r@ == p@,
{
    let mut r: Vec<usize> = Vec::new();
    let mut i: usize = 0;
    while i < p.len()
        invariant
            i <= p@.len(),
            r@ == p@.take(i as int),
        decreases p@.len() - i,
    {
        r.push(p[i]);
        i = i + 1;
        assert(r@ =~= p@.take(i as int));
    }
    assert(p@.take(p@.len() as int) =~= p@);
    r
}

fn extend_path(p: &Vec<usize>, k: usize) -> (r: Vec<usize>)
    ensures
        r@ == p@.push(k),
{
    let mut r = copy_path(p);
    r.push(k);
    r
}

/// Records a match of `node` at `path`.
fn push_hit(results: &mut Vec<MatchResult>, node: &Node, path: Vec<usize>)
    ensures
        matches_view(final(results)@) == matches_view(old(results)@).push(hit(node@, path@)),
{
    let depth = path.len();
    results.push(MatchResult { node: copy_node(node), path, depth });
    assert(matches_view(final(results)@) =~= matches_view(old(results)@).push(hit(node@, path@)));
}

proof fn lemma_seq_assoc(a: Seq<SMatch>, b: Seq<SMatch>, c: Seq<SMatch>)
    ensures
        a + b + c == a + (b + c),
{
    assert(a + b + c =~= a + (b + c));
}

/// Whether a node's type name is `t`.
fn type_is(node: &Node, t: &String) -> (b: bool)
    ensures
        b == (type_name_of(node@) == t@),
{
    let a = str_chars(node.node_type());
    let b = str_chars(t.as_str());
    chars_eq(a.as_slice(), b.as_slice())
}

/// Exec counterpart of `node_matches`.
pub fn node_matches_exec(node: &Node, selector: &Selector) -> (b: bool)
    ensures
        b == node_matches(node@, selector@),
    decreases selector@,
{
    match selector {
        Selector::Type(t) => type_is(node, t),
        Selector::WithAttr { node_type, key, value } => type_is(node, node_type) && node.matches_attribute(key.as_str(), value.as_str()),
        Selector::WithAttrContains { node_type, key, value } => {
            if !type_is(node, node_type) {
                return false;
            }
            match node.get_attribute(key.as_str()) {
                Some(a) => {
                    let ac = str_chars(a.as_str());
                    let vc = str_chars(value.as_str());
                    chars_contain(ac.as_slice(), vc.as_slice())
                },
                None => false,
            }
        },
        Selector::WithContains { node_type, text } => {
            if !type_is(node, node_type) {
                return false;
            }
            let content = node.text_content();
            let cc = str_chars(content.as_str());
            let tc = str_chars(text.as_str());
            chars_contain(cc.as_slice(), tc.as_slice())
        },
        Selector::Multi(v) => {
            let ghost sv = sels_view(v@);
            proof {
                lemma_sels_view(v@);
                lemma_any_matches(node@, sv);
            }
            let mut k: usize = 0;
            while k < v.len()
                invariant
                    k <= v@.len(),
                    sv == sels_view(v@),
                    sv.len() == v@.len(),
                    forall|j: int| 0 <= j < v@.len() ==> #[trigger] sv[j] == v@[j]@,
                    any_matches(node@, sv) <==> exists|j: int| 0 <= j < sv.len() && #[trigger] node_matches(node@, sv[j]),
                    forall|j: int| 0 <= j < k ==> !#[trigger] node_matches(node@, sv[j]),
                    selector@ == SSel::Multi(sv),
                decreases v@.len() - k,
            {
                assert(decreases_to!(selector@ => selector@->Multi_0));
                assert(decreases_to!(selector@->Multi_0 => selector@->Multi_0[k as int]));
                assert(decreases_to!(selector@ => sv[k as int]));
                if node_matches_exec(node, &v[k]) {
                    assert(node_matches(node@, sv[k as int]));
                    return true;
                }
                k = k + 1;
            }
            false
        },
        _ => false,
    }
}

/// Records the children of `p` that match `cs`.
fn push_kids(results: &mut Vec<MatchResult>, p: &Node, cs: &Selector, base: &Vec<usize>)
    ensures
        matches_view(final(results)@) == matches_view(old(results)@) + kids(p@, cs@, base@, 0),
{
    let ch = p.children();
    let ghost start = matches_view(results@);
    let mut i: usize = 0;
    proof {
        assert(start + kids(p@, cs@, base@, 0) =~= start + kids(p@, cs@, base@, 0));
        assert(matches_view(results@) + kids(p@, cs@, base@, 0) =~= start + kids(p@, cs@, base@, 0));
    }
    while i < ch.len()
        invariant
            i <= ch@.len(),
            refs_view(ch@) == children_of(p@),
            matches_view(results@) + kids(p@, cs@, base@, i as int) == start + kids(p@, cs@, base@, 0),
        decreases ch@.len() - i,
    {
        let ghost prev = matches_view(results@);
        assert(ch@[i as int]@ == children_of(p@)[i as int]);
        if node_matches_exec(ch[i], cs) {
            push_hit(results, ch[i], extend_path(base, i));
        }
        proof {
            lemma_seq_assoc(prev, hit_if(node_matches(children_of(p@)[i as int], cs@), children_of(p@)[i as int], base@.push(i)), kids(p@, cs@, base@, i + 1));
            assert(matches_view(results@) =~= prev + hit_if(node_matches(children_of(p@)[i as int], cs@), children_of(p@)[i as int], base@.push(i)));
        }
        i = i + 1;
    }
    assert(matches_view(results@) + Seq::<SMatch>::empty() =~= matches_view(results@));
}

/// Records the descendants of `node` (below `base`) that match `selector`.
/// Whether two paths are equal.
fn paths_equal(a: &Vec<usize>, b: &Vec<usize>) -> (r: bool)
    ensures
        r == (a@ == b@),
{
    if a.len() != b.len() {
        return false;
    }
    let mut i: usize = 0;
    while i < a.len()
        invariant
            i <= a@.len(),
            a@.len() == b@.len(),
            forall|j: int| 0 <= j < i ==> a@[j] == b@[j],
        decreases a@.len() - i,
    {
        if a[i] != b[i] {
            return false;
        }
        i = i + 1;
    }
    assert(a@ =~= b@);
    true
}

/// Exec counterpart of `has_path`.
fn has_path_exec(s: &Vec<MatchResult>, p: &Vec<usize>) -> (r: bool)
    ensures
        r == has_path(matches_view(s@), p@),
{
    let ghost ms = matches_view(s@);
    let mut k: usize = 0;
    while k < s.len()
        invariant
            k <= s@.len(),
            ms == matches_view(s@),
            forall|j: int| 0 <= j < k ==> ms[j].path != p@,
        decreases s@.len() - k,
    {
        if paths_equal(&s[k].path, p) {
            assert(ms[k as int].path == p@);
            return true;
        }
        k = k + 1;
    }
    false
}

/// Exec counterpart of `unique`.
fn unique_matches(found: &Vec<MatchResult>) -> (r: Vec<MatchResult>)
    ensures
        matches_view(r@) == unique(matches_view(found@)),
{
    let ghost fs = matches_view(found@);
    let mut kept: Vec<MatchResult> = Vec::new();
    let mut i: usize = 0;
    proof {
        assert(fs.take(0) =~= Seq::<SMatch>::empty());
        assert(matches_view(kept@) =~= Seq::<SMatch>::empty());
    }
    while i < found.len()
        invariant
            i <= found@.len(),
            fs == matches_view(found@),
            matches_view(kept@) == unique(fs.take(i as int)),
        decreases found@.len() - i,
    {
        proof {
            assert(fs.take(i + 1).drop_last() =~= fs.take(i as int));
            assert(fs.take(i + 1).last() == found@[i as int]@);
        }
        if !has_path_exec(&kept, &found[i].path) {
            let ghost before = matches_view(kept@);
            let m = found[i].clone();
            kept.push(m);
            assert(matches_view(kept@) =~= before.push(found@[i as int]@));
        }
        i = i + 1;
    }
    assert(fs.take(found@.len() as int) =~= fs);
    kept
}

/// Pushes the matches of `sib_hits(node, before, after, path, 0, false)`.
fn collect_siblings(node: &Node, before: &Selector, after: &Selector, results: &mut Vec<MatchResult>, path: &Vec<usize>)
    ensures
        matches_view(final(results)@) == matches_view(old(results)@) + sib_hits(node@, before@, after@, path@, 0, false),
    decreases node@,
{
    let ghost start = matches_view(results@);
    let ch = node.children();
    let mut prev_matched = false;
    let mut i: usize = 0;
    proof {
        assert(matches_view(results@) + sib_hits(node@, before@, after@, path@, 0, false) =~= start + sib_hits(node@, before@, after@, path@, 0, false));
    }
    while i < ch.len()
        invariant
            i <= ch@.len(),
            refs_view(ch@) == children_of(node@),
            matches_view(results@) + sib_hits(node@, before@, after@, path@, i as int, prev_matched)
                == start + sib_hits(node@, before@, after@, path@, 0, false),
        decreases ch@.len() - i,
    {
        let ghost prev = matches_view(results@);
        let ghost c = children_of(node@)[i as int];
        proof {
            lemma_child_decreases(node@, i as int);
            assert(ch@[i as int]@ == c);
        }
        if prev_matched {
            if node_matches_exec(ch[i], after) {
                push_hit(results, ch[i], extend_path(path, i));
            }
        }
        let ghost hh = if prev_matched {
            hit_if(node_matches(c, after@), c, path@.push(i))
        } else {
            Seq::empty()
        };
        assert(matches_view(results@) =~= prev + hh);
        let p = extend_path(path, i);
        collect_siblings(ch[i], before, after, results, &p);
        let h = node_matches_exec(ch[i], before);
        proof {
            let below = sib_hits(c, before@, after@, path@.push(i), 0, false);
            let rest = sib_hits(node@, before@, after@, path@, i + 1, h);
            assert(prev + (hh + below + rest) =~= matches_view(results@) + rest);
        }
        prev_matched = h;
        i = i + 1;
    }
    assert(matches_view(results@) + Seq::<SMatch>::empty() =~= matches_view(results@));
}

fn collect_descendants(node: &Node, selector: &Selector, results: &mut Vec<MatchResult>, base: &Vec<usize>)
    ensures
        matches_view(final(results)@) == matches_view(old(results)@) + collect(node@, selector@, base@),
    decreases node@,
{
    let ch = node.children();
    let ghost start = matches_view(results@);
    let mut i: usize = 0;
    proof {
        assert(matches_view(results@) + collect_from(node@, selector@, base@, 0) =~= start + collect(node@, selector@, base@));
    }
    while i < ch.len()
        invariant
            i <= ch@.len(),
            refs_view(ch@) == children_of(node@),
            matches_view(results@) + collect_from(node@, selector@, base@, i as int) == start + collect(node@, selector@, base@),
        decreases ch@.len() - i,
    {
        let ghost prev = matches_view(results@);
        let ghost c = children_of(node@)[i as int];
        let ghost b2 = base@.push(i);
        proof {
            lemma_child_decreases(node@, i as int);
            assert(ch@[i as int]@ == c);
        }
        if node_matches_exec(ch[i], selector) {
            push_hit(results, ch[i], extend_path(base, i));
        }
        let ghost mid = matches_view(results@);
        assert(mid =~= prev + hit_if(node_matches(c, selector@), c, b2));
        let p = extend_path(base, i);
        collect_descendants(ch[i], selector, results, &p);
        proof {
            assert(matches_view(results@) == mid + collect(c, selector@, b2));
            assert(prev + (hit_if(node_matches(c, selector@), c, b2) + collect(c, selector@, b2) + collect_from(node@, selector@, base@, i + 1))
                =~= matches_view(results@) + collect_from(node@, selector@, base@, i + 1));
        }
        i = i + 1;
    }
    assert(matches_view(results@) + Seq::<SMatch>::empty() =~= matches_view(results@));
}

/// Records the results of running `selector` on the tree `node` found at `path`.
fn execute_selector(node: &Node, selector: &Selector, results: &mut Vec<MatchResult>, path: Vec<usize>)
    ensures
        matches_view(final(results)@) == matches_view(old(results)@) + exec_sel(node@, selector@, path@),
    decreases selector@, node@,
{
    let ghost start = matches_view(results@);
    match selector {
        Selector::Child { parent, child } => {
            let mut parent_results: Vec<MatchResult> = Vec::new();
            assert(decreases_to!(selector@ => (**parent)@));
            execute_selector(node, parent, &mut parent_results, copy_path(&path));
            let ghost pms = matches_view(parent_results@);
            assert(pms =~= exec_sel(node@, (**parent)@, path@));
            let mut a: usize = 0;
            proof {
                assert(pms.take(0) =~= Seq::<SMatch>::empty());
                assert(matches_view(results@) =~= start + child_hits(pms.take(0), (**child)@));
            }
            while a < parent_results.len()
                invariant
                    a <= parent_results@.len(),
                    pms == matches_view(parent_results@),
                    matches_view(results@) == start + child_hits(pms.take(a as int), (**child)@),
                decreases parent_results@.len() - a,
            {
                let pm = &parent_results[a];
                let ghost prev = matches_view(results@);
                push_kids(results, &pm.node, child, &pm.path);
                proof {
                    assert(pms.take(a + 1).drop_last() =~= pms.take(a as int));
                    assert(pms.take(a + 1).last() == pm@);
                    lemma_seq_assoc(start, child_hits(pms.take(a as int), (**child)@), kids(pm.node@, (**child)@, pm.path@, 0));
                }
                a = a + 1;
            }
            assert(pms.take(parent_results@.len() as int) =~= pms);
        },
        Selector::Descendant { ancestor, descendant } => {
            let mut ancestor_results: Vec<MatchResult> = Vec::new();
            assert(selector@->ancestor == Box::new((**ancestor)@));
            assert(decreases_to!(selector@ => selector@->ancestor));
            assert(decreases_to!(selector@ => (**ancestor)@));
            execute_selector(node, ancestor, &mut ancestor_results, copy_path(&path));
            let ghost ams = matches_view(ancestor_results@);
            let mut found: Vec<MatchResult> = Vec::new();
            let mut a: usize = 0;
            proof {
                assert(ams.take(0) =~= Seq::<SMatch>::empty());
                assert(matches_view(found@) =~= desc_hits(ams.take(0), (**descendant)@));
            }
            while a < ancestor_results.len()
                invariant
                    a <= ancestor_results@.len(),
                    ams == matches_view(ancestor_results@),
                    matches_view(found@) == desc_hits(ams.take(a as int), (**descendant)@),
                decreases ancestor_results@.len() - a,
            {
                let am = &ancestor_results[a];
                collect_descendants(&am.node, descendant, &mut found, &am.path);
                proof {
                    assert(ams.take(a + 1).drop_last() =~= ams.take(a as int));
                    assert(ams.take(a + 1).last() == am@);
                }
                a = a + 1;
            }
            assert(ams.take(ancestor_results@.len() as int) =~= ams);
            let mut kept = unique_matches(&found);
            let ghost kv = matches_view(kept@);
            results.append(&mut kept);
            assert(matches_view(results@) =~= start + kv);
        },
        Selector::Sibling { before, after } => {
            collect_siblings(node, before, after, results, &path);
        },
        Selector::Multi(v) => {
            let ghost sv = sels_view(v@);
            proof {
                lemma_sels_view(v@);
                assert(sv.take(0) =~= Seq::<SSel>::empty());
                assert(matches_view(results@) =~= start + multi_exec(node@, sv.take(0), path@));
            }
            let mut k: usize = 0;
            while k < v.len()
                invariant
                    k <= v@.len(),
                    sv == sels_view(v@),
                    sv.len() == v@.len(),
                    forall|j: int| 0 <= j < v@.len() ==> #[trigger] sv[j] == v@[j]@,
                    selector@ == SSel::Multi(sv),
                    matches_view(results@) == start + multi_exec(node@, sv.take(k as int), path@),
                decreases v@.len() - k,
            {
                assert(decreases_to!(selector@ => selector@->Multi_0));
                assert(decreases_to!(selector@->Multi_0 => selector@->Multi_0[k as int]));
                assert(decreases_to!(selector@ => sv[k as int]));
                execute_selector(node, &v[k], results, copy_path(&path));
                proof {
                    assert(sv.take(k + 1).drop_last() =~= sv.take(k as int));
                    assert(sv.take(k + 1).last() == sv[k as int]);
                    lemma_seq_assoc(start, multi_exec(node@, sv.take(k as int), path@), exec_sel(node@, sv[k as int], path@));
                }
                k = k + 1;
            }
            assert(sv.take(v@.len() as int) =~= sv);
        },
        _ => {
            if node_matches_exec(node, selector) {
                push_hit(results, node, copy_path(&path));
            }
            let ghost mid = matches_view(results@);
            assert(mid =~= start + hit_if(node_matches(node@, selector@), node@, path@));
            let ch = node.children();
            let mut i: usize = 0;
            proof {
                lemma_seq_assoc(start, hit_if(node_matches(node@, selector@), node@, path@), sel_children(node@, selector@, path@, 0));
            }
            while i < ch.len()
                invariant
                    i <= ch@.len(),
                    refs_view(ch@) == children_of(node@),
                    matches_view(results@) + sel_children(node@, selector@, path@, i as int) == start + exec_sel(node@, selector@, path@),
                    !(selector@ is Child || selector@ is Descendant || selector@ is Sibling || selector@ is Multi),
                decreases ch@.len() - i,
            {
                let ghost prev = matches_view(results@);
                let ghost c = children_of(node@)[i as int];
                proof {
                    lemma_child_decreases(node@, i as int);
                    assert(ch@[i as int]@ == c);
                }
                execute_selector(ch[i], selector, results, extend_path(&path, i));
                proof {
                    lemma_seq_assoc(prev, exec_sel(c, selector@, path@.push(i)), sel_children(node@, selector@, path@, i + 1));
                }
                i = i + 1;
            }
            assert(matches_view(results@) + Seq::<SMatch>::empty() =~= matches_view(results@));
        },
    }
}

/// Runs a query against a syntax tree and returns the matching nodes, in the
/// order the selector finds them.
pub fn execute_query(ast: &Node, query: &str) -> (r: Result<Vec<MatchResult>, String>)
    ensures
        query_result_view(r) == run_query(ast@, query@),
{
    let tokens = match lex_query(query) {
        Ok(t) => t,
        Err(e) => {
            return Err(e);
        },
    };
    let selector = match Selector::parse(tokens.as_slice()) {
        Ok(s) => s,
        Err(e) => {
            return Err(e);
        },
    };
    let mut results: Vec<MatchResult> = Vec::new();
    execute_selector(ast, &selector, &mut results, Vec::new());
    assert(matches_view(results@) =~= Seq::<SMatch>::empty() + exec_sel(ast@, selector@, Seq::empty()));
    Ok(results)
}

} // verus!
