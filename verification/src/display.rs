//! Texts shortened for display, counted in UTF-8 bytes.
use vstd::prelude::*;
use crate::ast::{text_of, type_name_of, Node};
use crate::text::{char_utf8_len, copy_range, push_str, str_chars, string_from_chars, utf8_len};

verus! {

/// Bytes in the UTF-8 encoding of the first `n` characters of `s`.
pub open spec fn bytes_upto(s: Seq<char>, n: int) -> nat
    decreases n,
{
    if n <= 0 || n > s.len() {
        0
    } else {
        bytes_upto(s, n - 1) + utf8_len(s[n - 1])
    }
}

/// The first character count at or after `i` whose prefix takes at least `b` bytes
/// (or the length of `s`).
pub open spec fn first_reaching(s: Seq<char>, b: nat, i: int) -> int
    decreases s.len() - i,
{
    if i >= s.len() || bytes_upto(s, i) >= b {
        i
    } else {
        first_reaching(s, b, i + 1)
    }
}

/// The text shown for `s` in at most `max` bytes: `s` itself if it fits,
/// else its first `max - 3` bytes followed by `"..."`, the cut moved back to
/// the start of the character where byte `max - 3` falls inside one.
pub open spec fn shortened(s: Seq<char>, max: nat) -> Seq<char> {
    if bytes_upto(s, s.len() as int) <= max {
        s
    } else {
        let n = first_reaching(s, (max - 3) as nat, 0);
        if bytes_upto(s, n) == max - 3 {
            s.take(n) + "..."@
        } else {
            s.take(n - 1) + "..."@
        }
    }
}

proof fn lemma_bytes_grow(s: Seq<char>, i: int, j: int)
    requires
        0 <= i <= j <= s.len(),
    ensures
        bytes_upto(s, i) + (j - i) <= bytes_upto(s, j),
    decreases j - i,
{
    if i < j {
        lemma_bytes_grow(s, i, j - 1);
    }
}

/// `text` for display in at most `max` bytes (see `shortened`).
pub fn shorten(text: &str, max: usize) -> (r: String)
    requires
        max >= 3,
    ensures
        r@ == shortened(text@, max as nat),
{
    let c = str_chars(text);
    let cs = c.as_slice();
    let ghost s = text@;
    // bytes of the whole text, up to the first one over `max`
    let mut i: usize = 0;
    let mut acc: usize = 0;
    let mut over = false;
    while i < cs.len() && !over
        invariant
            cs@ == s,
            i <= s.len(),
            acc == bytes_upto(s, i as int),
            acc <= max,
            over ==> i < s.len() && bytes_upto(s, i + 1) > max,
        decreases s.len() - i + (if over { 0int } else { 1int }),
    {
        let l = char_utf8_len(cs[i]);
        if l > max - acc {
            over = true;
        } else {
            acc = acc + l;
            i = i + 1;
        }
    }
    if !over {
        return string_from_chars(cs);
    }
    proof {
        lemma_bytes_grow(s, i + 1, s.len() as int);
    }
    let keep = max - 3;
    let mut n: usize = 0;
    let mut b: usize = 0;
    while n < cs.len() && b < keep
        invariant
            cs@ == s,
            n <= s.len(),
            b == bytes_upto(s, n as int),
            keep + 3 == max,
            forall|j: int| 0 <= j < n ==> bytes_upto(s, j) < keep,
            bytes_upto(s, s.len() as int) > max,
        decreases s.len() - n,
    {
        let l = char_utf8_len(cs[n]);
        b = b + l;
        n = n + 1;
    }
    proof {
        lemma_first_reaching_is(s, keep as nat, n as int);
    }
    let cut = if b == keep {
        n
    } else {
        n - 1
    };
    let mut v = copy_range(cs, 0, cut);
    push_str(&mut v, "...");
    proof {
        assert(s.subrange(0, cut as int) == s.take(cut as int));
    }
    string_from_chars(v.as_slice())
}

/// The first prefix that takes at least `b` bytes is the one that a scan from the start stops at.
proof fn lemma_first_reaching_is(s: Seq<char>, b: nat, n: int)
    requires
        0 <= n <= s.len(),
        forall|j: int| 0 <= j < n ==> bytes_upto(s, j) < b,
        n == s.len() || bytes_upto(s, n) >= b,
    ensures
        first_reaching(s, b, 0) == n,
{
    lemma_first_reaching_from(s, b, 0, n);
}

proof fn lemma_first_reaching_from(s: Seq<char>, b: nat, i: int, n: int)
    requires
        0 <= i <= n <= s.len(),
        forall|j: int| 0 <= j < n ==> bytes_upto(s, j) < b,
        n == s.len() || bytes_upto(s, n) >= b,
    ensures
        first_reaching(s, b, i) == n,
    decreases n - i,
{
    if i < n {
        assert(bytes_upto(s, i) < b);
        lemma_first_reaching_from(s, b, i + 1, n);
    }
}

/// The text that labels a node in the display of a syntax tree: the language
/// of a code block that names one, else the node's text content.
pub open spec fn label_text(n: crate::ast::SNode) -> Seq<char> {
    match n {
        crate::ast::SNode::CodeBlock { language: Some(l), .. } => l,
        _ => text_of(n),
    }
}

/// The label of a node in the display of a syntax tree: its type, followed by
/// `": "` and its label text shortened to 40 bytes where it has any.
pub open spec fn tree_label_of(n: crate::ast::SNode) -> Seq<char> {
    let t = label_text(n);
    if t.len() == 0 {
        type_name_of(n)
    } else {
        type_name_of(n) + ": "@ + shortened(t, 40)
    }
}

/// The label of a node in the display of a syntax tree (see `tree_label_of`).
pub fn tree_label(node: &Node) -> (r: String)
    ensures
        r@ == tree_label_of(node@),
{
    let t = match node {
        Node::CodeBlock { language: Some(l), .. } => l.clone(),
        _ => node.text_content(),
    };
    let name = node.node_type();
    if t.as_str().unicode_len() == 0 {
        return string_from_chars(str_chars(name).as_slice());
    }
    let v = shorten(t.as_str(), 40);
    let mut out: Vec<char> = Vec::new();
    push_str(&mut out, name);
    push_str(&mut out, ": ");
    push_str(&mut out, v.as_str());
    string_from_chars(out.as_slice())
}

} // verus!
