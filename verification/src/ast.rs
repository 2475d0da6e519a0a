//! The Markdown syntax tree.
use vstd::prelude::*;
use vstd::string::StringExecFns;
use crate::text::{chars_eq_str, push_all, push_dec, str_chars, string_from_chars};

verus! {

/// Mathematical model of a [`Node`]: the same tree with texts as character sequences.
pub enum SNode {
    Document(Seq<SNode>),
    Heading { level: u8, children: Seq<SNode> },
    Paragraph(Seq<SNode>),
    CodeBlock { language: Option<Seq<char>>, code: Seq<char> },
    Blockquote(Seq<SNode>),
    List { ordered: bool, items: Seq<SNode> },
    ListItem(Seq<SNode>),
    Table { header: Seq<SNode>, rows: Seq<Seq<SNode>> },
    TableRow(Seq<SNode>),
    TableCell(Seq<SNode>),
    ThematicBreak,
    Link { text: Seq<char>, url: Seq<char> },
    Image { alt: Seq<char>, url: Seq<char> },
    Emphasis { strong: bool, children: Seq<SNode> },
    InlineCode(Seq<char>),
    Text(Seq<char>),
    LineBreak,
}

/// The rows of a table, one after the other.
pub open spec fn flatten(rows: Seq<Seq<SNode>>) -> Seq<SNode>
    decreases rows.len(),
{
    if rows.len() == 0 {
        Seq::empty()
    } else {
        flatten(rows.drop_last()) + rows.last()
    }
}

/// The children of a node, in document order (a table lists its header cells, then its rows' cells).
pub open spec fn children_of(n: SNode) -> Seq<SNode> {
    match n {
        SNode::Document(c) => c,
        SNode::Paragraph(c) => c,
        SNode::Blockquote(c) => c,
        SNode::Heading { children, .. } => children,
        SNode::Emphasis { children, .. } => children,
        SNode::List { items, .. } => items,
        SNode::ListItem(c) => c,
        SNode::Table { header, rows } => header + flatten(rows),
        SNode::TableRow(c) => c,
        SNode::TableCell(c) => c,
        _ => Seq::empty(),
    }
}

proof fn lemma_flatten_decreases(n: SNode, rows: Seq<Seq<SNode>>, k: int)
    requires
        0 <= k < flatten(rows).len(),
        forall|r: int| 0 <= r < rows.len() ==> #[trigger] decreases_to!(n => rows[r]),
    ensures
        decreases_to!(n => flatten(rows)[k]),
    decreases rows.len(),
{
    let prev = flatten(rows.drop_last());
    if k < prev.len() {
        assert forall|r: int| 0 <= r < rows.drop_last().len() implies #[trigger] decreases_to!(n => rows.drop_last()[r]) by {
            assert(rows.drop_last()[r] == rows[r]);
        }
        lemma_flatten_decreases(n, rows.drop_last(), k);
    } else {
        let last = rows.last();
        assert(decreases_to!(n => rows[rows.len() - 1]));
        assert(decreases_to!(last => last[k - prev.len()]));
    }
}

/// Every child of a node is structurally smaller than the node.
pub proof fn lemma_child_decreases(n: SNode, k: int)
    requires
        0 <= k < children_of(n).len(),
    ensures
        decreases_to!(n => children_of(n)[k]),
{
    match n {
        SNode::Table { header, rows } => {
            if k < header.len() {
                assert(decreases_to!(n => header[k]));
            } else {
                assert forall|r: int| 0 <= r < rows.len() implies #[trigger] decreases_to!(n => rows[r]) by {
                    assert(decreases_to!(n => rows));
                }
                lemma_flatten_decreases(n, rows, k - header.len());
            }
        },
        SNode::Document(c) => { assert(decreases_to!(n => c[k])); },
        SNode::Paragraph(c) => { assert(decreases_to!(n => c[k])); },
        SNode::Blockquote(c) => { assert(decreases_to!(n => c[k])); },
        SNode::Heading { children, .. } => { assert(decreases_to!(n => children[k])); },
        SNode::Emphasis { children, .. } => { assert(decreases_to!(n => children[k])); },
        SNode::List { items, .. } => { assert(decreases_to!(n => items[k])); },
        SNode::ListItem(c) => { assert(decreases_to!(n => c[k])); },
        SNode::TableRow(c) => { assert(decreases_to!(n => c[k])); },
        SNode::TableCell(c) => { assert(decreases_to!(n => c[k])); },
        _ => {},
    }
}

/// The text content of a node: leaf texts, with the non-empty texts of the
/// children of a container joined by single spaces.
pub open spec fn text_of(n: SNode) -> Seq<char>
    decreases n, 1int, 0int,
{
    match n {
        SNode::Text(s) => s,
        SNode::InlineCode(s) => s,
        SNode::CodeBlock { code, .. } => code,
        SNode::Link { text, .. } => text,
        SNode::Image { alt, .. } => alt,
        SNode::ThematicBreak => Seq::empty(),
        SNode::LineBreak => Seq::empty(),
        _ => texts_from(n, 0, Seq::empty()),
    }
}

/// Joining the texts of the children of `p` from the `k`-th on onto `acc`.
pub open spec fn texts_from(p: SNode, k: int, acc: Seq<char>) -> Seq<char>
    decreases p, 0int, children_of(p).len() - k,
{
    if k < 0 || k >= children_of(p).len() {
        acc
    } else {
        proof {
            lemma_child_decreases(p, k);
        }
        let t = text_of(children_of(p)[k]);
        let acc2 = if acc.len() > 0 && t.len() > 0 { acc.push(' ') + t } else { acc + t };
        texts_from(p, k + 1, acc2)
    }
}

/// A node of the Markdown syntax tree.
#[derive(Debug, PartialEq)]
pub enum Node {
    Document(Vec<Node>),
    Heading { level: u8, children: Vec<Node> },
    Paragraph(Vec<Node>),
    CodeBlock { language: Option<String>, code: String },
    Blockquote(Vec<Node>),
    List { ordered: bool, items: Vec<Node> },
    ListItem(Vec<Node>),
    Table { header: Vec<TableCell>, rows: Vec<Vec<TableCell>> },
    TableRow(Vec<TableCell>),
    TableCell(Vec<Node>),
    ThematicBreak,
    Link { text: String, url: String },
    Image { alt: String, url: String },
    Emphasis { strong: bool, children: Vec<Node> },
    InlineCode(String),
    Text(String),
    LineBreak,
}

/// Table cells are nodes (`Node::TableCell`).
pub type TableCell = Node;

pub open spec fn opt_view(o: Option<String>) -> Option<Seq<char>> {
    match o {
        Some(s) => Some(s@),
        None => None,
    }
}

impl View for Node {
    type V = SNode;

    open spec fn view(&self) -> SNode
        decreases self,
    {
        match self {
            Node::Document(c) => SNode::Document(nodes_view(c@)),
            Node::Heading { level, children } => SNode::Heading {
                level: *level,
                children: nodes_view(children@),
            },
            Node::Paragraph(c) => SNode::Paragraph(nodes_view(c@)),
            Node::CodeBlock { language, code } => SNode::CodeBlock {
                language: opt_view(*language),
                code: code@,
            },
            Node::Blockquote(c) => SNode::Blockquote(nodes_view(c@)),
            Node::List { ordered, items } => SNode::List {
                ordered: *ordered,
                items: nodes_view(items@),
            },
            Node::ListItem(c) => SNode::ListItem(nodes_view(c@)),
            Node::Table { header, rows } => SNode::Table {
                header: nodes_view(header@),
                rows: rows_view(rows@),
            },
            Node::TableRow(c) => SNode::TableRow(nodes_view(c@)),
            Node::TableCell(c) => SNode::TableCell(nodes_view(c@)),
            Node::ThematicBreak => SNode::ThematicBreak,
            Node::Link { text, url } => SNode::Link { text: text@, url: url@ },
            Node::Image { alt, url } => SNode::Image { alt: alt@, url: url@ },
            Node::Emphasis { strong, children } => SNode::Emphasis {
                strong: *strong,
                children: nodes_view(children@),
            },
            Node::InlineCode(s) => SNode::InlineCode(s@),
            Node::Text(s) => SNode::Text(s@),
            Node::LineBreak => SNode::LineBreak,
        }
    }
}

/// The models of a sequence of nodes.
pub open spec fn nodes_view(s: Seq<Node>) -> Seq<SNode>
    decreases s,
{
    if s.len() == 0 {
        Seq::empty()
    } else {
        nodes_view(s.drop_last()).push(s.last().view())
    }
}

/// The models of the rows of a table.
pub open spec fn rows_view(s: Seq<Vec<Node>>) -> Seq<Seq<SNode>>
    decreases s,
{
    if s.len() == 0 {
        Seq::empty()
    } else {
        rows_view(s.drop_last()).push(nodes_view(s.last()@))
    }
}

/// The models of a sequence of node references.
pub open spec fn refs_view(s: Seq<&Node>) -> Seq<SNode> {
    Seq::new(s.len(), |i: int| s[i]@)
}

pub broadcast proof fn lemma_nodes_view(s: Seq<Node>)
    ensures
        #[trigger] nodes_view(s).len() == s.len(),
        forall|i: int| 0 <= i < s.len() ==> #[trigger] nodes_view(s)[i] == s[i]@,
    decreases s.len(),
{
    if s.len() > 0 {
        lemma_nodes_view(s.drop_last());
        assert(nodes_view(s) == nodes_view(s.drop_last()).push(s.last()@));
    } else {
        assert(nodes_view(s) == Seq::<SNode>::empty());
    }
}

pub broadcast proof fn lemma_rows_view(s: Seq<Vec<Node>>)
    ensures
        #[trigger] rows_view(s).len() == s.len(),
        forall|i: int| 0 <= i < s.len() ==> #[trigger] rows_view(s)[i] == nodes_view(s[i]@),
    decreases s.len(),
{
    if s.len() > 0 {
        lemma_rows_view(s.drop_last());
    }
}

pub proof fn lemma_nodes_view_push(s: Seq<Node>, n: Node)
    ensures
        nodes_view(s.push(n)) == nodes_view(s).push(n@),
{
    assert(s.push(n).drop_last() =~= s);
}

pub proof fn lemma_rows_view_push(s: Seq<Vec<Node>>, r: Vec<Node>)
    ensures
        rows_view(s.push(r)) == rows_view(s).push(nodes_view(r@)),
{
    assert(s.push(r).drop_last() =~= s);
}

pub proof fn lemma_flatten_push(rows: Seq<Seq<SNode>>, r: Seq<SNode>)
    ensures
        flatten(rows.push(r)) == flatten(rows) + r,
{
    assert(rows.push(r).drop_last() =~= rows);
}

/// The name of the kind of a node, as queries write it.
pub open spec fn type_name_of(n: SNode) -> Seq<char> {
    match n {
        SNode::Document(_) => "document"@,
        SNode::Heading { .. } => "heading"@,
        SNode::Paragraph(_) => "paragraph"@,
        SNode::CodeBlock { .. } => "code_block"@,
        SNode::Blockquote(_) => "blockquote"@,
        SNode::List { .. } => "list"@,
        SNode::ListItem(_) => "list_item"@,
        SNode::Table { .. } => "table"@,
        SNode::TableRow(_) => "table_row"@,
        SNode::TableCell(_) => "table_cell"@,
        SNode::ThematicBreak => "thematic_break"@,
        SNode::Link { .. } => "link"@,
        SNode::Image { .. } => "image"@,
        SNode::Emphasis { .. } => "emphasis"@,
        SNode::InlineCode(_) => "inline_code"@,
        SNode::Text(_) => "text"@,
        SNode::LineBreak => "line_break"@,
    }
}

/// `"true"` or `"false"`, as `bool::to_string` writes them.
pub open spec fn bool_text(b: bool) -> Seq<char> {
    if b {
        "true"@
    } else {
        "false"@
    }
}

/// The attribute `name` of a node, if the node has one.
pub open spec fn attr_of(n: SNode, name: Seq<char>) -> Option<Seq<char>> {
    if name == "level"@ {
        match n {
            SNode::Heading { level, .. } => Some(crate::text::dec(level as nat)),
            _ => None,
        }
    } else if name == "lang"@ {
        match n {
            SNode::CodeBlock { language, .. } => language,
            _ => None,
        }
    } else if name == "url"@ {
        match n {
            SNode::Link { url, .. } => Some(url),
            SNode::Image { url, .. } => Some(url),
            _ => None,
        }
    } else if name == "alt"@ {
        match n {
            SNode::Image { alt, .. } => Some(alt),
            _ => None,
        }
    } else if name == "text"@ {
        match n {
            SNode::Link { text, .. } => Some(text),
            SNode::Image { alt, .. } => Some(alt),
            SNode::Text(s) => Some(s),
            _ => None,
        }
    } else if name == "strong"@ {
        match n {
            SNode::Emphasis { strong, .. } => Some(bool_text(strong)),
            _ => None,
        }
    } else if name == "ordered"@ {
        match n {
            SNode::List { ordered, .. } => Some(bool_text(ordered)),
            _ => None,
        }
    } else if name == "code"@ {
        match n {
            SNode::InlineCode(s) => Some(s),
            SNode::CodeBlock { code, .. } => Some(code),
            _ => None,
        }
    } else {
        None
    }
}

/// A copy of a sequence of nodes.
pub fn copy_nodes(v: &Vec<Node>) -> (r: Vec<Node>)
    ensures
        nodes_view(r@) == nodes_view(v@),
    decreases v,
{
    let mut r: Vec<Node> = Vec::new();
    let mut i: usize = 0;
    while i < v.len()
        invariant
            i <= v@.len(),
            nodes_view(r@) == nodes_view(v@.take(i as int)),
        decreases v@.len() - i,
    {
        assert(decreases_to!(v => v@[i as int]));
        let c = copy_node(&v[i]);
        proof {
            lemma_nodes_view_push(r@, c);
            lemma_nodes_view_push(v@.take(i as int), v@[i as int]);
            assert(v@.take(i + 1) =~= v@.take(i as int).push(v@[i as int]));
        }
        r.push(c);
        i = i + 1;
    }
    assert(v@.take(v@.len() as int) =~= v@);
    r
}

/// A copy of the rows of a table.
pub fn copy_rows(rows: &Vec<Vec<Node>>) -> (r: Vec<Vec<Node>>)
    ensures
        rows_view(r@) == rows_view(rows@),
    decreases rows,
{
    let mut rs: Vec<Vec<Node>> = Vec::new();
    let mut i: usize = 0;
    while i < rows.len()
        invariant
            i <= rows@.len(),
            rows_view(rs@) == rows_view(rows@.take(i as int)),
        decreases rows@.len() - i,
    {
        assert(decreases_to!(rows => rows@[i as int]));
        let r = copy_nodes(&rows[i]);
        proof {
            lemma_rows_view_push(rs@, r);
            lemma_rows_view_push(rows@.take(i as int), rows@[i as int]);
            assert(rows@.take(i + 1) =~= rows@.take(i as int).push(rows@[i as int]));
        }
        rs.push(r);
        i = i + 1;
    }
    assert(rows@.take(rows@.len() as int) =~= rows@);
    rs
}

impl Clone for Node {
    fn clone(&self) -> (r: Self)
        ensures
            r@ == self@,
    {
        copy_node(self)
    }
}

/// A copy of a node.
pub fn copy_node(n: &Node) -> (r: Node)
    ensures
        r@ == n@,
    decreases n,
{
    match n {
        Node::Document(c) => Node::Document(copy_nodes(c)),
        Node::Heading { level, children } => Node::Heading {
            level: *level,
            children: copy_nodes(children),
        },
        Node::Paragraph(c) => Node::Paragraph(copy_nodes(c)),
        Node::CodeBlock { language, code } => {
            let l = match language {
                Some(s) => Some(s.clone()),
                None => None,
            };
            Node::CodeBlock { language: l, code: code.clone() }
        },
        Node::Blockquote(c) => Node::Blockquote(copy_nodes(c)),
        Node::List { ordered, items } => Node::List { ordered: *ordered, items: copy_nodes(items) },
        Node::ListItem(c) => Node::ListItem(copy_nodes(c)),
        Node::Table { header, rows } => Node::Table {
            header: copy_nodes(header),
            rows: copy_rows(rows),
        },
        Node::TableRow(c) => Node::TableRow(copy_nodes(c)),
        Node::TableCell(c) => Node::TableCell(copy_nodes(c)),
        Node::ThematicBreak => Node::ThematicBreak,
        Node::Link { text, url } => Node::Link { text: text.clone(), url: url.clone() },
        Node::Image { alt, url } => Node::Image { alt: alt.clone(), url: url.clone() },
        Node::Emphasis { strong, children } => Node::Emphasis {
            strong: *strong,
            children: copy_nodes(children),
        },
        Node::InlineCode(s) => Node::InlineCode(s.clone()),
        Node::Text(s) => Node::Text(s.clone()),
        Node::LineBreak => Node::LineBreak,
    }
}

/// Appends references to the nodes of `v`.
fn push_refs<'a>(out: &mut Vec<&'a Node>, v: &'a Vec<Node>)
    ensures
        refs_view(final(out)@) == refs_view(old(out)@) + nodes_view(v@),
{
    let ghost start = refs_view(out@);
    let mut i: usize = 0;
    proof {
        lemma_nodes_view(v@);
    }
    while i < v.len()
        invariant
            i <= v@.len(),
            nodes_view(v@).len() == v@.len(),
            forall|k: int| 0 <= k < v@.len() ==> #[trigger] nodes_view(v@)[k] == v@[k]@,
            refs_view(out@) == start + nodes_view(v@).take(i as int),
        decreases v@.len() - i,
    {
        let ghost prev = out@;
        out.push(&v[i]);
        assert(out@ == prev.push(&v@[i as int]));
        assert(refs_view(out@) =~= refs_view(prev).push(v@[i as int]@));
        assert(nodes_view(v@).take(i + 1) =~= nodes_view(v@).take(i as int).push(
            nodes_view(v@)[i as int],
        ));
        i = i + 1;
    }
    assert(nodes_view(v@).take(v@.len() as int) =~= nodes_view(v@));
}

fn text_push(acc: &mut Vec<char>, t: &String)
    ensures
        final(acc)@ == join_text(old(acc)@, t@),
{
    let tv = str_chars(t.as_str());
    if acc.len() > 0 && tv.len() > 0 {
        acc.push(' ');
    }
    push_all(acc, tv.as_slice());
}

/// Adding the text of one more child to the text gathered so far.
pub open spec fn join_text(acc: Seq<char>, t: Seq<char>) -> Seq<char> {
    if acc.len() > 0 && t.len() > 0 {
        acc.push(' ') + t
    } else {
        acc + t
    }
}

impl Node {
    /// The name of the node's kind (`"heading"`, `"code_block"`, ...).
    pub fn node_type(&self) -> (r: &'static str)
        ensures
            r@ == type_name_of(self@),
    {
        match self {
            Node::Document(_) => "document",
            Node::Heading { .. } => "heading",
            Node::Paragraph(_) => "paragraph",
            Node::CodeBlock { .. } => "code_block",
            Node::Blockquote(_) => "blockquote",
            Node::List { .. } => "list",
            Node::ListItem(_) => "list_item",
            Node::Table { .. } => "table",
            Node::TableRow(_) => "table_row",
            Node::TableCell(_) => "table_cell",
            Node::ThematicBreak => "thematic_break",
            Node::Link { .. } => "link",
            Node::Image { .. } => "image",
            Node::Emphasis { .. } => "emphasis",
            Node::InlineCode(_) => "inline_code",
            Node::Text(_) => "text",
            Node::LineBreak => "line_break",
        }
    }

    /// The children of the node, in document order.
    pub fn children(&self) -> (r: Vec<&Node>)
        ensures
            refs_view(r@) == children_of(self@),
    {
        let mut out: Vec<&Node> = Vec::new();
        proof {
            assert(refs_view(out@) =~= Seq::<SNode>::empty());
        }
        match self {
            Node::Document(c) => push_refs(&mut out, c),
            Node::Paragraph(c) => push_refs(&mut out, c),
            Node::Blockquote(c) => push_refs(&mut out, c),
            Node::Heading { children, .. } => push_refs(&mut out, children),
            Node::Emphasis { children, .. } => push_refs(&mut out, children),
            Node::List { items, .. } => push_refs(&mut out, items),
            Node::ListItem(c) => push_refs(&mut out, c),
            Node::Table { header, rows } => {
                push_refs(&mut out, header);
                let mut i: usize = 0;
                proof {
                    lemma_rows_view(rows@);
                    assert(rows_view(rows@).take(0) =~= Seq::<Seq<SNode>>::empty());
                    assert(nodes_view(header@) + Seq::<SNode>::empty() =~= nodes_view(header@));
                }
                while i < rows.len()
                    invariant
                        i <= rows@.len(),
                        rows_view(rows@).len() == rows@.len(),
                        forall|k: int| 0 <= k < rows@.len() ==> #[trigger] rows_view(rows@)[k] == nodes_view(rows@[k]@),
                        refs_view(out@) == nodes_view(header@) + flatten(rows_view(rows@).take(i as int)),
                    decreases rows@.len() - i,
                {
                    push_refs(&mut out, &rows[i]);
                    proof {
                        lemma_flatten_push(rows_view(rows@).take(i as int), rows_view(rows@)[i as int]);
                        assert(rows_view(rows@).take(i + 1) =~= rows_view(rows@).take(i as int).push(rows_view(rows@)[i as int]));
                    }
                    i = i + 1;
                }
                assert(rows_view(rows@).take(rows@.len() as int) =~= rows_view(rows@));
            },
            Node::TableRow(c) => push_refs(&mut out, c),
            Node::TableCell(c) => push_refs(&mut out, c),
            _ => {},
        }
        out
    }

    fn text_chars(&self) -> (r: Vec<char>)
        ensures
            r@ == text_of(self@),
        decreases self@,
    {
        match self {
            Node::Text(s) => str_chars(s.as_str()),
            Node::InlineCode(s) => str_chars(s.as_str()),
            Node::CodeBlock { code, .. } => str_chars(code.as_str()),
            Node::Link { text, .. } => str_chars(text.as_str()),
            Node::Image { alt, .. } => str_chars(alt.as_str()),
            Node::ThematicBreak => Vec::new(),
            Node::LineBreak => Vec::new(),
            _ => {
                let ch = self.children();
                let mut acc: Vec<char> = Vec::new();
                let mut i: usize = 0;
                while i < ch.len()
                    invariant
                        i <= ch@.len(),
                        refs_view(ch@) == children_of(self@),
                        texts_from(self@, 0, Seq::empty()) == texts_from(self@, i as int, acc@),
                    decreases ch@.len() - i,
                {
                    proof {
                        lemma_child_decreases(self@, i as int);
                        assert(ch@[i as int]@ == children_of(self@)[i as int]);
                    }
                    let t = ch[i].text_chars();
                    if acc.len() > 0 && t.len() > 0 {
                        acc.push(' ');
                    }
                    push_all(&mut acc, t.as_slice());
                    i = i + 1;
                }
                acc
            },
        }
    }

    /// The text of the node and of everything below it; the non-empty texts
    /// of the children of a container are joined by single spaces.
    pub fn text_content(&self) -> (r: String)
        ensures
            r@ == text_of(self@),
    {
        let v = self.text_chars();
        string_from_chars(v.as_slice())
    }

    /// The value of the attribute `name`, if the node has it.
    pub fn get_attribute(&self, name: &str) -> (r: Option<String>)
        ensures
            opt_view(r) == attr_of(self@, name@),
    {
        let nm = str_chars(name);
        let n = nm.as_slice();
        if chars_eq_str(n, "level") {
            match self {
                Node::Heading { level, .. } => {
                    let mut v: Vec<char> = Vec::new();
                    push_dec(&mut v, *level as usize);
                    Some(string_from_chars(v.as_slice()))
                },
                _ => None,
            }
        } else if chars_eq_str(n, "lang") {
            match self {
                Node::CodeBlock { language, .. } => match language {
                    Some(l) => Some(l.clone()),
                    None => None,
                },
                _ => None,
            }
        } else if chars_eq_str(n, "url") {
            match self {
                Node::Link { url, .. } => Some(url.clone()),
                Node::Image { url, .. } => Some(url.clone()),
                _ => None,
            }
        } else if chars_eq_str(n, "alt") {
            match self {
                Node::Image { alt, .. } => Some(alt.clone()),
                _ => None,
            }
        } else if chars_eq_str(n, "text") {
            match self {
                Node::Link { text, .. } => Some(text.clone()),
                Node::Image { alt, .. } => Some(alt.clone()),
                Node::Text(s) => Some(s.clone()),
                _ => None,
            }
        } else if chars_eq_str(n, "strong") {
            match self {
                Node::Emphasis { strong, .. } => Some(bool_string(*strong)),
                _ => None,
            }
        } else if chars_eq_str(n, "ordered") {
            match self {
                Node::List { ordered, .. } => Some(bool_string(*ordered)),
                _ => None,
            }
        } else if chars_eq_str(n, "code") {
            match self {
                Node::InlineCode(s) => Some(s.clone()),
                Node::CodeBlock { code, .. } => Some(code.clone()),
                _ => None,
            }
        } else {
            None
        }
    }

    /// Whether the node has the attribute `name` with exactly the value `value`.
    pub fn matches_attribute(&self, name: &str, value: &str) -> (b: bool)
        ensures
            b == (attr_of(self@, name@) == Some(value@)),
    {
        match self.get_attribute(name) {
            Some(v) => {
                let a = str_chars(v.as_str());
                chars_eq_str(a.as_slice(), value)
            },
            None => false,
        }
    }
}

fn bool_string(b: bool) -> (r: String)
    ensures
        r@ == bool_text(b),
{
    if b {
        String::from_str("true")
    } else {
        String::from_str("false")
    }
}

} // verus!
