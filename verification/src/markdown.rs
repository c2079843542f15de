//! The preview's reading of a parsed Markdown document: the parser's tree,
//! as far as the preview looks at it, is turned into the nodes the preview
//! draws, with tags and dates picked out of the text runs.
use vstd::prelude::*;
use crate::preview::{Segment, SegmentView, segment_views, special_pieces, split_special_tokens};
use crate::wikilinks::{LinkStyle, rewritten, preprocess_wikilinks};
use comrak::nodes::NodeValue as V;

verus! {

/// What a node of the parsed document is, with what the preview reads of
/// it: a heading's level, a text run, the text of code, whether a list is
/// ordered, a link's target; every other kind of node is `Other`.
#[derive(Clone, Debug)]
pub enum MdValue {
    Heading(u8),
    Paragraph,
    Text(String),
    CodeBlock(String),
    Code(String),
    List(bool),
    Item,
    BlockQuote,
    ThematicBreak,
    Strong,
    Emph,
    Link(String),
    Other,
}

/// A node of the parsed document and its children, in order.
#[derive(Debug)]
pub struct MdAst {
    pub value: MdValue,
    pub children: Vec<MdAst>,
}

/// A node the preview draws.
#[derive(Debug, PartialEq)]
pub enum MdNode {
    Heading { level: u8, children: Vec<MdNode> },
    Paragraph(Vec<MdNode>),
    RawText(String),
    Code(String),
    CodeBlock(String),
    Tag(String),
    Date(String),
    List(bool, Vec<Vec<MdNode>>),
    BlockQuote(Vec<MdNode>),
    ThematicBreak,
    Strong(Vec<MdNode>),
    Emph(Vec<MdNode>),
    Link { text: String, url: String },
}

/// A drawn node as plain values.
pub ghost enum MdNodeView {
    Heading { level: u8, children: Seq<MdNodeView> },
    Paragraph(Seq<MdNodeView>),
    RawText(Seq<char>),
    Code(Seq<char>),
    CodeBlock(Seq<char>),
    Tag(Seq<char>),
    Date(Seq<char>),
    List(bool, Seq<Seq<MdNodeView>>),
    BlockQuote(Seq<MdNodeView>),
    ThematicBreak,
    Strong(Seq<MdNodeView>),
    Emph(Seq<MdNodeView>),
    Link { text: Seq<char>, url: Seq<char> },
}

/// A drawn node as plain values.
pub open spec fn node_view(n: MdNode) -> MdNodeView
    decreases n,
{
    match n {
        MdNode::Heading { level, children } => MdNodeView::Heading { level, children: nodes_view(children@) },
        MdNode::Paragraph(c) => MdNodeView::Paragraph(nodes_view(c@)),
        MdNode::RawText(t) => MdNodeView::RawText(t@),
        MdNode::Code(t) => MdNodeView::Code(t@),
        MdNode::CodeBlock(t) => MdNodeView::CodeBlock(t@),
        MdNode::Tag(t) => MdNodeView::Tag(t@),
        MdNode::Date(t) => MdNodeView::Date(t@),
        MdNode::List(o, items) => MdNodeView::List(o, items_view(items@)),
        MdNode::BlockQuote(c) => MdNodeView::BlockQuote(nodes_view(c@)),
        MdNode::ThematicBreak => MdNodeView::ThematicBreak,
        MdNode::Strong(c) => MdNodeView::Strong(nodes_view(c@)),
        MdNode::Emph(c) => MdNodeView::Emph(nodes_view(c@)),
        MdNode::Link { text, url } => MdNodeView::Link { text: text@, url: url@ },
    }
}

/// Drawn nodes as plain values.
pub open spec fn nodes_view(v: Seq<MdNode>) -> Seq<MdNodeView>
    decreases v,
{
    if v.len() == 0 {
        seq![]
    } else {
        nodes_view(v.subrange(0, v.len() - 1)).push(node_view(v[v.len() - 1]))
    }
}

/// The items of a list as plain values.
pub open spec fn items_view(v: Seq<Vec<MdNode>>) -> Seq<Seq<MdNodeView>>
    decreases v,
{
    if v.len() == 0 {
        seq![]
    } else {
        items_view(v.subrange(0, v.len() - 1)).push(nodes_view(v[v.len() - 1]@))
    }
}

/// A piece of a text run as a drawn node.
pub open spec fn piece_node(p: SegmentView) -> MdNodeView {
    match p {
        SegmentView::RawText(t) => MdNodeView::RawText(t),
        SegmentView::Tag(t) => MdNodeView::Tag(t),
        SegmentView::Date(t) => MdNodeView::Date(t),
    }
}

/// The drawn nodes of a text run: its plain text, tags and dates.
pub open spec fn text_nodes(t: Seq<char>) -> Seq<MdNodeView> {
    special_pieces(t).map_values(|p: SegmentView| piece_node(p))
}

/// The text of a link: its text-run children, joined.
pub open spec fn link_text(kids: Seq<MdAst>) -> Seq<char>
    decreases kids.len(),
{
    if kids.len() == 0 {
        seq![]
    } else {
        link_text(kids.subrange(0, kids.len() - 1)) + match kids[kids.len() - 1].value {
            MdValue::Text(t) => t@,
            _ => seq![],
        }
    }
}

/// Does `s` end in `.md`?
pub open spec fn ends_md(s: Seq<char>) -> bool {
    s.len() >= 3 && s[s.len() - 3] == '.' && s[s.len() - 2] == 'm' && s[s.len() - 1] == 'd'
}

/// `s` with every trailing `.md` taken off.
pub open spec fn trim_md(s: Seq<char>) -> Seq<char>
    decreases s.len(),
{
    if ends_md(s) {
        trim_md(s.subrange(0, s.len() - 3))
    } else {
        s
    }
}

/// The drawn nodes of the children `kids`, one child after another.
pub open spec fn conv_kids(kids: Seq<MdAst>) -> Seq<MdNodeView>
    decreases kids,
{
    if kids.len() == 0 {
        seq![]
    } else {
        conv_kids(kids.subrange(0, kids.len() - 1)) + conv_one(kids[kids.len() - 1])
    }
}

/// The items of a list: the drawn nodes of each item's children.
pub open spec fn conv_items(items: Seq<MdAst>) -> Seq<Seq<MdNodeView>>
    decreases items,
{
    if items.len() == 0 {
        seq![]
    } else {
        conv_items(items.subrange(0, items.len() - 1)).push(conv_kids(items[items.len() - 1].children@))
    }
}

/// The drawn nodes of one node: headings, paragraphs, quotes, strong and
/// emphasised text keep their children's nodes; a text run is split into
/// plain text, tags and dates; a list keeps its items; a link keeps its
/// text and its target without a trailing `.md`; the nodes of an item and
/// of any other kind of node are those of its children.
pub open spec fn conv_one(c: MdAst) -> Seq<MdNodeView>
    decreases c,
{
    match c.value {
        MdValue::Heading(level) => seq![MdNodeView::Heading { level, children: conv_kids(c.children@) }],
        MdValue::Paragraph => seq![MdNodeView::Paragraph(conv_kids(c.children@))],
        MdValue::Text(t) => text_nodes(t@),
        MdValue::CodeBlock(t) => seq![MdNodeView::CodeBlock(t@)],
        MdValue::Code(t) => seq![MdNodeView::Code(t@)],
        MdValue::List(ordered) => seq![MdNodeView::List(ordered, conv_items(c.children@))],
        MdValue::Item => conv_kids(c.children@),
        MdValue::BlockQuote => seq![MdNodeView::BlockQuote(conv_kids(c.children@))],
        MdValue::ThematicBreak => seq![MdNodeView::ThematicBreak],
        MdValue::Strong => seq![MdNodeView::Strong(conv_kids(c.children@))],
        MdValue::Emph => seq![MdNodeView::Emph(conv_kids(c.children@))],
        MdValue::Link(url) => seq![MdNodeView::Link { text: link_text(c.children@), url: trim_md(url@) }],
        MdValue::Other => conv_kids(c.children@),
    }
}

proof fn lemma_nodes_view_push(a: Seq<MdNode>, x: MdNode)
    ensures
        nodes_view(a.push(x)) == nodes_view(a).push(node_view(x)),
{
    assert(a.push(x).subrange(0, a.len() as int) =~= a);
}

proof fn lemma_nodes_view_append(a: Seq<MdNode>, b: Seq<MdNode>)
    ensures
        nodes_view(a + b) == nodes_view(a) + nodes_view(b),
    decreases b.len(),
{
    if b.len() == 0 {
        assert(a + b =~= a);
        assert(nodes_view(a) + nodes_view(b) =~= nodes_view(a));
    } else {
        let b0 = b.subrange(0, b.len() - 1);
        let x = b[b.len() - 1];
        lemma_nodes_view_append(a, b0);
        assert(a + b =~= (a + b0).push(x));
        lemma_nodes_view_push(a + b0, x);
        assert(nodes_view(a) + nodes_view(b) =~= (nodes_view(a) + nodes_view(b0)).push(node_view(x)));
    }
}

proof fn lemma_items_view_push(a: Seq<Vec<MdNode>>, x: Vec<MdNode>)
    ensures
        items_view(a.push(x)) == items_view(a).push(nodes_view(x@)),
{
    assert(a.push(x).subrange(0, a.len() as int) =~= a);
}

proof fn lemma_prefix_step<A>(s: Seq<A>, i: int)
    requires
        0 <= i < s.len(),
    ensures
        s.subrange(0, i + 1).subrange(0, i) == s.subrange(0, i),
        s.subrange(0, i + 1)[i] == s[i],
        s.subrange(0, i + 1).len() == i + 1,
{
    assert(s.subrange(0, i + 1).subrange(0, i) =~= s.subrange(0, i));
}

/// A piece of a text run as a drawn node.
fn piece_to_node(p: &Segment) -> (r: MdNode)
    ensures
        node_view(r) == piece_node(p@),
{
    match p {
        Segment::RawText(t) => MdNode::RawText(t.clone()),
        Segment::Tag(t) => MdNode::Tag(t.clone()),
        Segment::Date(t) => MdNode::Date(t.clone()),
    }
}

/// The drawn nodes of a text run (see [`text_nodes`]).
fn text_run_nodes(t: &str) -> (r: Vec<MdNode>)
    ensures
        nodes_view(r@) == text_nodes(t@),
{
    let parts = split_special_tokens(t);
    let ghost pv = segment_views(parts@);
    let mut out: Vec<MdNode> = Vec::new();
    let mut k: usize = 0;
    while k < parts.len()
        invariant
            k <= parts@.len(),
            pv == segment_views(parts@),
            pv == special_pieces(t@),
            nodes_view(out@) == pv.subrange(0, k as int).map_values(|p: SegmentView| piece_node(p)),
        decreases parts@.len() - k,
    {
        let n = piece_to_node(&parts[k]);
        proof {
            lemma_nodes_view_push(out@, n);
            assert(pv.subrange(0, k + 1).map_values(|p: SegmentView| piece_node(p))
                =~= pv.subrange(0, k as int).map_values(|p: SegmentView| piece_node(p)).push(piece_node(pv[k as int])));
        }
        out.push(n);
        k = k + 1;
    }
    assert(pv.subrange(0, k as int) =~= pv);
    out
}

/// Taking off every trailing `.md` leaves no trailing `.md`.
proof fn lemma_trim_md_done(s: Seq<char>)
    ensures
        !ends_md(trim_md(s)),
    decreases s.len(),
{
    if ends_md(s) {
        lemma_trim_md_done(s.subrange(0, s.len() - 3));
    }
}

/// `url` with every trailing `.md` taken off; what is left does not end in
/// `.md`.
pub fn trim_md_suffix(url: &str) -> (r: String)
    ensures
        r@ == trim_md(url@),
        !ends_md(r@),
{
    proof { lemma_trim_md_done(url@); }
    let v = crate::text::chars_of(url);
    let mut n: usize = v.len();
    assert(v@.subrange(0, n as int) =~= v@);
    while n >= 3 && v[n - 3] == '.' && v[n - 2] == 'm' && v[n - 1] == 'd'
        invariant
            n <= v@.len(),
            trim_md(v@) == trim_md(v@.subrange(0, n as int)),
        decreases n,
    {
        assert(v@.subrange(0, n as int).subrange(0, n - 3) =~= v@.subrange(0, n - 3));
        n = n - 3;
    }
    let mut w: Vec<char> = Vec::new();
    let mut i: usize = 0;
    while i < n
        invariant
            i <= n <= v@.len(),
            w@ == v@.subrange(0, i as int),
        decreases n - i,
    {
        w.push(v[i]);
        assert(v@.subrange(0, i as int).push(v@[i as int]) =~= v@.subrange(0, i + 1));
        i = i + 1;
    }
    crate::text::string_of(w.as_slice())
}

/// The text of a link: its text-run children, joined (see [`link_text`]).
fn link_text_of(kids: &Vec<MdAst>) -> (r: String)
    ensures
        r@ == link_text(kids@),
{
    let mut s = String::new();
    let mut i: usize = 0;
    while i < kids.len()
        invariant
            i <= kids@.len(),
            s@ == link_text(kids@.subrange(0, i as int)),
        decreases kids@.len() - i,
    {
        proof { lemma_prefix_step(kids@, i as int); }
        match &kids[i].value {
            MdValue::Text(t) => crate::text::push_str(&mut s, t.as_str()),
            _ => {}
        }
        i = i + 1;
    }
    assert(kids@.subrange(0, kids@.len() as int) =~= kids@);
    s
}

/// The nodes the preview draws for the children of `node`, one child after
/// another (see [`conv_kids`] and [`conv_one`]).
pub fn convert_ast(node: &MdAst) -> (r: Vec<MdNode>)
    ensures
        nodes_view(r@) == conv_kids(node.children@),
    decreases node,
{
    let kids = &node.children;
    let mut result: Vec<MdNode> = Vec::new();
    let mut i: usize = 0;
    while i < kids.len()
        invariant
            i <= kids@.len(),
            kids == &node.children,
            nodes_view(result@) == conv_kids(kids@.subrange(0, i as int)),
        decreases kids@.len() - i,
    {
        let child = &kids[i];
        proof { lemma_prefix_step(kids@, i as int); }
        let ghost before = result@;
        match &child.value {
            MdValue::Heading(level) => {
                let children = convert_ast(child);
                let n = MdNode::Heading { level: *level, children };
                proof { lemma_nodes_view_push(result@, n); }
                result.push(n);
            },
            MdValue::Paragraph => {
                let n = MdNode::Paragraph(convert_ast(child));
                proof { lemma_nodes_view_push(result@, n); }
                result.push(n);
            },
            MdValue::Text(t) => {
                let mut parts = text_run_nodes(t.as_str());
                proof { lemma_nodes_view_append(result@, parts@); }
                result.append(&mut parts);
            },
            MdValue::CodeBlock(t) => {
                let n = MdNode::CodeBlock(t.clone());
                proof { lemma_nodes_view_push(result@, n); }
                result.push(n);
            },
            MdValue::Code(t) => {
                let n = MdNode::Code(t.clone());
                proof { lemma_nodes_view_push(result@, n); }
                result.push(n);
            },
            MdValue::List(ordered) => {
                let items_src = &child.children;
                let mut items: Vec<Vec<MdNode>> = Vec::new();
                let mut j: usize = 0;
                while j < items_src.len()
                    invariant
                        j <= items_src@.len(),
                        items_src == &child.children,
                        i < kids@.len(),
                        kids == &node.children,
                        *child == kids@[i as int],
                        items_view(items@) == conv_items(items_src@.subrange(0, j as int)),
                    decreases items_src@.len() - j,
                {
                    proof { lemma_prefix_step(items_src@, j as int); }
                    let item_nodes = convert_ast(&items_src[j]);
                    proof { lemma_items_view_push(items@, item_nodes); }
                    items.push(item_nodes);
                    j = j + 1;
                }
                assert(items_src@.subrange(0, items_src@.len() as int) =~= items_src@);
                let n = MdNode::List(*ordered, items);
                proof { lemma_nodes_view_push(result@, n); }
                result.push(n);
            },
            MdValue::Item => {
                let mut parts = convert_ast(child);
                proof { lemma_nodes_view_append(result@, parts@); }
                result.append(&mut parts);
            },
            MdValue::BlockQuote => {
                let n = MdNode::BlockQuote(convert_ast(child));
                proof { lemma_nodes_view_push(result@, n); }
                result.push(n);
            },
            MdValue::ThematicBreak => {
                let n = MdNode::ThematicBreak;
                proof { lemma_nodes_view_push(result@, n); }
                result.push(n);
            },
            MdValue::Strong => {
                let n = MdNode::Strong(convert_ast(child));
                proof { lemma_nodes_view_push(result@, n); }
                result.push(n);
            },
            MdValue::Emph => {
                let n = MdNode::Emph(convert_ast(child));
                proof { lemma_nodes_view_push(result@, n); }
                result.push(n);
            },
            MdValue::Link(url) => {
                let n = MdNode::Link { text: link_text_of(&child.children), url: trim_md_suffix(url.as_str()) };
                proof { lemma_nodes_view_push(result@, n); }
                result.push(n);
            },
            MdValue::Other => {
                let mut parts = convert_ast(child);
                proof { lemma_nodes_view_append(result@, parts@); }
                result.append(&mut parts);
            },
        }
        assert(nodes_view(result@) == conv_kids(kids@.subrange(0, i as int)) + conv_one(kids@[i as int]));
        i = i + 1;
    }
    assert(kids@.subrange(0, kids@.len() as int) =~= kids@);
    result
}


#[verifier::external_type_specification]
#[verifier::external_body]
pub struct ExNodeValue(comrak::nodes::NodeValue);

#[verifier::external_type_specification]
#[verifier::external_body]
pub struct ExAst(comrak::nodes::Ast);

#[verifier::external_type_specification]
#[verifier::external_body]
#[verifier::reject_recursive_types(T)]
pub struct ExRefCell<T: ?Sized>(core::cell::RefCell<T>);

#[verifier::external_type_specification]
#[verifier::external_body]
#[verifier::reject_recursive_types(T)]
pub struct ExArenaNode<'a, T: 'a>(comrak::arena_tree::Node<'a, T>);

/// The document tree comrak's `parse_document` builds of `text` under its
/// default options, as the library's tree (see [`parse_markdown`]).
pub uninterp spec fn md_tree(text: Seq<char>) -> MdAst;

/// What a node of comrak's tree is, as the library reads it: one variant
/// for each kind the preview tells apart, `Other` for the rest.
#[verifier::external_body]
fn value_of(v: &comrak::nodes::NodeValue) -> MdValue {
    match v {
        V::Heading(h) => MdValue::Heading(h.level),
        V::Paragraph => MdValue::Paragraph,
        V::Text(t) => MdValue::Text(t.to_string()),
        V::CodeBlock(cb) => MdValue::CodeBlock(cb.literal.clone()),
        V::Code(c) => MdValue::Code(c.literal.clone()),
        V::List(l) => MdValue::List(l.list_type == comrak::nodes::ListType::Ordered),
        V::Item(_) => MdValue::Item,
        V::BlockQuote => MdValue::BlockQuote,
        V::ThematicBreak => MdValue::ThematicBreak,
        V::Strong => MdValue::Strong,
        V::Emph => MdValue::Emph,
        V::Link(l) => MdValue::Link(l.url.clone()),
        _ => MdValue::Other,
    }
}

/// comrak's node and its children, in order, as the library's tree.
#[verifier::external_body]
fn tree_of<'a>(node: &'a comrak::nodes::AstNode<'a>) -> MdAst {
    MdAst { value: value_of(&node.data.borrow().value), children: node.children().map(tree_of).collect() }
}

/// comrak's `parse_document` of `text` with a fresh arena and the default
/// options, read node by node into the library's tree. What tree comrak
/// builds is not stated here; it is named [`md_tree`].
#[verifier::external_body]
fn parse_markdown(text: &str) -> (r: MdAst)
    ensures
        r == md_tree(text@),
{
    let arena = comrak::Arena::new();
    let root = comrak::parse_document(&arena, text, &comrak::Options::default());
    tree_of(root)
}

/// The nodes the preview draws for a note's Markdown: none for an empty
/// note; otherwise its wiki-links rewritten as links to note files, the
/// text parsed, and the document's children read (see [`conv_kids`]).
pub fn preview_nodes(markdown: &str) -> (r: Option<Vec<MdNode>>)
    ensures
        (markdown@.len() == 0) <==> r is None,
        r matches Some(v) ==> nodes_view(v@) == conv_kids(md_tree(rewritten(markdown@, 0, LinkStyle::MarkdownFile)).children@),
{
    if markdown.is_empty() {
        return None;
    }
    let processed = preprocess_wikilinks(markdown);
    let root = parse_markdown(processed.as_str());
    Some(convert_ast(&root))
}

} // verus!
