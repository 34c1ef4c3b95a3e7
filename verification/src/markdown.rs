//! Bindings to comrak: markdown parsing into an arena-allocated tree, the
//! node reads and edits that the wiki needs, heading anchors, and HTML
//! rendering. Tree nodes are comrak's own; what the wiki reads of a node is
//! handed out as a plain `NodeKind`.
use vstd::prelude::*;
use comrak::nodes::{Ast, AstNode, NodeLink, NodeValue};
use std::borrow::Cow;
use std::cell::RefCell;

verus! {

#[verifier::external_type_specification]
#[verifier::external_body]
#[verifier::reject_recursive_types(T)]
pub struct ExRefCell<T: ?Sized>(RefCell<T>);

#[verifier::external_type_specification]
#[verifier::external_body]
pub struct ExAst(Ast);

#[verifier::external_type_specification]
#[verifier::external_body]
#[verifier::reject_recursive_types(T)]
pub struct ExTreeNode<'a, T: 'a>(comrak::arena_tree::Node<'a, T>);

#[verifier::external_type_specification]
#[verifier::external_body]
#[verifier::reject_recursive_types(T)]
pub struct ExTypedArena<T>(typed_arena::Arena<T>);

#[verifier::external_type_specification]
#[verifier::external_body]
pub struct ExComrakOptions<'c>(comrak::Options<'c>);

#[verifier::external_type_specification]
#[verifier::external_body]
pub struct ExAnchorizer(comrak::Anchorizer);

/// The markdown dialect: the prefix of heading ids (`None` for no heading
/// anchors), and whether GFM tables and strikethrough are on.
pub struct MarkdownOptions {
    pub header_id_prefix: Option<String>,
    pub table: bool,
    pub strikethrough: bool,
}

/// The dialect of the wiki: heading anchors with ids made from the heading
/// text and no prefix, tables and strikethrough.
pub fn wiki_markdown_options() -> (o: MarkdownOptions)
    ensures
        o.header_id_prefix matches Some(p) && p@.len() == 0,
        o.table,
        o.strikethrough,
{
    MarkdownOptions { header_id_prefix: Some(String::new()), table: true, strikethrough: true }
}

/// What the wiki reads of a node: a link or image with its URL, a text
/// with its content, a heading with its text, or any other node.
pub enum NodeKind {
    Link(String),
    Image(String),
    Text(String),
    Heading(String),
    Other,
}

/// The characters of what the wiki reads of a node.
pub enum NodeInfo {
    Link(Seq<char>),
    Image(Seq<char>),
    Text(Seq<char>),
    Heading(Seq<char>),
    Other,
}

impl View for NodeKind {
    type V = NodeInfo;

    open spec fn view(&self) -> NodeInfo {
        match self {
            NodeKind::Link(u) => NodeInfo::Link(u@),
            NodeKind::Image(u) => NodeInfo::Image(u@),
            NodeKind::Text(t) => NodeInfo::Text(t@),
            NodeKind::Heading(t) => NodeInfo::Heading(t@),
            NodeKind::Other => NodeInfo::Other,
        }
    }
}

/// The nodes of the document that `comrak::parse_document` makes of `md`
/// (with GFM tables and strikethrough as given, other options at their
/// defaults), in document order, each as the wiki reads it: a heading with
/// the text that `comrak::html::collect_text` gives of it.
pub uninterp spec fn parsed_nodes(md: Seq<char>, table: bool, strikethrough: bool) -> Seq<NodeInfo>;

/// The anchors that a comrak `Anchorizer` has handed out.
pub uninterp spec fn anchors_used(anchorizer: comrak::Anchorizer) -> Set<Seq<char>>;

/// The anchor that `Anchorizer::anchorize` gives for `header` when the
/// anchors in `used` were handed out before.
pub uninterp spec fn anchor_of(used: Set<Seq<char>>, header: Seq<char>) -> Seq<char>;

/// The optional text of an optional string.
pub open spec fn opt_chars(o: Option<String>) -> Option<Seq<char>> {
    match o {
        Some(s) => Some(s@),
        None => None,
    }
}

/// An edit of a parsed document, at a position in the document order of
/// its nodes at the time of the edit.
pub enum Edit {
    /// The link or image at the position gets the URL.
    SetUrl(int, Seq<char>),
    /// A new text node with the text is put right before the node at the
    /// position.
    InsertText(int, Seq<char>),
    /// A new link to the URL (with an empty title), holding one new text
    /// node with the label, is put right before the node at the position.
    InsertLink(int, Seq<char>, Seq<char>),
    /// The text node at the position gets the text.
    SetText(int, Seq<char>),
    /// The text node at the position leaves the tree.
    Detach(int),
}

/// The HTML that comrak's formatter (`format_html_with_plugins`, default
/// plugins) gives of the document that `comrak::parse_document` makes of
/// `md` (GFM tables and strikethrough as given, heading ids with the prefix
/// as given, other options at their defaults) once the edits are made on
/// its tree in order.
pub uninterp spec fn rendered_html(
    md: Seq<char>,
    table: bool,
    strikethrough: bool,
    header_id_prefix: Option<Seq<char>>,
    edits: Seq<Edit>,
) -> Seq<char>;

/// A markdown document parsed by comrak into an arena, with the edits the
/// wiki makes on it. What Verus knows of it: the source and the dialect it
/// was parsed with, its nodes in document order (as the wiki reads them;
/// a heading with the text it had when parsed), and the edits made so far.
pub struct MarkdownDoc<'a> {
    arena: &'a typed_arena::Arena<AstNode<'a>>,
    root: &'a AstNode<'a>,
    handles: Vec<&'a AstNode<'a>>,
    options: comrak::Options<'static>,
    model: Ghost<DocModel>,
}

/// What Verus knows of a `MarkdownDoc`.
pub struct DocModel {
    pub source: Seq<char>,
    pub table: bool,
    pub strikethrough: bool,
    pub header_id_prefix: Option<Seq<char>>,
    pub nodes: Seq<NodeInfo>,
    pub edits: Seq<Edit>,
}

impl<'a> View for MarkdownDoc<'a> {
    type V = DocModel;

    closed spec fn view(&self) -> DocModel {
        self.model@
    }
}

/// The document's HTML as comrak formats it: that of its source with its
/// edits made.
pub open spec fn doc_html(d: DocModel) -> Seq<char> {
    rendered_html(d.source, d.table, d.strikethrough, d.header_id_prefix, d.edits)
}

/// The document `d` with its nodes and edits replaced.
pub open spec fn edited(d: DocModel, nodes: Seq<NodeInfo>, edits: Seq<Edit>) -> DocModel {
    DocModel { nodes, edits, ..d }
}

impl<'a> MarkdownDoc<'a> {
    /// `comrak::parse_document` of `md` into `arena` with the dialect of
    /// `o`: the nodes are `parsed_nodes`, the first of them the document's
    /// root (`Node::descendants` starts at the node itself), and no edit is
    /// made yet. That the parser never panics is not established here.
    #[verifier::external_body]
    pub fn parse(arena: &'a typed_arena::Arena<AstNode<'a>>, md: &str, o: &MarkdownOptions) -> (d: Self)
        ensures
            d@ == (DocModel {
                source: md@,
                table: o.table,
                strikethrough: o.strikethrough,
                header_id_prefix: opt_chars(o.header_id_prefix),
                nodes: parsed_nodes(md@, o.table, o.strikethrough),
                edits: Seq::empty(),
            }),
            d@.nodes.len() <= usize::MAX,
            d@.nodes.len() > 0,
            d@.nodes[0] == NodeInfo::Other,
    {
        let mut options = comrak::Options::default();
        options.extension.header_id_prefix = o.header_id_prefix.clone();
        options.extension.table = o.table;
        options.extension.strikethrough = o.strikethrough;
        let root = comrak::parse_document(arena, md, &options);
        let handles = root.descendants().collect();
        MarkdownDoc { arena, root, handles, options, model: Ghost(vstd::pervasive::arbitrary()) }
    }

    /// What the wiki reads of each node of the freshly parsed document
    /// (`Node::data`; `collect_text` of a heading), in document order.
    #[verifier::external_body]
    pub fn read_nodes(&self) -> (r: Vec<NodeKind>)
        requires
            self@.edits.len() == 0,
        ensures
            r@.map_values(|k: NodeKind| k@) == self@.nodes,
    {
        self.handles.iter().map(|n| match &n.data().value {
            NodeValue::Link(l) => NodeKind::Link(l.url.clone()),
            NodeValue::Image(l) => NodeKind::Image(l.url.clone()),
            NodeValue::Text(t) => NodeKind::Text(t.to_string()),
            NodeValue::Heading(_) => NodeKind::Heading(comrak::html::collect_text(n)),
            _ => NodeKind::Other,
        }).collect()
    }

    /// Sets the URL of the link or image at position `i`
    /// (`NodeLink::url` through `Node::data_mut`).
    #[verifier::external_body]
    pub fn set_url(&mut self, i: usize, url: String)
        requires
            i < old(self)@.nodes.len(),
            old(self)@.nodes[i as int] is Link || old(self)@.nodes[i as int] is Image,
        ensures
            final(self)@ == edited(
                old(self)@,
                old(self)@.nodes.update(
                    i as int,
                    if old(self)@.nodes[i as int] is Link {
                        NodeInfo::Link(url@)
                    } else {
                        NodeInfo::Image(url@)
                    },
                ),
                old(self)@.edits.push(Edit::SetUrl(i as int, url@)),
            ),
    {
        match &mut self.handles[i].data_mut().value {
            NodeValue::Link(l) => l.url = url,
            NodeValue::Image(l) => l.url = url,
            _ => {},
        }
    }

    /// Puts a new text node (`Arena::alloc`) right before the node at `i`
    /// (`Node::insert_before`), which is not the root at position 0.
    #[verifier::external_body]
    pub fn insert_text_before(&mut self, i: usize, text: String)
        requires
            0 < i < old(self)@.nodes.len(),
        ensures
            final(self)@ == edited(
                old(self)@,
                old(self)@.nodes.insert(i as int, NodeInfo::Text(text@)),
                old(self)@.edits.push(Edit::InsertText(i as int, text@)),
            ),
            final(self)@.nodes.len() <= usize::MAX,
    {
        let node = self.arena.alloc(AstNode::from(NodeValue::Text(Cow::Owned(text))));
        self.handles[i].insert_before(node);
        self.handles.insert(i, node);
    }

    /// Puts a new link to `url` holding a new text node with `label`
    /// (`Arena::alloc`, `Node::append`) right before the node at `i`
    /// (`Node::insert_before`), which is not the root at position 0.
    #[verifier::external_body]
    pub fn insert_link_before(&mut self, i: usize, url: String, label: String)
        requires
            0 < i < old(self)@.nodes.len(),
        ensures
            final(self)@ == edited(
                old(self)@,
                old(self)@.nodes.insert(i as int, NodeInfo::Link(url@)).insert(i + 1, NodeInfo::Text(label@)),
                old(self)@.edits.push(Edit::InsertLink(i as int, url@, label@)),
            ),
            final(self)@.nodes.len() <= usize::MAX,
    {
        let link = self.arena.alloc(AstNode::from(NodeValue::Link(Box::new(NodeLink { url, title: String::new() }))));
        let text = self.arena.alloc(AstNode::from(NodeValue::Text(Cow::Owned(label))));
        link.append(text);
        self.handles[i].insert_before(link);
        self.handles.insert(i, text);
        self.handles.insert(i, link);
    }

    /// Sets the text of the text node at `i` (`Node::data_mut`).
    #[verifier::external_body]
    pub fn set_text(&mut self, i: usize, text: String)
        requires
            i < old(self)@.nodes.len(),
            old(self)@.nodes[i as int] is Text,
        ensures
            final(self)@ == edited(
                old(self)@,
                old(self)@.nodes.update(i as int, NodeInfo::Text(text@)),
                old(self)@.edits.push(Edit::SetText(i as int, text@)),
            ),
    {
        self.handles[i].data_mut().value = NodeValue::Text(Cow::Owned(text));
    }

    /// Takes the text node at `i` out of the tree (`Node::detach`).
    #[verifier::external_body]
    pub fn detach(&mut self, i: usize)
        requires
            i < old(self)@.nodes.len(),
            old(self)@.nodes[i as int] is Text,
        ensures
            final(self)@ == edited(
                old(self)@,
                old(self)@.nodes.remove(i as int),
                old(self)@.edits.push(Edit::Detach(i as int)),
            ),
    {
        self.handles[i].detach();
        self.handles.remove(i);
    }

    /// The document's HTML (`comrak::format_html_with_plugins` into a
    /// `String`, which cannot fail to take the output).
    #[verifier::external_body]
    pub fn render(&self) -> (r: String)
        ensures
            r@ == rendered_html(self@.source, self@.table, self@.strikethrough, self@.header_id_prefix, self@.edits),
            r@ == doc_html(self@),
    {
        let mut out = String::new();
        comrak::format_html_with_plugins(self.root, &self.options, &mut out, &comrak::options::Plugins::default()).unwrap();
        out
    }
}

/// `typed_arena::Arena::new`: an empty arena for comrak's nodes.
#[verifier::external_body]
pub(crate) fn new_arena<'a>() -> typed_arena::Arena<AstNode<'a>> {
    typed_arena::Arena::new()
}

/// `Anchorizer::new`: an anchorizer that has handed out no anchor yet (its
/// set of anchors is empty).
#[verifier::external_body]
pub(crate) fn new_anchorizer() -> (a: comrak::Anchorizer)
    ensures
        anchors_used(a) == Set::<Seq<char>>::empty(),
{
    comrak::Anchorizer::new()
}

/// The decimal digits of `n`, as `format!` writes a number.
pub open spec fn decimal(n: nat) -> Seq<char>
    decreases n,
{
    if n < 10 {
        seq![((n + 0x30) as u32) as char]
    } else {
        decimal(n / 10).push((((n % 10) + 0x30) as u32) as char)
    }
}

/// `Anchorizer::anchorize`: the GFM anchor of a heading text, made unique
/// against the anchors handed out before, which it then records. Its
/// result is named `anchor_of` of those anchors and the text. The anchor
/// given when none was handed out before is the base: the result is the
/// base where that is free, and else the base with `-` and the least
/// number from 1 up that makes it free. It is not one of the anchors
/// handed out before, and it joins them.
#[verifier::external_body]
pub(crate) fn anchorize(anchorizer: &mut comrak::Anchorizer, text: &str) -> (r: String)
    ensures
        r@ == anchor_of(anchors_used(*old(anchorizer)), text@),
        !anchors_used(*old(anchorizer)).contains(r@),
        anchors_used(*final(anchorizer)) == anchors_used(*old(anchorizer)).insert(r@),
        ({
            let used = anchors_used(*old(anchorizer));
            let base = anchor_of(Set::<Seq<char>>::empty(), text@);
            &&& !used.contains(base) ==> r@ == base
            &&& used.contains(base) ==> exists|k: nat|
                k >= 1 && r@ == base + "-"@ + decimal(k) && forall|j: nat|
                    1 <= j < k ==> used.contains(base + "-"@ + #[trigger] decimal(j))
        }),
{
    anchorizer.anchorize(text)
}

} // verus!
