//! The document tree of a Markdown source, as comrak parses it with the
//! strikethrough and table extensions, which the PDF export walks.
use vstd::prelude::*;
use comrak::arena_tree::NodeEdge;
use comrak::nodes::{ListType, NodeValue, TableAlignment};

verus! {

/// The alignment of a table column.
pub enum Align {
    Unset,
    Left,
    Center,
    Right,
}

/// What a node of a Markdown document is, with the values of it that the
/// PDF export reads.
pub enum MdKind {
    Document,
    Paragraph,
    /// A heading of the given level.
    Heading(u8),
    /// A list; `true` when it is ordered.
    List(bool),
    Item,
    BlockQuote,
    ThematicBreak,
    /// A code block: its info string and its text.
    CodeBlock(String, String),
    HtmlBlock,
    /// A table with the alignment of each column.
    Table(Vec<Align>),
    Text(String),
    SoftBreak,
    LineBreak,
    /// Inline code and its text.
    Code(String),
    HtmlInline,
    Emph,
    Strong,
    Strikethrough,
    /// A link and its URL.
    Link(String),
    /// An image and its URL.
    Image(String),
    /// Any other node (table rows and cells among them).
    Other,
}

/// A node of a Markdown document with its children in order.
pub struct MdNode {
    pub kind: MdKind,
    pub children: Vec<MdNode>,
}

#[verifier::external_type_specification]
#[verifier::external_body]
pub struct ExNodeValue(comrak::nodes::NodeValue);

#[verifier::external_type_specification]
#[verifier::external_body]
pub struct ExTableAlignment(comrak::nodes::TableAlignment);

/// The document tree that comrak's `parse_document` builds for a Markdown
/// source (with strikethrough and tables enabled).
pub uninterp spec fn markdown_tree(md: Seq<char>) -> MdNode;

/// Parses a Markdown source with comrak's `parse_document` and gives its
/// document tree node for node; the result is named, not stated.
#[verifier::external_body]
pub(crate) fn parse_markdown(md: &str) -> (r: MdNode)
    ensures
        r == markdown_tree(md@),
{
    let arena = comrak::Arena::new();
    let mut options = comrak::Options::default();
    options.extension.strikethrough = true;
    options.extension.table = true;
    let mut open = vec![MdNode { kind: MdKind::Other, children: vec![] }];
    for edge in comrak::parse_document(&arena, md, &options).traverse() {
        match edge {
            NodeEdge::Start(n) => open.push(MdNode { kind: block_kind(&n.data.borrow().value), children: vec![] }),
            NodeEdge::End(_) => { let done = open.pop().unwrap(); open.last_mut().unwrap().children.push(done) }
        }
    }
    open.pop().unwrap().children.pop().unwrap()
}

/// The kind of a comrak block node, one variant for one variant.
#[verifier::external_body]
fn block_kind(v: &NodeValue) -> MdKind {
    match v {
        NodeValue::Document => MdKind::Document,
        NodeValue::Paragraph => MdKind::Paragraph,
        NodeValue::Heading(h) => MdKind::Heading(h.level),
        NodeValue::List(l) => MdKind::List(matches!(l.list_type, ListType::Ordered)),
        NodeValue::Item(_) => MdKind::Item,
        NodeValue::BlockQuote => MdKind::BlockQuote,
        NodeValue::ThematicBreak => MdKind::ThematicBreak,
        NodeValue::CodeBlock(c) => MdKind::CodeBlock(c.info.clone(), c.literal.clone()),
        NodeValue::HtmlBlock(_) => MdKind::HtmlBlock,
        NodeValue::Table(t) => MdKind::Table(t.alignments.iter().map(align_of).collect()),
        _ => inline_kind(v),
    }
}

/// The kind of a comrak inline node, one variant for one variant.
#[verifier::external_body]
fn inline_kind(v: &NodeValue) -> MdKind {
    match v {
        NodeValue::Text(t) => MdKind::Text(t.to_string()),
        NodeValue::SoftBreak => MdKind::SoftBreak,
        NodeValue::LineBreak => MdKind::LineBreak,
        NodeValue::Code(c) => MdKind::Code(c.literal.clone()),
        NodeValue::HtmlInline(_) => MdKind::HtmlInline,
        NodeValue::Emph => MdKind::Emph,
        NodeValue::Strong => MdKind::Strong,
        NodeValue::Strikethrough => MdKind::Strikethrough,
        NodeValue::Link(l) => MdKind::Link(l.url.clone()),
        NodeValue::Image(l) => MdKind::Image(l.url.clone()),
        _ => MdKind::Other,
    }
}

/// A comrak column alignment, one variant for one variant.
#[verifier::external_body]
fn align_of(a: &TableAlignment) -> Align {
    match a {
        TableAlignment::None => Align::Unset,
        TableAlignment::Left => Align::Left,
        TableAlignment::Center => Align::Center,
        TableAlignment::Right => Align::Right,
    }
}

} // verus!
