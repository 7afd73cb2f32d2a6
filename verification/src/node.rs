//! The node tree that rendering produces: text leaves and elements of a small,
//! closed set of tags.

use vstd::prelude::*;

verus! {

/// The tags that may appear in a rendered tree.
#[derive(Clone, Copy, Debug, PartialEq, Eq, Structural)]
pub enum Tag {
    Paragraph,
    Italic,
    Bold,
    LineBreak,
    Code,
    Preformatted,
    Teletype,
    Anchor,
}

/// The attributes of an element. Only the target of a hyperlink is kept.
#[derive(Debug, PartialEq, Eq)]
pub struct Attributes {
    pub href: Option<String>,
}

/// The name under which the target of a hyperlink is kept.
pub open spec fn href_name() -> Seq<char> {
    "href"@
}

/// The attributes of an element whose hyperlink leads to `href`, as a mapping
/// from name to value: empty where there is no target.
pub open spec fn attributes_of(href: Option<Seq<char>>) -> Map<Seq<char>, Seq<char>> {
    match href {
        Some(target) => Map::empty().insert(href_name(), target),
        None => Map::empty(),
    }
}

impl View for Attributes {
    type V = Map<Seq<char>, Seq<char>>;

    /// The attributes as a mapping from name to value.
    open spec fn view(&self) -> Map<Seq<char>, Seq<char>> {
        match self.href {
            Some(target) => attributes_of(Some(target@)),
            None => attributes_of(None),
        }
    }
}

/// One node of a rendered tree.
#[derive(Debug, PartialEq, Eq)]
pub enum Node {
    /// Text to show as it is.
    Text(String),
    /// An element with its attributes and children.
    Element(Tag, Attributes, Vec<Node>),
    /// An element whose content is one text leaf that is never read as markup.
    LiteralElement(Tag, Vec<Node>),
}

/// The mathematical value of a node.
pub enum NodeView {
    Text(Seq<char>),
    Element(Tag, Map<Seq<char>, Seq<char>>, Seq<NodeView>),
    LiteralElement(Tag, Seq<NodeView>),
}

impl NodeView {
    /// Whether this node and all below it keep to the shape of a rendered
    /// tree. An element is none of the literal tags; it has no attribute but
    /// the target of a hyperlink, and that only on an anchor; a line break has
    /// no children. A literal element is code or teletype, and holds exactly
    /// one text leaf.
    pub open spec fn well_formed(self) -> bool
        decreases self,
    {
        match self {
            NodeView::Text(_) => true,
            NodeView::Element(tag, attrs, children) => {
                &&& tag != Tag::Code && tag != Tag::Teletype
                &&& forall|name: Seq<char>| attrs.dom().contains(name) ==> name == href_name()
                &&& tag != Tag::Anchor ==> attrs == Map::<Seq<char>, Seq<char>>::empty()
                &&& tag == Tag::LineBreak ==> children.len() == 0
                &&& forall|i: int| 0 <= i < children.len() ==> (#[trigger] children[i]).well_formed()
            },
            NodeView::LiteralElement(tag, children) => {
                &&& tag == Tag::Code || tag == Tag::Teletype
                &&& children.len() == 1
                &&& children[0] is Text
            },
        }
    }
}

/// Whether every node of `nodes` is well formed.
pub open spec fn all_well_formed(nodes: Seq<NodeView>) -> bool {
    forall|i: int| 0 <= i < nodes.len() ==> (#[trigger] nodes[i]).well_formed()
}

/// The mathematical values of the nodes of `nodes`, in order.
pub open spec fn views(nodes: Seq<Node>) -> Seq<NodeView>
    decreases nodes,
{
    Seq::new(
        nodes.len(),
        |i: int|
            if 0 <= i < nodes.len() {
                nodes[i].view()
            } else {
                NodeView::Text(Seq::empty())
            },
    )
}

impl View for Node {
    type V = NodeView;

    open spec fn view(&self) -> NodeView
        decreases self,
    {
        match self {
            Node::Text(text) => NodeView::Text(text@),
            Node::Element(tag, attrs, children) => NodeView::Element(*tag, attrs@, views(children@)),
            Node::LiteralElement(tag, children) => NodeView::LiteralElement(*tag, views(children@)),
        }
    }
}

} // verus!
