//! XML documents as flat lists of nodes in document order.

use vstd::prelude::*;
use crate::text::str_eq;

verus! {

/// One attribute of an element.
#[derive(Debug, PartialEq, Eq)]
pub struct XmlAttribute {
    /// The local name, without a namespace prefix.
    pub name: String,
    pub value: String,
}

/// One node of a document. The nodes of a document stand in document order,
/// and the first of them is the document's root, which is no element.
#[derive(Debug, PartialEq, Eq)]
pub struct XmlNode {
    /// The position of the parent node; `None` for the root.
    pub parent: Option<usize>,
    /// Whether the node is an element (and not the root, text, a comment or a
    /// processing instruction).
    pub is_element: bool,
    /// The local tag name of an element; empty for any other node.
    pub name: String,
    /// For an element, the text of its first child where that is a text node;
    /// for a text node or a comment, its own text.
    pub text: Option<String>,
    pub attributes: Vec<XmlAttribute>,
}

/// Why a text is no well-formed XML document, and where.
#[derive(Debug, Clone, PartialEq, Eq)]
pub struct XmlError {
    pub message: String,
    pub row: u32,
    pub col: u32,
}

/// The mathematical value of an [`XmlAttribute`].
pub struct XmlAttributeView {
    pub name: Seq<char>,
    pub value: Seq<char>,
}

/// The mathematical value of an [`XmlNode`].
pub struct XmlNodeView {
    pub parent: Option<usize>,
    pub is_element: bool,
    pub name: Seq<char>,
    pub text: Option<Seq<char>>,
    pub attributes: Seq<XmlAttributeView>,
}

/// The mathematical value of an [`XmlError`].
pub struct XmlErrorView {
    pub message: Seq<char>,
    pub row: u32,
    pub col: u32,
}

impl View for XmlAttribute {
    type V = XmlAttributeView;

    open spec fn view(&self) -> XmlAttributeView {
        XmlAttributeView { name: self.name@, value: self.value@ }
    }
}

impl View for XmlNode {
    type V = XmlNodeView;

    open spec fn view(&self) -> XmlNodeView {
        XmlNodeView {
            parent: self.parent,
            is_element: self.is_element,
            name: self.name@,
            text: match self.text {
                Some(t) => Some(t@),
                None => None,
            },
            attributes: self.attributes@.map_values(|a: XmlAttribute| a@),
        }
    }
}

impl View for XmlError {
    type V = XmlErrorView;

    open spec fn view(&self) -> XmlErrorView {
        XmlErrorView { message: self.message@, row: self.row, col: self.col }
    }
}

/// The nodes of a vector, as mathematical values.
pub open spec fn nodes_view(nodes: Seq<XmlNode>) -> Seq<XmlNodeView> {
    nodes.map_values(|n: XmlNode| n@)
}

/// The mathematical value of a parse result.
pub open spec fn parsed_view(parsed: Result<Vec<XmlNode>, XmlError>) -> Result<
    Seq<XmlNodeView>,
    XmlErrorView,
> {
    match parsed {
        Ok(nodes) => Ok(nodes_view(nodes@)),
        Err(e) => Err(e@),
    }
}

/// What the XML parser makes of a text: the nodes of the document in document
/// order, or the reason why the text is no document.
pub uninterp spec fn xml_document(text: Seq<char>) -> Result<Seq<XmlNodeView>, XmlErrorView>;

/// Parses a text with `roxmltree::Document::parse` and lists the nodes that
/// `descendants()` yields, root first: of each its parent's position, whether
/// it is an element, its local tag name, its text and its attributes by local
/// name. The result is taken to depend on the text alone; nothing else is
/// claimed of it.
#[verifier::external_body]
pub(crate) fn parse_document(text: &str) -> (parsed: Result<Vec<XmlNode>, XmlError>)
    ensures
        parsed_view(parsed) == xml_document(text@),
{
    match roxmltree::Document::parse(text) {
        Ok(doc) => Ok(doc.descendants().map(|n| XmlNode {
            parent: n.parent().map(|p| p.id().get_usize()),
            is_element: n.is_element(),
            name: n.tag_name().name().to_string(),
            text: n.text().map(|t| t.to_string()),
            attributes: n.attributes().map(|a| XmlAttribute {
                name: a.name().to_string(),
                value: a.value().to_string(),
            }).collect(),
        }).collect()),
        Err(e) => Err(XmlError { message: e.to_string(), row: e.pos().row, col: e.pos().col }),
    }
}

/// The value of the first attribute with the given name.
pub open spec fn attribute_spec(attributes: Seq<XmlAttributeView>, name: Seq<char>) -> Option<
    Seq<char>,
>
    decreases attributes.len(),
{
    if attributes.len() == 0 {
        None
    } else if attributes[0].name == name {
        Some(attributes[0].value)
    } else {
        attribute_spec(attributes.skip(1), name)
    }
}

impl XmlNode {
    /// The value of the first attribute with the given name.
    pub fn attribute(&self, name: &str) -> (out: Option<&String>)
        ensures
            out is Some == attribute_spec(self@.attributes, name@) is Some,
            out matches Some(v) ==> Some(v@) == attribute_spec(self@.attributes, name@),
    {
        let ghost all = self@.attributes;
        let mut i: usize = 0;
        assert(all.skip(0) =~= all);
        while i < self.attributes.len()
            invariant
                i <= self.attributes.len(),
                all == self@.attributes,
                attribute_spec(all, name@) == attribute_spec(all.skip(i as int), name@),
            decreases self.attributes.len() - i,
        {
            assert(all.skip(i as int)[0] == self.attributes@[i as int]@);
            if str_eq(self.attributes[i].name.as_str(), name) {
                return Some(&self.attributes[i].value);
            }
            assert(all.skip(i as int).skip(1) =~= all.skip(i + 1));
            i += 1;
        }
        None
    }

    /// Whether the node's tag name is `name`.
    pub fn has_name(&self, name: &str) -> (yes: bool)
        ensures
            yes == (self@.name == name@),
    {
        str_eq(self.name.as_str(), name)
    }
}

} // verus!
