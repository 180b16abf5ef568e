//! Element trees: the nodes of a document as they nest, for the steps that
//! edit a document and write it back.

use vstd::prelude::*;
use crate::framework::char_is_space;
use crate::framework::is_space;
use crate::text::chars_of;
use crate::text::str_eq;

verus! {

/// An element with its attributes and its children.
#[derive(Debug, PartialEq, Eq)]
pub struct Element {
    /// A number by which the caller knows the element again; `None` for an
    /// element that was made here.
    pub id: Option<usize>,
    pub name: String,
    /// The attributes by name, each name once.
    pub attributes: Vec<(String, String)>,
    pub children: Vec<XMLNode>,
}

/// A node of an element tree.
#[derive(Debug, PartialEq, Eq)]
pub enum XMLNode {
    Element(Element),
    Comment(String),
    CData(String),
    Text(String),
    ProcessingInstruction(String, Option<String>),
}

/// The mathematical value of an [`XMLNode`].
pub enum XMLNodeView {
    Element {
        id: Option<usize>,
        name: Seq<char>,
        attributes: Seq<(Seq<char>, Seq<char>)>,
        children: Seq<XMLNodeView>,
    },
    Comment(Seq<char>),
    CData(Seq<char>),
    Text(Seq<char>),
    ProcessingInstruction(Seq<char>, Option<Seq<char>>),
}

/// The attributes of an element, as mathematical values.
pub open spec fn attributes_view(attributes: Seq<(String, String)>) -> Seq<(Seq<char>, Seq<char>)> {
    attributes.map_values(|a: (String, String)| (a.0@, a.1@))
}

/// The mathematical value of a node.
pub open spec fn node_view(node: XMLNode) -> XMLNodeView
    decreases node,
{
    match node {
        XMLNode::Element(e) => element_view(e),
        XMLNode::Comment(t) => XMLNodeView::Comment(t@),
        XMLNode::CData(t) => XMLNodeView::CData(t@),
        XMLNode::Text(t) => XMLNodeView::Text(t@),
        XMLNode::ProcessingInstruction(t, d) => XMLNodeView::ProcessingInstruction(
            t@,
            match d {
                Some(d) => Some(d@),
                None => None,
            },
        ),
    }
}

/// The mathematical value of an element.
pub open spec fn element_view(e: Element) -> XMLNodeView
    decreases e,
{
    XMLNodeView::Element {
        id: e.id,
        name: e.name@,
        attributes: attributes_view(e.attributes@),
        children: nodes_view(e.children@),
    }
}

/// The mathematical values of nodes.
pub open spec fn nodes_view(nodes: Seq<XMLNode>) -> Seq<XMLNodeView>
    decreases nodes,
{
    Seq::new(
        nodes.len(),
        |i: int|
            if 0 <= i < nodes.len() {
                node_view(nodes[i])
            } else {
                XMLNodeView::Text(Seq::empty())
            },
    )
}

impl View for XMLNode {
    type V = XMLNodeView;

    open spec fn view(&self) -> XMLNodeView {
        node_view(*self)
    }
}

impl View for Element {
    type V = XMLNodeView;

    open spec fn view(&self) -> XMLNodeView {
        element_view(*self)
    }
}

/// Whether every character of a text is white space.
pub open spec fn is_blank(text: Seq<char>) -> bool {
    forall|i: int| 0 <= i < text.len() ==> is_space(#[trigger] text[i])
}

/// Whether a node is text of white space only.
pub open spec fn is_blank_text(node: XMLNodeView) -> bool {
    match node {
        XMLNodeView::Text(text) => is_blank(text),
        _ => false,
    }
}

/// Whether all the nodes are text of white space only.
pub open spec fn all_blank(nodes: Seq<XMLNodeView>) -> bool {
    forall|i: int| 0 <= i < nodes.len() ==> is_blank_text(#[trigger] nodes[i])
}

/// The value of the attribute of that name: of the first, where the name
/// occurs more than once.
pub open spec fn attribute_of(attributes: Seq<(Seq<char>, Seq<char>)>, name: Seq<char>) -> Option<
    Seq<char>,
>
    decreases attributes.len(),
{
    if attributes.len() == 0 {
        None
    } else if attributes[0].0 == name {
        Some(attributes[0].1)
    } else {
        attribute_of(attributes.skip(1), name)
    }
}

/// The text of an element: that of its text and character data children,
/// one after the other; `None` where it has no such child.
pub open spec fn text_of(children: Seq<XMLNodeView>) -> Option<Seq<char>>
    decreases children.len(),
{
    if children.len() == 0 {
        None
    } else {
        let before = text_of(children.drop_last());
        match children.last() {
            XMLNodeView::Text(t) => Some(
                match before {
                    Some(b) => b + t,
                    None => t,
                },
            ),
            XMLNodeView::CData(t) => Some(
                match before {
                    Some(b) => b + t,
                    None => t,
                },
            ),
            _ => before,
        }
    }
}

/// Whether a text ends with another.
pub open spec fn ends_with_spec(text: Seq<char>, ending: Seq<char>) -> bool {
    text.len() >= ending.len() && text.skip(text.len() - ending.len()) == ending
}

/// Tells whether a text ends with another.
pub fn ends_with(text: &str, ending: &str) -> (yes: bool)
    ensures
        yes == ends_with_spec(text@, ending@),
{
    let a = chars_of(text);
    let b = chars_of(ending);
    if a.len() < b.len() {
        return false;
    }
    let start = a.len() - b.len();
    let ghost tail = a@.skip(start as int);
    let mut i: usize = 0;
    while i < b.len()
        invariant
            i <= b.len(),
            start + b.len() == a.len(),
            a@ == text@,
            b@ == ending@,
            tail == a@.skip(start as int),
            forall|k: int| 0 <= k < i ==> tail[k] == b@[k],
        decreases b.len() - i,
    {
        if a[start + i] != b[i] {
            assert(tail[i as int] != b@[i as int]);
            return false;
        }
        i += 1;
    }
    assert(tail =~= b@);
    true
}

/// Tells whether every character of a text is white space.
pub fn text_is_blank(text: &str) -> (yes: bool)
    ensures
        yes == is_blank(text@),
{
    let chars = chars_of(text);
    let mut i: usize = 0;
    while i < chars.len()
        invariant
            i <= chars.len(),
            chars@ == text@,
            forall|k: int| 0 <= k < i ==> is_space(#[trigger] chars@[k]),
        decreases chars.len() - i,
    {
        if !char_is_space(chars[i]) {
            return false;
        }
        i += 1;
    }
    true
}

/// Tells whether all the children of an element are text of white space
/// only. An element without children counts.
pub fn all_children_whitespace(element: &Element) -> (yes: bool)
    ensures
        yes == all_blank(nodes_view(element.children@)),
{
    let ghost nodes = nodes_view(element.children@);
    let mut i: usize = 0;
    while i < element.children.len()
        invariant
            i <= element.children.len(),
            nodes == nodes_view(element.children@),
            forall|k: int| 0 <= k < i ==> is_blank_text(#[trigger] nodes[k]),
        decreases element.children.len() - i,
    {
        assert(nodes[i as int] == node_view(element.children@[i as int]));
        let blank = match &element.children[i] {
            XMLNode::Text(text) => text_is_blank(text.as_str()),
            _ => false,
        };
        if !blank {
            return false;
        }
        i += 1;
    }
    true
}

impl Element {
    /// An element of that name, without attributes or children.
    pub fn new(name: &str) -> (out: Element)
        ensures
            out@ == (XMLNodeView::Element {
                id: None,
                name: name@,
                attributes: Seq::empty(),
                children: Seq::empty(),
            }),
    {
        let out = Element {
            id: None,
            name: name.to_owned(),
            attributes: Vec::new(),
            children: Vec::new(),
        };
        assert(attributes_view(out.attributes@) =~= Seq::empty());
        assert(nodes_view(out.children@) =~= Seq::empty());
        out
    }

    /// The value of the attribute of that name.
    pub fn attribute(&self, name: &str) -> (out: Option<&String>)
        ensures
            out is Some == attribute_of(attributes_view(self.attributes@), name@) is Some,
            out matches Some(v) ==> Some(v@) == attribute_of(
                attributes_view(self.attributes@),
                name@,
            ),
    {
        let ghost all = attributes_view(self.attributes@);
        let mut i: usize = 0;
        assert(all.skip(0) =~= all);
        while i < self.attributes.len()
            invariant
                i <= self.attributes.len(),
                all == attributes_view(self.attributes@),
                attribute_of(all, name@) == attribute_of(all.skip(i as int), name@),
            decreases self.attributes.len() - i,
        {
            assert(all.skip(i as int)[0] == all[i as int]);
            if str_eq(self.attributes[i].0.as_str(), name) {
                return Some(&self.attributes[i].1);
            }
            assert(all.skip(i as int).skip(1) =~= all.skip(i + 1));
            i += 1;
        }
        None
    }

    /// The text of the element: that of its text and character data
    /// children, one after the other.
    pub fn get_text(&self) -> (out: Option<String>)
        ensures
            out is Some == text_of(nodes_view(self.children@)) is Some,
            out matches Some(t) ==> Some(t@) == text_of(nodes_view(self.children@)),
    {
        let ghost nodes = nodes_view(self.children@);
        let mut out: Option<String> = None;
        let mut i: usize = 0;
        assert(nodes.take(0) =~= Seq::<XMLNodeView>::empty());
        while i < self.children.len()
            invariant
                i <= self.children.len(),
                nodes == nodes_view(self.children@),
                out is Some == text_of(nodes.take(i as int)) is Some,
                out matches Some(t) ==> Some(t@) == text_of(nodes.take(i as int)),
            decreases self.children.len() - i,
        {
            proof {
                assert(nodes.take(i + 1).drop_last() =~= nodes.take(i as int));
                assert(nodes.take(i + 1).last() == node_view(self.children@[i as int]));
            }
            match &self.children[i] {
                XMLNode::Text(t) => {
                    out = Some(joined(out, t.as_str()));
                },
                XMLNode::CData(t) => {
                    out = Some(joined(out, t.as_str()));
                },
                _ => {},
            }
            i += 1;
        }
        assert(nodes.take(self.children.len() as int) =~= nodes);
        out
    }

    /// Whether two elements have the same attributes.
    pub fn same_attributes(&self, other: &Element) -> (same: bool)
        ensures
            same == (attributes_view(self.attributes@) == attributes_view(other.attributes@)),
    {
        let ghost a = attributes_view(self.attributes@);
        let ghost b = attributes_view(other.attributes@);
        if self.attributes.len() != other.attributes.len() {
            assert(a.len() != b.len());
            return false;
        }
        let mut i: usize = 0;
        while i < self.attributes.len()
            invariant
                i <= self.attributes.len(),
                self.attributes.len() == other.attributes.len(),
                a == attributes_view(self.attributes@),
                b == attributes_view(other.attributes@),
                forall|k: int| 0 <= k < i ==> a[k] == b[k],
            decreases self.attributes.len() - i,
        {
            let same = str_eq(self.attributes[i].0.as_str(), other.attributes[i].0.as_str())
                && str_eq(self.attributes[i].1.as_str(), other.attributes[i].1.as_str());
            if !same {
                assert(a[i as int] != b[i as int]);
                return false;
            }
            i += 1;
        }
        assert(a =~= b);
        true
    }
}

/// A text behind what is there already.
fn joined(before: Option<String>, text: &str) -> (out: String)
    ensures
        out@ == match before {
            Some(b) => b@ + text@,
            None => text@,
        },
{
    match before {
        Some(b) => {
            let mut out = b;
            vstd::string::StringExecFns::append(&mut out, text);
            out
        },
        None => text.to_owned(),
    }
}

} // verus!
