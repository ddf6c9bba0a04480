//! The document tree: nodes, elements, tag names and attributes.

use vstd::prelude::*;
use vstd::string::StringExecFns;
use crate::dom::attributes::ElementAttributes;
use crate::text::same_text;

pub mod attributes;
pub mod grammar;
pub mod parser;

verus! {

/// The name of an element's tag: one of the known tags, or any other name.
#[derive(Debug, Clone, PartialEq, Eq)]
pub enum ElementTagName {
    Html,
    Main,
    Div,
    Head,
    Meta,
    Body,
    Title,
    Script,
    Style,
    Article,
    P,
    H1,
    H2,
    H3,
    A,
    Other(String),
}

/// What an [`ElementTagName`] is, with the name of an unknown tag as a
/// sequence of characters.
pub enum TagNameView {
    Html,
    Main,
    Div,
    Head,
    Meta,
    Body,
    Title,
    Script,
    Style,
    Article,
    P,
    H1,
    H2,
    H3,
    A,
    Other(Seq<char>),
}

impl View for ElementTagName {
    type V = TagNameView;

    open spec fn view(&self) -> TagNameView {
        match self {
            ElementTagName::Html => TagNameView::Html,
            ElementTagName::Main => TagNameView::Main,
            ElementTagName::Div => TagNameView::Div,
            ElementTagName::Head => TagNameView::Head,
            ElementTagName::Meta => TagNameView::Meta,
            ElementTagName::Body => TagNameView::Body,
            ElementTagName::Title => TagNameView::Title,
            ElementTagName::Script => TagNameView::Script,
            ElementTagName::Style => TagNameView::Style,
            ElementTagName::Article => TagNameView::Article,
            ElementTagName::P => TagNameView::P,
            ElementTagName::H1 => TagNameView::H1,
            ElementTagName::H2 => TagNameView::H2,
            ElementTagName::H3 => TagNameView::H3,
            ElementTagName::A => TagNameView::A,
            ElementTagName::Other(name) => TagNameView::Other(name@),
        }
    }
}

/// The tag that a name written in a document stands for. Names are
/// compared as they are written; a name that is not in the table stands
/// for itself.
pub open spec fn tag_name_of(name: Seq<char>) -> TagNameView {
    if name == "html"@ {
        TagNameView::Html
    } else if name == "main"@ {
        TagNameView::Main
    } else if name == "head"@ {
        TagNameView::Head
    } else if name == "meta"@ {
        TagNameView::Meta
    } else if name == "title"@ {
        TagNameView::Title
    } else if name == "body"@ {
        TagNameView::Body
    } else if name == "style"@ {
        TagNameView::Style
    } else if name == "script"@ {
        TagNameView::Script
    } else if name == "div"@ {
        TagNameView::Div
    } else if name == "p"@ {
        TagNameView::P
    } else if name == "h1"@ {
        TagNameView::H1
    } else if name == "h2"@ {
        TagNameView::H2
    } else if name == "h3"@ {
        TagNameView::H3
    } else if name == "a"@ {
        TagNameView::A
    } else if name == "article"@ {
        TagNameView::Article
    } else {
        TagNameView::Other(name)
    }
}

impl<'a> vstd::std_specs::convert::FromSpecImpl<&'a str> for ElementTagName {
    open spec fn obeys_from_spec() -> bool {
        false
    }

    open spec fn from_spec(v: &'a str) -> Self {
        choose|tag: ElementTagName| tag@ == tag_name_of(v@)
    }
}

impl<'a> From<&'a str> for ElementTagName {
    fn from(tag_name: &'a str) -> (tag: Self)
        ensures
            tag@ == tag_name_of(tag_name@),
    {
        if same_text(tag_name, "html") {
            ElementTagName::Html
        } else if same_text(tag_name, "main") {
            ElementTagName::Main
        } else if same_text(tag_name, "head") {
            ElementTagName::Head
        } else if same_text(tag_name, "meta") {
            ElementTagName::Meta
        } else if same_text(tag_name, "title") {
            ElementTagName::Title
        } else if same_text(tag_name, "body") {
            ElementTagName::Body
        } else if same_text(tag_name, "style") {
            ElementTagName::Style
        } else if same_text(tag_name, "script") {
            ElementTagName::Script
        } else if same_text(tag_name, "div") {
            ElementTagName::Div
        } else if same_text(tag_name, "p") {
            ElementTagName::P
        } else if same_text(tag_name, "h1") {
            ElementTagName::H1
        } else if same_text(tag_name, "h2") {
            ElementTagName::H2
        } else if same_text(tag_name, "h3") {
            ElementTagName::H3
        } else if same_text(tag_name, "a") {
            ElementTagName::A
        } else if same_text(tag_name, "article") {
            ElementTagName::Article
        } else {
            ElementTagName::Other(tag_name.to_owned())
        }
    }
}

impl ElementTagName {
    /// Whether two tag names are the same one.
    pub fn same_as(&self, other: &ElementTagName) -> (b: bool)
        ensures
            b == (self@ == other@),
    {
        match (self, other) {
            (ElementTagName::Html, ElementTagName::Html) => true,
            (ElementTagName::Main, ElementTagName::Main) => true,
            (ElementTagName::Div, ElementTagName::Div) => true,
            (ElementTagName::Head, ElementTagName::Head) => true,
            (ElementTagName::Meta, ElementTagName::Meta) => true,
            (ElementTagName::Body, ElementTagName::Body) => true,
            (ElementTagName::Title, ElementTagName::Title) => true,
            (ElementTagName::Script, ElementTagName::Script) => true,
            (ElementTagName::Style, ElementTagName::Style) => true,
            (ElementTagName::Article, ElementTagName::Article) => true,
            (ElementTagName::P, ElementTagName::P) => true,
            (ElementTagName::H1, ElementTagName::H1) => true,
            (ElementTagName::H2, ElementTagName::H2) => true,
            (ElementTagName::H3, ElementTagName::H3) => true,
            (ElementTagName::A, ElementTagName::A) => true,
            (ElementTagName::Other(a), ElementTagName::Other(b)) => same_text(
                a.as_str(),
                b.as_str(),
            ),
            _ => false,
        }
    }
}

/// The key of an attribute: one of the known keys, or any other name.
#[derive(Debug, Clone, PartialEq, Eq, Hash, PartialOrd, Ord)]
pub enum NodeKey {
    Id,
    Class,
    Href,
    Other(String),
}

/// What a [`NodeKey`] is.
pub enum KeyView {
    Id,
    Class,
    Href,
    Other(Seq<char>),
}

impl View for NodeKey {
    type V = KeyView;

    open spec fn view(&self) -> KeyView {
        match self {
            NodeKey::Id => KeyView::Id,
            NodeKey::Class => KeyView::Class,
            NodeKey::Href => KeyView::Href,
            NodeKey::Other(name) => KeyView::Other(name@),
        }
    }
}

/// The key that a name written in a document stands for. A name that is
/// neither `id` nor `class` stands for itself.
pub open spec fn key_of(name: Seq<char>) -> KeyView {
    if name == "id"@ {
        KeyView::Id
    } else if name == "class"@ {
        KeyView::Class
    } else {
        KeyView::Other(name)
    }
}

impl<'a> vstd::std_specs::convert::FromSpecImpl<&'a str> for NodeKey {
    open spec fn obeys_from_spec() -> bool {
        false
    }

    open spec fn from_spec(v: &'a str) -> Self {
        choose|key: NodeKey| key@ == key_of(v@)
    }
}

impl<'a> From<&'a str> for NodeKey {
    /// The key that the name `key` stands for.
    fn from(key: &'a str) -> (node_key: Self)
        ensures
            node_key@ == key_of(key@),
    {
        if same_text(key, "id") {
            NodeKey::Id
        } else if same_text(key, "class") {
            NodeKey::Class
        } else {
            NodeKey::Other(key.to_owned())
        }
    }
}

/// A node of a document: a text, the text of a stylesheet written inside
/// the document, an element or a comment. `EndTag` is what a parser reads
/// where an element ends; no tree holds it.
#[derive(Debug, PartialEq, Eq)]
pub enum Node {
    Text(String),
    Style(String),
    Element(Element),
    Comment(String),
    EndTag,
}

/// An element: its tag, its attributes, and the nodes inside it.
#[derive(Debug, PartialEq, Eq)]
pub struct Element {
    pub tag_name: ElementTagName,
    pub attributes: ElementAttributes,
    pub children: Vec<Node>,
}

/// What a [`Node`] is.
pub enum NodeView {
    Text(Seq<char>),
    Style(Seq<char>),
    Element(ElementView),
    Comment(Seq<char>),
    EndTag,
}

/// What an [`Element`] is.
pub struct ElementView {
    pub tag_name: TagNameView,
    pub attributes: Map<KeyView, Seq<char>>,
    pub children: Seq<NodeView>,
}

impl Node {
    /// What the node is: the same tree, with texts as sequences of
    /// characters and attributes as a map.
    pub open spec fn model(&self) -> NodeView
        decreases self,
    {
        match self {
            Node::Text(text) => NodeView::Text(text@),
            Node::Style(text) => NodeView::Style(text@),
            Node::Element(element) => NodeView::Element(element.model()),
            Node::Comment(text) => NodeView::Comment(text@),
            Node::EndTag => NodeView::EndTag,
        }
    }
}

impl Element {
    /// What the element is.
    pub open spec fn model(&self) -> ElementView
        decreases self,
    {
        ElementView {
            tag_name: self.tag_name@,
            attributes: self.attributes@,
            children: Seq::new(
                self.children@.len(),
                |i: int|
                    if 0 <= i < self.children@.len() {
                        self.children@[i].model()
                    } else {
                        NodeView::EndTag
                    },
            ),
        }
    }
}

impl View for Node {
    type V = NodeView;

    open spec fn view(&self) -> NodeView {
        self.model()
    }
}

impl View for Element {
    type V = ElementView;

    open spec fn view(&self) -> ElementView {
        self.model()
    }
}

/// What each node of a sequence is.
pub open spec fn node_views(nodes: Seq<Node>) -> Seq<NodeView> {
    Seq::new(nodes.len(), |i: int| nodes[i]@)
}

/// The children of an element are what its nodes are, one for one.
pub proof fn lemma_children_views(element: Element)
    ensures
        element@.children == node_views(element.children@),
{
    assert(element@.children =~= node_views(element.children@));
}

/// The name of a tag as it is written in a document; a tag that is not
/// known is written as its name.
pub open spec fn tag_text(tag: TagNameView) -> Seq<char> {
    match tag {
        TagNameView::Html => "html"@,
        TagNameView::Main => "main"@,
        TagNameView::Div => "div"@,
        TagNameView::Head => "head"@,
        TagNameView::Meta => "meta"@,
        TagNameView::Body => "body"@,
        TagNameView::Title => "title"@,
        TagNameView::Script => "script"@,
        TagNameView::Style => "style"@,
        TagNameView::Article => "article"@,
        TagNameView::P => "p"@,
        TagNameView::H1 => "h1"@,
        TagNameView::H2 => "h2"@,
        TagNameView::H3 => "h3"@,
        TagNameView::A => "a"@,
        TagNameView::Other(name) => name,
    }
}

impl ElementTagName {
    /// The name of the tag as a string.
    pub fn to_string(&self) -> (text: String)
        ensures
            text@ == tag_text(self@),
    {
        match self {
            ElementTagName::Html => "html".to_owned(),
            ElementTagName::Main => "main".to_owned(),
            ElementTagName::Div => "div".to_owned(),
            ElementTagName::Head => "head".to_owned(),
            ElementTagName::Meta => "meta".to_owned(),
            ElementTagName::Body => "body".to_owned(),
            ElementTagName::Title => "title".to_owned(),
            ElementTagName::Script => "script".to_owned(),
            ElementTagName::Style => "style".to_owned(),
            ElementTagName::Article => "article".to_owned(),
            ElementTagName::P => "p".to_owned(),
            ElementTagName::H1 => "h1".to_owned(),
            ElementTagName::H2 => "h2".to_owned(),
            ElementTagName::H3 => "h3".to_owned(),
            ElementTagName::A => "a".to_owned(),
            ElementTagName::Other(name) => name.clone(),
        }
    }
}

/// The first `style` element with content in a tree, the tree being
/// searched depth first: the element at the root if it is one, else the
/// first one found in its children, in their order.
pub open spec fn style_in(node: NodeView) -> Option<ElementView>
    decreases node, 0int,
{
    match node {
        NodeView::Element(element) => if element.children.len() == 0 {
            None
        } else if element.tag_name is Style {
            Some(element)
        } else {
            style_among(element.children, 0)
        },
        _ => None,
    }
}

/// The first `style` element with content in the trees of `nodes` from
/// the one at `from` on.
pub open spec fn style_among(nodes: Seq<NodeView>, from: int) -> Option<ElementView>
    decreases nodes, nodes.len() - from,
{
    if from < 0 || from >= nodes.len() {
        None
    } else {
        match style_in(nodes[from]) {
            Some(element) => Some(element),
            None => style_among(nodes, from + 1),
        }
    }
}

/// The text of the stylesheet inside a `style` element: what its first
/// node holds, if that node is the text of a stylesheet.
pub open spec fn style_text(element: ElementView) -> Seq<char> {
    if element.children.len() > 0 && element.children[0] is Style {
        element.children[0]->Style_0
    } else {
        Seq::empty()
    }
}

impl Element {
    /// The element with this tag, these attributes and these nodes inside.
    pub fn new(tag_name: ElementTagName, attributes: ElementAttributes, children: Vec<Node>) -> (element:
        Self)
        ensures
            element.tag_name == tag_name,
            element.attributes == attributes,
            element.children == children,
            element@ == (ElementView {
                tag_name: tag_name@,
                attributes: attributes@,
                children: node_views(children@),
            }),
    {
        let element = Element { tag_name, attributes, children };
        proof {
            lemma_children_views(element);
        }
        element
    }

    /// The value of the attribute `id`, if the element has one.
    pub fn get_id(&self) -> (id: Option<&str>)
        ensures
            match id {
                Some(text) => self@.attributes.contains_key(KeyView::Id)
                    && self@.attributes[KeyView::Id] == text@,
                None => !self@.attributes.contains_key(KeyView::Id),
            },
    {
        self.get_value_by_name(&NodeKey::Id)
    }

    /// The value of the attribute `class`, if the element has one.
    pub fn get_classes(&self) -> (classes: Option<&str>)
        ensures
            match classes {
                Some(text) => self@.attributes.contains_key(KeyView::Class)
                    && self@.attributes[KeyView::Class] == text@,
                None => !self@.attributes.contains_key(KeyView::Class),
            },
    {
        self.get_value_by_name(&NodeKey::Class)
    }

    /// The value of the attribute `node_key`, if the element has one.
    pub fn get_value_by_name(&self, node_key: &NodeKey) -> (value: Option<&str>)
        ensures
            match value {
                Some(text) => self@.attributes.contains_key(node_key@)
                    && self@.attributes[node_key@] == text@,
                None => !self@.attributes.contains_key(node_key@),
            },
    {
        self.attributes.get(node_key)
    }

    /// Whether the element is a `style` element.
    pub fn is_style(&self) -> (b: bool)
        ensures
            b == (self@.tag_name is Style),
    {
        match self.tag_name {
            ElementTagName::Style => true,
            _ => false,
        }
    }

    /// The first `style` element with content in the tree of this
    /// element.
    pub fn find_style(&self) -> (found: Option<&Element>)
        ensures
            match found {
                Some(element) => style_in(NodeView::Element(self@)) == Some(element@),
                None => style_in(NodeView::Element(self@)) is None,
            },
        decreases self,
    {
        proof {
            lemma_children_views(*self);
        }
        if self.children.len() == 0 {
            return None;
        }
        if self.is_style() {
            return Some(self);
        }
        let ghost nodes = self@.children;
        let mut i: usize = 0;
        while i < self.children.len()
            invariant
                i <= self.children.len(),
                nodes == node_views(self.children@),
                nodes == self@.children,
                nodes.len() > 0,
                !(self@.tag_name is Style),
                style_among(nodes, 0) == style_among(nodes, i as int),
            decreases self.children.len() - i,
        {
            proof {
                assert(nodes[i as int] == self.children@[i as int]@);
            }
            match &self.children[i] {
                Node::Element(child) => {
                    match child.find_style() {
                        Some(element) => {
                            return Some(element);
                        },
                        None => {},
                    }
                },
                _ => {},
            }
            proof {
                assert(style_in(nodes[i as int]) is None);
                assert(style_among(nodes, i as int) == style_among(nodes, i + 1));
            }
            i += 1;
        }
        None
    }
}

impl Node {
    /// The first `style` element with content in the tree of this node.
    pub fn find_style(&self) -> (found: Option<&Element>)
        ensures
            match found {
                Some(element) => style_in(self@) == Some(element@),
                None => style_in(self@) is None,
            },
    {
        match self {
            Node::Element(element) => element.find_style(),
            _ => None,
        }
    }

    /// The text of the stylesheet written inside the document: what the
    /// first `style` element with content holds.
    pub fn extract_style(&self) -> (style: String)
        requires
            style_in(self@) is Some,
        ensures
            style@ == style_text(style_in(self@)->Some_0),
    {
        match self.find_style() {
            Some(element) => {
                proof {
                    lemma_children_views(*element);
                }
                if element.children.len() > 0 {
                    match &element.children[0] {
                        Node::Style(text) => text.clone(),
                        _ => String::new(),
                    }
                } else {
                    String::new()
                }
            },
            None => String::new(),
        }
    }

    /// The name of the tag of an element; of another node, nothing.
    pub fn name(&self) -> (name: String)
        ensures
            name@ == match self@ {
                NodeView::Element(element) => tag_text(element.tag_name),
                _ => Seq::empty(),
            },
    {
        match self {
            Node::Element(element) => element.tag_name.to_string(),
            _ => String::new(),
        }
    }
}

/// Whether a `style` element with content stands in the tree of `node`.
pub fn style_present(node: &Node) -> (b: bool)
    ensures
        b == (style_in(node@) is Some),
{
    node.find_style().is_some()
}

} // verus!
