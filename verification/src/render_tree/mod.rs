//! The render tree: the nodes of a document that are shown, each with the
//! styles that a stylesheet gives to it.
//!
//! An element whose tag is `meta` or `script`, or to which the stylesheet
//! gives the layout that shows nothing, is left out together with
//! everything inside it. Every other node is kept, in its place.

use vstd::prelude::*;
use vstd::string::StringExecFns;
use crate::cssom::DeclarationProperty;
use crate::cssom::DeclarationValue;
use crate::cssom::Display;
use crate::cssom::Length;
use crate::cssom::PropertyView;
use crate::cssom::RuleView;
use crate::cssom::StyleSheet;
use crate::cssom::ValueView;
use crate::cssom::cascade::StyleMap;
use crate::cssom::cascade::resolved;
use crate::cssom::format::property_text;
use crate::cssom::format::value_text;
use crate::dom::Element;
use crate::dom::ElementTagName;
use crate::dom::Node;
use crate::dom::NodeView;
use crate::dom::TagNameView;
use crate::dom::lemma_children_views;
use crate::dom::node_views;
use crate::dom::tag_text;
use crate::text::spaces;

verus! {

/// A node of the render tree: a node of the document, its styles, and the
/// nodes inside it that are shown.
#[derive(Debug)]
pub struct RenderObject<'a> {
    pub node: &'a Node,
    pub styles: StyleMap<'a>,
    pub children: Vec<RenderObject<'a>>,
}

/// What a [`RenderObject`] is.
pub struct RenderView {
    pub node: NodeView,
    pub styles: Map<PropertyView, ValueView>,
    pub children: Seq<RenderView>,
}

/// Whether elements with this tag are never shown.
pub open spec fn is_hidden_tag(tag: TagNameView) -> bool {
    tag is Meta || tag is Script
}

/// Whether styles say that nothing is shown.
pub open spec fn hides(styles: Map<PropertyView, ValueView>) -> bool {
    styles.contains_key(PropertyView::Display) && styles[PropertyView::Display]
        == ValueView::Display(Display::Hidden)
}

/// The render tree of a node under the rules of a stylesheet, or none
/// where the node is not shown. A node that is no element is shown
/// without styles and with nothing inside it.
pub open spec fn render_of(node: NodeView, rules: Seq<RuleView>) -> Option<RenderView>
    decreases node, 0int,
{
    match node {
        NodeView::Element(element) => if is_hidden_tag(element.tag_name) || hides(
            resolved(rules, element),
        ) {
            None
        } else {
            Some(
                RenderView {
                    node,
                    styles: resolved(rules, element),
                    children: render_all(element.children, rules, element.children.len() as int),
                },
            )
        },
        _ => Some(RenderView { node, styles: Map::empty(), children: Seq::empty() }),
    }
}

/// The render trees of the first `n` of `nodes`, those left out that are
/// not shown; the others keep their order.
pub open spec fn render_all(nodes: Seq<NodeView>, rules: Seq<RuleView>, n: int) -> Seq<RenderView>
    decreases nodes, n,
{
    if n <= 0 || n > nodes.len() {
        Seq::empty()
    } else {
        let before = render_all(nodes, rules, n - 1);
        match render_of(nodes[n - 1], rules) {
            Some(tree) => before.push(tree),
            None => before,
        }
    }
}

/// Whether no element of a render tree has a tag that is never shown, and
/// none has styles that say that nothing is shown.
pub open spec fn all_shown(tree: RenderView) -> bool
    decreases tree, 0int,
{
    &&& tree.node matches NodeView::Element(element) ==> !is_hidden_tag(element.tag_name)
    &&& !hides(tree.styles)
    &&& all_shown_among(tree.children, tree.children.len() as int)
}

/// Whether [`all_shown`] holds of the first `n` of `trees`.
pub open spec fn all_shown_among(trees: Seq<RenderView>, n: int) -> bool
    decreases trees, n,
{
    if n <= 0 || n > trees.len() {
        true
    } else {
        all_shown_among(trees, n - 1) && all_shown(trees[n - 1])
    }
}

/// Whether every node of a render tree has the styles that the rules give
/// to it: an element those that the rules resolve to, another node none.
pub open spec fn styled_by(tree: RenderView, rules: Seq<RuleView>) -> bool
    decreases tree, 0int,
{
    &&& tree.styles == match tree.node {
        NodeView::Element(element) => resolved(rules, element),
        _ => Map::empty(),
    }
    &&& styled_among(tree.children, rules, tree.children.len() as int)
}

/// Whether [`styled_by`] holds of the first `n` of `trees`.
pub open spec fn styled_among(trees: Seq<RenderView>, rules: Seq<RuleView>, n: int) -> bool
    decreases trees, n,
{
    if n <= 0 || n > trees.len() {
        true
    } else {
        styled_among(trees, rules, n - 1) && styled_by(trees[n - 1], rules)
    }
}

/// Under any stylesheet, a render tree holds no `meta` and no `script`
/// element and no element that its styles hide, however deep, and every
/// node in it has the styles that the stylesheet gives to it.
pub proof fn lemma_render_shows_only_shown(node: NodeView, rules: Seq<RuleView>)
    ensures
        render_of(node, rules) matches Some(tree) ==> all_shown(tree) && styled_by(tree, rules),
    decreases node, 0int,
{
    match node {
        NodeView::Element(element) => {
            if !(is_hidden_tag(element.tag_name) || hides(resolved(rules, element))) {
                lemma_render_all_shows_only_shown(
                    element.children,
                    rules,
                    element.children.len() as int,
                );
                let trees = render_all(element.children, rules, element.children.len() as int);
                lemma_all_shown_among(trees, rules, trees.len() as int);
            }
        },
        _ => {},
    }
}

/// What [`lemma_render_shows_only_shown`] says, of each of the first `n`
/// of `nodes`.
pub proof fn lemma_render_all_shows_only_shown(nodes: Seq<NodeView>, rules: Seq<RuleView>, n: int)
    ensures
        forall|i: int|
            0 <= i < render_all(nodes, rules, n).len() ==> all_shown(
                #[trigger] render_all(nodes, rules, n)[i],
            ) && styled_by(render_all(nodes, rules, n)[i], rules),
    decreases nodes, n,
{
    if !(n <= 0 || n > nodes.len()) {
        lemma_render_all_shows_only_shown(nodes, rules, n - 1);
        lemma_render_shows_only_shown(nodes[n - 1], rules);
        let before = render_all(nodes, rules, n - 1);
        let all = render_all(nodes, rules, n);
        assert forall|i: int| 0 <= i < all.len() implies all_shown(#[trigger] all[i]) && styled_by(
            all[i],
            rules,
        ) by {
            if i < before.len() {
                assert(all[i] == before[i]);
            }
        }
    }
}

/// Trees of which each one is shown and styled are so among themselves.
pub proof fn lemma_all_shown_among(trees: Seq<RenderView>, rules: Seq<RuleView>, n: int)
    requires
        0 <= n <= trees.len(),
        forall|i: int|
            0 <= i < trees.len() ==> all_shown(#[trigger] trees[i]) && styled_by(trees[i], rules),
    ensures
        all_shown_among(trees, n),
        styled_among(trees, rules, n),
    decreases n,
{
    if n > 0 {
        lemma_all_shown_among(trees, rules, n - 1);
    }
}

/// An element that is not shown takes everything inside it with it: the
/// render tree of an element holds, as trees of its own, only trees of
/// the nodes that stand directly inside the element.
pub proof fn lemma_render_all_from_nodes(nodes: Seq<NodeView>, rules: Seq<RuleView>, n: int)
    ensures
        forall|i: int|
            0 <= i < render_all(nodes, rules, n).len() ==> exists|j: int|
                0 <= j < n && j < nodes.len() && render_of(nodes[j], rules) == Some(
                    #[trigger] render_all(nodes, rules, n)[i],
                ),
    decreases n,
{
    if !(n <= 0 || n > nodes.len()) {
        lemma_render_all_from_nodes(nodes, rules, n - 1);
        let before = render_all(nodes, rules, n - 1);
        let all = render_all(nodes, rules, n);
        assert forall|i: int| 0 <= i < all.len() implies exists|j: int|
            0 <= j < n && j < nodes.len() && render_of(nodes[j], rules) == Some(
                #[trigger] all[i],
            ) by {
            if i < before.len() {
                let j = choose|j: int|
                    0 <= j < n - 1 && j < nodes.len() && render_of(nodes[j], rules) == Some(
                        before[i],
                    );
                assert(render_of(nodes[j], rules) == Some(all[i]));
            } else {
                assert(render_of(nodes[n - 1], rules) == Some(all[i]));
            }
        }
    }
}

impl<'a> RenderObject<'a> {
    /// What the render tree is.
    pub open spec fn model(&self) -> RenderView
        decreases self,
    {
        RenderView {
            node: self.node@,
            styles: self.styles@,
            children: Seq::new(
                self.children@.len(),
                |i: int|
                    if 0 <= i < self.children@.len() {
                        self.children@[i].model()
                    } else {
                        RenderView {
                            node: NodeView::EndTag,
                            styles: Map::empty(),
                            children: Seq::empty(),
                        }
                    },
            ),
        }
    }
}

impl<'a> View for RenderObject<'a> {
    type V = RenderView;

    open spec fn view(&self) -> RenderView {
        self.model()
    }
}

/// What each render tree of a sequence is.
pub open spec fn render_views(trees: Seq<RenderObject>) -> Seq<RenderView> {
    Seq::new(trees.len(), |i: int| trees[i]@)
}

/// The trees inside a render tree are what its children are, one for one.
pub proof fn lemma_render_children_views(tree: RenderObject)
    ensures
        tree@.children == render_views(tree.children@),
{
    assert(tree@.children =~= render_views(tree.children@));
}

impl<'a> RenderObject<'a> {
    /// The render tree of `node` under `stylesheet`, or none where the
    /// node is not shown.
    pub fn build(node: &'a Node, stylesheet: &'a StyleSheet) -> (tree: Option<Self>)
        ensures
            match render_of(node@, stylesheet@) {
                Some(view) => tree matches Some(t) && t@ == view && t.node == node,
                None => tree is None,
            },
        decreases node, 1int,
    {
        let (styles, children) = match node {
            Node::Element(e) => {
                match e.tag_name {
                    ElementTagName::Meta | ElementTagName::Script => {
                        return None;
                    },
                    _ => {},
                }
                let styles = stylesheet.get_styles(e);
                match styles.get(&DeclarationProperty::Display) {
                    Some(DeclarationValue::Display(Display::Hidden)) => {
                        return None;
                    },
                    _ => {},
                }
                (styles, Self::build_children(e, stylesheet))
            },
            _ => {
                let none: Vec<RenderObject<'a>> = Vec::new();
                proof {
                    assert(render_views(none@) =~= Seq::empty());
                }
                (StyleMap::new(), none)
            },
        };
        let render_object = RenderObject { node, styles, children };
        proof {
            lemma_render_children_views(render_object);
        }
        Some(render_object)
    }

    /// The render trees of the nodes inside `element` that are shown, in
    /// the order of the nodes.
    fn build_children(element: &'a Element, stylesheet: &'a StyleSheet) -> (children: Vec<Self>)
        ensures
            render_views(children@) == render_all(
                element@.children,
                stylesheet@,
                element@.children.len() as int,
            ),
        decreases element, 0int,
    {
        let mut children: Vec<RenderObject<'a>> = Vec::new();
        proof {
            lemma_children_views(*element);
            assert(render_views(children@) =~= Seq::empty());
        }
        let ghost nodes = element@.children;
        let mut i: usize = 0;
        while i < element.children.len()
            invariant
                i <= element.children.len(),
                nodes == node_views(element.children@),
                nodes == element@.children,
                render_views(children@) == render_all(nodes, stylesheet@, i as int),
            decreases element.children.len() - i,
        {
            let ghost before = render_views(children@);
            proof {
                assert(nodes[i as int] == element.children@[i as int]@);
            }
            match Self::build(&element.children[i], stylesheet) {
                Some(child) => {
                    children.push(child);
                    proof {
                        assert(render_views(children@) =~= before.push(child@));
                    }
                },
                None => {},
            }
            i += 1;
        }
        children
    }

    /// The render tree of `node` under `stylesheet`; the node has to be
    /// shown.
    pub fn new(node: &'a Node, stylesheet: &'a StyleSheet) -> (tree: Self)
        requires
            render_of(node@, stylesheet@) is Some,
        ensures
            Some(tree@) == render_of(node@, stylesheet@),
            tree.node == node,
    {
        match Self::build(node, stylesheet) {
            Some(tree) => tree,
            None => {
                proof {
                    assert(false);
                }
                RenderObject { node, styles: StyleMap::new(), children: Vec::new() }
            },
        }
    }

    /// The value that the styles give to the property `name`.
    pub fn value(&self, name: &DeclarationProperty) -> (value: Option<&'a DeclarationValue>)
        ensures
            match value {
                Some(v) => self@.styles.contains_key(name@) && self@.styles[name@] == v@,
                None => !self@.styles.contains_key(name@),
            },
    {
        self.styles.get(name)
    }

    /// The layout of the node: the one that its styles give; a block where
    /// they give none; and in line where they give the property a value
    /// that is no layout.
    pub fn get_display(&self) -> (display: Display)
        ensures
            display == display_of_styles(self@.styles),
    {
        match self.value(&DeclarationProperty::Display) {
            Some(value) => match value {
                DeclarationValue::Display(display) => *display,
                _ => Display::Inline,
            },
            None => Display::Block,
        }
    }

    /// The length that the styles give to `property`, if they give it one.
    pub fn lookup_length(&self, property: &DeclarationProperty) -> (length: Option<Length>)
        ensures
            match length {
                Some(l) => self@.styles.contains_key(property@) && self@.styles[property@]
                    == ValueView::Length(l@),
                None => !(self@.styles.contains_key(property@) && self@.styles[property@] is Length),
            },
    {
        match self.value(property) {
            Some(value) => match value {
                DeclarationValue::Length(length) => Some(length.clone()),
                _ => None,
            },
            None => None,
        }
    }
}

/// The layout that styles say: the one that they give to the property; a
/// block where they give none; and in line where the value of the property
/// is no layout.
pub open spec fn display_of_styles(styles: Map<PropertyView, ValueView>) -> Display {
    if styles.contains_key(PropertyView::Display) {
        match styles[PropertyView::Display] {
            ValueView::Display(display) => display,
            _ => Display::Inline,
        }
    } else {
        Display::Block
    }
}

/// The first `n` pairs of styles as text, with a comma and a space
/// between them: each one the property, a colon and the value.
pub open spec fn style_pairs_text(pairs: Seq<(PropertyView, ValueView)>, n: int) -> Seq<char>
    decreases n,
{
    if n <= 0 {
        Seq::empty()
    } else if n == 1 {
        property_text(pairs[0].0) + ": "@ + value_text(pairs[0].1)
    } else {
        style_pairs_text(pairs, n - 1) + ", "@ + property_text(pairs[n - 1].0) + ": "@
            + value_text(pairs[n - 1].1)
    }
}

/// Styles as text: their pairs between braces.
pub open spec fn styles_text(pairs: Seq<(PropertyView, ValueView)>) -> Seq<char> {
    "{"@ + style_pairs_text(pairs, pairs.len() as int) + "}"@
}

/// The first `n` of `trees` as text, one after the other.
pub open spec fn render_list_text(trees: Seq<RenderPairs>, n: int, indent: nat) -> Seq<char>
    decreases trees, n,
{
    if n <= 0 || n > trees.len() {
        Seq::empty()
    } else {
        render_list_text(trees, n - 1, indent) + render_text(trees[n - 1], indent)
    }
}

/// A render tree with its styles as pairs, in the order in which the
/// properties were first given a value.
pub struct RenderPairs {
    pub node: NodeView,
    pub pairs: Seq<(PropertyView, ValueView)>,
    pub children: Seq<RenderPairs>,
}

/// A render tree as text, set in by `indent` spaces: a text on a line of
/// its own; an element as its tag, with its styles if it has any, then
/// the trees inside it set in by two more spaces, then its end tag; and of
/// any other node an empty line.
pub open spec fn render_text(tree: RenderPairs, indent: nat) -> Seq<char>
    decreases tree, 0int,
{
    let inner = render_list_text(tree.children, tree.children.len() as int, indent + 2);
    match tree.node {
        NodeView::Text(text) => spaces(indent) + text + "\n"@ + inner,
        NodeView::Element(element) => {
            let tag = tag_text(element.tag_name);
            let open = if tree.pairs.len() == 0 {
                spaces(indent) + "<"@ + tag + ">"@
            } else {
                spaces(indent) + "<"@ + tag + " styles="@ + styles_text(tree.pairs) + ">"@
            };
            open + "\n"@ + inner + spaces(indent) + "</"@ + tag + ">\n"@
        },
        _ => "\n"@ + inner,
    }
}

impl<'a> StyleMap<'a> {
    /// The styles as text: between braces the properties with their
    /// values, in the order in which the properties were first given a
    /// value.
    pub fn to_string(&self) -> (text: String)
        ensures
            text@ == styles_text(self.pairs()),
    {
        let mut text = "{".to_owned();
        let ghost head = text@;
        let count = self.len();
        let mut i: usize = 0;
        while i < count
            invariant
                count == self.pairs().len(),
                i <= count,
                text@ == head + style_pairs_text(self.pairs(), i as int),
            decreases count - i,
        {
            let ghost before = style_pairs_text(self.pairs(), i as int);
            let (property, value) = self.entry(i);
            if i > 0 {
                text.append(", ");
            }
            text.append(property.to_string().as_str());
            text.append(": ");
            text.append(value.to_string().as_str());
            proof {
                let pair = self.pairs()[i as int];
                if i == 0 {
                    assert(text@ =~= head + (property_text(pair.0) + ": "@ + value_text(pair.1)));
                } else {
                    assert(text@ =~= head + (before + ", "@ + property_text(pair.0) + ": "@
                        + value_text(pair.1)));
                }
            }
            i += 1;
        }
        text.append("}");
        text
    }
}

impl<'a> RenderObject<'a> {
    /// The render tree with its styles as pairs.
    pub open spec fn with_pairs(&self) -> RenderPairs
        decreases self,
    {
        RenderPairs {
            node: self.node@,
            pairs: self.styles.pairs(),
            children: Seq::new(
                self.children@.len(),
                |i: int|
                    if 0 <= i < self.children@.len() {
                        self.children@[i].with_pairs()
                    } else {
                        RenderPairs {
                            node: NodeView::EndTag,
                            pairs: Seq::empty(),
                            children: Seq::empty(),
                        }
                    },
            ),
        }
    }

    /// The render tree as text, set in by `indent_size` spaces.
    pub fn pretty_print(&self, indent_size: usize) -> (text: String)
        requires
            indent_size + 2 * render_depth(self.with_pairs()) <= usize::MAX,
        ensures
            text@ == render_text(self.with_pairs(), indent_size as nat),
        decreases self,
    {
        let mut indent = String::new();
        let mut n: usize = 0;
        while n < indent_size
            invariant
                n <= indent_size,
                indent@ == spaces(n as nat),
            decreases indent_size - n,
        {
            indent.push(' ');
            proof {
                assert(spaces(n as nat).push(' ') =~= spaces((n + 1) as nat));
            }
            n += 1;
        }
        let mut text = String::new();
        match self.node {
            Node::Text(v) => {
                text.append(indent.as_str());
                text.append(v.as_str());
            },
            Node::Element(e) => {
                text.append(indent.as_str());
                text.append("<");
                text.append(e.tag_name.to_string().as_str());
                if !self.styles.is_empty() {
                    text.append(" styles=");
                    text.append(self.styles.to_string().as_str());
                }
                text.append(">");
            },
            _ => {},
        }
        text.append("\n");
        let ghost head = text@;
        let ghost trees = self.with_pairs().children;
        let mut i: usize = 0;
        while i < self.children.len()
            invariant
                i <= self.children.len(),
                trees == self.with_pairs().children,
                trees.len() == self.children@.len(),
                indent_size + 2 * render_depth(self.with_pairs()) <= usize::MAX,
                text@ == head + render_list_text(trees, i as int, (indent_size + 2) as nat),
            decreases self.children.len() - i,
        {
            let ghost before = render_list_text(trees, i as int, (indent_size + 2) as nat);
            proof {
                assert(trees[i as int] == self.children@[i as int].with_pairs());
                lemma_render_depth_of_child(self.with_pairs(), i as int);
            }
            text.append(self.children[i].pretty_print(indent_size + 2).as_str());
            proof {
                assert(text@ =~= head + (before + render_text(
                    trees[i as int],
                    (indent_size + 2) as nat,
                )));
            }
            i += 1;
        }
        match self.node {
            Node::Element(e) => {
                text.append(indent.as_str());
                text.append("</");
                text.append(e.tag_name.to_string().as_str());
                text.append(">\n");
            },
            _ => {},
        }
        proof {
            assert(text@ =~= render_text(self.with_pairs(), indent_size as nat));
        }
        text
    }
}

/// How deep a render tree is: how many nodes stand on its longest way
/// down.
pub open spec fn render_depth(tree: RenderPairs) -> nat
    decreases tree, 0int,
{
    1 + deepest_render(tree.children, tree.children.len() as int)
}

/// The depth of the deepest of the first `n` of `trees`.
pub open spec fn deepest_render(trees: Seq<RenderPairs>, n: int) -> nat
    decreases trees, n,
{
    if n <= 0 || n > trees.len() {
        0
    } else {
        let before = deepest_render(trees, n - 1);
        let last = render_depth(trees[n - 1]);
        if last > before {
            last
        } else {
            before
        }
    }
}

/// A render tree inside another is less deep than that one.
pub proof fn lemma_render_depth_of_child(tree: RenderPairs, i: int)
    requires
        0 <= i < tree.children.len(),
    ensures
        render_depth(tree.children[i]) < render_depth(tree),
{
    lemma_deepest_render(tree.children, tree.children.len() as int, i);
}

/// None of the first `n` render trees is deeper than the deepest of them.
pub proof fn lemma_deepest_render(trees: Seq<RenderPairs>, n: int, i: int)
    requires
        0 <= i < n <= trees.len(),
    ensures
        render_depth(trees[i]) <= deepest_render(trees, n),
    decreases n,
{
    if i < n - 1 {
        lemma_deepest_render(trees, n - 1, i);
    }
}

} // verus!
