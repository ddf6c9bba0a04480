//! The markup language, as functions from a text and a position to what is
//! read there and the position after it.
//!
//! Whitespace between the units of the language is skipped. Inside a text
//! run it is kept, but every run of it counts as one space, and none
//! stands at the end of the text run.

use vstd::prelude::*;
use crate::cssom::grammar::Parsed;
use crate::dom::ElementView;
use crate::dom::KeyView;
use crate::dom::NodeView;
use crate::dom::key_of;
use crate::dom::tag_name_of;
use crate::error::Expected;
use crate::error::ParseError;
use crate::error::lexical;
use crate::error::structural;
use crate::text::char_at;
use crate::text::ident_at;
use crate::text::is_ascii_letter;
use crate::text::is_text_char;
use crate::text::is_white_space;
use crate::text::lemma_ident_advances;
use crate::text::lemma_run_end_bounds;
use crate::text::lemma_run_end_step;
use crate::text::lemma_until_advances;
use crate::text::lemma_ws_end;
use crate::text::other_than;
use crate::text::run_end;
use crate::text::text_end;
use crate::text::until_at;
use crate::text::ws_end;

verus! {

/// The first `n` characters of `s` with their whitespace collapsed: what
/// is no whitespace stays, and a space stands wherever whitespace stood
/// between two such characters. No space stands first or last.
pub open spec fn collapsed(s: Seq<char>, n: int) -> Seq<char>
    decreases n,
{
    if n <= 0 {
        Seq::empty()
    } else {
        let before = collapsed(s, n - 1);
        let c = s[n - 1];
        if is_white_space(c) {
            before
        } else if before.len() > 0 && n >= 2 && is_white_space(s[n - 2]) {
            before.push(' ').push(c)
        } else {
            before.push(c)
        }
    }
}

/// The text run at `p`: the characters up to the next `<` or `>`, with
/// their whitespace collapsed, and the position after them and the
/// whitespace that follows them.
pub open spec fn text_at(s: Seq<char>, p: int) -> (Seq<char>, int) {
    let a = ws_end(s, p);
    let e = text_end(s, a);
    (collapsed(s.subrange(a, e), e - a), ws_end(s, e))
}

/// The position after the characters of `literal` from its `i`th on, which
/// have to stand in `s` from `p + i` on.
pub open spec fn literal_from(s: Seq<char>, p: int, literal: Seq<char>, i: int) -> Result<
    int,
    ParseError,
>
    decreases literal.len() - i,
{
    if i < 0 || i >= literal.len() {
        Ok(p + literal.len())
    } else if char_at(s, p + i) == Some(literal[i]) {
        literal_from(s, p, literal, i + 1)
    } else {
        Err(structural(s, p + i, Expected::Char(literal[i])))
    }
}

/// The position after `literal`, which has to stand at `p` after
/// whitespace.
pub open spec fn literal_at(s: Seq<char>, p: int, literal: Seq<char>) -> Result<int, ParseError> {
    literal_from(s, ws_end(s, p), literal, 0)
}

/// The position after the character `ch`, which has to stand at `p` after
/// whitespace.
pub open spec fn char_expected_at(s: Seq<char>, p: int, ch: char) -> Result<int, ParseError> {
    let q = ws_end(s, p);
    if char_at(s, q) == Some(ch) {
        Ok(q + 1)
    } else {
        Err(structural(s, q, Expected::Char(ch)))
    }
}

/// The value between double quotes at `p`: any characters but the quote,
/// without the whitespace that stands first among them.
pub open spec fn string_at(s: Seq<char>, p: int) -> Parsed<Seq<char>> {
    match char_expected_at(s, p, '"') {
        Ok(a) => {
            let (value, c) = until_at(s, a, '"');
            match char_expected_at(s, c, '"') {
                Ok(n) => Ok((value, n)),
                Err(e) => Err(e),
            }
        },
        Err(e) => Err(e),
    }
}

/// The characters that open a comment, after the `<`.
pub open spec fn comment_open() -> Seq<char> {
    seq!['!', '-', '-']
}

/// The characters that close a comment.
pub open spec fn comment_close() -> Seq<char> {
    seq!['-', '-', '>']
}

/// The characters that close a tag without content.
pub open spec fn self_close() -> Seq<char> {
    seq!['/', '>']
}

/// The comment whose `!` stands at `p`: the text between `!--` and `-->`,
/// which holds no `-`, without the whitespace that stands first in it.
pub open spec fn comment_at(s: Seq<char>, p: int) -> Parsed<Seq<char>> {
    match literal_at(s, p, comment_open()) {
        Ok(a) => {
            let (text, c) = until_at(s, a, '-');
            match literal_at(s, c, comment_close()) {
                Ok(n) => Ok((text, n)),
                Err(e) => Err(e),
            }
        },
        Err(e) => Err(e),
    }
}

/// The position after the end tag whose `/` stands at `p`: everything up
/// to the next `>` belongs to it, whatever it names.
pub open spec fn end_tag_at(s: Seq<char>, p: int) -> Result<int, ParseError> {
    char_expected_at(s, until_at(s, p, '>').1, '>')
}

/// The attribute at `p`: a key, a `=`, and a value between double quotes.
pub open spec fn attribute_at(s: Seq<char>, p: int) -> Parsed<(KeyView, Seq<char>)> {
    let (name, k) = ident_at(s, p);
    match char_expected_at(s, k, '=') {
        Ok(v) => match string_at(s, v) {
            Ok((value, n)) => Ok(((key_of(name), value), n)),
            Err(e) => Err(e),
        },
        Err(e) => Err(e),
    }
}

/// A position after a literal that is read lies inside the text, after
/// its start by the length of the literal.
pub proof fn lemma_literal_advances(s: Seq<char>, p: int, literal: Seq<char>, i: int)
    requires
        0 <= p,
        0 <= i <= literal.len(),
        p + i <= s.len(),
    ensures
        literal_from(s, p, literal, i) matches Ok(n) ==> n == p + literal.len() && n <= s.len(),
    decreases literal.len() - i,
{
    if i < literal.len() && char_at(s, p + i) == Some(literal[i]) {
        lemma_literal_advances(s, p, literal, i + 1);
    }
}

/// A value between quotes ends inside the text, after its start.
pub proof fn lemma_string_advances(s: Seq<char>, p: int)
    requires
        0 <= p <= s.len(),
    ensures
        string_at(s, p) matches Ok((_, n)) ==> p < n <= s.len(),
{
    lemma_ws_end(s, p);
    match char_expected_at(s, p, '"') {
        Ok(a) => {
            lemma_until_advances(s, a, '"');
            lemma_ws_end(s, until_at(s, a, '"').1);
        },
        Err(_) => {},
    }
}

/// An attribute that is read holds at least one character, and ends inside
/// the text.
pub proof fn lemma_attribute_advances(s: Seq<char>, p: int)
    requires
        0 <= p <= s.len(),
    ensures
        attribute_at(s, p) matches Ok((_, n)) ==> p < n <= s.len(),
{
    let (name, k) = ident_at(s, p);
    lemma_ident_advances(s, p);
    lemma_ws_end(s, k);
    match char_expected_at(s, k, '=') {
        Ok(v) => {
            lemma_string_advances(s, v);
        },
        Err(_) => {},
    }
}

/// The attributes from `p` on, after the attributes `before`, up to the
/// `/` or `>` that ends the tag, or to the end of the text; the position
/// after is that of this character or end. A key that stands twice keeps
/// the later value.
pub open spec fn attributes_at(s: Seq<char>, p: int, before: Map<KeyView, Seq<char>>) -> Parsed<
    Map<KeyView, Seq<char>>,
>
    decreases s.len() - p,
{
    let q = ws_end(s, p);
    match char_at(s, q) {
        None => Ok((before, q)),
        Some(c) => if c == '/' || c == '>' {
            Ok((before, q))
        } else {
            match attribute_at(s, q) {
                Ok(((key, value), n)) => {
                    proof {
                        lemma_ws_end(s, p);
                        lemma_attribute_advances(s, q);
                    }
                    attributes_at(s, n, before.insert(key, value))
                },
                Err(e) => Err(e),
            }
        },
    }
}

/// Attributes end inside the text, at or after their start: at a `/` or
/// a `>`, or where the text ends.
pub proof fn lemma_attributes_advance(s: Seq<char>, p: int, before: Map<KeyView, Seq<char>>)
    requires
        0 <= p <= s.len(),
    ensures
        attributes_at(s, p, before) matches Ok((_, n)) ==> p <= n <= s.len() && (n < s.len()
            ==> s[n] == '/' || s[n] == '>') && ws_end(s, n) == n,
    decreases s.len() - p,
{
    let q = ws_end(s, p);
    lemma_ws_end(s, p);
    match char_at(s, q) {
        None => {},
        Some(c) => {
            if !(c == '/' || c == '>') {
                lemma_attribute_advances(s, q);
                match attribute_at(s, q) {
                    Ok(((key, value), n)) => {
                        lemma_attributes_advance(s, n, before.insert(key, value));
                    },
                    Err(_) => {},
                }
            }
        },
    }
}

/// The attributes of the tag whose name ends at `p`: none where the tag
/// ends at once, and otherwise attributes of which the first starts with
/// a letter.
pub open spec fn tag_attributes_at(s: Seq<char>, p: int) -> Parsed<Map<KeyView, Seq<char>>> {
    let q = ws_end(s, p);
    match char_at(s, q) {
        Some(c) => if c == '/' || c == '>' {
            Ok((Map::empty(), q))
        } else if is_ascii_letter(c) {
            attributes_at(s, q, Map::empty())
        } else {
            Err(structural(s, q, Expected::Char('>')))
        },
        None => Err(structural(s, q, Expected::Char('>'))),
    }
}

/// The node at `p`: after a `<` a comment, an element or an end tag, and
/// otherwise a text run. An end tag is read as the node that is none.
pub open spec fn node_at(s: Seq<char>, p: int) -> Parsed<NodeView>
    decreases s.len() - p, 2int,
{
    let q = ws_end(s, p);
    let r = ws_end(s, q + 1);
    proof {
        lemma_ws_end(s, p);
        lemma_ws_end(s, q + 1);
    }
    match char_at(s, q) {
        None => Err(structural(s, q, Expected::Node)),
        Some(c) => if c == '<' {
            match char_at(s, r) {
                Some(d) => if d == '!' {
                    match comment_at(s, r) {
                        Ok((text, n)) => Ok((NodeView::Comment(text), n)),
                        Err(e) => Err(e),
                    }
                } else if is_ascii_letter(d) {
                    match element_at(s, r) {
                        Ok((element, n)) => Ok((NodeView::Element(element), n)),
                        Err(e) => Err(e),
                    }
                } else if d == '/' {
                    match end_tag_at(s, r) {
                        Ok(n) => Ok((NodeView::EndTag, n)),
                        Err(e) => Err(e),
                    }
                } else {
                    Err(lexical(s, r, Expected::Node))
                },
                None => Err(lexical(s, r, Expected::Node)),
            }
        } else if c == '>' {
            Err(lexical(s, q, Expected::Node))
        } else {
            Ok((NodeView::Text(text_at(s, q).0), text_at(s, q).1))
        },
    }
}

/// The element whose name starts at `p`: the name, the attributes, and
/// then either `/>` and no content, or `>` and the content up to the end
/// tag. The content of a `style` element is one node, which holds its text
/// as it stands.
pub open spec fn element_at(s: Seq<char>, p: int) -> Parsed<ElementView>
    decreases s.len() - p, 1int,
{
    let (name, n) = ident_at(s, p);
    let tag_name = tag_name_of(name);
    proof {
        lemma_ident_advances(s, p);
        lemma_ws_end(s, n);
        if 0 <= n <= s.len() {
            lemma_attributes_advance(s, ws_end(s, n), Map::empty());
        }
    }
    if !(char_at(s, ws_end(s, p)) matches Some(c) && is_ascii_letter(c)) {
        Err(lexical(s, ws_end(s, p), Expected::Node))
    } else {
        match tag_attributes_at(s, n) {
            Ok((attributes, m)) => if char_at(s, m) == Some('/') {
                match literal_from(s, m, self_close(), 0) {
                    Ok(end) => Ok((ElementView { tag_name, attributes, children: Seq::empty() }, end)),
                    Err(e) => Err(e),
                }
            } else if char_at(s, m) != Some('>') {
                Err(structural(s, m, Expected::Char('>')))
            } else {
                let content = if tag_name is Style {
                    style_content_at(s, m + 1)
                } else {
                    children_at(s, m + 1, Seq::empty())
                };
                match content {
                    Ok((children, end)) => Ok((ElementView { tag_name, attributes, children }, end)),
                    Err(e) => Err(e),
                }
            },
            Err(e) => Err(e),
        }
    }
}

/// The content of a `style` element from `p` on: its text up to the next
/// `<`, as it stands, and the end tag that has to follow.
pub open spec fn style_content_at(s: Seq<char>, p: int) -> Parsed<Seq<NodeView>>
    decreases s.len() - p, 3int,
{
    let e = run_end(s, p, other_than('<'));
    proof {
        lemma_run_end_bounds(s, p, other_than('<'));
    }
    match node_at(s, e) {
        Ok((node, n)) => if node is EndTag {
            Ok((seq![NodeView::Style(s.subrange(p, e))], n))
        } else {
            Err(structural(s, ws_end(s, e), Expected::EndTag))
        },
        Err(x) => Err(x),
    }
}

/// The nodes from `p` on, after the nodes `before`, up to the end tag that
/// closes the element they stand in.
pub open spec fn children_at(s: Seq<char>, p: int, before: Seq<NodeView>) -> Parsed<Seq<NodeView>>
    decreases s.len() - p, 3int,
{
    match node_at(s, p) {
        Ok((node, n)) => if node is EndTag {
            Ok((before, n))
        } else if p < n <= s.len() {
            children_at(s, n, before.push(node))
        } else {
            Err(lexical(s, p, Expected::Node))
        },
        Err(e) => Err(e),
    }
}

/// The document that starts at `p`: one node, which is no end tag.
pub open spec fn document_at(s: Seq<char>, p: int) -> Parsed<NodeView> {
    match node_at(s, p) {
        Ok((node, n)) => if node is EndTag {
            Err(structural(s, ws_end(s, p), Expected::Node))
        } else {
            Ok((node, n))
        },
        Err(e) => Err(e),
    }
}

/// Whether no node of a tree is the node that an end tag is read as.
pub open spec fn is_finished(node: NodeView) -> bool
    decreases node, 0int,
{
    match node {
        NodeView::EndTag => false,
        NodeView::Element(element) => are_finished(element.children, element.children.len() as int),
        _ => true,
    }
}

/// Whether [`is_finished`] holds of the first `n` of `nodes`.
pub open spec fn are_finished(nodes: Seq<NodeView>, n: int) -> bool
    decreases nodes, n,
{
    if n <= 0 || n > nodes.len() {
        true
    } else {
        are_finished(nodes, n - 1) && is_finished(nodes[n - 1])
    }
}

/// Whether a tree is what an end tag is read as, or holds no such node
/// anywhere.
pub open spec fn is_end_or_finished(node: NodeView) -> bool {
    node is EndTag || is_finished(node)
}

/// An end tag is read as a node of its own only where a node is read
/// alone; inside a tree that is read there is none. So no document holds
/// the node that an end tag is read as.
pub proof fn lemma_document_is_finished(s: Seq<char>, p: int)
    ensures
        node_at(s, p) matches Ok((node, _)) ==> is_end_or_finished(node),
        document_at(s, p) matches Ok((node, _)) ==> is_finished(node),
    decreases s.len() - p, 2int,
{
    let q = ws_end(s, p);
    let r = ws_end(s, q + 1);
    lemma_ws_end(s, p);
    lemma_ws_end(s, q + 1);
    if char_at(s, q) == Some('<') {
        if char_at(s, r) matches Some(d) && d != '!' && is_ascii_letter(d) {
            lemma_element_is_finished(s, r);
        }
    }
}

/// The nodes inside an element that is read hold no node that an end tag
/// is read as.
pub proof fn lemma_element_is_finished(s: Seq<char>, p: int)
    ensures
        element_at(s, p) matches Ok((element, _)) ==> are_finished(
            element.children,
            element.children.len() as int,
        ),
    decreases s.len() - p, 1int,
{
    let (name, n) = ident_at(s, p);
    lemma_ident_advances(s, p);
    lemma_ws_end(s, n);
    if 0 <= n <= s.len() {
        lemma_attributes_advance(s, ws_end(s, n), Map::empty());
    }
    if char_at(s, ws_end(s, p)) matches Some(c) && is_ascii_letter(c) {
        match tag_attributes_at(s, n) {
            Ok((attributes, m)) => {
                if char_at(s, m) == Some('/') {
                } else if char_at(s, m) != Some('>') {
                } else if tag_name_of(name) is Style {
                    let e = run_end(s, m + 1, other_than('<'));
                    let content = seq![NodeView::Style(s.subrange(m + 1, e))];
                    assert(content.len() == 1);
                    assert(are_finished(content, 0));
                    assert(is_finished(content[0]));
                    assert(are_finished(content, 1));
                } else {
                    lemma_children_are_finished(s, m + 1, Seq::empty());
                }
            },
            Err(_) => {},
        }
    }
}

/// Nodes read after nodes that hold no node that an end tag is read as
/// hold none either.
pub proof fn lemma_children_are_finished(s: Seq<char>, p: int, before: Seq<NodeView>)
    requires
        are_finished(before, before.len() as int),
    ensures
        children_at(s, p, before) matches Ok((children, _)) ==> are_finished(
            children,
            children.len() as int,
        ),
    decreases s.len() - p, 3int,
{
    lemma_document_is_finished(s, p);
    match node_at(s, p) {
        Ok((node, n)) => {
            if !(node is EndTag) && p < n <= s.len() {
                let longer = before.push(node);
                lemma_finished_prefix(longer, before, before.len() as int);
                lemma_children_are_finished(s, n, longer);
            }
        },
        Err(_) => {},
    }
}

/// What holds of the first `n` nodes of a sequence holds of the first `n`
/// nodes of a sequence that starts with the same nodes.
pub proof fn lemma_finished_prefix(longer: Seq<NodeView>, shorter: Seq<NodeView>, n: int)
    requires
        0 <= n <= shorter.len() <= longer.len(),
        forall|i: int| 0 <= i < shorter.len() ==> longer[i] == shorter[i],
        are_finished(shorter, n),
    ensures
        are_finished(longer, n),
    decreases n,
{
    if n > 0 {
        lemma_finished_prefix(longer, shorter, n - 1);
    }
}

/// A node that is read holds at least one character, and ends inside the
/// text.
pub proof fn lemma_node_advances(s: Seq<char>, p: int)
    requires
        0 <= p <= s.len(),
    ensures
        node_at(s, p) matches Ok((_, n)) ==> p < n <= s.len(),
    decreases s.len() - p, 2int,
{
    let q = ws_end(s, p);
    let r = ws_end(s, q + 1);
    lemma_ws_end(s, p);
    lemma_ws_end(s, q + 1);
    match char_at(s, q) {
        None => {},
        Some(c) => {
            if c == '<' {
                match char_at(s, r) {
                    Some(d) => {
                        if d == '!' {
                            lemma_comment_advances(s, r);
                        } else if is_ascii_letter(d) {
                            lemma_element_advances(s, r);
                        } else if d == '/' {
                            lemma_until_advances(s, r, '>');
                            lemma_ws_end(s, until_at(s, r, '>').1);
                        }
                    },
                    None => {},
                }
            } else if c != '>' {
                lemma_run_end_step(s, q, |c: char| is_text_char(c));
                lemma_ws_end(s, q);
                lemma_ws_end(s, text_end(s, q));
            }
        },
    }
}

/// A comment ends inside the text, after its start.
pub proof fn lemma_comment_advances(s: Seq<char>, p: int)
    requires
        0 <= p <= s.len(),
    ensures
        comment_at(s, p) matches Ok((_, n)) ==> p < n <= s.len(),
{
    lemma_ws_end(s, p);
    lemma_literal_advances(s, ws_end(s, p), comment_open(), 0);
    match literal_at(s, p, comment_open()) {
        Ok(a) => {
            lemma_until_advances(s, a, '-');
            let c = until_at(s, a, '-').1;
            lemma_ws_end(s, c);
            lemma_literal_advances(s, ws_end(s, c), comment_close(), 0);
        },
        Err(_) => {},
    }
}

/// An element ends inside the text, after its start.
pub proof fn lemma_element_advances(s: Seq<char>, p: int)
    requires
        0 <= p <= s.len(),
    ensures
        element_at(s, p) matches Ok((_, n)) ==> p < n <= s.len(),
    decreases s.len() - p, 1int,
{
    let (name, n) = ident_at(s, p);
    lemma_ident_advances(s, p);
    lemma_ws_end(s, n);
    lemma_attributes_advance(s, ws_end(s, n), Map::empty());
    if char_at(s, ws_end(s, p)) matches Some(c) && is_ascii_letter(c) {
        match tag_attributes_at(s, n) {
            Ok((attributes, m)) => {
                if char_at(s, m) == Some('/') {
                    lemma_literal_advances(s, m, self_close(), 0);
                } else if char_at(s, m) != Some('>') {
                } else if tag_name_of(name) is Style {
                    lemma_style_content_advances(s, m + 1);
                } else {
                    lemma_children_advance(s, m + 1, Seq::empty());
                }
            },
            Err(_) => {},
        }
    }
}

/// The content of a `style` element ends inside the text, after its start.
pub proof fn lemma_style_content_advances(s: Seq<char>, p: int)
    requires
        0 <= p <= s.len(),
    ensures
        style_content_at(s, p) matches Ok((_, n)) ==> p < n <= s.len(),
    decreases s.len() - p, 3int,
{
    lemma_run_end_bounds(s, p, other_than('<'));
    lemma_node_advances(s, run_end(s, p, other_than('<')));
}

/// The nodes inside an element end inside the text, after their start.
pub proof fn lemma_children_advance(s: Seq<char>, p: int, before: Seq<NodeView>)
    requires
        0 <= p <= s.len(),
    ensures
        children_at(s, p, before) matches Ok((_, n)) ==> p < n <= s.len(),
    decreases s.len() - p, 3int,
{
    lemma_node_advances(s, p);
    match node_at(s, p) {
        Ok((node, n)) => {
            if !(node is EndTag) {
                lemma_children_advance(s, n, before.push(node));
            }
        },
        Err(_) => {},
    }
}

} // verus!
