//! The document parser: a recursive descent over the characters of a
//! document, one method for each function of the grammar.

use vstd::prelude::*;
use crate::dom::Element;
use crate::dom::ElementTagName;
use crate::dom::KeyView;
use crate::dom::Node;
use crate::dom::NodeKey;
use crate::dom::NodeView;
use crate::dom::attributes::ElementAttributes;
use crate::dom::grammar::attributes_at;
use crate::dom::grammar::char_expected_at;
use crate::dom::grammar::children_at;
use crate::dom::grammar::collapsed;
use crate::dom::grammar::comment_at;
use crate::dom::grammar::comment_close;
use crate::dom::grammar::comment_open;
use crate::dom::grammar::document_at;
use crate::dom::grammar::element_at;
use crate::dom::grammar::end_tag_at;
use crate::dom::grammar::lemma_attribute_advances;
use crate::dom::grammar::lemma_attributes_advance;
use crate::dom::grammar::lemma_node_advances;
use crate::dom::grammar::literal_at;
use crate::dom::grammar::literal_from;
use crate::dom::grammar::node_at;
use crate::dom::grammar::self_close;
use crate::dom::grammar::string_at;
use crate::dom::grammar::text_at;
use crate::dom::node_views;
use crate::dom::tag_name_of;
use crate::error::Expected;
use crate::error::ParseError;
use crate::error::lexical;
use crate::text::Cursor;
use crate::text::char_at;
use crate::text::chars_of;
use crate::text::ident_at;
use crate::text::is_ident_char;
use crate::text::is_text_char;
use crate::text::is_white_space;
use crate::text::lemma_ident_advances;
use crate::text::lemma_ws_end;
use crate::text::other_than;
use crate::text::until_at;
use crate::text::ws_end;

verus! {

/// A parser of documents: a text, and how far it has been read.
#[derive(Debug)]
pub struct DocumentObjectParser {
    cursor: Cursor,
}

/// A text with its whitespace collapsed: every run of whitespace between
/// other characters is one space, and none stands first or last.
pub fn collapse_whitespace(text: &str) -> (collapsed_text: String)
    ensures
        collapsed_text@ == collapsed(text@, text@.len() as int),
{
    let chars = chars_of(text);
    let mut out = String::new();
    let mut after_space = false;
    let mut empty = true;
    let mut i: usize = 0;
    while i < chars.len()
        invariant
            chars@ == text@,
            i <= chars.len(),
            out@ == collapsed(chars@, i as int),
            empty == (out@.len() == 0),
            after_space == (i >= 1 && is_white_space(chars@[i - 1])),
        decreases chars.len() - i,
    {
        let c = chars[i];
        if c.is_whitespace() {
            after_space = true;
        } else {
            if after_space && !empty {
                out.push(' ');
            }
            out.push(c);
            after_space = false;
            empty = false;
        }
        i += 1;
    }
    out
}

impl DocumentObjectParser {
    /// The text that is parsed.
    pub closed spec fn text(&self) -> Seq<char> {
        self.cursor.text()
    }

    /// How many characters of the text have been read.
    pub closed spec fn offset(&self) -> int {
        self.cursor.offset()
    }

    /// A parser at the start of `input`.
    pub fn new(input: &str) -> (parser: Self)
        ensures
            parser.text() == input@,
            parser.offset() == 0,
    {
        DocumentObjectParser { cursor: Cursor::new(input) }
    }

    /// How many characters have been read.
    pub fn position(&self) -> (p: usize)
        ensures
            p == self.offset(),
            p <= self.text().len(),
    {
        self.cursor.position()
    }

    /// Moves past any whitespace.
    pub fn skip_whitespace(&mut self)
        ensures
            final(self).text() == old(self).text(),
            0 <= old(self).offset() <= final(self).offset() <= old(self).text().len(),
            final(self).offset() == ws_end(old(self).text(), old(self).offset()),
    {
        self.cursor.skip_whitespace();
    }

    /// The next character that is no whitespace; the parser moves up to it.
    pub fn peek(&mut self) -> (c: Option<char>)
        ensures
            final(self).text() == old(self).text(),
            0 <= old(self).offset() <= final(self).offset() <= old(self).text().len(),
            final(self).offset() == ws_end(old(self).text(), old(self).offset()),
            c == char_at(old(self).text(), final(self).offset()),
    {
        self.cursor.skip_whitespace();
        self.cursor.peek()
    }

    /// Moves past one character, which has to be there.
    pub fn bump(&mut self) -> (r: Result<(), ParseError>)
        ensures
            final(self).text() == old(self).text(),
            match char_at(old(self).text(), old(self).offset()) {
                Some(_) => r is Ok && final(self).offset() == old(self).offset() + 1,
                None => r == Err::<(), ParseError>(
                    lexical(old(self).text(), old(self).offset(), Expected::Token),
                ),
            },
    {
        match self.cursor.next() {
            Some(_) => Ok(()),
            None => Err(self.cursor.unreadable(Expected::Token)),
        }
    }

    /// Moves past whitespace and the character `ch`, which has to follow it.
    pub fn skip_next_ch(&mut self, ch: &char) -> (r: Result<(), ParseError>)
        ensures
            final(self).text() == old(self).text(),
            0 <= old(self).offset() <= final(self).offset() <= old(self).text().len(),
            match char_expected_at(old(self).text(), old(self).offset(), *ch) {
                Ok(n) => r is Ok && final(self).offset() == n,
                Err(e) => r == Err::<(), ParseError>(e),
            },
    {
        let wanted = *ch;
        self.cursor.skip_whitespace();
        let here = self.cursor.peek();
        if here == Some(wanted) {
            let _ = self.cursor.next();
            Ok(())
        } else {
            Err(self.cursor.missing(Expected::Char(wanted)))
        }
    }

    /// Moves past whitespace and the characters of `s`, which have to
    /// follow it.
    pub fn skip_next_str(&mut self, s: &str) -> (r: Result<(), ParseError>)
        ensures
            final(self).text() == old(self).text(),
            0 <= old(self).offset() <= final(self).offset() <= old(self).text().len(),
            match literal_at(old(self).text(), old(self).offset(), s@) {
                Ok(n) => r is Ok && final(self).offset() == n,
                Err(e) => r == Err::<(), ParseError>(e),
            },
    {
        let literal = chars_of(s);
        self.cursor.skip_whitespace();
        let ghost text = self.text();
        let ghost start = self.offset();
        let mut i: usize = 0;
        while i < literal.len()
            invariant
                literal@ == s@,
                self.text() == text,
                text == old(self).text(),
                start == ws_end(text, old(self).offset()),
                0 <= old(self).offset() <= start,
                i <= literal.len(),
                self.offset() == start + i,
                self.offset() <= text.len(),
                literal_from(text, start, literal@, 0) == literal_from(text, start, literal@, i as int),
            decreases literal.len() - i,
        {
            let wanted = literal[i];
            let here = self.cursor.peek();
            if here == Some(wanted) {
                let _ = self.cursor.next();
            } else {
                return Err(self.cursor.missing(Expected::Char(wanted)));
            }
            i += 1;
        }
        Ok(())
    }

    /// Takes the characters that `consume_condition` accepts, with the
    /// whitespace before and after them skipped.
    pub fn consume<F: Fn(&char) -> bool>(&mut self, consume_condition: &F) -> (run: String)
        requires
            forall|c: char| call_requires(consume_condition, (&c,)),
        ensures
            final(self).text() == old(self).text(),
            ({
                let s = old(self).text();
                let a = ws_end(s, old(self).offset());
                let e = a + run@.len();
                &&& e <= s.len()
                &&& run@ == s.subrange(a, e)
                &&& forall|i: int|
                    0 <= i < run@.len() ==> call_ensures(
                        consume_condition,
                        (&#[trigger] run@[i],),
                        true,
                    )
                &&& e < s.len() ==> call_ensures(consume_condition, (&s[e],), false)
                &&& final(self).offset() == ws_end(s, e)
            }),
    {
        self.cursor.skip_whitespace();
        let limit = self.text_length();
        let run = self.cursor.take_joined_up_to(consume_condition, limit);
        self.cursor.skip_whitespace();
        run
    }

    /// As [`DocumentObjectParser::consume`], but takes at most `nth`
    /// characters.
    pub fn consume_for<F: Fn(&char) -> bool>(&mut self, consume_condition: &F, nth: usize) -> (run:
        String)
        requires
            forall|c: char| call_requires(consume_condition, (&c,)),
        ensures
            final(self).text() == old(self).text(),
            ({
                let s = old(self).text();
                let a = ws_end(s, old(self).offset());
                let e = a + run@.len();
                &&& e <= s.len()
                &&& run@.len() <= nth
                &&& run@ == s.subrange(a, e)
                &&& forall|i: int|
                    0 <= i < run@.len() ==> call_ensures(
                        consume_condition,
                        (&#[trigger] run@[i],),
                        true,
                    )
                &&& run@.len() < nth && e < s.len() ==> call_ensures(
                    consume_condition,
                    (&s[e],),
                    false,
                )
                &&& final(self).offset() == ws_end(s, e)
            }),
    {
        self.cursor.skip_whitespace();
        let run = self.cursor.take_joined_up_to(consume_condition, nth);
        self.cursor.skip_whitespace();
        run
    }

    /// How many characters the text holds.
    fn text_length(&self) -> (n: usize)
        ensures
            n == self.text().len(),
    {
        self.cursor.length()
    }

    /// Takes an identifier, which may be empty, with the whitespace before
    /// and after it skipped.
    pub fn consume_identifier(&mut self) -> (name: String)
        ensures
            final(self).text() == old(self).text(),
            0 <= old(self).offset() <= final(self).offset() <= old(self).text().len(),
            (name@, final(self).offset()) == ident_at(old(self).text(), old(self).offset()),
    {
        let accept = |c: &char| -> (b: bool)
            ensures
                b == is_ident_char(*c),
            {
                (*c >= '0' && *c <= '9') || (*c >= 'a' && *c <= 'z') || (*c >= 'A' && *c <= 'Z')
                    || *c == '_' || *c == '-'
            };
        self.cursor.skip_whitespace();
        let name = self.cursor.take_joined_class(&accept, Ghost(|c: char| is_ident_char(c)));
        self.cursor.skip_whitespace();
        name
    }

    /// Takes the characters up to the next `stop`, with the whitespace
    /// before and after them skipped.
    fn consume_until(&mut self, stop: char) -> (run: String)
        ensures
            final(self).text() == old(self).text(),
            0 <= old(self).offset() <= final(self).offset() <= old(self).text().len(),
            (run@, final(self).offset()) == until_at(old(self).text(), old(self).offset(), stop),
    {
        let accept = |c: &char| -> (b: bool)
            ensures
                b == (*c != stop),
            { *c != stop };
        self.cursor.skip_whitespace();
        let run = self.cursor.take_joined_class(&accept, Ghost(other_than(stop)));
        self.cursor.skip_whitespace();
        run
    }

    /// Takes a text run: the characters up to the next `<` or `>`, with
    /// their whitespace collapsed.
    pub fn consume_text(&mut self) -> (text: String)
        ensures
            final(self).text() == old(self).text(),
            0 <= old(self).offset() <= final(self).offset() <= old(self).text().len(),
            (text@, final(self).offset()) == text_at(old(self).text(), old(self).offset()),
    {
        let accept = |c: &char| -> (b: bool)
            ensures
                b == is_text_char(*c),
            { *c != '<' && *c != '>' };
        self.cursor.skip_whitespace();
        let raw = self.cursor.take_joined_class(&accept, Ghost(|c: char| is_text_char(c)));
        self.cursor.skip_whitespace();
        collapse_whitespace(raw.as_str())
    }

    /// Takes a value between double quotes.
    pub fn consume_string(&mut self) -> (r: Result<String, ParseError>)
        ensures
            final(self).text() == old(self).text(),
            0 <= old(self).offset() <= final(self).offset() <= old(self).text().len(),
            match string_at(old(self).text(), old(self).offset()) {
                Ok((value, n)) => r matches Ok(v) && v@ == value && final(self).offset() == n,
                Err(e) => r matches Err(x) && x == e,
            },
    {
        match self.skip_next_ch(&'"') {
            Ok(()) => {},
            Err(e) => {
                return Err(e);
            },
        }
        let value = self.consume_until('"');
        match self.skip_next_ch(&'"') {
            Ok(()) => {},
            Err(e) => {
                return Err(e);
            },
        }
        Ok(value)
    }

    /// Moves past an end tag, of which the `/` is the next character:
    /// everything up to the next `>` belongs to it.
    pub fn skip_next_end_tag(&mut self) -> (r: Result<(), ParseError>)
        ensures
            final(self).text() == old(self).text(),
            0 <= old(self).offset() <= final(self).offset() <= old(self).text().len(),
            match end_tag_at(old(self).text(), old(self).offset()) {
                Ok(n) => r is Ok && final(self).offset() == n,
                Err(e) => r == Err::<(), ParseError>(e),
            },
    {
        let _ = self.consume_until('>');
        self.skip_next_ch(&'>')
    }

    /// Parses a comment, of which the `!` is the next character.
    pub fn parse_comment(&mut self) -> (r: Result<String, ParseError>)
        ensures
            final(self).text() == old(self).text(),
            0 <= old(self).offset() <= final(self).offset() <= old(self).text().len(),
            match comment_at(old(self).text(), old(self).offset()) {
                Ok((text, n)) => r matches Ok(v) && v@ == text && final(self).offset() == n,
                Err(e) => r matches Err(x) && x == e,
            },
    {
        proof {
            reveal_strlit("!--");
            reveal_strlit("-->");
            assert("!--"@ =~= comment_open());
            assert("-->"@ =~= comment_close());
        }
        match self.skip_next_str("!--") {
            Ok(()) => {},
            Err(e) => {
                return Err(e);
            },
        }
        let comment = self.consume_until('-');
        match self.skip_next_str("-->") {
            Ok(()) => {},
            Err(e) => {
                return Err(e);
            },
        }
        Ok(comment)
    }

    /// Parses the name of a tag.
    pub fn parse_element_tag(&mut self) -> (tag: ElementTagName)
        ensures
            final(self).text() == old(self).text(),
            0 <= old(self).offset() <= final(self).offset() <= old(self).text().len(),
            tag@ == tag_name_of(ident_at(old(self).text(), old(self).offset()).0),
            final(self).offset() == ident_at(old(self).text(), old(self).offset()).1,
    {
        let tag_name = self.consume_identifier();
        ElementTagName::from(tag_name.as_str())
    }

    /// Parses the attributes of a tag, up to the `/` or `>` that ends it,
    /// or to the end of the text.
    pub fn parse_element_attributes(&mut self) -> (r: Result<ElementAttributes, ParseError>)
        ensures
            final(self).text() == old(self).text(),
            0 <= old(self).offset() <= final(self).offset() <= old(self).text().len(),
            match attributes_at(old(self).text(), old(self).offset(), Map::empty()) {
                Ok((attributes, n)) => r matches Ok(a) && a@ == attributes && final(self).offset()
                    == n,
                Err(e) => r matches Err(x) && x == e,
            },
    {
        let ghost s = self.text();
        let ghost start = self.offset();
        let mut attributes = ElementAttributes::new();
        let _ = self.cursor.position();
        loop
            invariant_except_break
                attributes_at(s, start, Map::empty()) == attributes_at(
                    s,
                    self.offset(),
                    attributes@,
                ),
            invariant
                self.text() == s,
                s == old(self).text(),
                start == old(self).offset(),
                0 <= start <= self.offset() <= s.len(),
            ensures
                attributes_at(s, start, Map::empty()) == Ok::<
                    (Map<KeyView, Seq<char>>, int),
                    ParseError,
                >((attributes@, self.offset())),
            decreases s.len() - self.offset(),
        {
            let ghost p = self.offset();
            let here = self.peek();
            proof {
                lemma_ws_end(s, p);
                lemma_attribute_advances(s, ws_end(s, p));
            }
            match here {
                None => {
                    break ;
                },
                Some(c) => {
                    if c == '/' || c == '>' {
                        break ;
                    }
                    let name = self.consume_identifier();
                    let key = NodeKey::from(name.as_str());
                    match self.skip_next_ch(&'=') {
                        Ok(()) => {},
                        Err(e) => {
                            return Err(e);
                        },
                    }
                    let value = match self.consume_string() {
                        Ok(value) => value,
                        Err(e) => {
                            return Err(e);
                        },
                    };
                    attributes.insert(key, value);
                },
            }
        }
        Ok(attributes)
    }

    /// Parses the nodes inside an element, up to the end tag that closes
    /// it.
    pub fn parse_children(&mut self) -> (r: Result<Vec<Node>, ParseError>)
        ensures
            final(self).text() == old(self).text(),
            0 <= old(self).offset() <= final(self).offset() <= old(self).text().len(),
            match children_at(old(self).text(), old(self).offset(), Seq::empty()) {
                Ok((children, n)) => r matches Ok(v) && node_views(v@) == children
                    && final(self).offset() == n,
                Err(e) => r matches Err(x) && x == e,
            },
        decreases old(self).text().len() - old(self).offset(), 3int,
    {
        let ghost s = self.text();
        let ghost start = self.offset();
        let mut children: Vec<Node> = Vec::new();
        let _ = self.cursor.position();
        proof {
            assert(node_views(children@) =~= Seq::empty());
        }
        loop
            invariant
                self.text() == s,
                s == old(self).text(),
                start == old(self).offset(),
                0 <= start <= self.offset() <= s.len(),
                children_at(s, start, Seq::empty()) == children_at(
                    s,
                    self.offset(),
                    node_views(children@),
                ),
            decreases s.len() - self.offset(),
        {
            let ghost p = self.offset();
            let ghost before = node_views(children@);
            proof {
                lemma_node_advances(s, p);
            }
            match self.parse_node() {
                Ok(node) => match node {
                    Node::EndTag => {
                        return Ok(children);
                    },
                    _ => {
                        children.push(node);
                        proof {
                            assert(node_views(children@) =~= before.push(node@));
                        }
                    },
                },
                Err(e) => {
                    return Err(e);
                },
            }
        }
    }

    /// Parses an element, of which the name comes next: the name, the
    /// attributes, and the content up to the end tag.
    pub fn parse_element(&mut self) -> (r: Result<Element, ParseError>)
        ensures
            final(self).text() == old(self).text(),
            0 <= old(self).offset() <= final(self).offset() <= old(self).text().len(),
            match element_at(old(self).text(), old(self).offset()) {
                Ok((element, n)) => r matches Ok(e) && e@ == element && final(self).offset() == n,
                Err(e) => r matches Err(x) && x == e,
            },
        decreases old(self).text().len() - old(self).offset(), 1int,
    {
        let ghost s = self.text();
        let ghost p = self.offset();
        let first = self.peek();
        proof {
            lemma_ws_end(s, p);
            lemma_ident_advances(s, p);
            assert(ident_at(s, p) == ident_at(s, ws_end(s, p)));
        }
        let starts_with_letter = match first {
            Some(c) => (c >= 'a' && c <= 'z') || (c >= 'A' && c <= 'Z'),
            None => false,
        };
        if !starts_with_letter {
            return Err(self.cursor.unreadable(Expected::Node));
        }
        let tag_name = self.parse_element_tag();
        let ghost n = self.offset();
        proof {
            lemma_ws_end(s, n);
            lemma_attributes_advance(s, ws_end(s, n), Map::empty());
        }
        let attributes = match self.peek() {
            Some(c) => {
                if c == '/' || c == '>' {
                    ElementAttributes::new()
                } else if (c >= 'a' && c <= 'z') || (c >= 'A' && c <= 'Z') {
                    match self.parse_element_attributes() {
                        Ok(attributes) => attributes,
                        Err(e) => {
                            return Err(e);
                        },
                    }
                } else {
                    return Err(self.cursor.missing(Expected::Char('>')));
                }
            },
            None => {
                return Err(self.cursor.missing(Expected::Char('>')));
            },
        };
        let ghost m = self.offset();
        let children = if self.cursor.peek() == Some('/') {
            proof {
                reveal_strlit("/>");
                assert("/>"@ =~= self_close());
                lemma_ws_end(s, m);
                assert(ws_end(s, m) == m);
            }
            match self.skip_next_str("/>") {
                Ok(()) => {},
                Err(e) => {
                    return Err(e);
                },
            }
            let none: Vec<Node> = Vec::new();
            proof {
                assert(node_views(none@) =~= Seq::empty());
            }
            none
        } else if self.cursor.peek() != Some('>') {
            return Err(self.cursor.missing(Expected::Char('>')));
        } else {
            let _ = self.cursor.next();
            if tag_name.same_as(&ElementTagName::Style) {
                let accept = |c: &char| -> (b: bool)
                    ensures
                        b == (*c != '<'),
                    { *c != '<' };
                let raw = self.cursor.take_joined_class(&accept, Ghost(other_than('<')));
                let ghost e = self.offset();
                self.cursor.skip_whitespace();
                let unclosed = self.cursor.missing(Expected::EndTag);
                proof {
                    lemma_ws_end(s, e);
                    assert(node_at(s, e) == node_at(s, ws_end(s, e)));
                }
                match self.parse_node() {
                    Ok(node) => match node {
                        Node::EndTag => {},
                        _ => {
                            return Err(unclosed);
                        },
                    },
                    Err(e) => {
                        return Err(e);
                    },
                }
                let ghost content = raw@;
                let mut children: Vec<Node> = Vec::new();
                children.push(Node::Style(raw));
                proof {
                    assert(node_views(children@) =~= seq![NodeView::Style(content)]);
                }
                children
            } else {
                match self.parse_children() {
                    Ok(children) => children,
                    Err(e) => {
                        return Err(e);
                    },
                }
            }
        };
        Ok(Element::new(tag_name, attributes, children))
    }

    /// Parses one node: after a `<` a comment, an element or an end tag,
    /// and otherwise a text run.
    pub fn parse_node(&mut self) -> (r: Result<Node, ParseError>)
        ensures
            final(self).text() == old(self).text(),
            0 <= old(self).offset() <= final(self).offset() <= old(self).text().len(),
            match node_at(old(self).text(), old(self).offset()) {
                Ok((node, n)) => r matches Ok(v) && v@ == node && final(self).offset() == n,
                Err(e) => r matches Err(x) && x == e,
            },
        decreases old(self).text().len() - old(self).offset(), 2int,
    {
        let ghost s = self.text();
        let ghost p = self.offset();
        let here = self.peek();
        proof {
            lemma_ws_end(s, p);
            lemma_ws_end(s, ws_end(s, p) + 1);
        }
        match here {
            None => Err(self.cursor.missing(Expected::Node)),
            Some(c) => {
                if c == '<' {
                    let _ = self.cursor.next();
                    match self.peek() {
                        Some(d) => {
                            if d == '!' {
                                match self.parse_comment() {
                                    Ok(text) => Ok(Node::Comment(text)),
                                    Err(e) => Err(e),
                                }
                            } else if (d >= 'a' && d <= 'z') || (d >= 'A' && d <= 'Z') {
                                match self.parse_element() {
                                    Ok(element) => Ok(Node::Element(element)),
                                    Err(e) => Err(e),
                                }
                            } else if d == '/' {
                                match self.skip_next_end_tag() {
                                    Ok(()) => Ok(Node::EndTag),
                                    Err(e) => Err(e),
                                }
                            } else {
                                Err(self.cursor.unreadable(Expected::Node))
                            }
                        },
                        None => Err(self.cursor.unreadable(Expected::Node)),
                    }
                } else if c == '>' {
                    Err(self.cursor.unreadable(Expected::Node))
                } else {
                    Ok(Node::Text(self.consume_text()))
                }
            },
        }
    }

    /// Parses a document: one node, which is no end tag.
    pub fn parse(&mut self) -> (r: Result<Node, ParseError>)
        ensures
            final(self).text() == old(self).text(),
            match document_at(old(self).text(), old(self).offset()) {
                Ok((node, n)) => r matches Ok(v) && v@ == node && final(self).offset() == n,
                Err(e) => r matches Err(x) && x == e,
            },
    {
        let ghost s = self.text();
        let ghost p = self.offset();
        self.cursor.skip_whitespace();
        let before = self.cursor.missing(Expected::Node);
        proof {
            lemma_ws_end(s, p);
            assert(node_at(s, p) == node_at(s, ws_end(s, p)));
        }
        match self.parse_node() {
            Ok(node) => match node {
                Node::EndTag => Err(before),
                _ => Ok(node),
            },
            Err(e) => Err(e),
        }
    }
}

} // verus!
