//! The stylesheet parser: a recursive descent over the characters of a
//! stylesheet, one method for each function of the grammar.

use vstd::prelude::*;
use crate::cssom::Color;
use crate::cssom::Declaration;
use crate::cssom::DeclarationProperty;
use crate::cssom::DeclarationValue;
use crate::cssom::DeclarationView;
use crate::cssom::Display;
use crate::cssom::Length;
use crate::cssom::LengthView;
use crate::cssom::Number;
use crate::cssom::PropertyView;
use crate::cssom::Rule;
use crate::cssom::RuleView;
use crate::cssom::Selector;
use crate::cssom::SelectorView;
use crate::cssom::StyleSheet;
use crate::cssom::Unit;
use crate::cssom::ValueView;
use crate::cssom::declaration_views;
use crate::cssom::grammar::Parsed;
use crate::cssom::grammar::actual_length_at;
use crate::cssom::grammar::block_at;
use crate::cssom::grammar::color_at;
use crate::cssom::grammar::combinator_at;
use crate::cssom::grammar::compound_at;
use crate::cssom::grammar::declaration_at;
use crate::cssom::grammar::display_of;
use crate::cssom::grammar::hex_at;
use crate::cssom::grammar::hex_digit_value;
use crate::cssom::grammar::hex_number;
use crate::cssom::grammar::hex_value;
use crate::cssom::grammar::is_shorthand;
use crate::cssom::grammar::lemma_actual_length_advances;
use crate::cssom::grammar::lemma_entry_advances;
use crate::cssom::grammar::lemma_lengths_advance;
use crate::cssom::grammar::lemma_rule_advances;
use crate::cssom::grammar::lemma_selector_advances;
use crate::cssom::grammar::lemma_selector_group_advances;
use crate::cssom::grammar::length_at;
use crate::cssom::grammar::lengths_at;
use crate::cssom::grammar::number_at;
use crate::cssom::grammar::rule_at;
use crate::cssom::grammar::rules_at;
use crate::cssom::grammar::selector_at;
use crate::cssom::grammar::selector_group_at;
use crate::cssom::grammar::selector_item_at;
use crate::cssom::grammar::shorthand_at;
use crate::cssom::grammar::side_declarations;
use crate::cssom::grammar::sides_at;
use crate::cssom::grammar::takes_color;
use crate::cssom::grammar::takes_length;
use crate::cssom::grammar::value_at;
use crate::cssom::length_views;
use crate::cssom::rule_views;
use crate::cssom::selector_views;
use crate::dom::ElementTagName;
use crate::error::ErrorKind;
use crate::error::Expected;
use crate::error::ParseError;
use crate::error::lexical;
use crate::error::structural;
use crate::text::Cursor;
use crate::text::char_at;
use crate::text::chars_of;
use crate::text::ident_at;
use crate::text::is_hex_digit;
use crate::text::is_ident_char;
use crate::text::is_number_char;
use crate::text::lemma_ident_advances;
use crate::text::lemma_ws_end;
use crate::text::ws_end;

verus! {

/// A parser of stylesheets: a text, and how far it has been read.
#[derive(Debug)]
pub struct StyleSheetParser {
    cursor: Cursor,
}

/// Whether `result`, with the reader left at `after`, is what the grammar
/// reads: the same value and position, or the same error.
pub open spec fn reads<T: View>(result: Result<T, ParseError>, after: int, parsed: Parsed<T::V>) -> bool {
    match parsed {
        Ok((value, n)) => result matches Ok(t) && t@ == value && after == n,
        Err(e) => result matches Err(x) && x == e,
    }
}

impl StyleSheetParser {
    /// The text that is parsed.
    pub closed spec fn text(&self) -> Seq<char> {
        self.cursor.text()
    }

    /// How many characters of the text have been read.
    pub closed spec fn offset(&self) -> int {
        self.cursor.offset()
    }

    /// A parser at the start of `input`.
    pub fn new(input: &str) -> (parser: Self)
        ensures
            parser.text() == input@,
            parser.offset() == 0,
    {
        StyleSheetParser { cursor: Cursor::new(input) }
    }

    /// How many characters have been read.
    pub fn position(&self) -> (p: usize)
        ensures
            p == self.offset(),
            p <= self.text().len(),
    {
        self.cursor.position()
    }

    /// Moves past any whitespace.
    pub fn skip_whitespace(&mut self)
        ensures
            final(self).text() == old(self).text(),
            0 <= old(self).offset() <= final(self).offset() <= old(self).text().len(),
            final(self).offset() == ws_end(old(self).text(), old(self).offset()),
    {
        self.cursor.skip_whitespace();
    }

    /// The next character that is no whitespace; the parser moves up to it.
    pub fn peek(&mut self) -> (c: Option<char>)
        ensures
            final(self).text() == old(self).text(),
            0 <= old(self).offset() <= final(self).offset() <= old(self).text().len(),
            final(self).offset() == ws_end(old(self).text(), old(self).offset()),
            c == char_at(old(self).text(), final(self).offset()),
    {
        self.cursor.skip_whitespace();
        self.cursor.peek()
    }

    /// Moves past any whitespace and the character after it.
    pub fn next(&mut self)
        ensures
            final(self).text() == old(self).text(),
            final(self).offset() == if ws_end(old(self).text(), old(self).offset()) < old(
                self,
            ).text().len() {
                ws_end(old(self).text(), old(self).offset()) + 1
            } else {
                ws_end(old(self).text(), old(self).offset())
            },
    {
        self.cursor.skip_whitespace();
        let _ = self.cursor.next();
    }

    /// Moves past one character, which has to be there.
    pub fn bump(&mut self) -> (r: Result<(), ParseError>)
        ensures
            final(self).text() == old(self).text(),
            match char_at(old(self).text(), old(self).offset()) {
                Some(_) => r is Ok && final(self).offset() == old(self).offset() + 1,
                None => r == Err::<(), ParseError>(
                    lexical(old(self).text(), old(self).offset(), Expected::Token),
                ),
            },
    {
        match self.cursor.next() {
            Some(_) => Ok(()),
            None => Err(self.cursor.unreadable(Expected::Token)),
        }
    }

    /// Moves past the character `ch`, which has to be the next one.
    pub fn skip_next_ch(&mut self, ch: &char) -> (r: Result<(), ParseError>)
        ensures
            final(self).text() == old(self).text(),
            if char_at(old(self).text(), old(self).offset()) == Some(*ch) {
                r is Ok && final(self).offset() == old(self).offset() + 1
            } else {
                r == Err::<(), ParseError>(
                    structural(old(self).text(), old(self).offset(), Expected::Char(*ch)),
                )
            },
    {
        let wanted = *ch;
        let here = self.cursor.peek();
        if here == Some(wanted) {
            let _ = self.cursor.next();
            Ok(())
        } else {
            Err(self.cursor.missing(Expected::Char(wanted)))
        }
    }

    /// Takes the characters that `consume_condition` accepts, with the
    /// whitespace before and after them skipped.
    pub fn consume<F: Fn(&char) -> bool>(&mut self, consume_condition: &F) -> (run: String)
        requires
            forall|c: char| call_requires(consume_condition, (&c,)),
        ensures
            final(self).text() == old(self).text(),
            ({
                let s = old(self).text();
                let a = ws_end(s, old(self).offset());
                let e = a + run@.len();
                &&& e <= s.len()
                &&& run@ == s.subrange(a, e)
                &&& forall|i: int|
                    0 <= i < run@.len() ==> call_ensures(
                        consume_condition,
                        (&#[trigger] run@[i],),
                        true,
                    )
                &&& e < s.len() ==> call_ensures(consume_condition, (&s[e],), false)
                &&& final(self).offset() == ws_end(s, e)
            }),
    {
        self.cursor.skip_whitespace();
        let run = self.cursor.take_while(consume_condition);
        self.cursor.skip_whitespace();
        run
    }

    /// As [`StyleSheetParser::consume`], but takes at most `nth`
    /// characters.
    pub fn consume_for<F: Fn(&char) -> bool>(&mut self, consume_condition: &F, nth: usize) -> (run:
        String)
        requires
            forall|c: char| call_requires(consume_condition, (&c,)),
        ensures
            final(self).text() == old(self).text(),
            ({
                let s = old(self).text();
                let a = ws_end(s, old(self).offset());
                let e = a + run@.len();
                &&& e <= s.len()
                &&& run@.len() <= nth
                &&& run@ == s.subrange(a, e)
                &&& forall|i: int|
                    0 <= i < run@.len() ==> call_ensures(
                        consume_condition,
                        (&#[trigger] run@[i],),
                        true,
                    )
                &&& run@.len() < nth && e < s.len() ==> call_ensures(
                    consume_condition,
                    (&s[e],),
                    false,
                )
                &&& final(self).offset() == ws_end(s, e)
            }),
    {
        self.cursor.skip_whitespace();
        let run = self.cursor.take_while_up_to(consume_condition, nth);
        self.cursor.skip_whitespace();
        run
    }

    /// Takes an identifier, which may be empty, with the whitespace before
    /// and after it skipped.
    pub fn consume_identifier(&mut self) -> (name: String)
        ensures
            final(self).text() == old(self).text(),
            0 <= old(self).offset() <= final(self).offset() <= old(self).text().len(),
            (name@, final(self).offset()) == ident_at(old(self).text(), old(self).offset()),
    {
        let accept = |c: &char| -> (b: bool)
            ensures
                b == is_ident_char(*c),
            {
                (*c >= '0' && *c <= '9') || (*c >= 'a' && *c <= 'z') || (*c >= 'A' && *c <= 'Z')
                    || *c == '_' || *c == '-'
            };
        self.cursor.skip_whitespace();
        let name = self.cursor.take_class(&accept, Ghost(|c: char| is_ident_char(c)));
        self.cursor.skip_whitespace();
        name
    }

    /// Takes a decimal number, with the whitespace before and after it
    /// skipped.
    pub fn consume_number(&mut self) -> (r: Result<Number, ParseError>)
        ensures
            final(self).text() == old(self).text(),
            reads(r, final(self).offset(), number_at(old(self).text(), old(self).offset())),
    {
        let accept = |c: &char| -> (b: bool)
            ensures
                b == is_number_char(*c),
            { (*c >= '0' && *c <= '9') || *c == '.' };
        self.cursor.skip_whitespace();
        let start = self.cursor.position();
        let before = self.cursor.missing(Expected::Number);
        let literal = self.cursor.take_class(&accept, Ghost(|c: char| is_number_char(c)));
        match Number::new(literal.as_str()) {
            Some(number) => {
                self.cursor.skip_whitespace();
                Ok(number)
            },
            None => Err(
                ParseError {
                    kind: ErrorKind::LexError,
                    offset: start,
                    expected: before.expected,
                    found: before.found,
                },
            ),
        }
    }

    /// Takes at most `n` hexadecimal digits, with the whitespace before and
    /// after them skipped, and gives the number that they write.
    pub fn consume_hex(&mut self, n: usize) -> (value: usize)
        ensures
            final(self).text() == old(self).text(),
            (value as int, final(self).offset()) == hex_at(
                old(self).text(),
                old(self).offset(),
                n as nat,
            ),
    {
        let accept = |c: &char| -> (b: bool)
            ensures
                b == is_hex_digit(*c),
            {
                (*c >= '0' && *c <= '9') || (*c >= 'a' && *c <= 'f') || (*c >= 'A' && *c <= 'F')
            };
        self.cursor.skip_whitespace();
        let digits = self.cursor.take_class_up_to(&accept, n, Ghost(|c: char| is_hex_digit(c)));
        self.cursor.skip_whitespace();
        hex_to_number(digits.as_str())
    }

    /// Parses one selector of a group, and the comma after it if there is
    /// one.
    pub fn parse_selector(&mut self) -> (r: Result<Selector, ParseError>)
        ensures
            final(self).text() == old(self).text(),
            reads(r, final(self).offset(), selector_item_at(old(self).text(), old(self).offset())),
    {
        let selector = match self.parse_one_selector() {
            Ok(selector) => selector,
            Err(e) => {
                return Err(e);
            },
        };
        if self.cursor.peek() == Some(',') {
            let _ = self.cursor.next();
        }
        Ok(selector)
    }

    /// Parses one selector: a compound selector, with the combinators and
    /// selectors that follow it.
    pub fn parse_one_selector(&mut self) -> (r: Result<Selector, ParseError>)
        ensures
            final(self).text() == old(self).text(),
            reads(r, final(self).offset(), selector_at(old(self).text(), old(self).offset())),
        decreases old(self).text().len() - old(self).offset(), 2int,
    {
        let ghost s = self.text();
        let ghost p = self.offset();
        let left = match self.peek() {
            Some(c) => {
                if (c >= '0' && c <= '9') || (c >= 'a' && c <= 'z') || (c >= 'A' && c <= 'Z') {
                    proof {
                        lemma_ws_end(s, p);
                        lemma_ident_advances(s, p);
                    }
                    let name = self.consume_identifier();
                    Some(Selector::Tag(ElementTagName::from(name.as_str())))
                } else {
                    None
                }
            },
            None => None,
        };
        proof {
            lemma_ws_end(s, p);
        }
        self.parse_class_selector(left)
    }

    /// Parses what follows the part `left` of a compound selector: classes
    /// and ids, each on top of what stands on its left, and then the
    /// combinators.
    pub fn parse_class_selector(&mut self, left: Option<Selector>) -> (r: Result<
        Selector,
        ParseError,
    >)
        ensures
            final(self).text() == old(self).text(),
            reads(
                r,
                final(self).offset(),
                compound_at(old(self).text(), old(self).offset(), selector_option(left)),
            ),
        decreases old(self).text().len() - old(self).offset(), 1int,
    {
        let ghost s = self.text();
        let ghost start = self.offset();
        let ghost first = selector_option(left);
        let mut current = left;
        let _ = self.cursor.position();
        loop
            invariant
                self.text() == s,
                s == old(self).text(),
                start == old(self).offset(),
                first == selector_option(left),
                0 <= start <= self.offset() <= s.len(),
                compound_at(s, start, first) == compound_at(
                    s,
                    self.offset(),
                    selector_option(current),
                ),
            decreases s.len() - self.offset(),
        {
            let ghost p = self.offset();
            let here = self.peek();
            proof {
                lemma_ws_end(s, p);
                lemma_ident_advances(s, ws_end(s, p) + 1);
            }
            if here == Some('.') {
                let _ = self.cursor.next();
                let name = self.consume_identifier();
                current = Some(Selector::Class(boxed(current), name));
            } else if here == Some('#') {
                let _ = self.cursor.next();
                let name = self.consume_identifier();
                current = Some(Selector::Id(boxed(current), name));
            } else if here == Some('>') || here == Some('+') {
                proof {
                    let q = ws_end(s, p);
                    let now = selector_option(current);
                    assert(compound_at(s, p, now) == combinator_at(s, p, now));
                    assert(combinator_at(s, p, now) == combinator_at(s, q, now));
                }
                return self.parse_sibling_selector(current);
            } else {
                return match current {
                    Some(selector) => Ok(selector),
                    None => Err(self.cursor.missing(Expected::Selector)),
                };
            }
        }
    }

    /// Parses the combinator after the selector `left`, and the selector on
    /// its right. Where no combinator follows, `left` is the selector.
    pub fn parse_sibling_selector(&mut self, left: Option<Selector>) -> (r: Result<
        Selector,
        ParseError,
    >)
        ensures
            final(self).text() == old(self).text(),
            reads(
                r,
                final(self).offset(),
                combinator_at(old(self).text(), old(self).offset(), selector_option(left)),
            ),
        decreases old(self).text().len() - old(self).offset(), 0int,
    {
        let ghost s = self.text();
        let ghost p = self.offset();
        let here = self.peek();
        proof {
            lemma_ws_end(s, p);
        }
        if here == Some('>') || here == Some('+') {
            let left = match left {
                Some(selector) => selector,
                None => {
                    return Err(self.cursor.missing(Expected::LeftOperand));
                },
            };
            let _ = self.cursor.next();
            let right = match self.parse_one_selector() {
                Ok(right) => right,
                Err(e) => {
                    return Err(e);
                },
            };
            if here == Some('>') {
                Ok(Selector::Child(Box::new(left), Box::new(right)))
            } else {
                Ok(Selector::Adjacent(Box::new(left), Box::new(right)))
            }
        } else {
            match left {
                Some(selector) => Ok(selector),
                None => Err(self.cursor.missing(Expected::Selector)),
            }
        }
    }

    /// Parses a length with a number: the number and its unit.
    pub fn parse_declaration_actual_length(&mut self) -> (r: Result<Length, ParseError>)
        ensures
            final(self).text() == old(self).text(),
            reads(r, final(self).offset(), actual_length_at(old(self).text(), old(self).offset())),
    {
        let number = match self.consume_number() {
            Ok(number) => number,
            Err(e) => {
                return Err(e);
            },
        };
        let unit = self.consume_identifier();
        Ok(Length::Actual(number, Unit::from(unit.as_str())))
    }

    /// Parses a single length, for `property`: one with a number where a
    /// digit comes first, and otherwise a keyword.
    pub fn parse_declaration_length(&mut self, property: DeclarationProperty) -> (r: Result<
        Declaration,
        ParseError,
    >)
        ensures
            final(self).text() == old(self).text(),
            match length_at(old(self).text(), old(self).offset()) {
                Ok((length, n)) => r matches Ok(d) && d.property == property && d.value@
                    == ValueView::Length(length) && final(self).offset() == n,
                Err(e) => r matches Err(x) && x == e,
            },
    {
        let ghost s = self.text();
        let ghost p = self.offset();
        let here = self.peek();
        proof {
            lemma_ws_end(s, p);
        }
        let length = match here {
            None => {
                return Err(self.cursor.missing(Expected::Length));
            },
            Some(c) => {
                if c >= '0' && c <= '9' {
                    proof {
                        assert(actual_length_at(s, p) == actual_length_at(s, ws_end(s, p)));
                    }
                    match self.parse_declaration_actual_length() {
                        Ok(length) => length,
                        Err(e) => {
                            return Err(e);
                        },
                    }
                } else {
                    let _ = self.consume_identifier();
                    Length::Auto
                }
            },
        };
        Ok(Declaration::new(property, DeclarationValue::Length(length)))
    }

    /// Parses the one to four lengths of a shorthand and the `;` after
    /// them, and gives the four sides that they stand for: top, right,
    /// bottom and left.
    pub fn parse_declaration_lengths(&mut self) -> (r: Result<
        (Length, Length, Length, Length),
        ParseError,
    >)
        ensures
            final(self).text() == old(self).text(),
            match sides_at(old(self).text(), old(self).offset()) {
                Ok((sides, n)) => r matches Ok(t) && t.0@ == sides.0 && t.1@ == sides.1 && t.2@
                    == sides.2 && t.3@ == sides.3 && final(self).offset() == n,
                Err(e) => r matches Err(x) && x == e,
            },
    {
        let ghost s = self.text();
        let ghost start = self.offset();
        let mut lengths: Vec<Length> = Vec::new();
        let _ = self.cursor.position();
        proof {
            assert(length_views(lengths@) =~= Seq::empty());
        }
        loop
            invariant_except_break
                lengths_at(s, start, Seq::empty()) == lengths_at(
                    s,
                    self.offset(),
                    length_views(lengths@),
                ),
            invariant
                self.text() == s,
                s == old(self).text(),
                start == old(self).offset(),
                0 <= start <= self.offset() <= s.len(),
            ensures
                lengths_at(s, start, Seq::empty()) == Ok::<(Seq<LengthView>, int), ParseError>(
                    (length_views(lengths@), self.offset()),
                ),
            decreases s.len() - self.offset(),
        {
            let ghost p = self.offset();
            let ghost before = length_views(lengths@);
            let here = self.peek();
            proof {
                lemma_ws_end(s, p);
                lemma_ident_advances(s, p);
                lemma_actual_length_advances(s, p);
            }
            match here {
                None => {
                    return Err(self.cursor.missing(Expected::Char(';')));
                },
                Some(c) => {
                    if c == ';' {
                        break ;
                    } else if c >= '0' && c <= '9' {
                        proof {
                            assert(actual_length_at(s, p) == actual_length_at(s, ws_end(s, p)));
                        }
                        match self.parse_declaration_actual_length() {
                            Ok(length) => {
                                lengths.push(length);
                                proof {
                                    assert(length_views(lengths@) =~= before.push(length@));
                                }
                            },
                            Err(e) => {
                                return Err(e);
                            },
                        }
                    } else if (c >= 'a' && c <= 'z') || (c >= 'A' && c <= 'Z') || c == '_' || c
                        == '-' {
                        proof {
                            assert(ident_at(s, p) == ident_at(s, ws_end(s, p)));
                        }
                        let _ = self.consume_identifier();
                        lengths.push(Length::Auto);
                        proof {
                            assert(length_views(lengths@) =~= before.push(LengthView::Auto));
                        }
                    } else {
                        return Err(self.cursor.unreadable(Expected::Length));
                    }
                },
            }
        }
        let count = lengths.len();
        if count == 0 || count > 4 {
            return Err(self.cursor.missing(Expected::OneToFourLengths));
        }
        proof {
            lemma_lengths_advance(s, start, Seq::empty());
        }
        let _ = self.cursor.next();
        let ghost views = length_views(lengths@);
        proof {
            assert(views.len() == count);
            assert(forall|i: int| 0 <= i < count ==> views[i] == (#[trigger] lengths@[i])@);
        }
        let sides = if count == 1 {
            (lengths[0].clone(), lengths[0].clone(), lengths[0].clone(), lengths[0].clone())
        } else if count == 2 {
            (lengths[0].clone(), lengths[1].clone(), lengths[0].clone(), lengths[1].clone())
        } else if count == 3 {
            (lengths[0].clone(), lengths[1].clone(), lengths[2].clone(), lengths[1].clone())
        } else {
            (lengths[0].clone(), lengths[1].clone(), lengths[2].clone(), lengths[3].clone())
        };
        Ok(sides)
    }

    /// Parses the lengths of a margin, and gives the four declarations that
    /// the shorthand stands for.
    pub fn parse_declaration_margin(&mut self) -> (r: Result<Vec<Declaration>, ParseError>)
        ensures
            final(self).text() == old(self).text(),
            match shorthand_at(old(self).text(), old(self).offset(), PropertyView::Margin) {
                Ok((declarations, n)) => r matches Ok(v) && declaration_views(v@) == declarations
                    && final(self).offset() == n,
                Err(e) => r matches Err(x) && x == e,
            },
    {
        let (top, right, bottom, left) = match self.parse_declaration_lengths() {
            Ok(sides) => sides,
            Err(e) => {
                return Err(e);
            },
        };
        let mut declarations: Vec<Declaration> = Vec::new();
        declarations.push(
            Declaration::new(DeclarationProperty::MarginTop, DeclarationValue::Length(top)),
        );
        declarations.push(
            Declaration::new(DeclarationProperty::MarginRight, DeclarationValue::Length(right)),
        );
        declarations.push(
            Declaration::new(DeclarationProperty::MarginBottom, DeclarationValue::Length(bottom)),
        );
        declarations.push(
            Declaration::new(DeclarationProperty::MarginLeft, DeclarationValue::Length(left)),
        );
        proof {
            let sides = sides_at(old(self).text(), old(self).offset())->Ok_0.0;
            assert(declaration_views(declarations@) =~= side_declarations(
                PropertyView::Margin,
                sides,
            ));
        }
        Ok(declarations)
    }

    /// Parses the lengths of a padding, and gives the four declarations
    /// that the shorthand stands for.
    pub fn parse_declaration_padding(&mut self) -> (r: Result<Vec<Declaration>, ParseError>)
        ensures
            final(self).text() == old(self).text(),
            match shorthand_at(old(self).text(), old(self).offset(), PropertyView::Padding) {
                Ok((declarations, n)) => r matches Ok(v) && declaration_views(v@) == declarations
                    && final(self).offset() == n,
                Err(e) => r matches Err(x) && x == e,
            },
    {
        let (top, right, bottom, left) = match self.parse_declaration_lengths() {
            Ok(sides) => sides,
            Err(e) => {
                return Err(e);
            },
        };
        let mut declarations: Vec<Declaration> = Vec::new();
        declarations.push(
            Declaration::new(DeclarationProperty::PaddingTop, DeclarationValue::Length(top)),
        );
        declarations.push(
            Declaration::new(DeclarationProperty::PaddingRight, DeclarationValue::Length(right)),
        );
        declarations.push(
            Declaration::new(DeclarationProperty::PaddingBottom, DeclarationValue::Length(bottom)),
        );
        declarations.push(
            Declaration::new(DeclarationProperty::PaddingLeft, DeclarationValue::Length(left)),
        );
        proof {
            let sides = sides_at(old(self).text(), old(self).offset())->Ok_0.0;
            assert(declaration_views(declarations@) =~= side_declarations(
                PropertyView::Padding,
                sides,
            ));
        }
        Ok(declarations)
    }

    /// Parses the lengths of the shorthand `property`, and gives the four
    /// declarations that it stands for.
    pub fn parse_declarations(&mut self, property: DeclarationProperty) -> (r: Result<
        Vec<Declaration>,
        ParseError,
    >)
        ensures
            final(self).text() == old(self).text(),
            match shorthand_at(old(self).text(), old(self).offset(), property@) {
                Ok((declarations, n)) => r matches Ok(v) && declaration_views(v@) == declarations
                    && final(self).offset() == n,
                Err(e) => r matches Err(x) && x == e,
            },
    {
        match property {
            DeclarationProperty::Margin => self.parse_declaration_margin(),
            DeclarationProperty::Padding => self.parse_declaration_padding(),
            _ => Err(self.cursor.missing(Expected::Shorthand)),
        }
    }

    /// Parses a layout keyword, for the property `display`.
    pub fn parse_declaration_display(&mut self) -> (declaration: Declaration)
        ensures
            final(self).text() == old(self).text(),
            0 <= old(self).offset() <= final(self).offset() <= old(self).text().len(),
            declaration@.property == PropertyView::Display,
            declaration@.value == ValueView::Display(
                display_of(ident_at(old(self).text(), old(self).offset()).0),
            ),
            final(self).offset() == ident_at(old(self).text(), old(self).offset()).1,
    {
        let keyword = self.consume_identifier();
        Declaration::new(
            DeclarationProperty::Display,
            DeclarationValue::Display(Display::from(keyword.as_str())),
        )
    }

    /// Parses a colour, for `property`.
    pub fn parse_declaration_color(&mut self, property: DeclarationProperty) -> (r: Result<
        Declaration,
        ParseError,
    >)
        ensures
            final(self).text() == old(self).text(),
            match color_at(old(self).text(), old(self).offset()) {
                Ok((color, n)) => r matches Ok(d) && d.property == property && d.value@
                    == ValueView::Color(color) && final(self).offset() == n,
                Err(e) => r matches Err(x) && x == e,
            },
    {
        let ghost s = self.text();
        let ghost p = self.offset();
        if self.peek() != Some('#') {
            return Err(self.cursor.missing(Expected::Char('#')));
        }
        let _ = self.cursor.next();
        let r = self.consume_hex(2);
        let g = self.consume_hex(2);
        let b = self.consume_hex(2);
        let a = match self.cursor.peek() {
            Some(c) => {
                if (c >= '0' && c <= '9') || (c >= 'a' && c <= 'z') || (c >= 'A' && c <= 'Z') {
                    self.consume_hex(2)
                } else {
                    0
                }
            },
            None => 0,
        };
        Ok(Declaration::new(property, DeclarationValue::Color(Color::new(r, g, b, a))))
    }

    /// Parses an identifier as the value of the property named `s`, which
    /// is none of the known ones.
    pub fn parse_declaration_other(&mut self, s: String) -> (declaration: Declaration)
        ensures
            final(self).text() == old(self).text(),
            0 <= old(self).offset() <= final(self).offset() <= old(self).text().len(),
            declaration@.property == PropertyView::Other(s@),
            declaration@.value == ValueView::Other(
                ident_at(old(self).text(), old(self).offset()).0,
            ),
            final(self).offset() == ident_at(old(self).text(), old(self).offset()).1,
    {
        let value = self.consume_identifier();
        Declaration::new(DeclarationProperty::Other(s), DeclarationValue::Other(value))
    }

    /// Parses the value of `property`, which takes a single value, and the
    /// `;` after it.
    pub fn parse_declaration(&mut self, property: DeclarationProperty) -> (r: Result<
        Declaration,
        ParseError,
    >)
        ensures
            final(self).text() == old(self).text(),
            reads(
                r,
                final(self).offset(),
                declaration_at(old(self).text(), old(self).offset(), property@),
            ),
    {
        let ghost s = self.text();
        let ghost p = self.offset();
        let ghost wanted = property@;
        let declaration = if property.is_shorthand() {
            return Err(self.cursor.missing(Expected::Longhand));
        } else if property.takes_length() {
            match self.parse_declaration_length(property) {
                Ok(declaration) => declaration,
                Err(e) => {
                    return Err(e);
                },
            }
        } else if property.takes_color() {
            match self.parse_declaration_color(property) {
                Ok(declaration) => declaration,
                Err(e) => {
                    return Err(e);
                },
            }
        } else {
            match property {
                DeclarationProperty::Other(name) => self.parse_declaration_other(name),
                _ => self.parse_declaration_display(),
            }
        };
        proof {
            assert(value_at(s, p, wanted) == Ok::<(ValueView, int), ParseError>(
                (declaration@.value, self.offset()),
            ));
            assert(declaration@.property == wanted);
        }
        if self.peek() != Some(';') {
            return Err(self.cursor.missing(Expected::Char(';')));
        }
        let _ = self.cursor.next();
        Ok(declaration)
    }

    /// Parses one rule: its group of selectors and its block of
    /// declarations.
    pub fn parse_rule(&mut self) -> (r: Result<Rule, ParseError>)
        ensures
            final(self).text() == old(self).text(),
            reads(r, final(self).offset(), rule_at(old(self).text(), old(self).offset())),
    {
        let ghost s = self.text();
        let ghost start = self.offset();
        let mut selectors: Vec<Selector> = Vec::new();
        let _ = self.cursor.position();
        proof {
            assert(selector_views(selectors@) =~= Seq::empty());
        }
        loop
            invariant_except_break
                selector_group_at(s, start, Seq::empty()) == selector_group_at(
                    s,
                    self.offset(),
                    selector_views(selectors@),
                ),
            invariant
                self.text() == s,
                s == old(self).text(),
                start == old(self).offset(),
                0 <= start <= self.offset() <= s.len(),
            ensures
                selector_group_at(s, start, Seq::empty()) == Ok::<
                    (Seq<SelectorView>, int),
                    ParseError,
                >((selector_views(selectors@), self.offset())),
            decreases s.len() - self.offset(),
        {
            let ghost p = self.offset();
            let ghost before = selector_views(selectors@);
            let here = self.peek();
            proof {
                lemma_ws_end(s, p);
                lemma_selector_advances(s, ws_end(s, p));
            }
            match here {
                None => {
                    return Err(self.cursor.missing(Expected::Char('{')));
                },
                Some(c) => {
                    if c == '{' {
                        let _ = self.cursor.next();
                        break ;
                    }
                    match self.parse_selector() {
                        Ok(selector) => {
                            selectors.push(selector);
                            proof {
                                assert(selector_views(selectors@) =~= before.push(selector@));
                            }
                        },
                        Err(e) => {
                            return Err(e);
                        },
                    }
                },
            }
        }
        let ghost middle = self.offset();
        let mut declarations: Vec<Declaration> = Vec::new();
        proof {
            assert(declaration_views(declarations@) =~= Seq::empty());
            lemma_selector_group_advances(s, start, Seq::empty());
        }
        loop
            invariant_except_break
                block_at(s, middle, Seq::empty()) == block_at(
                    s,
                    self.offset(),
                    declaration_views(declarations@),
                ),
            invariant
                self.text() == s,
                s == old(self).text(),
                start == old(self).offset(),
                0 <= middle <= self.offset() <= s.len(),
                selector_group_at(s, start, Seq::empty()) == Ok::<
                    (Seq<SelectorView>, int),
                    ParseError,
                >((selector_views(selectors@), middle)),
            ensures
                block_at(s, middle, Seq::empty()) == Ok::<(Seq<DeclarationView>, int), ParseError>(
                    (declaration_views(declarations@), self.offset()),
                ),
            decreases s.len() - self.offset(),
        {
            let ghost p = self.offset();
            let ghost before = declaration_views(declarations@);
            let here = self.peek();
            proof {
                lemma_ws_end(s, p);
                lemma_entry_advances(s, ws_end(s, p));
            }
            match here {
                None => {
                    return Err(self.cursor.missing(Expected::Char('}')));
                },
                Some(c) => {
                    if c == '}' {
                        let _ = self.cursor.next();
                        break ;
                    }
                    let name = self.consume_identifier();
                    let property = DeclarationProperty::from(name.as_str());
                    if self.cursor.peek() != Some(':') {
                        return Err(self.cursor.missing(Expected::Char(':')));
                    }
                    let _ = self.cursor.next();
                    if property.is_shorthand() {
                        match self.parse_declarations(property) {
                            Ok(mut four) => {
                                let ghost added = declaration_views(four@);
                                declarations.append(&mut four);
                                proof {
                                    assert(declaration_views(declarations@) =~= before + added);
                                }
                            },
                            Err(e) => {
                                return Err(e);
                            },
                        }
                    } else {
                        match self.parse_declaration(property) {
                            Ok(declaration) => {
                                declarations.push(declaration);
                                proof {
                                    assert(declaration_views(declarations@) =~= before
                                        + seq![declaration@]);
                                }
                            },
                            Err(e) => {
                                return Err(e);
                            },
                        }
                    }
                },
            }
        }
        Ok(Rule::new(selectors, declarations))
    }

    /// Parses a stylesheet: rules up to the end of the text.
    pub fn parse(&mut self) -> (r: Result<StyleSheet, ParseError>)
        ensures
            final(self).text() == old(self).text(),
            match rules_at(old(self).text(), old(self).offset(), Seq::empty()) {
                Ok(rules) => r matches Ok(sheet) && sheet@ == rules && final(self).offset()
                    == old(self).text().len(),
                Err(e) => r matches Err(x) && x == e,
            },
    {
        let ghost s = self.text();
        let ghost start = self.offset();
        let mut rules: Vec<Rule> = Vec::new();
        let _ = self.cursor.position();
        proof {
            assert(rule_views(rules@) =~= Seq::empty());
        }
        loop
            invariant_except_break
                rules_at(s, start, Seq::empty()) == rules_at(s, self.offset(), rule_views(rules@)),
            invariant
                self.text() == s,
                s == old(self).text(),
                start == old(self).offset(),
                0 <= start <= self.offset() <= s.len(),
            ensures
                rules_at(s, start, Seq::empty()) == Ok::<Seq<RuleView>, ParseError>(
                    rule_views(rules@),
                ),
                self.offset() == s.len(),
            decreases s.len() - self.offset(),
        {
            let ghost p = self.offset();
            let ghost before = rule_views(rules@);
            let here = self.peek();
            proof {
                lemma_ws_end(s, p);
                lemma_rule_advances(s, ws_end(s, p));
            }
            if here.is_none() {
                break ;
            }
            match self.parse_rule() {
                Ok(rule) => {
                    rules.push(rule);
                    proof {
                        assert(rule_views(rules@) =~= before.push(rule@));
                    }
                },
                Err(e) => {
                    return Err(e);
                },
            }
        }
        Ok(StyleSheet::new(rules))
    }
}

/// What an optional selector is.
pub open spec fn selector_option(left: Option<Selector>) -> Option<SelectorView> {
    match left {
        Some(selector) => Some(selector@),
        None => None,
    }
}

/// The selector on the left of a class or an id, in its box.
fn boxed(left: Option<Selector>) -> (b: Option<Box<Selector>>)
    ensures
        match left {
            Some(selector) => b == Some(Box::new(selector)),
            None => b is None,
        },
{
    match left {
        Some(selector) => Some(Box::new(selector)),
        None => None,
    }
}

/// The value of one hexadecimal digit; of any other character, zero.
pub fn hex_digit_to_number(c: char) -> (value: usize)
    ensures
        value == hex_digit_value(c),
        value <= 15,
{
    if c >= '0' && c <= '9' {
        (c as u32 - '0' as u32) as usize
    } else if c >= 'a' && c <= 'f' {
        (c as u32 - 'a' as u32) as usize + 10
    } else if c >= 'A' && c <= 'F' {
        (c as u32 - 'A' as u32) as usize + 10
    } else {
        0
    }
}

/// The value of a run of hexadecimal digits is not negative, and that of
/// a part of the run at its start is not larger than that of the whole.
pub proof fn lemma_hex_value_grows(digits: Seq<char>, n: int)
    requires
        0 <= n <= digits.len(),
    ensures
        0 <= hex_value(digits.take(n)) <= hex_value(digits),
    decreases digits.len() - n,
{
    lemma_hex_value_not_negative(digits.take(n));
    if n < digits.len() {
        lemma_hex_value_grows(digits, n + 1);
        assert(digits.take(n + 1).drop_last() =~= digits.take(n));
    } else {
        assert(digits.take(n) =~= digits);
    }
}

/// The value of a run of hexadecimal digits is not negative.
pub proof fn lemma_hex_value_not_negative(digits: Seq<char>)
    ensures
        0 <= hex_value(digits),
    decreases digits.len(),
{
    if digits.len() > 0 {
        lemma_hex_value_not_negative(digits.drop_last());
    }
}

/// The number that a run of hexadecimal digits writes, or zero where that
/// number is too large for the machine.
pub fn hex_to_number(digits: &str) -> (value: usize)
    ensures
        value == hex_number(digits@),
{
    let chars = chars_of(digits);
    let mut value: usize = 0;
    let mut i: usize = 0;
    while i < chars.len()
        invariant
            chars@ == digits@,
            i <= chars.len(),
            value == hex_value(chars@.take(i as int)),
        decreases chars.len() - i,
    {
        let digit = hex_digit_to_number(chars[i]);
        assert(chars@.take(i + 1).drop_last() =~= chars@.take(i as int));
        let shifted = match value.checked_mul(16) {
            Some(v) => v,
            None => {
                proof {
                    lemma_hex_value_grows(chars@, i + 1);
                }
                return 0;
            },
        };
        value = match shifted.checked_add(digit) {
            Some(v) => v,
            None => {
                proof {
                    lemma_hex_value_grows(chars@, i + 1);
                }
                return 0;
            },
        };
        i += 1;
    }
    assert(chars@.take(i as int) =~= chars@);
    value
}

} // verus!
