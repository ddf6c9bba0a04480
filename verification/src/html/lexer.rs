//! The lexer: from the text of a document to its tokens.
//!
//! Whitespace before a token is skipped. A text token holds its text as it
//! stands, with the whitespace inside it and after it.

use vstd::prelude::*;
use crate::cssom::grammar::Parsed;
use crate::dom::grammar::collapsed;
use crate::dom::parser::collapse_whitespace;
use crate::error::Expected;
use crate::error::ParseError;
use crate::error::lexical;
use crate::error::structural;
use crate::html::token::Attributes;
use crate::html::token::ElementData;
use crate::html::token::ElementDataView;
use crate::html::token::Token;
use crate::html::token::TokenView;
use crate::html::token::put;
use crate::text::Cursor;
use crate::text::char_at;
use crate::text::is_alpha_numeric;
use crate::text::is_ascii_letter;
use crate::text::is_white_space;
use crate::text::lemma_run_end_bounds;
use crate::text::lemma_run_end_step;
use crate::text::lemma_ws_end;
use crate::text::other_than;
use crate::text::run_end;
use crate::text::until_end;
use crate::text::ws_end;

verus! {

/// The end of the run of letters and digits that starts at `p`.
pub open spec fn alnum_end(s: Seq<char>, p: int) -> int {
    run_end(s, p, |c: char| is_alpha_numeric(c))
}

/// The end of the run of ASCII letters that starts at `p`.
pub open spec fn letters_end(s: Seq<char>, p: int) -> int {
    run_end(s, p, |c: char| is_ascii_letter(c))
}

/// The end of the run of letters, digits and whitespace that starts at
/// `p`.
pub open spec fn words_end(s: Seq<char>, p: int) -> int {
    run_end(s, p, |c: char| is_alpha_numeric(c) || is_white_space(c))
}

/// The name of a tag at `p`: letters and digits, or `div` where there are
/// none; and the position after the name and the whitespace behind it.
pub open spec fn tag_name_at(s: Seq<char>, p: int) -> (Seq<char>, int) {
    let e = alnum_end(s, p);
    (
        if e <= p {
            "div"@
        } else {
            s.subrange(p, e)
        },
        ws_end(s, e),
    )
}

/// The position after the character `ch`, which has to stand at `p`.
pub open spec fn char_here(s: Seq<char>, p: int, ch: char) -> Result<int, ParseError> {
    if char_at(s, p) == Some(ch) {
        Ok(p + 1)
    } else {
        Err(structural(s, p, Expected::Char(ch)))
    }
}

/// The attribute at `p`: a key of letters, a `=`, and between double
/// quotes a value without a double quote; and the position after it and
/// the whitespace behind it.
pub open spec fn attribute_at(s: Seq<char>, p: int) -> Parsed<(Seq<char>, Seq<char>)> {
    let e = letters_end(s, p);
    match char_here(s, e, '=') {
        Ok(a) => match char_here(s, a, '"') {
            Ok(b) => {
                let v = until_end(s, b, '"');
                match char_here(s, v, '"') {
                    Ok(c) => Ok(((s.subrange(p, e), s.subrange(b, v)), ws_end(s, c))),
                    Err(x) => Err(x),
                }
            },
            Err(x) => Err(x),
        },
        Err(x) => Err(x),
    }
}

/// An attribute that is read holds at least one character, and ends inside
/// the text.
pub proof fn lemma_attribute_advances(s: Seq<char>, p: int)
    requires
        0 <= p <= s.len(),
    ensures
        attribute_at(s, p) matches Ok((_, n)) ==> p < n <= s.len(),
{
    let e = letters_end(s, p);
    lemma_run_end_bounds(s, p, |c: char| is_ascii_letter(c));
    lemma_run_end_bounds(s, e + 2, other_than('"'));
    lemma_ws_end(s, until_end(s, e + 2, '"') + 1);
}

/// The attributes from `p` on, after the attributes `before`, up to the
/// `>` or `/` that ends the tag; the position after is that of this
/// character. A key that stands twice keeps the later value.
pub open spec fn attributes_at(s: Seq<char>, p: int, before: Seq<(Seq<char>, Seq<char>)>) -> Parsed<
    Seq<(Seq<char>, Seq<char>)>,
>
    decreases s.len() - p,
{
    match char_at(s, p) {
        None => Err(structural(s, p, Expected::Char('>'))),
        Some(c) => if c == '>' || c == '/' {
            Ok((before, p))
        } else {
            match attribute_at(s, p) {
                Ok(((key, value), n)) => {
                    proof {
                        lemma_attribute_advances(s, p);
                    }
                    attributes_at(s, n, put(before, key, value))
                },
                Err(e) => Err(e),
            }
        },
    }
}

/// Attributes end at a `>` or a `/` inside the text, at or after their
/// start.
pub proof fn lemma_attributes_advance(s: Seq<char>, p: int, before: Seq<(Seq<char>, Seq<char>)>)
    requires
        0 <= p <= s.len(),
    ensures
        attributes_at(s, p, before) matches Ok((_, n)) ==> p <= n < s.len() && (s[n] == '>'
            || s[n] == '/'),
    decreases s.len() - p,
{
    match char_at(s, p) {
        None => {},
        Some(c) => {
            if !(c == '>' || c == '/') {
                lemma_attribute_advances(s, p);
                match attribute_at(s, p) {
                    Ok(((key, value), n)) => {
                        lemma_attributes_advance(s, n, put(before, key, value));
                    },
                    Err(_) => {},
                }
            }
        },
    }
}

/// The comment whose first `-` has to stand at `p`: the text between `--`
/// and `-->`, which holds no `-`.
pub open spec fn comment_at(s: Seq<char>, p: int) -> Parsed<Seq<char>> {
    match char_here(s, p, '-') {
        Ok(_) => match char_here(s, p + 1, '-') {
            Ok(a) => {
                let e = until_end(s, a, '-');
                match char_here(s, e, '-') {
                    Ok(_) => match char_here(s, e + 1, '-') {
                        Ok(_) => match char_here(s, e + 2, '>') {
                            Ok(n) => Ok((s.subrange(a, e), n)),
                            Err(x) => Err(x),
                        },
                        Err(x) => Err(x),
                    },
                    Err(x) => Err(x),
                }
            },
            Err(x) => Err(x),
        },
        Err(x) => Err(x),
    }
}

/// The tag whose `<` stands just before `p`. After a letter or digit: the
/// name and the attributes of a start tag, or with `/>` of a tag without
/// content. After `>`: the start tag of a `div`. After `/`: an end tag, of
/// which the `>` may be missing. After `!`: a comment.
pub open spec fn tag_at(s: Seq<char>, p: int) -> Parsed<TokenView> {
    match char_at(s, p) {
        None => Err(lexical(s, p, Expected::Token)),
        Some(c) => if is_alpha_numeric(c) {
            let (tag_name, n) = tag_name_at(s, p);
            match attributes_at(s, n, Seq::empty()) {
                Ok((attributes, m)) => {
                    let element = ElementDataView { tag_name, attributes };
                    if char_at(s, m) == Some('>') {
                        Ok((TokenView::StartTagToken(element), m + 1))
                    } else {
                        match char_here(s, m + 1, '>') {
                            Ok(k) => Ok((TokenView::SelfClosingTagToken(element), k)),
                            Err(x) => Err(x),
                        }
                    }
                },
                Err(x) => Err(x),
            }
        } else if c == '>' {
            Ok(
                (
                    TokenView::StartTagToken(
                        ElementDataView { tag_name: "div"@, attributes: Seq::empty() },
                    ),
                    p + 1,
                ),
            )
        } else if c == '/' {
            let (tag_name, n) = tag_name_at(s, p + 1);
            Ok(
                (
                    TokenView::EndTagToken(tag_name),
                    if char_at(s, n) == Some('>') {
                        n + 1
                    } else {
                        n
                    },
                ),
            )
        } else if c == '!' {
            match comment_at(s, p + 1) {
                Ok((text, n)) => Ok((TokenView::CommentToken(text), n)),
                Err(x) => Err(x),
            }
        } else {
            Err(lexical(s, p, Expected::Token))
        },
    }
}

/// The token at `p`, after whitespace: at the end of the text the token
/// that ends it; after `<` a tag; at a letter or digit a text; and
/// anywhere else the token that marks the place, which is not read.
pub open spec fn token_at(s: Seq<char>, p: int) -> Parsed<TokenView> {
    let q = ws_end(s, p);
    match char_at(s, q) {
        None => Ok((TokenView::Eof, q)),
        Some(c) => if c == '<' {
            tag_at(s, q + 1)
        } else if is_alpha_numeric(c) {
            Ok(
                (
                    TokenView::TextToken(
                        collapsed(s.subrange(q, words_end(s, q)), words_end(s, q) - q),
                    ),
                    words_end(s, q),
                ),
            )
        } else {
            Ok((TokenView::Illegal, q))
        },
    }
}

/// A token ends inside the text; a token that is neither the end nor the
/// mark of an unreadable place holds at least one character.
pub proof fn lemma_token_advances(s: Seq<char>, p: int)
    requires
        0 <= p <= s.len(),
    ensures
        token_at(s, p) matches Ok((token, n)) ==> p <= n <= s.len() && (!(token is Eof || token
            is Illegal) ==> p < n),
{
    let q = ws_end(s, p);
    lemma_ws_end(s, p);
    match char_at(s, q) {
        None => {},
        Some(c) => {
            if c == '<' {
                let t = q + 1;
                match char_at(s, t) {
                    None => {},
                    Some(d) => {
                        if is_alpha_numeric(d) {
                            lemma_run_end_bounds(s, t, |c: char| is_alpha_numeric(c));
                            lemma_ws_end(s, alnum_end(s, t));
                            lemma_attributes_advance(s, tag_name_at(s, t).1, Seq::empty());
                        } else if d == '/' {
                            lemma_run_end_bounds(s, t + 1, |c: char| is_alpha_numeric(c));
                            lemma_ws_end(s, alnum_end(s, t + 1));
                        } else if d == '!' {
                            lemma_run_end_bounds(s, t + 3, other_than('-'));
                        }
                    },
                }
            } else if is_alpha_numeric(c) {
                lemma_run_end_step(s, q, |c: char| is_alpha_numeric(c) || is_white_space(c));
            }
        },
    }
}

/// The tokens from `p` on, after the tokens `before`, up to and with the
/// token that ends the text or marks an unreadable place.
pub open spec fn tokens_at(s: Seq<char>, p: int, before: Seq<TokenView>) -> Result<
    Seq<TokenView>,
    ParseError,
>
    decreases s.len() - p,
{
    match token_at(s, p) {
        Ok((token, n)) => if token is Eof || token is Illegal {
            Ok(before.push(token))
        } else {
            proof {
                if 0 <= p <= s.len() {
                    lemma_token_advances(s, p);
                }
            }
            if 0 <= p < n <= s.len() {
                tokens_at(s, n, before.push(token))
            } else {
                Err(lexical(s, p, Expected::Token))
            }
        },
        Err(e) => Err(e),
    }
}

/// What each token of a sequence is.
pub open spec fn token_views(tokens: Seq<Token>) -> Seq<TokenView> {
    tokens.map_values(|t: Token| t@)
}

/// A lexer: a text, and how far it has been read.
#[derive(Debug)]
pub struct Lexer {
    cursor: Cursor,
}

impl Lexer {
    /// The text that is read.
    pub closed spec fn text(&self) -> Seq<char> {
        self.cursor.text()
    }

    /// How many characters of the text have been read.
    pub closed spec fn offset(&self) -> int {
        self.cursor.offset()
    }

    /// A lexer at the start of `input`.
    pub fn new(input: &str) -> (lexer: Self)
        ensures
            lexer.text() == input@,
            lexer.offset() == 0,
    {
        Lexer { cursor: Cursor::new(input) }
    }

    /// Moves past any whitespace.
    pub fn skip_whitespace(&mut self)
        ensures
            final(self).text() == old(self).text(),
            0 <= old(self).offset() <= final(self).offset() <= old(self).text().len(),
            final(self).offset() == ws_end(old(self).text(), old(self).offset()),
    {
        self.cursor.skip_whitespace();
    }

    /// Moves past the character `ch`, which has to be the next one.
    pub fn skip_next_ch(&mut self, ch: &char) -> (r: Result<(), ParseError>)
        ensures
            final(self).text() == old(self).text(),
            0 <= old(self).offset() <= final(self).offset() <= old(self).text().len(),
            match char_here(old(self).text(), old(self).offset(), *ch) {
                Ok(n) => r is Ok && final(self).offset() == n,
                Err(e) => r == Err::<(), ParseError>(e),
            },
    {
        let wanted = *ch;
        let here = self.cursor.peek();
        if here == Some(wanted) {
            let _ = self.cursor.next();
            Ok(())
        } else {
            Err(self.cursor.missing(Expected::Char(wanted)))
        }
    }

    /// Takes the characters that `consume_condition` accepts.
    pub fn consume<F: Fn(&char) -> bool>(&mut self, consume_condition: &F) -> (run: String)
        requires
            forall|c: char| call_requires(consume_condition, (&c,)),
        ensures
            final(self).text() == old(self).text(),
            final(self).offset() == old(self).offset() + run@.len(),
            0 <= old(self).offset() <= final(self).offset() <= old(self).text().len(),
            run@ == old(self).text().subrange(old(self).offset(), final(self).offset()),
            forall|i: int|
                0 <= i < run@.len() ==> call_ensures(consume_condition, (&#[trigger] run@[i],), true),
            final(self).offset() < old(self).text().len() ==> call_ensures(
                consume_condition,
                (&old(self).text()[final(self).offset()],),
                false,
            ),
    {
        self.cursor.take_while(consume_condition)
    }

    /// Takes the characters up to the next `stop`.
    fn consume_until(&mut self, stop: char) -> (run: String)
        ensures
            final(self).text() == old(self).text(),
            0 <= old(self).offset() <= final(self).offset() <= old(self).text().len(),
            final(self).offset() == until_end(old(self).text(), old(self).offset(), stop),
            run@ == old(self).text().subrange(old(self).offset(), final(self).offset()),
    {
        let accept = |c: &char| -> (b: bool)
            ensures
                b == (*c != stop),
            { *c != stop };
        self.cursor.take_class(&accept, Ghost(other_than(stop)))
    }

    /// Takes the name of a tag, and the whitespace behind it.
    pub fn expect_tag_name(&mut self) -> (tag_name: String)
        ensures
            final(self).text() == old(self).text(),
            0 <= old(self).offset() <= final(self).offset() <= old(self).text().len(),
            (tag_name@, final(self).offset()) == tag_name_at(old(self).text(), old(self).offset()),
    {
        let accept = |c: &char| -> (b: bool)
            ensures
                b == is_alpha_numeric(*c),
            { c.is_alphanumeric() };
        let tag_name = self.cursor.take_class(&accept, Ghost(|c: char| is_alpha_numeric(c)));
        self.cursor.skip_whitespace();
        if tag_name.as_str().unicode_len() == 0 {
            "div".to_owned()
        } else {
            tag_name
        }
    }

    /// Takes one attribute, and the whitespace behind it.
    pub fn expect_attribute(&mut self) -> (r: Result<(String, String), ParseError>)
        ensures
            final(self).text() == old(self).text(),
            0 <= old(self).offset() <= final(self).offset() <= old(self).text().len(),
            match attribute_at(old(self).text(), old(self).offset()) {
                Ok(((key, value), n)) => r matches Ok(pair) && pair.0@ == key && pair.1@ == value
                    && final(self).offset() == n,
                Err(e) => r matches Err(x) && x == e,
            },
    {
        let accept = |c: &char| -> (b: bool)
            ensures
                b == is_ascii_letter(*c),
            { (*c >= 'a' && *c <= 'z') || (*c >= 'A' && *c <= 'Z') };
        let key = self.cursor.take_class(&accept, Ghost(|c: char| is_ascii_letter(c)));
        match self.skip_next_ch(&'=') {
            Ok(()) => {},
            Err(e) => {
                return Err(e);
            },
        }
        match self.skip_next_ch(&'"') {
            Ok(()) => {},
            Err(e) => {
                return Err(e);
            },
        }
        let value = self.consume_until('"');
        match self.skip_next_ch(&'"') {
            Ok(()) => {},
            Err(e) => {
                return Err(e);
            },
        }
        self.cursor.skip_whitespace();
        Ok((key, value))
    }

    /// Takes the attributes of a tag, up to the `>` or `/` that ends it.
    pub fn expect_attributes(&mut self) -> (r: Result<Attributes, ParseError>)
        ensures
            final(self).text() == old(self).text(),
            0 <= old(self).offset() <= final(self).offset() <= old(self).text().len(),
            match attributes_at(old(self).text(), old(self).offset(), Seq::empty()) {
                Ok((attributes, n)) => r matches Ok(a) && a@ == attributes && final(self).offset()
                    == n,
                Err(e) => r matches Err(x) && x == e,
            },
    {
        let ghost s = self.text();
        let ghost start = self.offset();
        let mut attributes = Attributes::new();
        let _ = self.cursor.position();
        loop
            invariant_except_break
                attributes_at(s, start, Seq::empty()) == attributes_at(
                    s,
                    self.offset(),
                    attributes@,
                ),
            invariant
                self.text() == s,
                s == old(self).text(),
                start == old(self).offset(),
                0 <= start <= self.offset() <= s.len(),
            ensures
                attributes_at(s, start, Seq::empty()) == Ok::<
                    (Seq<(Seq<char>, Seq<char>)>, int),
                    ParseError,
                >((attributes@, self.offset())),
            decreases s.len() - self.offset(),
        {
            proof {
                lemma_attribute_advances(s, self.offset());
            }
            match self.cursor.peek() {
                None => {
                    return Err(self.cursor.missing(Expected::Char('>')));
                },
                Some(c) => {
                    if c == '>' || c == '/' {
                        break ;
                    }
                    match self.expect_attribute() {
                        Ok((key, value)) => {
                            attributes.insert(key, value);
                        },
                        Err(e) => {
                            return Err(e);
                        },
                    }
                },
            }
        }
        Ok(attributes)
    }

    /// Takes a comment, of which the first `-` comes next.
    pub fn expect_comment(&mut self) -> (r: Result<String, ParseError>)
        ensures
            final(self).text() == old(self).text(),
            0 <= old(self).offset() <= final(self).offset() <= old(self).text().len(),
            match comment_at(old(self).text(), old(self).offset()) {
                Ok((text, n)) => r matches Ok(v) && v@ == text && final(self).offset() == n,
                Err(e) => r matches Err(x) && x == e,
            },
    {
        match self.skip_next_ch(&'-') {
            Ok(()) => {},
            Err(e) => {
                return Err(e);
            },
        }
        match self.skip_next_ch(&'-') {
            Ok(()) => {},
            Err(e) => {
                return Err(e);
            },
        }
        let comment = self.consume_until('-');
        match self.skip_next_ch(&'-') {
            Ok(()) => {},
            Err(e) => {
                return Err(e);
            },
        }
        match self.skip_next_ch(&'-') {
            Ok(()) => {},
            Err(e) => {
                return Err(e);
            },
        }
        match self.skip_next_ch(&'>') {
            Ok(()) => {},
            Err(e) => {
                return Err(e);
            },
        }
        Ok(comment)
    }

    /// Takes a text: a run of letters, digits and whitespace, with its
    /// whitespace collapsed. Every run of whitespace inside the text,
    /// line ends too, is one space, and none stands first or last.
    pub fn consume_text(&mut self) -> (token: Token)
        ensures
            final(self).text() == old(self).text(),
            0 <= old(self).offset() <= final(self).offset() <= old(self).text().len(),
            final(self).offset() == words_end(old(self).text(), old(self).offset()),
            token@ == TokenView::TextToken(
                collapsed(
                    old(self).text().subrange(old(self).offset(), final(self).offset()),
                    final(self).offset() - old(self).offset(),
                ),
            ),
    {
        let accept = |c: &char| -> (b: bool)
            ensures
                b == (is_alpha_numeric(*c) || is_white_space(*c)),
            { c.is_alphanumeric() || c.is_whitespace() };
        let text = self.cursor.take_class(
            &accept,
            Ghost(|c: char| is_alpha_numeric(c) || is_white_space(c)),
        );
        Token::TextToken(collapse_whitespace(text.as_str()))
    }

    /// Takes a tag, of which the `<` comes next.
    fn consume_tag(&mut self) -> (r: Result<Token, ParseError>)
        requires
            char_at(old(self).text(), old(self).offset()) == Some('<'),
        ensures
            final(self).text() == old(self).text(),
            0 <= old(self).offset() <= final(self).offset() <= old(self).text().len(),
            match tag_at(old(self).text(), old(self).offset() + 1) {
                Ok((token, n)) => r matches Ok(t) && t@ == token && final(self).offset() == n,
                Err(e) => r matches Err(x) && x == e,
            },
    {
        let _ = self.cursor.next();
        match self.cursor.peek() {
            None => Err(self.cursor.unreadable(Expected::Token)),
            Some(c) => {
                if c.is_alphanumeric() {
                    let tag_name = self.expect_tag_name();
                    let attributes = match self.expect_attributes() {
                        Ok(attributes) => attributes,
                        Err(e) => {
                            return Err(e);
                        },
                    };
                    proof {
                        lemma_attributes_advance(
                            old(self).text(),
                            tag_name_at(old(self).text(), old(self).offset() + 1).1,
                            Seq::empty(),
                        );
                    }
                    match self.cursor.next() {
                        Some('>') => Ok(
                            Token::StartTagToken(ElementData::new(tag_name, attributes)),
                        ),
                        _ => {
                            match self.skip_next_ch(&'>') {
                                Ok(()) => {},
                                Err(e) => {
                                    return Err(e);
                                },
                            }
                            Ok(Token::SelfClosingTagToken(ElementData::new(tag_name, attributes)))
                        },
                    }
                } else if c == '>' {
                    let _ = self.cursor.next();
                    Ok(Token::StartTagToken(ElementData::new("div".to_owned(), Attributes::new())))
                } else if c == '/' {
                    let _ = self.cursor.next();
                    let tag_name = self.expect_tag_name();
                    if self.cursor.peek() == Some('>') {
                        let _ = self.cursor.next();
                    }
                    Ok(Token::EndTagToken(tag_name))
                } else if c == '!' {
                    let _ = self.cursor.next();
                    match self.expect_comment() {
                        Ok(comment) => Ok(Token::CommentToken(comment)),
                        Err(e) => Err(e),
                    }
                } else {
                    Err(self.cursor.unreadable(Expected::Token))
                }
            },
        }
    }

    /// The next token.
    pub fn next_token(&mut self) -> (r: Result<Token, ParseError>)
        ensures
            final(self).text() == old(self).text(),
            0 <= old(self).offset() <= final(self).offset() <= old(self).text().len(),
            match token_at(old(self).text(), old(self).offset()) {
                Ok((token, n)) => r matches Ok(t) && t@ == token && final(self).offset() == n,
                Err(e) => r matches Err(x) && x == e,
            },
    {
        self.cursor.skip_whitespace();
        match self.cursor.peek() {
            None => Ok(Token::Eof),
            Some(c) => {
                if c == '<' {
                    self.consume_tag()
                } else if c.is_alphanumeric() {
                    Ok(self.consume_text())
                } else {
                    Ok(Token::Illegal)
                }
            },
        }
    }

    /// All tokens from here on, up to and with the token that ends the
    /// text or marks an unreadable place.
    pub fn tokens(&mut self) -> (r: Result<Vec<Token>, ParseError>)
        ensures
            final(self).text() == old(self).text(),
            match tokens_at(old(self).text(), old(self).offset(), Seq::empty()) {
                Ok(tokens) => r matches Ok(v) && token_views(v@) == tokens,
                Err(e) => r matches Err(x) && x == e,
            },
    {
        let ghost s = self.text();
        let ghost start = self.offset();
        let mut tokens: Vec<Token> = Vec::new();
        let _ = self.cursor.position();
        proof {
            assert(token_views(tokens@) =~= Seq::empty());
        }
        loop
            invariant
                self.text() == s,
                s == old(self).text(),
                start == old(self).offset(),
                0 <= start <= self.offset() <= s.len(),
                tokens_at(s, start, Seq::empty()) == tokens_at(
                    s,
                    self.offset(),
                    token_views(tokens@),
                ),
            decreases s.len() - self.offset(),
        {
            let ghost p = self.offset();
            let ghost before = token_views(tokens@);
            proof {
                lemma_token_advances(s, p);
            }
            match self.next_token() {
                Ok(token) => {
                    let last = match token {
                        Token::Eof => true,
                        Token::Illegal => true,
                        _ => false,
                    };
                    let ghost view = token@;
                    tokens.push(token);
                    proof {
                        assert(token_views(tokens@) =~= before.push(view));
                    }
                    if last {
                        return Ok(tokens);
                    }
                },
                Err(e) => {
                    return Err(e);
                },
            }
        }
    }
}

} // verus!
