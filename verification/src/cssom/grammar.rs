//! The stylesheet language, as functions from a text and a position to what
//! is read there and the position after it.
//!
//! Whitespace may stand before every lexical unit and is skipped. Nothing
//! is read twice: every function returns a position at or after the one it
//! was given.

use vstd::prelude::*;
use crate::cssom::Color;
use crate::cssom::DeclarationView;
use crate::cssom::Display;
use crate::cssom::LengthView;
use crate::cssom::PropertyView;
use crate::cssom::RuleView;
use crate::cssom::SelectorView;
use crate::cssom::Unit;
use crate::cssom::ValueView;
use crate::cssom::is_number_literal;
use crate::cssom::normal_number;
use crate::dom::tag_name_of;
use crate::error::Expected;
use crate::error::ParseError;
use crate::error::lexical;
use crate::error::structural;
use crate::text::char_at;
use crate::text::hex_end;
use crate::text::ident_at;
use crate::text::is_ascii_alnum;
use crate::text::is_digit;
use crate::text::is_hex_digit;
use crate::text::is_ident_char;
use crate::text::is_number_char;
use crate::text::is_white_space;
use crate::text::lemma_bounded_run_end_bounds;
use crate::text::lemma_ident_advances;
use crate::text::lemma_run_end_bounds;
use crate::text::number_end;
use crate::text::ws_end;

verus! {

/// What was read, and the position after it; or why nothing was.
pub type Parsed<T> = Result<(T, int), ParseError>;

/// The property that a name written before `:` stands for. Names are
/// compared as they are written; a name that is not in the table stands
/// for itself.
pub open spec fn property_of(name: Seq<char>) -> PropertyView {
    if name == "margin"@ {
        PropertyView::Margin
    } else if name == "margin-left"@ {
        PropertyView::MarginLeft
    } else if name == "margin-right"@ {
        PropertyView::MarginRight
    } else if name == "margin-top"@ {
        PropertyView::MarginTop
    } else if name == "margin-bottom"@ {
        PropertyView::MarginBottom
    } else if name == "padding"@ {
        PropertyView::Padding
    } else if name == "padding-left"@ {
        PropertyView::PaddingLeft
    } else if name == "padding-right"@ {
        PropertyView::PaddingRight
    } else if name == "padding-top"@ {
        PropertyView::PaddingTop
    } else if name == "padding-bottom"@ {
        PropertyView::PaddingBottom
    } else if name == "width"@ {
        PropertyView::Width
    } else if name == "height"@ {
        PropertyView::Height
    } else if name == "display"@ {
        PropertyView::Display
    } else if name == "color"@ {
        PropertyView::Color
    } else if name == "background-color"@ {
        PropertyView::BackgroundColor
    } else if name == "border-radius"@ {
        PropertyView::BorderRadius
    } else {
        PropertyView::Other(name)
    }
}

/// The layout that a keyword stands for; an unknown keyword stands for a
/// block.
pub open spec fn display_of(keyword: Seq<char>) -> Display {
    if keyword == "none"@ {
        Display::Hidden
    } else if keyword == "block"@ {
        Display::Block
    } else if keyword == "inline"@ {
        Display::Inline
    } else if keyword == "inline-block"@ {
        Display::InlineBlock
    } else if keyword == "flex"@ {
        Display::Flex
    } else {
        Display::Block
    }
}

/// The unit that a name written after a number stands for; an unknown
/// name, or none, stands for pixels.
pub open spec fn unit_of(name: Seq<char>) -> Unit {
    if name == "px"@ {
        Unit::Px
    } else if name == "em"@ {
        Unit::Em
    } else {
        Unit::Px
    }
}

/// Whether a property stands for four others, one for each side.
pub open spec fn is_shorthand(property: PropertyView) -> bool {
    property is Margin || property is Padding
}

/// Whether the value of a property is a single length.
pub open spec fn takes_length(property: PropertyView) -> bool {
    match property {
        PropertyView::MarginLeft
        | PropertyView::MarginRight
        | PropertyView::MarginTop
        | PropertyView::MarginBottom
        | PropertyView::PaddingLeft
        | PropertyView::PaddingRight
        | PropertyView::PaddingTop
        | PropertyView::PaddingBottom
        | PropertyView::Width
        | PropertyView::Height
        | PropertyView::BorderRadius => true,
        _ => false,
    }
}

/// Whether the value of a property is a colour.
pub open spec fn takes_color(property: PropertyView) -> bool {
    property is Color || property is BackgroundColor
}

/// The value of one hexadecimal digit; of any other character, zero.
pub open spec fn hex_digit_value(c: char) -> int {
    if is_digit(c) {
        c as int - '0' as int
    } else if 'a' <= c <= 'f' {
        c as int - 'a' as int + 10
    } else if 'A' <= c <= 'F' {
        c as int - 'A' as int + 10
    } else {
        0
    }
}

/// The number that a run of hexadecimal digits writes; the empty run
/// writes zero.
pub open spec fn hex_value(digits: Seq<char>) -> int
    decreases digits.len(),
{
    if digits.len() == 0 {
        0
    } else {
        hex_value(digits.drop_last()) * 16 + hex_digit_value(digits.last())
    }
}

/// The number that a run of hexadecimal digits writes, or zero where that
/// number is too large for the machine.
pub open spec fn hex_number(digits: Seq<char>) -> int {
    if hex_value(digits) <= usize::MAX {
        hex_value(digits)
    } else {
        0
    }
}

/// The four sides that one to four lengths stand for, as top, right, bottom
/// and left: one length is all four sides; two are top and bottom, then
/// right and left; three are top, then right and left, then bottom; four
/// are top, right, bottom and left.
pub open spec fn four_sides(lengths: Seq<LengthView>) -> (LengthView, LengthView, LengthView, LengthView)
    recommends
        1 <= lengths.len() <= 4,
{
    if lengths.len() == 1 {
        (lengths[0], lengths[0], lengths[0], lengths[0])
    } else if lengths.len() == 2 {
        (lengths[0], lengths[1], lengths[0], lengths[1])
    } else if lengths.len() == 3 {
        (lengths[0], lengths[1], lengths[2], lengths[1])
    } else {
        (lengths[0], lengths[1], lengths[2], lengths[3])
    }
}

/// The four properties that a shorthand stands for, as top, right, bottom
/// and left.
pub open spec fn side_properties(shorthand: PropertyView) -> (
    PropertyView,
    PropertyView,
    PropertyView,
    PropertyView,
)
    recommends
        is_shorthand(shorthand),
{
    if shorthand is Margin {
        (
            PropertyView::MarginTop,
            PropertyView::MarginRight,
            PropertyView::MarginBottom,
            PropertyView::MarginLeft,
        )
    } else {
        (
            PropertyView::PaddingTop,
            PropertyView::PaddingRight,
            PropertyView::PaddingBottom,
            PropertyView::PaddingLeft,
        )
    }
}

/// The four declarations that a shorthand stands for, given its four
/// sides: one for each side, in the order top, right, bottom, left.
pub open spec fn side_declarations(
    shorthand: PropertyView,
    sides: (LengthView, LengthView, LengthView, LengthView),
) -> Seq<DeclarationView>
    recommends
        is_shorthand(shorthand),
{
    let properties = side_properties(shorthand);
    seq![
        DeclarationView { property: properties.0, value: ValueView::Length(sides.0) },
        DeclarationView { property: properties.1, value: ValueView::Length(sides.1) },
        DeclarationView { property: properties.2, value: ValueView::Length(sides.2) },
        DeclarationView { property: properties.3, value: ValueView::Length(sides.3) },
    ]
}

/// The four declarations that a shorthand with one to four lengths stands
/// for.
pub open spec fn expand_shorthand(shorthand: PropertyView, lengths: Seq<LengthView>) -> Seq<
    DeclarationView,
>
    recommends
        is_shorthand(shorthand),
        1 <= lengths.len() <= 4,
{
    side_declarations(shorthand, four_sides(lengths))
}

/// The selector that starts at `p`: a compound selector, and after it
/// possibly a combinator and the selector on its right. Combinators thus
/// nest to the right: `a > b > c` is `a > (b > c)`.
pub open spec fn selector_at(s: Seq<char>, p: int) -> Parsed<SelectorView>
    decreases s.len() - p, 2int,
{
    let q = ws_end(s, p);
    proof {
        lemma_run_end_bounds(s, p, |c: char| is_white_space(c));
        lemma_ident_advances(s, p);
    }
    if char_at(s, q) matches Some(c) && is_ascii_alnum(c) {
        let (name, n) = ident_at(s, p);
        compound_at(s, n, Some(SelectorView::Tag(tag_name_of(name))))
    } else {
        compound_at(s, q, None)
    }
}

/// What follows the part `left` of a compound selector that has been read
/// up to `p`: any number of classes and ids, each on top of what stands on
/// its left, and then possibly a combinator. Where nothing follows, `left`
/// is the selector, and it has to be there.
pub open spec fn compound_at(s: Seq<char>, p: int, left: Option<SelectorView>) -> Parsed<
    SelectorView,
>
    decreases s.len() - p, 1int,
{
    let q = ws_end(s, p);
    let boxed = match left {
        Some(l) => Some(Box::new(l)),
        None => None,
    };
    proof {
        lemma_run_end_bounds(s, p, |c: char| is_white_space(c));
        lemma_ident_advances(s, q + 1);
    }
    match char_at(s, q) {
        Some('.') => {
            let (name, n) = ident_at(s, q + 1);
            compound_at(s, n, Some(SelectorView::Class(boxed, name)))
        },
        Some('#') => {
            let (name, n) = ident_at(s, q + 1);
            compound_at(s, n, Some(SelectorView::Id(boxed, name)))
        },
        Some('>') => combinator_at(s, p, left),
        Some('+') => combinator_at(s, p, left),
        _ => match left {
            Some(l) => Ok((l, q)),
            None => Err(structural(s, q, Expected::Selector)),
        },
    }
}

/// What a combinator at `p` makes of the selector `left` on its left: with
/// `>` a child and with `+` an adjacent selector, whose right side is the
/// whole selector after the combinator. A combinator needs its left side.
/// Where no combinator stands at `p`, `left` is the selector, and it has to
/// be there.
pub open spec fn combinator_at(s: Seq<char>, p: int, left: Option<SelectorView>) -> Parsed<
    SelectorView,
>
    decreases s.len() - p, 0int,
{
    let q = ws_end(s, p);
    proof {
        lemma_run_end_bounds(s, p, |c: char| is_white_space(c));
    }
    match char_at(s, q) {
        Some(c) => if c == '>' || c == '+' {
            match left {
                Some(l) => match selector_at(s, q + 1) {
                    Ok((right, n)) => if c == '>' {
                        Ok((SelectorView::Child(Box::new(l), Box::new(right)), n))
                    } else {
                        Ok((SelectorView::Adjacent(Box::new(l), Box::new(right)), n))
                    },
                    Err(e) => Err(e),
                },
                None => Err(structural(s, q, Expected::LeftOperand)),
            }
        } else {
            match left {
                Some(l) => Ok((l, q)),
                None => Err(structural(s, q, Expected::Selector)),
            }
        },
        None => match left {
            Some(l) => Ok((l, q)),
            None => Err(structural(s, q, Expected::Selector)),
        },
    }
}

/// One selector of a group: the selector at `p`, and the comma after it if
/// there is one.
pub open spec fn selector_item_at(s: Seq<char>, p: int) -> Parsed<SelectorView> {
    match selector_at(s, p) {
        Ok((selector, n)) => if char_at(s, n) == Some(',') {
            Ok((selector, n + 1))
        } else {
            Ok((selector, n))
        },
        Err(e) => Err(e),
    }
}

/// A selector that is read holds at least one character, and ends inside
/// the text.
pub proof fn lemma_selector_advances(s: Seq<char>, p: int)
    requires
        0 <= p <= s.len(),
    ensures
        selector_at(s, p) matches Ok((_, n)) ==> p < n <= s.len(),
        selector_item_at(s, p) matches Ok((_, n)) ==> p < n <= s.len(),
    decreases s.len() - p, 2int,
{
    let q = ws_end(s, p);
    lemma_run_end_bounds(s, p, |c: char| is_white_space(c));
    lemma_ident_advances(s, p);
    if char_at(s, q) matches Some(c) && is_ascii_alnum(c) {
        let (name, n) = ident_at(s, p);
        lemma_compound_advances(s, n, Some(SelectorView::Tag(tag_name_of(name))));
    } else {
        lemma_compound_advances(s, q, None);
    }
}

/// What is read after a part of a compound selector ends inside the text,
/// at or after its start; and after it where no part had been read before.
pub proof fn lemma_compound_advances(s: Seq<char>, p: int, left: Option<SelectorView>)
    requires
        0 <= p <= s.len(),
    ensures
        compound_at(s, p, left) matches Ok((_, n)) ==> p <= n <= s.len() && (left is None ==> p
            < n),
    decreases s.len() - p, 1int,
{
    let q = ws_end(s, p);
    let boxed = match left {
        Some(l) => Some(Box::new(l)),
        None => None,
    };
    lemma_run_end_bounds(s, p, |c: char| is_white_space(c));
    lemma_ident_advances(s, q + 1);
    match char_at(s, q) {
        Some('.') => {
            let (name, n) = ident_at(s, q + 1);
            lemma_compound_advances(s, n, Some(SelectorView::Class(boxed, name)));
        },
        Some('#') => {
            let (name, n) = ident_at(s, q + 1);
            lemma_compound_advances(s, n, Some(SelectorView::Id(boxed, name)));
        },
        Some('>') => {
            lemma_combinator_advances(s, p, left);
        },
        Some('+') => {
            lemma_combinator_advances(s, p, left);
        },
        _ => {},
    }
}

/// What a combinator makes ends inside the text, at or after its start.
pub proof fn lemma_combinator_advances(s: Seq<char>, p: int, left: Option<SelectorView>)
    requires
        0 <= p <= s.len(),
    ensures
        combinator_at(s, p, left) matches Ok((_, n)) ==> p <= n <= s.len(),
    decreases s.len() - p, 0int,
{
    let q = ws_end(s, p);
    lemma_run_end_bounds(s, p, |c: char| is_white_space(c));
    if char_at(s, q) matches Some(c) && (c == '>' || c == '+') && left is Some {
        lemma_selector_advances(s, q + 1);
    }
}

/// The selectors of a rule from `p` on, after the selectors `before`: a
/// group of selectors, each with a comma after it or not, up to the `{`
/// that ends the group. The position after is that after the `{`.
pub open spec fn selector_group_at(s: Seq<char>, p: int, before: Seq<SelectorView>) -> Parsed<
    Seq<SelectorView>,
>
    decreases s.len() - p,
{
    let q = ws_end(s, p);
    match char_at(s, q) {
        None => Err(structural(s, q, Expected::Char('{'))),
        Some('{') => Ok((before, q + 1)),
        Some(_) => match selector_item_at(s, q) {
            Ok((selector, n)) => {
                proof {
                    lemma_run_end_bounds(s, p, |c: char| is_white_space(c));
                    lemma_selector_advances(s, q);
                }
                selector_group_at(s, n, before.push(selector))
            },
            Err(e) => Err(e),
        },
    }
}

/// The decimal number at `p`, in its shortest form: digits and points,
/// which together have to write a number with at most one point and a
/// digit first.
pub open spec fn number_at(s: Seq<char>, p: int) -> Parsed<Seq<char>> {
    let a = ws_end(s, p);
    let e = number_end(s, a);
    if is_number_literal(s.subrange(a, e)) {
        Ok((normal_number(s.subrange(a, e)), ws_end(s, e)))
    } else {
        Err(lexical(s, a, Expected::Number))
    }
}

/// The length with a number at `p`: the number and the unit after it.
pub open spec fn actual_length_at(s: Seq<char>, p: int) -> Parsed<LengthView> {
    match number_at(s, p) {
        Ok((literal, n)) => {
            let (unit, m) = ident_at(s, n);
            Ok((LengthView::Actual(literal, unit_of(unit)), m))
        },
        Err(e) => Err(e),
    }
}

/// The single length at `p`: one with a number where a digit comes first,
/// and otherwise a keyword, whatever it is, which leaves the length to the
/// layout.
pub open spec fn length_at(s: Seq<char>, p: int) -> Parsed<LengthView> {
    let q = ws_end(s, p);
    match char_at(s, q) {
        None => Err(structural(s, q, Expected::Length)),
        Some(c) => if is_digit(c) {
            actual_length_at(s, p)
        } else {
            Ok((LengthView::Auto, ident_at(s, p).1))
        },
    }
}

/// A number ends inside the text, after its first digit.
pub proof fn lemma_number_advances(s: Seq<char>, p: int)
    requires
        0 <= p <= s.len(),
    ensures
        number_at(s, p) matches Ok((_, n)) ==> p < n <= s.len(),
{
    let a = ws_end(s, p);
    let e = number_end(s, a);
    lemma_run_end_bounds(s, p, |c: char| is_white_space(c));
    lemma_run_end_bounds(s, a, |c: char| is_number_char(c));
    lemma_run_end_bounds(s, e, |c: char| is_white_space(c));
}

/// A length with a number ends inside the text, after its first digit.
pub proof fn lemma_actual_length_advances(s: Seq<char>, p: int)
    requires
        0 <= p <= s.len(),
    ensures
        actual_length_at(s, p) matches Ok((_, n)) ==> p < n <= s.len(),
{
    lemma_number_advances(s, p);
    match number_at(s, p) {
        Ok((_, n)) => {
            lemma_ident_advances(s, n);
        },
        Err(_) => {},
    }
}

/// The lengths from `p` on, after the lengths `before`, up to the `;` that
/// ends them. The position after is that of the `;`. A keyword here has to
/// hold a character.
pub open spec fn lengths_at(s: Seq<char>, p: int, before: Seq<LengthView>) -> Parsed<
    Seq<LengthView>,
>
    decreases s.len() - p,
{
    let q = ws_end(s, p);
    proof {
        lemma_run_end_bounds(s, p, |c: char| is_white_space(c));
        lemma_ident_advances(s, p);
    }
    match char_at(s, q) {
        None => Err(structural(s, q, Expected::Char(';'))),
        Some(';') => Ok((before, q)),
        Some(c) => if is_digit(c) {
            match actual_length_at(s, p) {
                Ok((length, n)) => {
                    proof {
                        if 0 <= p <= s.len() {
                            lemma_actual_length_advances(s, p);
                        }
                    }
                    lengths_at(s, n, before.push(length))
                },
                Err(e) => Err(e),
            }
        } else if is_ident_char(c) {
            lengths_at(s, ident_at(s, p).1, before.push(LengthView::Auto))
        } else {
            Err(lexical(s, q, Expected::Length))
        },
    }
}

/// The four sides that the lengths at `p` stand for: there have to be one
/// to four lengths, and a `;` after them.
pub open spec fn sides_at(s: Seq<char>, p: int) -> Parsed<
    (LengthView, LengthView, LengthView, LengthView),
> {
    match lengths_at(s, p, Seq::empty()) {
        Ok((lengths, q)) => if 1 <= lengths.len() <= 4 {
            Ok((four_sides(lengths), q + 1))
        } else {
            Err(structural(s, q, Expected::OneToFourLengths))
        },
        Err(e) => Err(e),
    }
}

/// The declarations that a shorthand stands for, its lengths starting at
/// `p`: one declaration for each side, in the order top, right, bottom,
/// left.
pub open spec fn shorthand_at(s: Seq<char>, p: int, shorthand: PropertyView) -> Parsed<
    Seq<DeclarationView>,
> {
    if !is_shorthand(shorthand) {
        Err(structural(s, p, Expected::Shorthand))
    } else {
        match sides_at(s, p) {
            Ok((sides, n)) => Ok((side_declarations(shorthand, sides), n)),
            Err(e) => Err(e),
        }
    }
}

/// The number written by the at most `limit` hexadecimal digits at `p`,
/// and the position after them and the whitespace that follows them.
pub open spec fn hex_at(s: Seq<char>, p: int, limit: nat) -> (int, int) {
    let a = ws_end(s, p);
    let e = hex_end(s, a, limit);
    (hex_number(s.subrange(a, e)), ws_end(s, e))
}

/// The colour at `p`: a `#`, then red, green and blue with two hexadecimal
/// digits each, and then the same for alpha where a letter or digit
/// follows. Without it, alpha is zero.
pub open spec fn color_at(s: Seq<char>, p: int) -> Parsed<Color> {
    let q = ws_end(s, p);
    if char_at(s, q) != Some('#') {
        Err(structural(s, q, Expected::Char('#')))
    } else {
        let (r, after_r) = hex_at(s, q + 1, 2);
        let (g, after_g) = hex_at(s, after_r, 2);
        let (b, after_b) = hex_at(s, after_g, 2);
        if char_at(s, after_b) matches Some(c) && is_ascii_alnum(c) {
            let (a, after_a) = hex_at(s, after_b, 2);
            Ok((Color { r: r as usize, g: g as usize, b: b as usize, a: a as usize }, after_a))
        } else {
            Ok((Color { r: r as usize, g: g as usize, b: b as usize, a: 0 }, after_b))
        }
    }
}

/// The value at `p` of a property that takes a single value: a length, a
/// colour, a layout keyword, or for a property that is not known any
/// identifier.
pub open spec fn value_at(s: Seq<char>, p: int, property: PropertyView) -> Parsed<ValueView> {
    if is_shorthand(property) {
        Err(structural(s, p, Expected::Longhand))
    } else if takes_length(property) {
        match length_at(s, p) {
            Ok((length, n)) => Ok((ValueView::Length(length), n)),
            Err(e) => Err(e),
        }
    } else if takes_color(property) {
        match color_at(s, p) {
            Ok((color, n)) => Ok((ValueView::Color(color), n)),
            Err(e) => Err(e),
        }
    } else if property is Display {
        Ok((ValueView::Display(display_of(ident_at(s, p).0)), ident_at(s, p).1))
    } else {
        Ok((ValueView::Other(ident_at(s, p).0), ident_at(s, p).1))
    }
}

/// The declaration of `property` whose value starts at `p`: the value, and
/// the `;` that has to follow it.
pub open spec fn declaration_at(s: Seq<char>, p: int, property: PropertyView) -> Parsed<
    DeclarationView,
> {
    match value_at(s, p, property) {
        Ok((value, n)) => {
            let q = ws_end(s, n);
            if char_at(s, q) == Some(';') {
                Ok((DeclarationView { property, value }, q + 1))
            } else {
                Err(structural(s, q, Expected::Char(';')))
            }
        },
        Err(e) => Err(e),
    }
}

/// What one entry of a rule's block gives, the entry starting at `p`: the
/// name of a property, a `:`, and then either the one declaration of that
/// property or the four that a shorthand stands for.
pub open spec fn entry_at(s: Seq<char>, p: int) -> Parsed<Seq<DeclarationView>> {
    let (name, colon) = ident_at(s, p);
    let property = property_of(name);
    if char_at(s, colon) != Some(':') {
        Err(structural(s, colon, Expected::Char(':')))
    } else if is_shorthand(property) {
        shorthand_at(s, colon + 1, property)
    } else {
        match declaration_at(s, colon + 1, property) {
            Ok((declaration, n)) => Ok((seq![declaration], n)),
            Err(e) => Err(e),
        }
    }
}

/// The lengths of a shorthand end at a `;` inside the text, at or after
/// their start.
pub proof fn lemma_lengths_advance(s: Seq<char>, p: int, before: Seq<LengthView>)
    requires
        0 <= p <= s.len(),
    ensures
        lengths_at(s, p, before) matches Ok((_, n)) ==> p <= n < s.len(),
    decreases s.len() - p,
{
    let q = ws_end(s, p);
    lemma_run_end_bounds(s, p, |c: char| is_white_space(c));
    lemma_ident_advances(s, p);
    match char_at(s, q) {
        None => {},
        Some(';') => {},
        Some(c) => {
            if is_digit(c) {
                lemma_actual_length_advances(s, p);
                match actual_length_at(s, p) {
                    Ok((length, n)) => {
                        lemma_lengths_advance(s, n, before.push(length));
                    },
                    Err(_) => {},
                }
            } else if is_ident_char(c) {
                lemma_lengths_advance(s, ident_at(s, p).1, before.push(LengthView::Auto));
            }
        },
    }
}

/// A run of hexadecimal digits ends inside the text, at or after its start.
pub proof fn lemma_hex_advances(s: Seq<char>, p: int, limit: nat)
    requires
        0 <= p <= s.len(),
    ensures
        p <= hex_at(s, p, limit).1 <= s.len(),
{
    let a = ws_end(s, p);
    lemma_run_end_bounds(s, p, |c: char| is_white_space(c));
    lemma_bounded_run_end_bounds(s, a, |c: char| is_hex_digit(c), limit);
    lemma_run_end_bounds(s, hex_end(s, a, limit), |c: char| is_white_space(c));
}

/// A colour ends inside the text, after its start.
pub proof fn lemma_color_advances(s: Seq<char>, p: int)
    requires
        0 <= p <= s.len(),
    ensures
        color_at(s, p) matches Ok((_, n)) ==> p < n <= s.len(),
{
    let q = ws_end(s, p);
    lemma_run_end_bounds(s, p, |c: char| is_white_space(c));
    if char_at(s, q) == Some('#') {
        lemma_hex_advances(s, q + 1, 2);
        let after_r = hex_at(s, q + 1, 2).1;
        lemma_hex_advances(s, after_r, 2);
        let after_g = hex_at(s, after_r, 2).1;
        lemma_hex_advances(s, after_g, 2);
        let after_b = hex_at(s, after_g, 2).1;
        lemma_hex_advances(s, after_b, 2);
    }
}

/// A value ends inside the text, at or after its start.
pub proof fn lemma_value_advances(s: Seq<char>, p: int, property: PropertyView)
    requires
        0 <= p <= s.len(),
    ensures
        value_at(s, p, property) matches Ok((_, n)) ==> p <= n <= s.len(),
{
    let q = ws_end(s, p);
    lemma_run_end_bounds(s, p, |c: char| is_white_space(c));
    lemma_ident_advances(s, p);
    if is_shorthand(property) {
    } else if takes_length(property) {
        lemma_actual_length_advances(s, p);
    } else if takes_color(property) {
        lemma_color_advances(s, p);
    }
}

/// A declaration ends inside the text, after its start.
pub proof fn lemma_declaration_advances(s: Seq<char>, p: int, property: PropertyView)
    requires
        0 <= p <= s.len(),
    ensures
        declaration_at(s, p, property) matches Ok((_, n)) ==> p < n <= s.len(),
{
    lemma_value_advances(s, p, property);
    match value_at(s, p, property) {
        Ok((_, n)) => {
            lemma_run_end_bounds(s, n, |c: char| is_white_space(c));
        },
        Err(_) => {},
    }
}

/// The declarations of a shorthand end inside the text, after their start.
pub proof fn lemma_shorthand_advances(s: Seq<char>, p: int, shorthand: PropertyView)
    requires
        0 <= p <= s.len(),
    ensures
        shorthand_at(s, p, shorthand) matches Ok((_, n)) ==> p < n <= s.len(),
{
    lemma_lengths_advance(s, p, Seq::empty());
}

/// An entry of a rule's block that is read holds at least one character,
/// and ends inside the text.
pub proof fn lemma_entry_advances(s: Seq<char>, p: int)
    requires
        0 <= p <= s.len(),
    ensures
        entry_at(s, p) matches Ok((_, n)) ==> p < n <= s.len(),
{
    let (name, colon) = ident_at(s, p);
    let property = property_of(name);
    lemma_ident_advances(s, p);
    if char_at(s, colon) == Some(':') {
        if is_shorthand(property) {
            lemma_shorthand_advances(s, colon + 1, property);
        } else {
            lemma_declaration_advances(s, colon + 1, property);
        }
    }
}

/// The declarations of a rule from `p` on, after the declarations
/// `before`: entries up to the `}` that ends the block. The position after
/// is that after the `}`.
pub open spec fn block_at(s: Seq<char>, p: int, before: Seq<DeclarationView>) -> Parsed<
    Seq<DeclarationView>,
>
    decreases s.len() - p,
{
    let q = ws_end(s, p);
    match char_at(s, q) {
        None => Err(structural(s, q, Expected::Char('}'))),
        Some('}') => Ok((before, q + 1)),
        Some(_) => match entry_at(s, q) {
            Ok((declarations, n)) => {
                proof {
                    lemma_run_end_bounds(s, p, |c: char| is_white_space(c));
                    lemma_entry_advances(s, q);
                }
                block_at(s, n, before + declarations)
            },
            Err(e) => Err(e),
        },
    }
}

/// The rule at `p`: its group of selectors, and its block of declarations.
pub open spec fn rule_at(s: Seq<char>, p: int) -> Parsed<RuleView> {
    match selector_group_at(s, p, Seq::empty()) {
        Ok((selectors, n)) => match block_at(s, n, Seq::empty()) {
            Ok((declarations, m)) => Ok((RuleView { selectors, declarations }, m)),
            Err(e) => Err(e),
        },
        Err(e) => Err(e),
    }
}

/// A group of selectors ends inside the text, after its start.
pub proof fn lemma_selector_group_advances(s: Seq<char>, p: int, before: Seq<SelectorView>)
    requires
        0 <= p <= s.len(),
    ensures
        selector_group_at(s, p, before) matches Ok((_, n)) ==> p < n <= s.len(),
    decreases s.len() - p,
{
    let q = ws_end(s, p);
    lemma_run_end_bounds(s, p, |c: char| is_white_space(c));
    match char_at(s, q) {
        None => {},
        Some('{') => {},
        Some(_) => {
            lemma_selector_advances(s, q);
            match selector_item_at(s, q) {
                Ok((selector, n)) => {
                    lemma_selector_group_advances(s, n, before.push(selector));
                },
                Err(_) => {},
            }
        },
    }
}

/// A block of declarations ends inside the text, after its start.
pub proof fn lemma_block_advances(s: Seq<char>, p: int, before: Seq<DeclarationView>)
    requires
        0 <= p <= s.len(),
    ensures
        block_at(s, p, before) matches Ok((_, n)) ==> p < n <= s.len(),
    decreases s.len() - p,
{
    let q = ws_end(s, p);
    lemma_run_end_bounds(s, p, |c: char| is_white_space(c));
    match char_at(s, q) {
        None => {},
        Some('}') => {},
        Some(_) => {
            lemma_entry_advances(s, q);
            match entry_at(s, q) {
                Ok((declarations, n)) => {
                    lemma_block_advances(s, n, before + declarations);
                },
                Err(_) => {},
            }
        },
    }
}

/// A rule that is read holds at least one character, and ends inside the
/// text.
pub proof fn lemma_rule_advances(s: Seq<char>, p: int)
    requires
        0 <= p <= s.len(),
    ensures
        rule_at(s, p) matches Ok((_, n)) ==> p < n <= s.len(),
{
    lemma_selector_group_advances(s, p, Seq::empty());
    match selector_group_at(s, p, Seq::empty()) {
        Ok((_, n)) => {
            lemma_block_advances(s, n, Seq::empty());
        },
        Err(_) => {},
    }
}

/// The rules from `p` to the end of the text, after the rules `before`.
pub open spec fn rules_at(s: Seq<char>, p: int, before: Seq<RuleView>) -> Result<
    Seq<RuleView>,
    ParseError,
>
    decreases s.len() - p,
{
    let q = ws_end(s, p);
    match char_at(s, q) {
        None => Ok(before),
        Some(_) => match rule_at(s, q) {
            Ok((rule, n)) => {
                proof {
                    lemma_run_end_bounds(s, p, |c: char| is_white_space(c));
                    lemma_rule_advances(s, q);
                }
                rules_at(s, n, before.push(rule))
            },
            Err(e) => Err(e),
        },
    }
}

/// A shorthand stands for its four sides: where one to four lengths are
/// read for it, it gives four declarations, for top, right, bottom and
/// left in this order. One length is the length of all four sides; of two
/// the first is for top and bottom and the second for right and left; of
/// three the first is for the top, the second for right and left and the
/// third for the bottom; and four are for top, right, bottom and left.
pub proof fn lemma_shorthand_gives_four_sides(
    s: Seq<char>,
    p: int,
    shorthand: PropertyView,
    lengths: Seq<LengthView>,
    end: int,
)
    requires
        is_shorthand(shorthand),
        lengths_at(s, p, Seq::empty()) == Ok::<(Seq<LengthView>, int), ParseError>((lengths, end)),
        1 <= lengths.len() <= 4,
    ensures
        shorthand_at(s, p, shorthand) == Ok::<(Seq<DeclarationView>, int), ParseError>(
            (expand_shorthand(shorthand, lengths), end + 1),
        ),
        expand_shorthand(shorthand, lengths).len() == 4,
        expand_shorthand(shorthand, lengths)[0].property == side_properties(shorthand).0,
        expand_shorthand(shorthand, lengths)[1].property == side_properties(shorthand).1,
        expand_shorthand(shorthand, lengths)[2].property == side_properties(shorthand).2,
        expand_shorthand(shorthand, lengths)[3].property == side_properties(shorthand).3,
        expand_shorthand(shorthand, lengths)[0].value == ValueView::Length(lengths[0]),
        expand_shorthand(shorthand, lengths)[1].value == ValueView::Length(
            if lengths.len() >= 2 {
                lengths[1]
            } else {
                lengths[0]
            },
        ),
        expand_shorthand(shorthand, lengths)[2].value == ValueView::Length(
            if lengths.len() >= 3 {
                lengths[2]
            } else {
                lengths[0]
            },
        ),
        expand_shorthand(shorthand, lengths)[3].value == ValueView::Length(
            if lengths.len() == 4 {
                lengths[3]
            } else if lengths.len() >= 2 {
                lengths[1]
            } else {
                lengths[0]
            },
        ),
{
}

} // verus!
