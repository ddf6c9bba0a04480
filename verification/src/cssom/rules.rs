//! What holds of every rule that is written out: it is read again as the
//! rule that it is.

use vstd::prelude::*;
use crate::cssom::Color;
use crate::cssom::DeclarationView;
use crate::cssom::Display;
use crate::cssom::LengthView;
use crate::cssom::PropertyView;
use crate::cssom::RuleView;
use crate::cssom::SelectorView;
use crate::cssom::Unit;
use crate::cssom::ValueView;
use crate::cssom::format::color_text;
use crate::cssom::format::declaration_lines_text;
use crate::cssom::format::declaration_text;
use crate::cssom::format::display_text;
use crate::cssom::format::hex_char;
use crate::cssom::format::hex_pair;
use crate::cssom::format::length_text;
use crate::cssom::format::property_text;
use crate::cssom::format::rule_text;
use crate::cssom::format::rules_text;
use crate::cssom::format::selector_list_text;
use crate::cssom::format::selector_text;
use crate::cssom::format::unit_text;
use crate::cssom::format::value_text;
use crate::cssom::grammar::actual_length_at;
use crate::cssom::grammar::block_at;
use crate::cssom::grammar::color_at;
use crate::cssom::grammar::declaration_at;
use crate::cssom::grammar::display_of;
use crate::cssom::grammar::entry_at;
use crate::cssom::grammar::hex_at;
use crate::cssom::grammar::hex_digit_value;
use crate::cssom::grammar::hex_number;
use crate::cssom::grammar::hex_value;
use crate::cssom::grammar::is_shorthand;
use crate::cssom::grammar::length_at;
use crate::cssom::grammar::number_at;
use crate::cssom::grammar::property_of;
use crate::cssom::grammar::rule_at;
use crate::cssom::grammar::rules_at;
use crate::cssom::grammar::selector_group_at;
use crate::cssom::grammar::selector_item_at;
use crate::cssom::grammar::takes_color;
use crate::cssom::grammar::takes_length;
use crate::cssom::grammar::unit_of;
use crate::cssom::is_number_literal;
use crate::cssom::normal_number;
use crate::cssom::selectors::is_name;
use crate::cssom::selectors::is_readable;
use crate::cssom::selectors::lemma_name_is_read;
use crate::cssom::selectors::lemma_selector_is_read_as_written;
use crate::cssom::selectors::lemma_selector_text_starts;
use crate::cssom::selectors::lemma_stands_apart;
use crate::cssom::selectors::lemma_stands_char;
use crate::cssom::selectors::lemma_ws_stays;
use crate::cssom::selectors::stands_at;
use crate::error::ParseError;
use crate::text::ident_at;
use crate::text::is_hex_digit;
use crate::text::is_ident_char;
use crate::text::is_number_char;
use crate::text::is_white_space;
use crate::text::lemma_bounded_run_end_is;
use crate::text::lemma_run_end_is;
use crate::text::lemma_ws_end;
use crate::text::number_end;
use crate::text::ws_end;

verus! {

/// Whether a property is read as it is written: it stands for no others,
/// its text is a name, and the property that this name stands for is the
/// property itself.
pub open spec fn property_is_readable(property: PropertyView) -> bool {
    !is_shorthand(property) && is_name(property_text(property)) && property_of(
        property_text(property),
    ) == property
}

/// Every property of the table that stands for no others is read as it
/// is written.
pub proof fn lemma_known_properties_are_readable(property: PropertyView)
    requires
        !(property is Other),
        !is_shorthand(property),
    ensures
        property_is_readable(property),
{
    reveal_strlit("margin");
    reveal_strlit("margin-left");
    reveal_strlit("margin-right");
    reveal_strlit("margin-top");
    reveal_strlit("margin-bottom");
    reveal_strlit("padding");
    reveal_strlit("padding-left");
    reveal_strlit("padding-right");
    reveal_strlit("padding-top");
    reveal_strlit("padding-bottom");
    reveal_strlit("width");
    reveal_strlit("height");
    reveal_strlit("display");
    reveal_strlit("color");
    reveal_strlit("background-color");
    reveal_strlit("border-radius");
    assert("margin"@.len() == 6 && "margin"@[0] == 'm');
    assert("margin-left"@.len() == 11 && "margin-left"@[0] == 'm');
    assert("margin-right"@.len() == 12 && "margin-right"@[0] == 'm');
    assert("margin-top"@.len() == 10 && "margin-top"@[0] == 'm');
    assert("margin-bottom"@.len() == 13 && "margin-bottom"@[0] == 'm');
    assert("padding"@.len() == 7 && "padding"@[0] == 'p');
    assert("padding-left"@.len() == 12 && "padding-left"@[0] == 'p');
    assert("padding-right"@.len() == 13 && "padding-right"@[0] == 'p');
    assert("padding-top"@.len() == 11 && "padding-top"@[0] == 'p');
    assert("padding-bottom"@.len() == 14 && "padding-bottom"@[0] == 'p');
    assert("width"@.len() == 5 && "width"@[0] == 'w');
    assert("height"@.len() == 6 && "height"@[0] == 'h');
    assert("display"@.len() == 7 && "display"@[0] == 'd');
    assert("color"@.len() == 5 && "color"@[0] == 'c');
    assert("background-color"@.len() == 16 && "background-color"@[0] == 'b');
    assert("border-radius"@.len() == 13 && "border-radius"@[0] == 'b');
}

/// Whether a length is read as it is written: its number is in its
/// shortest form, and its unit is one of those that are read.
pub open spec fn length_is_readable(length: LengthView) -> bool {
    match length {
        LengthView::Auto => true,
        LengthView::Actual(number, unit) => is_number_literal(number) && normal_number(number)
            == number && (unit == Unit::Px || unit == Unit::Em),
    }
}

/// Whether a colour is read as it is written: each of its channels is
/// written by two hexadecimal digits.
pub open spec fn color_is_readable(color: Color) -> bool {
    color.r < 256 && color.g < 256 && color.b < 256 && color.a < 256
}

/// Whether a declaration is read as it is written: its property is, and
/// its value is of the kind that the property takes and is read as it is
/// written. The value of a property that is not known has to be a name.
pub open spec fn declaration_is_readable(declaration: DeclarationView) -> bool {
    &&& property_is_readable(declaration.property)
    &&& if takes_length(declaration.property) {
        declaration.value matches ValueView::Length(length) && length_is_readable(length)
    } else if takes_color(declaration.property) {
        declaration.value matches ValueView::Color(color) && color_is_readable(color)
    } else if declaration.property is Display {
        declaration.value is Display
    } else {
        declaration.value matches ValueView::Other(text) && is_name(text)
    }
}

/// One space is skipped before a character that is no whitespace.
proof fn lemma_one_space(s: Seq<char>, p: int)
    requires
        0 <= p,
        p + 1 <= s.len(),
        s[p] == ' ',
        p + 1 < s.len() ==> !is_white_space(s[p + 1]),
    ensures
        ws_end(s, p) == p + 1,
        ws_end(s, p + 1) == p + 1,
{
    lemma_run_end_is(s, p, p + 1, |c: char| is_white_space(c));
    lemma_ws_stays(s, p + 1);
}

/// A name after one space, with a character after it that belongs to no
/// identifier and is no whitespace, is the identifier that is read from
/// the space on, and the reading ends right after the name.
proof fn lemma_word_is_read(s: Seq<char>, p: int, word: Seq<char>)
    requires
        0 <= p,
        p + 1 + word.len() < s.len(),
        s[p] == ' ',
        is_name(word),
        stands_at(s, p + 1, word),
        !is_ident_char(s[p + 1 + word.len()]),
        !is_white_space(s[p + 1 + word.len()]),
    ensures
        ident_at(s, p) == (word, p + 1 + word.len()),
{
    lemma_stands_char(s, p + 1, word, 0);
    lemma_one_space(s, p);
    lemma_name_is_read(s, p + 1, word);
    lemma_ws_stays(s, p + 1 + word.len());
}

/// Every layout is read from its keyword, which is a name.
pub proof fn lemma_display_is_readable(display: Display)
    ensures
        is_name(display_text(display)),
        display_of(display_text(display)) == display,
{
    reveal_strlit("none");
    reveal_strlit("block");
    reveal_strlit("inline");
    reveal_strlit("inline-block");
    reveal_strlit("flex");
    assert("none"@[0] == 'n' && "flex"@[0] == 'f');
    assert("none"@.len() == 4 && "block"@.len() == 5 && "inline"@.len() == 6);
    assert("inline-block"@.len() == 12 && "flex"@.len() == 4);
}

/// The two units that are read are read from their names.
pub proof fn lemma_unit_is_readable(unit: Unit)
    requires
        unit == Unit::Px || unit == Unit::Em,
    ensures
        is_name(unit_text(unit)),
        unit_text(unit).len() == 2,
        !is_number_char(unit_text(unit)[0]),
        unit_of(unit_text(unit)) == unit,
{
    reveal_strlit("px");
    reveal_strlit("em");
    assert("px"@[0] == 'p' && "em"@[0] == 'e');
}

/// The two digits of a number below 256 are hexadecimal digits that write
/// the number.
pub proof fn lemma_hex_pair_is_read(n: nat)
    requires
        n < 256,
    ensures
        hex_pair(n).len() == 2,
        is_hex_digit(hex_pair(n)[0]),
        is_hex_digit(hex_pair(n)[1]),
        hex_number(hex_pair(n)) == n,
{
    let pair = hex_pair(n);
    let high = n / 16 % 16;
    let low = n % 16;
    assert(high == n / 16);
    assert(hex_digit_value(hex_char(high)) == high);
    assert(hex_digit_value(hex_char(low)) == low);
    assert(pair.drop_last() =~= seq![hex_char(high)]);
    assert(pair.drop_last().drop_last() =~= Seq::<char>::empty());
    reveal_with_fuel(hex_value, 3);
    assert(hex_value(pair) == high * 16 + low);
}

/// A length is read as it is written: where its text stands after one
/// space and before a `;`, the length that is read from the space on is
/// that length, and the reading ends at the `;`.
proof fn lemma_length_is_read(s: Seq<char>, p: int, length: LengthView)
    requires
        length_is_readable(length),
        0 <= p,
        p + 1 + length_text(length).len() < s.len(),
        s[p] == ' ',
        stands_at(s, p + 1, length_text(length)),
        s[p + 1 + length_text(length).len()] == ';',
    ensures
        length_at(s, p) == Ok::<(LengthView, int), ParseError>(
            (length, p + 1 + length_text(length).len()),
        ),
{
    let t = length_text(length);
    let e = p + 1 + t.len();
    match length {
        LengthView::Auto => {
            reveal_strlit("auto");
            assert(t[0] == 'a' && is_name(t));
            lemma_stands_char(s, p + 1, t, 0);
            lemma_one_space(s, p);
            lemma_ws_stays(s, e);
            lemma_word_is_read(s, p, t);
        },
        LengthView::Actual(number, unit) => {
            let name = unit_text(unit);
            let m = p + 1 + number.len();
            lemma_unit_is_readable(unit);
            lemma_stands_apart(s, p + 1, number, name);
            lemma_stands_char(s, p + 1, number, 0);
            lemma_stands_char(s, m, name, 0);
            lemma_one_space(s, p);
            assert forall|i: int| p + 1 <= i < m implies is_number_char(#[trigger] s[i]) by {
                lemma_stands_char(s, p + 1, number, i - (p + 1));
            }
            lemma_run_end_is(s, p + 1, m, |c: char| is_number_char(c));
            assert(number_end(s, p + 1) == m);
            lemma_ws_stays(s, m);
            assert(number_at(s, p) == Ok::<(Seq<char>, int), ParseError>((number, m)));
            lemma_name_is_read(s, m, name);
            lemma_ws_stays(s, e);
            assert(ident_at(s, m) == (name, e));
            assert(actual_length_at(s, p) == Ok::<(LengthView, int), ParseError>((length, e)));
        },
    }
}

/// Two hexadecimal digits that stand at `p`, with no whitespace after
/// them, are read as the number that they write.
proof fn lemma_pair_is_read(s: Seq<char>, p: int, n: nat)
    requires
        n < 256,
        stands_at(s, p, hex_pair(n)),
        p + 2 < s.len(),
        !is_white_space(s[p + 2]),
    ensures
        hex_at(s, p, 2) == (n as int, p + 2),
{
    lemma_hex_pair_is_read(n);
    lemma_stands_char(s, p, hex_pair(n), 0);
    lemma_stands_char(s, p, hex_pair(n), 1);
    lemma_ws_stays(s, p);
    lemma_bounded_run_end_is(s, p, p + 2, |c: char| is_hex_digit(c), 2);
    lemma_ws_stays(s, p + 2);
}

/// A colour is read as it is written: where its text stands after one
/// space and before a `;`, the colour that is read from the space on is
/// that colour, and the reading ends at the `;`.
proof fn lemma_color_is_read(s: Seq<char>, p: int, color: Color)
    requires
        color_is_readable(color),
        0 <= p,
        p + 1 + color_text(color).len() < s.len(),
        s[p] == ' ',
        stands_at(s, p + 1, color_text(color)),
        s[p + 1 + color_text(color).len()] == ';',
    ensures
        color_at(s, p) == Ok::<(Color, int), ParseError>((color, p + 1 + color_text(color).len())),
{
    reveal_strlit("#");
    let t = color_text(color);
    let r = hex_pair(color.r as nat);
    let g = hex_pair(color.g as nat);
    let b = hex_pair(color.b as nat);
    let a = hex_pair(color.a as nat);
    lemma_hex_pair_is_read(color.r as nat);
    lemma_hex_pair_is_read(color.g as nat);
    lemma_hex_pair_is_read(color.b as nat);
    lemma_hex_pair_is_read(color.a as nat);
    assert(t == ((("#"@ + r) + g) + b) + a);
    lemma_stands_apart(s, p + 1, (("#"@ + r) + g) + b, a);
    lemma_stands_apart(s, p + 1, ("#"@ + r) + g, b);
    lemma_stands_apart(s, p + 1, "#"@ + r, g);
    lemma_stands_apart(s, p + 1, "#"@, r);
    lemma_stands_char(s, p + 1, "#"@, 0);
    lemma_stands_char(s, p + 4, g, 0);
    lemma_stands_char(s, p + 6, b, 0);
    lemma_stands_char(s, p + 8, a, 0);
    lemma_one_space(s, p);
    lemma_pair_is_read(s, p + 2, color.r as nat);
    lemma_pair_is_read(s, p + 4, color.g as nat);
    lemma_pair_is_read(s, p + 6, color.b as nat);
    lemma_pair_is_read(s, p + 8, color.a as nat);
}

/// A declaration is read as it is written, from its colon on: where the
/// text of its value stands after one space, and a `;` after it, the
/// declaration of its property that is read from the space on is that
/// declaration, and the reading ends after the `;`.
proof fn lemma_value_is_read(s: Seq<char>, p: int, declaration: DeclarationView)
    requires
        declaration_is_readable(declaration),
        0 <= p,
        p + 1 + value_text(declaration.value).len() < s.len(),
        s[p] == ' ',
        stands_at(s, p + 1, value_text(declaration.value)),
        s[p + 1 + value_text(declaration.value).len()] == ';',
    ensures
        declaration_at(s, p, declaration.property) == Ok::<(DeclarationView, int), ParseError>(
            (declaration, p + 1 + value_text(declaration.value).len() + 1),
        ),
{
    let e = p + 1 + value_text(declaration.value).len();
    lemma_ws_stays(s, e);
    match declaration.value {
        ValueView::Length(length) => {
            lemma_length_is_read(s, p, length);
        },
        ValueView::Color(color) => {
            lemma_color_is_read(s, p, color);
        },
        ValueView::Display(display) => {
            lemma_display_is_readable(display);
            lemma_word_is_read(s, p, display_text(display));
        },
        ValueView::Other(text) => {
            lemma_word_is_read(s, p, text);
        },
    }
}

/// A declaration is read as it is written: where its text stands at `p`,
/// the entry that is read at `p` is that one declaration, and the reading
/// ends where the text ends.
pub proof fn lemma_declaration_is_read_as_written(
    s: Seq<char>,
    p: int,
    declaration: DeclarationView,
)
    requires
        declaration_is_readable(declaration),
        stands_at(s, p, declaration_text(declaration)),
    ensures
        entry_at(s, p) == Ok::<(Seq<DeclarationView>, int), ParseError>(
            (seq![declaration], p + declaration_text(declaration).len()),
        ),
{
    reveal_strlit(": ");
    reveal_strlit(";");
    let name = property_text(declaration.property);
    let value = value_text(declaration.value);
    let t = declaration_text(declaration);
    assert(t == ((name + ": "@) + value) + ";"@);
    lemma_stands_apart(s, p, (name + ": "@) + value, ";"@);
    lemma_stands_apart(s, p, name + ": "@, value);
    lemma_stands_apart(s, p, name, ": "@);
    let colon = p + name.len();
    lemma_stands_char(s, colon, ": "@, 0);
    lemma_stands_char(s, colon, ": "@, 1);
    lemma_stands_char(s, colon + 2 + value.len(), ";"@, 0);
    lemma_name_is_read(s, p, name);
    lemma_ws_stays(s, colon);
    lemma_value_is_read(s, colon + 1, declaration);
}

/// Whether a rule is read as it is written: each of its selectors and
/// each of its declarations is.
pub open spec fn rule_is_readable(rule: RuleView) -> bool {
    &&& forall|i: int| 0 <= i < rule.selectors.len() ==> is_readable(#[trigger] rule.selectors[i])
    &&& forall|i: int|
        0 <= i < rule.declarations.len() ==> declaration_is_readable(
            #[trigger] rule.declarations[i],
        )
}

/// What is read of a block does not depend on the whitespace before it.
proof fn lemma_block_skips(s: Seq<char>, p: int, before: Seq<DeclarationView>)
    requires
        0 <= p <= s.len(),
    ensures
        block_at(s, p, before) == block_at(s, ws_end(s, p), before),
{
    lemma_ws_end(s, p);
}

/// What is read of a block is the same one whitespace character further
/// on.
proof fn lemma_block_steps(s: Seq<char>, p: int, before: Seq<DeclarationView>)
    requires
        0 <= p < s.len(),
        is_white_space(s[p]),
    ensures
        block_at(s, p, before) == block_at(s, p + 1, before),
{
    lemma_block_skips(s, p, before);
    lemma_block_skips(s, p + 1, before);
}

/// The lines of a block are read as they are written: where the first `n`
/// declarations stand at `p`, each on its line, the block that is read
/// from `p` on is what is read after them with these declarations added.
proof fn lemma_lines_are_read(
    s: Seq<char>,
    p: int,
    declarations: Seq<DeclarationView>,
    n: int,
    before: Seq<DeclarationView>,
)
    requires
        0 <= n <= declarations.len(),
        forall|i: int| 0 <= i < n ==> declaration_is_readable(#[trigger] declarations[i]),
        stands_at(s, p, declaration_lines_text(declarations, n)),
    ensures
        block_at(s, p, before) == block_at(
            s,
            p + declaration_lines_text(declarations, n).len(),
            before + declarations.subrange(0, n),
        ),
    decreases n,
{
    if n == 0 {
        assert(before + declarations.subrange(0, 0) =~= before);
    } else {
        reveal_strlit("\t");
        reveal_strlit("\n");
        reveal_strlit(": ");
        let earlier = declaration_lines_text(declarations, n - 1);
        let declaration = declarations[n - 1];
        let line = declaration_text(declaration);
        let name = property_text(declaration.property);
        assert(declaration_lines_text(declarations, n) == ((earlier + "\t"@) + line) + "\n"@);
        lemma_stands_apart(s, p, (earlier + "\t"@) + line, "\n"@);
        lemma_stands_apart(s, p, earlier + "\t"@, line);
        lemma_stands_apart(s, p, earlier, "\t"@);
        lemma_lines_are_read(s, p, declarations, n - 1, before);
        let tab = p + earlier.len();
        let gathered = before + declarations.subrange(0, n - 1);
        lemma_stands_char(s, tab, "\t"@, 0);
        lemma_stands_char(s, tab + 1 + line.len(), "\n"@, 0);
        assert(line =~= name + (": "@ + value_text(declaration.value) + ";"@));
        assert(line[0] == name[0]);
        lemma_stands_char(s, tab + 1, line, 0);
        lemma_block_steps(s, tab, gathered);
        lemma_ws_stays(s, tab + 1);
        lemma_declaration_is_read_as_written(s, tab + 1, declaration);
        lemma_block_steps(s, tab + 1 + line.len(), gathered + seq![declaration]);
        assert(gathered + seq![declaration] =~= before + declarations.subrange(0, n));
    }
}

/// Whether the group of selectors goes on or ends after the text that
/// ends at `e`: a comma stands there, or a space and the `{` of the block.
pub open spec fn group_goes_on(s: Seq<char>, e: int) -> bool {
    &&& 0 <= e < s.len()
    &&& s[e] == ',' || (s[e] == ' ' && e + 1 < s.len() && s[e + 1] == '{')
}

/// A selector of a group is read as it is written: where its text stands
/// at `p`, the group that is read from `p` on is what is read after the
/// selector and the character behind it, with the selector added.
proof fn lemma_item_is_read(
    s: Seq<char>,
    p: int,
    selector: SelectorView,
    before: Seq<SelectorView>,
)
    requires
        is_readable(selector),
        stands_at(s, p, selector_text(selector)),
        group_goes_on(s, p + selector_text(selector).len()),
    ensures
        selector_group_at(s, p, before) == selector_group_at(
            s,
            p + selector_text(selector).len() + 1,
            before.push(selector),
        ),
{
    let t = selector_text(selector);
    let e = p + t.len();
    lemma_selector_text_starts(selector);
    lemma_stands_char(s, p, t, 0);
    lemma_ws_stays(s, p);
    if s[e] == ',' {
        lemma_ws_stays(s, e);
    } else {
        lemma_one_space(s, e);
    }
    lemma_selector_is_read_as_written(s, p, selector);
    assert(selector_item_at(s, p) == Ok::<(SelectorView, int), ParseError>((selector, e + 1)));
}

/// A group of selectors is read as it is written: where the first `n`
/// selectors stand at `p`, with a comma and a space between them, the
/// group that is read from `p` on is what is read after them and the
/// character behind them, with these selectors added.
proof fn lemma_list_is_read(
    s: Seq<char>,
    p: int,
    selectors: Seq<SelectorView>,
    n: int,
    before: Seq<SelectorView>,
)
    requires
        1 <= n <= selectors.len(),
        forall|i: int| 0 <= i < n ==> is_readable(#[trigger] selectors[i]),
        stands_at(s, p, selector_list_text(selectors, n)),
        group_goes_on(s, p + selector_list_text(selectors, n).len()),
    ensures
        selector_group_at(s, p, before) == selector_group_at(
            s,
            p + selector_list_text(selectors, n).len() + 1,
            before + selectors.subrange(0, n),
        ),
    decreases n,
{
    if n == 1 {
        lemma_item_is_read(s, p, selectors[0], before);
        assert(before.push(selectors[0]) =~= before + selectors.subrange(0, 1));
    } else {
        reveal_strlit(", ");
        let earlier = selector_list_text(selectors, n - 1);
        let selector = selectors[n - 1];
        let t = selector_text(selector);
        assert(selector_list_text(selectors, n) == (earlier + ", "@) + t);
        lemma_stands_apart(s, p, earlier + ", "@, t);
        lemma_stands_apart(s, p, earlier, ", "@);
        let comma = p + earlier.len();
        lemma_stands_char(s, comma, ", "@, 0);
        lemma_stands_char(s, comma, ", "@, 1);
        lemma_list_is_read(s, p, selectors, n - 1, before);
        let gathered = before + selectors.subrange(0, n - 1);
        lemma_selector_text_starts(selector);
        lemma_stands_char(s, comma + 2, t, 0);
        lemma_one_space(s, comma + 1);
        assert(selector_group_at(s, comma + 1, gathered) == selector_group_at(
            s,
            comma + 2,
            gathered,
        ));
        lemma_item_is_read(s, comma + 2, selector, gathered);
        assert(gathered.push(selector) =~= before + selectors.subrange(0, n));
    }
}

/// A rule is read as it is written. Where the text of a rule that is
/// read as it is written stands at `p`, the rule that is read at `p` is
/// that rule, and the reading ends where the text ends.
pub proof fn lemma_rule_is_read_as_written(s: Seq<char>, p: int, rule: RuleView)
    requires
        rule_is_readable(rule),
        stands_at(s, p, rule_text(rule)),
    ensures
        rule_at(s, p) == Ok::<(RuleView, int), ParseError>((rule, p + rule_text(rule).len())),
{
    reveal_strlit(" {\n");
    reveal_strlit("}");
    let n = rule.selectors.len() as int;
    let m = rule.declarations.len() as int;
    let list = selector_list_text(rule.selectors, n);
    let lines = declaration_lines_text(rule.declarations, m);
    assert(rule_text(rule) == ((list + " {\n"@) + lines) + "}"@);
    lemma_stands_apart(s, p, (list + " {\n"@) + lines, "}"@);
    lemma_stands_apart(s, p, list + " {\n"@, lines);
    lemma_stands_apart(s, p, list, " {\n"@);
    let e = p + list.len();
    lemma_stands_char(s, e, " {\n"@, 0);
    lemma_stands_char(s, e, " {\n"@, 1);
    lemma_stands_char(s, e, " {\n"@, 2);
    lemma_stands_char(s, e + 3 + lines.len(), "}"@, 0);
    let none = Seq::<SelectorView>::empty();
    if n == 0 {
        lemma_one_space(s, p);
        assert(rule.selectors =~= none);
    } else {
        lemma_list_is_read(s, p, rule.selectors, n, none);
        assert(none + rule.selectors.subrange(0, n) =~= rule.selectors);
        lemma_ws_stays(s, e + 1);
    }
    assert(selector_group_at(s, p, none) == Ok::<(Seq<SelectorView>, int), ParseError>(
        (rule.selectors, e + 2),
    ));
    let nothing = Seq::<DeclarationView>::empty();
    lemma_block_steps(s, e + 2, nothing);
    lemma_lines_are_read(s, e + 3, rule.declarations, m, nothing);
    assert(nothing + rule.declarations.subrange(0, m) =~= rule.declarations);
    lemma_ws_stays(s, e + 3 + lines.len());
}

/// What is read of a stylesheet is the same one whitespace character
/// further on.
proof fn lemma_rules_step(s: Seq<char>, p: int, before: Seq<RuleView>)
    requires
        0 <= p < s.len(),
        is_white_space(s[p]),
    ensures
        rules_at(s, p, before) == rules_at(s, p + 1, before),
{
    lemma_ws_end(s, p);
    lemma_ws_end(s, p + 1);
    let q = ws_end(s, p);
    assert(rules_at(s, p, before) == rules_at(s, q, before));
    assert(rules_at(s, p + 1, before) == rules_at(s, q, before));
}

/// A rule of a stylesheet is read as it is written: where its text
/// stands at `p`, the stylesheet that is read from `p` on is what is read
/// after the rule, with the rule added.
proof fn lemma_rule_of_sheet_is_read(s: Seq<char>, p: int, rule: RuleView, before: Seq<RuleView>)
    requires
        rule_is_readable(rule),
        stands_at(s, p, rule_text(rule)),
    ensures
        rule_text(rule).len() > 0,
        rules_at(s, p, before) == rules_at(s, p + rule_text(rule).len(), before.push(rule)),
{
    reveal_strlit(" {\n");
    reveal_strlit("}");
    let t = rule_text(rule);
    let n = rule.selectors.len() as int;
    let list = selector_list_text(rule.selectors, n);
    lemma_rule_is_read_as_written(s, p, rule);
    assert(t[0] == (list + " {\n"@)[0]);
    lemma_stands_char(s, p, t, 0);
    let q = ws_end(s, p);
    if n == 0 {
        assert(t[1] == (list + " {\n"@)[1]);
        lemma_stands_char(s, p, t, 1);
        lemma_one_space(s, p);
        assert(selector_group_at(s, p + 1, Seq::empty()) == selector_group_at(
            s,
            p,
            Seq::empty(),
        ));
        assert(rule_at(s, p + 1) == rule_at(s, p));
    } else {
        lemma_list_text_starts(rule.selectors, n);
        lemma_ws_stays(s, p);
    }
    assert(rule_at(s, q) == Ok::<(RuleView, int), ParseError>((rule, p + t.len())));
}

/// Whether the first `n` of `rules` are read as they are written.
pub open spec fn rules_are_readable(rules: Seq<RuleView>, n: int) -> bool {
    forall|i: int| 0 <= i < n ==> rule_is_readable(#[trigger] rules[i])
}

/// The text of a rule is not empty.
proof fn lemma_rule_text_is_not_empty(rule: RuleView)
    ensures
        rule_text(rule).len() > 0,
{
    reveal_strlit("}");
}

/// The text of the first `n` rules is that of the first, and behind it
/// the text of each further rule after an empty line.
proof fn lemma_rules_text_grows(rules: Seq<RuleView>, n: int)
    requires
        1 <= n,
    ensures
        rules_text(rules, n).len() > 0,
        n == 1 ==> rules_text(rules, n) == rule_text(rules[0]),
        n > 1 ==> rules_text(rules, n) == (rules_text(rules, n - 1) + "\n\n"@) + rule_text(
            rules[n - 1],
        ),
    decreases n,
{
    lemma_rule_text_is_not_empty(rules[n - 1]);
    if n > 1 {
        lemma_rules_text_grows(rules, n - 1);
    } else {
        assert(rules_text(rules, 0).len() == 0);
    }
}

/// Where an empty line stands at `p`, what is read of a stylesheet is the
/// same behind it.
proof fn lemma_rules_skip_a_line(s: Seq<char>, p: int, before: Seq<RuleView>)
    requires
        stands_at(s, p, "\n\n"@),
    ensures
        rules_at(s, p, before) == rules_at(s, p + 2, before),
{
    reveal_strlit("\n\n");
    lemma_stands_char(s, p, "\n\n"@, 0);
    lemma_stands_char(s, p, "\n\n"@, 1);
    lemma_rules_step(s, p, before);
    lemma_rules_step(s, p + 1, before);
}

/// The rules of a stylesheet are read as they are written: where the
/// text of the first `n` rules stands at `p`, the stylesheet that is read
/// from `p` on is what is read after them, with these rules added.
proof fn lemma_rules_are_read(
    s: Seq<char>,
    p: int,
    rules: Seq<RuleView>,
    n: int,
    before: Seq<RuleView>,
)
    requires
        0 <= n <= rules.len(),
        rules_are_readable(rules, n),
        stands_at(s, p, rules_text(rules, n)),
    ensures
        rules_at(s, p, before) == rules_at(
            s,
            p + rules_text(rules, n).len(),
            before + rules.subrange(0, n),
        ),
    decreases n,
{
    if n == 0 {
        assert(before + rules.subrange(0, 0) =~= before);
    } else if n == 1 {
        lemma_rules_text_grows(rules, 1);
        assert(rule_is_readable(rules[0]));
        lemma_rule_of_sheet_is_read(s, p, rules[0], before);
        assert(before.push(rules[0]) =~= before + rules.subrange(0, 1));
    } else {
        let earlier = rules_text(rules, n - 1);
        let rule = rules[n - 1];
        let gap = p + earlier.len();
        let gathered = before + rules.subrange(0, n - 1);
        lemma_rules_text_grows(rules, n);
        lemma_stands_apart(s, p, earlier + "\n\n"@, rule_text(rule));
        lemma_stands_apart(s, p, earlier, "\n\n"@);
        lemma_rules_are_read(s, p, rules, n - 1, before);
        lemma_rules_skip_a_line(s, gap, gathered);
        assert(rule_is_readable(rule));
        assert(("\n\n"@).len() == 2) by {
            reveal_strlit("\n\n");
        }
        lemma_rule_of_sheet_is_read(s, gap + 2, rule, gathered);
        assert(gathered.push(rule) =~= before + rules.subrange(0, n));
    }
}

/// What is written is read again. The text of a stylesheet whose rules
/// are read as they are written, read as a stylesheet, gives these rules
/// in their order.
pub proof fn lemma_written_stylesheet_is_read(rules: Seq<RuleView>)
    requires
        rules_are_readable(rules, rules.len() as int),
    ensures
        rules_at(rules_text(rules, rules.len() as int), 0, Seq::empty()) == Ok::<
            Seq<RuleView>,
            ParseError,
        >(rules),
{
    let n = rules.len() as int;
    let t = rules_text(rules, n);
    let none = Seq::<RuleView>::empty();
    assert(t.subrange(0, t.len() as int) =~= t);
    lemma_rules_are_read(t, 0, rules, n, none);
    assert(none + rules.subrange(0, n) =~= rules);
    lemma_ws_stays(t, t.len() as int);
}

/// What is written is read again: the text of a rule that is read as it
/// is written, read as a stylesheet, gives that one rule.
pub proof fn lemma_written_rule_is_read(rule: RuleView)
    requires
        rule_is_readable(rule),
    ensures
        rules_at(rule_text(rule), 0, Seq::empty()) == Ok::<Seq<RuleView>, ParseError>(seq![rule]),
{
    let rules = seq![rule];
    assert(rules_text(rules, 0) =~= Seq::<char>::empty());
    assert(rules_text(rules, 1) == rule_text(rule));
    lemma_written_stylesheet_is_read(rules);
}

/// The text of a group of selectors starts as the text of its first
/// selector does.
proof fn lemma_list_text_starts(selectors: Seq<SelectorView>, n: int)
    requires
        1 <= n <= selectors.len(),
        is_readable(selectors[0]),
    ensures
        selector_list_text(selectors, n).len() > 0,
        selector_list_text(selectors, n)[0] == selector_text(selectors[0])[0],
        !is_white_space(selector_list_text(selectors, n)[0]),
    decreases n,
{
    lemma_selector_text_starts(selectors[0]);
    if n > 1 {
        lemma_list_text_starts(selectors, n - 1);
    }
}

} // verus!
